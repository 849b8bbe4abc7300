use retrun::correctness::Correctness::{Correct, Misplaced, Wrong};
use retrun::{enumerate_mask, Correctness, Guess, Word, MAX_MASK_ENUM};

fn word(text: &str) -> Word {
    Word::new(text).unwrap()
}

#[test]
fn word_takes_five_lowercase_letters() {
    assert_eq!(word("arose").letters(), [97, 114, 111, 115, 101]);
    assert_eq!(word("arose").letter(4), 101);
    assert!(Word::new("Arose").is_none());
    assert!(Word::new("aros").is_none());
    assert!(Word::new("aroses").is_none());
    assert!(Word::new("ar se").is_none());
    assert!(Word::new("-----").is_none());
    assert!(Word::new("").is_none());
    assert!(Word::new("aros\u{e9}").is_none());
    assert!(Word::from_letters([97, 98, 99, 100, 123]).is_none());
    assert_eq!(Word::from_letters([97, 98, 99, 100, 122]), Some(word("abcdz")));
    assert_eq!(Word::from_bytes(&[122, 122, 122, 122, 122]), Some(word("zzzzz")));
    assert!(Word::from_bytes(&[96, 122, 122, 122, 122]).is_none());
}

#[test]
fn words_compare_by_letters() {
    assert_eq!(word("arose"), word("arose"));
    assert_ne!(word("arose"), word("arosa"));
    assert_ne!(word("arose"), word("brose"));
}

#[test]
fn compute_marks_letters_in_place() {
    assert_eq!(Correctness::compute(&word("abcde"), &word("abcde")), [Correct; 5]);
    assert_eq!(Correctness::compute(&word("abcde"), &word("fghij")), [Wrong; 5]);
    assert_eq!(
        Correctness::compute(&word("abcde"), &word("abxyz")),
        [Correct, Correct, Wrong, Wrong, Wrong]
    );
}

#[test]
fn compute_marks_letters_out_of_place() {
    assert_eq!(Correctness::compute(&word("abcde"), &word("eabcd")), [Misplaced; 5]);
    assert_eq!(
        Correctness::compute(&word("arose"), &word("amend")),
        [Correct, Wrong, Misplaced, Wrong, Wrong]
    );
}

#[test]
fn compute_credits_a_repeated_letter_once_for_each_copy_left() {
    assert_eq!(
        Correctness::compute(&word("algae"), &word("equal")),
        [Misplaced, Wrong, Wrong, Correct, Misplaced]
    );
    assert_eq!(
        Correctness::compute(&word("abide"), &word("speed")),
        [Wrong, Wrong, Misplaced, Wrong, Misplaced]
    );
    assert_eq!(
        Correctness::compute(&word("steal"), &word("speed")),
        [Correct, Wrong, Correct, Wrong, Wrong]
    );
    assert_eq!(
        Correctness::compute(&word("azzaz"), &word("aaabb")),
        [Correct, Misplaced, Wrong, Wrong, Wrong]
    );
    assert_eq!(
        Correctness::compute(&word("baccc"), &word("aaddd")),
        [Wrong, Correct, Wrong, Wrong, Wrong]
    );
    assert_eq!(
        Correctness::compute(&word("abcde"), &word("aacde")),
        [Correct, Wrong, Correct, Correct, Correct]
    );
}

#[test]
fn misplaced_marks_never_exceed_the_copies_left_in_the_answer() {
    let answer = word("algae");
    let guess = word("equal");
    let mask = Correctness::compute(&answer, &guess);
    let mut credited = 0;
    let mut left = 0;
    for i in 0..5 {
        if guess.letter(i) == b'a' && mask[i] == Misplaced {
            credited += 1;
        }
        if answer.letter(i) == b'a' && guess.letter(i) != b'a' {
            left += 1;
        }
    }
    assert_eq!(credited, 0);
    assert_eq!(left, 1);
    assert!(credited <= left);
}

#[test]
fn is_misplaced_uses_the_first_free_copy() {
    let answer = word("eerie");
    let mut used = [false; 5];
    assert!(Correctness::is_misplaced(b'e', &answer, &mut used));
    assert_eq!(used, [true, false, false, false, false]);
    assert!(Correctness::is_misplaced(b'e', &answer, &mut used));
    assert_eq!(used, [true, true, false, false, false]);
    assert!(Correctness::is_misplaced(b'e', &answer, &mut used));
    assert_eq!(used, [true, true, false, false, true]);
    assert!(!Correctness::is_misplaced(b'e', &answer, &mut used));
    assert_eq!(used, [true, true, false, false, true]);
    assert!(!Correctness::is_misplaced(b'x', &answer, &mut used));
    assert!(Correctness::is_misplaced(b'i', &answer, &mut used));
    assert_eq!(used, [true, true, false, true, true]);
}

#[test]
fn enumerate_mask_reads_base_three() {
    assert_eq!(MAX_MASK_ENUM, 243);
    assert_eq!(enumerate_mask(&[Correct; 5]), 0);
    assert_eq!(enumerate_mask(&[Correct, Correct, Correct, Correct, Misplaced]), 1);
    assert_eq!(enumerate_mask(&[Correct, Correct, Correct, Correct, Wrong]), 2);
    assert_eq!(enumerate_mask(&[Misplaced, Correct, Correct, Correct, Correct]), 81);
    assert_eq!(enumerate_mask(&[Correct, Wrong, Wrong, Wrong, Misplaced]), 79);
    assert_eq!(enumerate_mask(&[Wrong; 5]), 242);
}

#[test]
fn patterns_lists_every_mask_in_the_order_of_its_number() {
    let all = Correctness::patterns();
    assert_eq!(all.len(), 243);
    for (place, mask) in all.iter().enumerate() {
        assert_eq!(enumerate_mask(mask), place);
    }
    assert_eq!(all[0], [Correct; 5]);
    assert_eq!(all[1], [Correct, Correct, Correct, Correct, Misplaced]);
    assert_eq!(all[3], [Correct, Correct, Correct, Misplaced, Correct]);
    assert_eq!(all[162], [Wrong, Correct, Correct, Correct, Correct]);
    assert_eq!(all[242], [Wrong; 5]);
}

#[test]
fn patterns_holds_no_mask_twice() {
    let all = Correctness::patterns();
    for i in 0..all.len() {
        for j in 0..i {
            assert_ne!(all[i], all[j]);
        }
    }
}

#[test]
fn matches_the_answer_that_gave_the_mask() {
    let words = ["algae", "equal", "abide", "speed", "eerie", "arose", "geese", "llama"];
    for guessed in words {
        for answer in words {
            let guess = Guess {
                word: word(guessed),
                mask: Correctness::compute(&word(answer), &word(guessed)),
            };
            assert!(guess.matches(&word(answer)));
            for other in words {
                let same = Correctness::compute(&word(other), &word(guessed)) == guess.mask;
                assert_eq!(guess.matches(&word(other)), same);
            }
        }
    }
}

#[test]
fn matches_agrees_with_compute_for_every_mask() {
    let words = ["eerie", "geese", "elder", "abide", "speed"];
    for mask in Correctness::patterns() {
        for guessed in words {
            let guess = Guess { word: word(guessed), mask };
            for candidate in words {
                let marked = Correctness::compute(&word(candidate), &word(guessed));
                assert_eq!(guess.matches(&word(candidate)), marked == mask);
            }
        }
    }
}

#[test]
fn matches_rejects_a_letter_in_place_without_its_mark() {
    let guess = Guess { word: word("arose"), mask: [Wrong, Wrong, Wrong, Wrong, Wrong] };
    assert!(!guess.matches(&word("amend")));
    assert!(guess.matches(&word("unfit")));
    let guess = Guess { word: word("arose"), mask: [Correct, Wrong, Wrong, Wrong, Misplaced] };
    assert!(guess.matches(&word("amend")));
    assert!(!guess.matches(&word("arose")));
    assert!(!guess.matches(&word("elbow")));
}
