use retrun::algorithm::{blocks, crowding_of, filter, group_sizes, guess, select, SelectionError};
use retrun::correctness::Correctness::{Correct, Misplaced, Wrong};
use retrun::natural::Natural;
use retrun::{enumerate_mask, get_guesses, Guess, Word};

fn word(text: &str) -> Word {
    Word::new(text).unwrap()
}

fn words(texts: &[&str]) -> Vec<Word> {
    texts.iter().map(|text| word(text)).collect()
}

fn is(number: &Natural, expected: u64) -> bool {
    let expected = Natural::from_u64(expected);
    !number.less_than(&expected) && !expected.less_than(number)
}

fn entropy(pool: &Vec<Word>, guess: &Word) -> f64 {
    let total = pool.len() as f64;
    let mut bits = 0.0;
    for size in group_sizes(pool, guess) {
        if size > 0 {
            let share = size as f64 / total;
            bits -= share * share.log2();
        }
    }
    bits
}

fn dictionary() -> Vec<Word> {
    words(&["zzzzz", "fuzzy", "flame", "fight", "light", "might", "sound"])
}

#[test]
fn filter_keeps_the_words_that_match_every_guess() {
    let history = vec![Guess { word: word("sound"), mask: [Wrong; 5] }];
    let pool = filter(&dictionary(), &history);
    assert_eq!(pool, words(&["zzzzz", "flame", "fight", "light", "might"]));
    let history = vec![
        Guess { word: word("sound"), mask: [Wrong; 5] },
        Guess { word: word("flame"), mask: [Wrong, Misplaced, Wrong, Wrong, Wrong] },
    ];
    assert_eq!(filter(&dictionary(), &history), words(&["light"]));
}

#[test]
fn filter_with_no_history_keeps_the_dictionary() {
    assert_eq!(filter(&dictionary(), &Vec::new()), dictionary());
    assert_eq!(filter(&Vec::new(), &Vec::new()), Vec::<Word>::new());
}

#[test]
fn filter_keeps_repeated_words_and_their_order() {
    let twice = words(&["light", "fight", "light"]);
    let history = vec![Guess { word: word("eight"), mask: [Wrong, Correct, Correct, Correct, Correct] }];
    assert_eq!(filter(&twice, &history), twice);
}

#[test]
fn group_sizes_counts_the_pool_by_mask() {
    let pool = words(&["zzzzz", "flame", "fight", "light", "might"]);
    let sizes = group_sizes(&pool, &word("fuzzy"));
    assert_eq!(sizes.len(), 243);
    assert_eq!(sizes.iter().sum::<usize>(), 5);
    assert_eq!(sizes[enumerate_mask(&[Wrong, Wrong, Correct, Correct, Wrong])], 1);
    assert_eq!(sizes[enumerate_mask(&[Correct, Wrong, Wrong, Wrong, Wrong])], 2);
    assert_eq!(sizes[enumerate_mask(&[Wrong; 5])], 2);
    assert_eq!(sizes[enumerate_mask(&[Correct; 5])], 0);
}

#[test]
fn crowding_is_the_product_of_the_sizes_raised_to_themselves() {
    let pool = words(&["zzzzz", "flame", "fight", "light", "might"]);
    assert!(is(&crowding_of(&pool, &word("zzzzz")), 256));
    assert!(is(&crowding_of(&pool, &word("fuzzy")), 16));
    assert!(is(&crowding_of(&pool, &word("flame")), 1));
    assert!(is(&crowding_of(&pool, &word("fight")), 4));
    assert!(is(&crowding_of(&pool, &word("sound")), 3125));
    assert!(is(&crowding_of(&Vec::new(), &word("sound")), 1));
}

#[test]
fn crowding_outgrows_machine_integers() {
    let pool = vec![word("fight"); 40];
    let crowded = crowding_of(&pool, &word("sound"));
    let mut expected = Natural::from_u64(1);
    for _ in 0..40 {
        expected.multiply(40);
    }
    assert!(!crowded.less_than(&expected));
    assert!(!expected.less_than(&crowded));
    assert!(Natural::from_u64(u64::MAX).less_than(&crowded));
}

#[test]
fn blocks_looks_the_word_up() {
    let blocked = words(&["flame", "fight"]);
    assert!(blocks(&blocked, &word("flame")));
    assert!(blocks(&blocked, &word("fight")));
    assert!(!blocks(&blocked, &word("light")));
    assert!(!blocks(&Vec::new(), &word("light")));
}

#[test]
fn select_from_an_empty_pool_is_an_error() {
    assert_eq!(
        select(&Vec::new(), &dictionary(), &Vec::new()),
        Err(SelectionError::EmptyCandidatePool)
    );
    assert_eq!(
        select(&Vec::new(), &Vec::new(), &dictionary()),
        Err(SelectionError::EmptyCandidatePool)
    );
}

#[test]
fn select_from_a_pool_of_one_gives_that_word() {
    let pool = words(&["light"]);
    assert_eq!(select(&pool, &dictionary(), &Vec::new()), Ok((word("light"), 1)));
    assert_eq!(select(&pool, &Vec::new(), &Vec::new()), Ok((word("light"), 1)));
    assert_eq!(select(&pool, &dictionary(), &words(&["light"])), Ok((word("light"), 1)));
}

#[test]
fn select_takes_the_word_that_splits_the_pool_best() {
    let pool = words(&["fight", "light", "might"]);
    assert_eq!(select(&pool, &dictionary(), &Vec::new()), Ok((word("flame"), 3)));
}

#[test]
fn select_takes_the_first_of_equally_good_words() {
    let pool = words(&["fight", "light", "might"]);
    let equal = words(&["zzzzz", "might", "fuzzy", "light", "fight"]);
    assert_eq!(select(&pool, &equal, &Vec::new()), Ok((word("might"), 3)));
    let turned = words(&["fight", "light", "fuzzy", "might", "zzzzz"]);
    assert_eq!(select(&pool, &turned, &Vec::new()), Ok((word("fight"), 3)));
}

#[test]
fn select_never_takes_a_blocked_word() {
    let pool = words(&["fight", "light", "might"]);
    assert_eq!(select(&pool, &dictionary(), &words(&["flame"])), Ok((word("fuzzy"), 3)));
    assert_eq!(
        select(&pool, &dictionary(), &words(&["fuzzy", "flame"])),
        Ok((word("fight"), 3))
    );
    assert_eq!(
        select(&pool, &dictionary(), &words(&["fuzzy", "flame", "fight", "light", "might"])),
        Ok((word("zzzzz"), 3))
    );
}

#[test]
fn select_with_every_word_blocked_is_an_error() {
    let pool = words(&["fight", "light", "might"]);
    assert_eq!(
        select(&pool, &dictionary(), &dictionary()),
        Err(SelectionError::NoAdmissibleGuess)
    );
    assert_eq!(select(&pool, &Vec::new(), &Vec::new()), Err(SelectionError::NoAdmissibleGuess));
}

#[test]
fn select_counts_blocked_words_in_the_pool() {
    let pool = words(&["fight", "light", "might", "flame"]);
    let outcome = select(&pool, &dictionary(), &words(&["flame", "light"]));
    assert_eq!(outcome.unwrap().1, 4);
}

#[test]
fn select_gives_the_same_outcome_again() {
    let pool = words(&["fight", "light", "might", "flame", "zzzzz"]);
    let blocked = words(&["light"]);
    let first = select(&pool, &dictionary(), &blocked);
    for _ in 0..5 {
        assert_eq!(select(&pool, &dictionary(), &blocked), first);
    }
}

#[test]
fn guess_narrows_the_dictionary_and_selects() {
    let history = get_guesses("-----:00000,sound:11111").unwrap();
    assert_eq!(guess(&dictionary(), &history, &Vec::new()), Ok((word("flame"), 5)));
    assert_eq!(guess(&dictionary(), &history, &words(&["flame"])), Ok((word("fight"), 5)));
    let history = get_guesses("sound:11111,flame:12111").unwrap();
    assert_eq!(guess(&dictionary(), &history, &Vec::new()), Ok((word("light"), 1)));
    let history = get_guesses("sound:33333,flame:33333").unwrap();
    assert_eq!(
        guess(&dictionary(), &history, &Vec::new()),
        Err(SelectionError::EmptyCandidatePool)
    );
    let history = get_guesses("-----:00000").unwrap();
    assert_eq!(guess(&dictionary(), &history, &Vec::new()).unwrap().1, 7);
    assert_eq!(history.len(), 0);
    assert_eq!([Correct, Misplaced, Wrong].len(), 3);
}

#[test]
fn entropy_of_a_split_is_in_bits() {
    let pool = words(&["zzzzz", "flame", "fight", "light", "might"]);
    assert!((entropy(&pool, &word("sound")) - 0.0).abs() < 1e-12);
    assert!((entropy(&pool, &word("flame")) - 5f64.log2()).abs() < 1e-12);
    assert!((entropy(&pool, &word("fight")) - 1.9219280948873623).abs() < 1e-12);
    assert!((entropy(&pool, &word("zzzzz")) - 0.7219280948873623).abs() < 1e-12);
}

#[test]
fn smaller_crowding_is_larger_entropy() {
    let pool = words(&["zzzzz", "flame", "fight", "light", "might", "fuzzy", "sound"]);
    let guesses = words(&["zzzzz", "fuzzy", "flame", "fight", "light", "might", "sound", "abide"]);
    for first in &guesses {
        for second in &guesses {
            let more_bits = entropy(&pool, first) > entropy(&pool, second) + 1e-9;
            let less_crowded = crowding_of(&pool, first).less_than(&crowding_of(&pool, second));
            let same_bits = (entropy(&pool, first) - entropy(&pool, second)).abs() < 1e-9;
            assert_eq!(less_crowded, more_bits);
            assert_eq!(
                !less_crowded && !crowding_of(&pool, second).less_than(&crowding_of(&pool, first)),
                same_bits
            );
        }
    }
}

#[test]
fn select_takes_the_first_word_of_largest_entropy() {
    let pool = words(&["zzzzz", "flame", "fight", "light", "might"]);
    let all = dictionary();
    let mut best = 0;
    for place in 1..all.len() {
        if entropy(&pool, &all[place]) > entropy(&pool, &all[best]) + 1e-9 {
            best = place;
        }
    }
    assert_eq!(select(&pool, &all, &Vec::new()), Ok((all[best], 5)));
    assert_eq!(all[best], word("flame"));
}
