//! The marks that answer a guess, and how a guess is marked.

use vstd::prelude::*;
use crate::word::Word;

verus! {

/// The mark that one letter of a guess receives.
#[derive(Clone, Copy, Debug, PartialEq, Eq, Structural)]
pub enum Correctness {
    /// Green: the answer has this letter at this position.
    Correct,
    /// Yellow: the answer has this letter at another position.
    Misplaced,
    /// Grey: the answer has no further copy of this letter.
    Wrong,
}

/// The number of different masks: three marks at each of five positions.
pub const MAX_MASK_ENUM: usize = 243;

/// How many of the first `upto` positions hold `letter` in the answer
/// while the guess holds another letter there.
pub open spec fn unmatched_in_answer(answer: Seq<u8>, guess: Seq<u8>, letter: u8, upto: int) -> nat
    decreases upto,
{
    if upto <= 0 {
        0
    } else {
        unmatched_in_answer(answer, guess, letter, upto - 1) + if answer[upto - 1] == letter
            && guess[upto - 1] != letter {
            1nat
        } else {
            0nat
        }
    }
}

/// How many of the first `upto` positions hold `letter` in the guess
/// while the answer holds another letter there.
pub open spec fn unmatched_in_guess(answer: Seq<u8>, guess: Seq<u8>, letter: u8, upto: int) -> nat
    decreases upto,
{
    if upto <= 0 {
        0
    } else {
        unmatched_in_guess(answer, guess, letter, upto - 1) + if guess[upto - 1] == letter
            && answer[upto - 1] != letter {
            1nat
        } else {
            0nat
        }
    }
}

/// The mark of the guess's letter at `position`.
///
/// A letter in its place is `Correct`. Any other letter is `Misplaced` as
/// long as the answer has more copies of it out of place than the guess has
/// out of place before this position, and `Wrong` after that.
pub open spec fn mark_at(answer: Seq<u8>, guess: Seq<u8>, position: int) -> Correctness {
    let letter = guess[position];
    if answer[position] == letter {
        Correctness::Correct
    } else if unmatched_in_guess(answer, guess, letter, position) < unmatched_in_answer(
        answer,
        guess,
        letter,
        answer.len() as int,
    ) {
        Correctness::Misplaced
    } else {
        Correctness::Wrong
    }
}

/// The mask that `guess` receives when `answer` is the hidden word.
pub open spec fn feedback(answer: Seq<u8>, guess: Seq<u8>) -> Seq<Correctness> {
    Seq::new(guess.len(), |position: int| mark_at(answer, guess, position))
}

/// How many of the first `upto` letters of the guess are `letter` and
/// marked `Misplaced` in `mask`.
pub open spec fn misplaced_marks(guess: Seq<u8>, mask: Seq<Correctness>, letter: u8, upto: int) -> nat
    decreases upto,
{
    if upto <= 0 {
        0
    } else {
        misplaced_marks(guess, mask, letter, upto - 1) + if guess[upto - 1] == letter && mask[upto
            - 1] == Correctness::Misplaced {
            1nat
        } else {
            0nat
        }
    }
}

/// Neither count exceeds the number of positions counted.
pub proof fn lemma_unmatched_bounds(answer: Seq<u8>, guess: Seq<u8>, letter: u8, upto: int)
    requires
        0 <= upto,
    ensures
        unmatched_in_answer(answer, guess, letter, upto) <= upto,
        unmatched_in_guess(answer, guess, letter, upto) <= upto,
    decreases upto,
{
    if upto > 0 {
        lemma_unmatched_bounds(answer, guess, letter, upto - 1);
    }
}

/// Counting further positions never lowers the count in the answer.
pub proof fn lemma_unmatched_in_answer_grows(
    answer: Seq<u8>,
    guess: Seq<u8>,
    letter: u8,
    from: int,
    upto: int,
)
    requires
        from <= upto,
    ensures
        unmatched_in_answer(answer, guess, letter, from) <= unmatched_in_answer(
            answer,
            guess,
            letter,
            upto,
        ),
    decreases upto - from,
{
    if from < upto {
        lemma_unmatched_in_answer_grows(answer, guess, letter, from, upto - 1);
    }
}

/// Among the first `upto` letters of the guess, the `Misplaced` marks that
/// the mask `feedback(answer, guess)` gives to `letter` are as many as the
/// smaller of two counts: the copies of `letter` out of place in the guess
/// so far, and the copies of it out of place in the whole answer.
pub proof fn lemma_misplaced_marks(answer: Seq<u8>, guess: Seq<u8>, letter: u8, upto: int)
    requires
        answer.len() == guess.len(),
        0 <= upto <= guess.len(),
    ensures
        misplaced_marks(guess, feedback(answer, guess), letter, upto) == vstd::math::min(
            unmatched_in_guess(answer, guess, letter, upto) as int,
            unmatched_in_answer(answer, guess, letter, answer.len() as int) as int,
        ),
    decreases upto,
{
    if upto > 0 {
        lemma_misplaced_marks(answer, guess, letter, upto - 1);
    }
}

/// A letter never receives more `Misplaced` marks than the answer has
/// copies of it that the guess did not find in place.
pub proof fn lemma_misplaced_never_exceeds_answer(answer: Seq<u8>, guess: Seq<u8>, letter: u8)
    requires
        answer.len() == guess.len(),
    ensures
        misplaced_marks(guess, feedback(answer, guess), letter, guess.len() as int)
            <= unmatched_in_answer(answer, guess, letter, answer.len() as int),
{
    lemma_misplaced_marks(answer, guess, letter, guess.len() as int);
}

/// The digit that stands for a mark when a mask is read as a number in
/// base three.
pub open spec fn digit(mark: Correctness) -> nat {
    match mark {
        Correctness::Correct => 0,
        Correctness::Misplaced => 1,
        Correctness::Wrong => 2,
    }
}

/// The mark that a base-three digit stands for.
pub open spec fn mark_of_digit(digit: nat) -> Correctness {
    if digit == 0 {
        Correctness::Correct
    } else if digit == 1 {
        Correctness::Misplaced
    } else {
        Correctness::Wrong
    }
}

/// The number of masks of a given length: three to that power.
pub open spec fn mask_count(length: nat) -> nat
    decreases length,
{
    if length == 0 {
        1
    } else {
        3 * mask_count((length - 1) as nat)
    }
}

/// The number of a mask: its marks read as the digits of a number in base
/// three, the first mark being the most significant digit.
pub open spec fn mask_index(mask: Seq<Correctness>) -> nat
    decreases mask.len(),
{
    if mask.len() == 0 {
        0
    } else {
        3 * mask_index(mask.drop_last()) + digit(mask.last())
    }
}

/// The mask of `length` marks whose number is `index`.
pub open spec fn mask_of_index(index: nat, length: nat) -> Seq<Correctness>
    decreases length,
{
    if length == 0 {
        Seq::empty()
    } else {
        mask_of_index(index / 3, (length - 1) as nat).push(mark_of_digit(index % 3))
    }
}

/// The number of a mask is below the number of masks of its length.
pub proof fn lemma_mask_index_bound(mask: Seq<Correctness>)
    ensures
        mask_index(mask) < mask_count(mask.len()),
    decreases mask.len(),
{
    if mask.len() > 0 {
        lemma_mask_index_bound(mask.drop_last());
    }
}

/// Numbering the mask that was made from a number gives that number back.
pub proof fn lemma_index_of_mask_of_index(index: nat, length: nat)
    requires
        index < mask_count(length),
    ensures
        mask_of_index(index, length).len() == length,
        mask_index(mask_of_index(index, length)) == index,
    decreases length,
{
    if length > 0 {
        let shorter = mask_of_index(index / 3, (length - 1) as nat);
        lemma_index_of_mask_of_index(index / 3, (length - 1) as nat);
        assert(mask_of_index(index, length).drop_last() =~= shorter);
    }
}

/// Making a mask from the number of a mask gives that mask back.
pub proof fn lemma_mask_of_index_of_mask(mask: Seq<Correctness>)
    ensures
        mask_of_index(mask_index(mask), mask.len()) == mask,
    decreases mask.len(),
{
    if mask.len() > 0 {
        lemma_mask_of_index_of_mask(mask.drop_last());
        let high = mask_index(mask.drop_last());
        let low = digit(mask.last());
        assert((3 * high + low) / 3 == high && (3 * high + low) % 3 == low);
        assert(mask_of_index(mask_index(mask), mask.len()) =~= mask);
    } else {
        assert(mask_of_index(mask_index(mask), mask.len()) =~= mask);
    }
}

/// Numbering is a one-to-one correspondence between the masks of five marks
/// and the numbers below 243: two masks with one number are the same mask,
/// every mask has a number below 243, and every such number is the number of
/// a mask.
pub proof fn lemma_enumeration_is_bijective(first: Seq<Correctness>, second: Seq<Correctness>, index: nat)
    requires
        first.len() == 5,
        second.len() == 5,
        index < 243,
    ensures
        mask_index(first) == mask_index(second) ==> first == second,
        mask_index(first) < 243,
        mask_of_index(index, 5).len() == 5,
        mask_index(mask_of_index(index, 5)) == index,
{
    reveal_with_fuel(mask_count, 6);
    lemma_mask_of_index_of_mask(first);
    lemma_mask_of_index_of_mask(second);
    lemma_mask_index_bound(first);
    lemma_index_of_mask_of_index(index, 5);
}

/// Whether `all` lists the masks in the order of their numbers: 243 masks,
/// the one at place `k` having the number `k`.
pub open spec fn lists_every_mask(all: Seq<[Correctness; 5]>) -> bool {
    &&& all.len() == 243
    &&& forall|k: int| 0 <= k < 243 ==> mask_index(#[trigger] all[k]@) == k
}

/// A list of the masks in the order of their numbers holds every mask once:
/// each mask stands at the place of its number, and no two places hold the
/// same mask.
pub proof fn lemma_every_mask_is_listed_once(
    all: Seq<[Correctness; 5]>,
    mask: Seq<Correctness>,
    first: int,
    second: int,
)
    requires
        lists_every_mask(all),
        mask.len() == 5,
        0 <= first < 243,
        0 <= second < 243,
    ensures
        mask_index(mask) < 243,
        all[mask_index(mask) as int]@ == mask,
        all[first]@ == all[second]@ ==> first == second,
{
    lemma_enumeration_is_bijective(mask, all[mask_index(mask) as int]@, 0);
}

/// The first position from `from` on where `answer` holds `letter` and
/// `used` is not set; the length of `answer` when there is none.
pub open spec fn first_free(answer: Seq<u8>, used: Seq<bool>, letter: u8, from: int) -> int
    decreases answer.len() - from,
{
    if from >= answer.len() {
        answer.len() as int
    } else if answer[from] == letter && !used[from] {
        from
    } else {
        first_free(answer, used, letter, from + 1)
    }
}


/// Pairs every mask of `masks` with every mark of `marks`, by
/// `itertools::Itertools::cartesian_product`, collected into a vector.
///
/// Trusted, not proved: the pairs come in the order of that product, which
/// goes through `marks` once for each mask of `masks` in turn, so that the
/// pair at place `k` holds mask `k / marks.len()` and mark
/// `k % marks.len()`.
#[verifier::external_body]
fn pair_with_marks(masks: Vec<[Correctness; 5]>, marks: Vec<Correctness>) -> (pairs: Vec<
    ([Correctness; 5], Correctness),
>)
    requires
        masks.len() * marks.len() <= usize::MAX,
    ensures
        pairs.len() == masks.len() * marks.len(),
        forall|k: int|
            0 <= k < pairs.len() ==> (#[trigger] pairs[k]).0@ == masks[k / (marks.len() as int)]@
                && pairs[k].1 == marks[k % (marks.len() as int)],
{
    itertools::Itertools::cartesian_product(masks.into_iter(), marks).collect()
}

impl Correctness {
    /// Marks `guess` against `answer`.
    ///
    /// The first pass marks the letters that stand in their place and
    /// counts, letter by letter, what the answer has left. The second pass
    /// hands those remaining copies out, from the left, to the letters of
    /// the guess that are out of place.
    pub fn compute(answer: &Word, guess: &Word) -> (mask: [Correctness; 5])
        ensures
            mask@ == feedback(answer@, guess@),
    {
        broadcast use Word::lemma_length;

        let mut mask: [Correctness; 5] = [Correctness::Wrong;5];
        let mut left: [u8; 26] = [0u8;26];
        let mut i: usize = 0;
        while i < 5
            invariant
                i <= 5,
                answer@.len() == 5,
                guess@.len() == 5,
                forall|j: int|
                    0 <= j < i ==> #[trigger] mask@[j] == if answer@[j] == guess@[j] {
                        Correctness::Correct
                    } else {
                        Correctness::Wrong
                    },
                forall|j: int| i <= j < 5 ==> #[trigger] mask@[j] == Correctness::Wrong,
                forall|l: int|
                    0 <= l < 26 ==> #[trigger] left@[l] == unmatched_in_answer(
                        answer@,
                        guess@,
                        (97 + l) as u8,
                        i as int,
                    ),
            decreases 5 - i,
        {
            let a: u8 = answer.letter(i);
            let g: u8 = guess.letter(i);
            if a == g {
                mask[i] = Correctness::Correct;
            } else {
                let slot: usize = (a - 97) as usize;
                proof {
                    lemma_unmatched_bounds(answer@, guess@, a, i as int);
                }
                left[slot] = left[slot] + 1;
            }
            i += 1;
        }
        let mut i: usize = 0;
        while i < 5
            invariant
                i <= 5,
                answer@.len() == 5,
                guess@.len() == 5,
                forall|j: int| 0 <= j < i ==> #[trigger] mask@[j] == mark_at(answer@, guess@, j),
                forall|j: int|
                    i <= j < 5 ==> #[trigger] mask@[j] == if answer@[j] == guess@[j] {
                        Correctness::Correct
                    } else {
                        Correctness::Wrong
                    },
                forall|l: int|
                    0 <= l < 26 ==> #[trigger] left@[l] == unmatched_in_answer(
                        answer@,
                        guess@,
                        (97 + l) as u8,
                        5,
                    ) - vstd::math::min(
                        unmatched_in_guess(answer@, guess@, (97 + l) as u8, i as int) as int,
                        unmatched_in_answer(answer@, guess@, (97 + l) as u8, 5) as int,
                    ),
            decreases 5 - i,
        {
            let g: u8 = guess.letter(i);
            let slot: usize = (g - 97) as usize;
            assert((97 + slot as int) as u8 == g);
            if mask[i] == Correctness::Wrong && left[slot] > 0 {
                mask[i] = Correctness::Misplaced;
                left[slot] = left[slot] - 1;
            }
            i += 1;
        }
        assert(mask@ =~= feedback(answer@, guess@));
        mask
    }

    /// Every mask, in the order of its number: the mask at place `k` is the
    /// one that `enumerate_mask` numbers `k`.
    ///
    /// The masks are built position by position, the first position
    /// outermost, each position running through `Correct`, `Misplaced`,
    /// `Wrong`.
    pub fn patterns() -> (all: Vec<[Correctness; 5]>)
        ensures
            lists_every_mask(all@),
    {
        let mut all: Vec<[Correctness; 5]> = vec![[Correctness::Correct;5]];
        let mut position: usize = 0;
        proof {
            assert(all[0]@.take(0) =~= Seq::empty());
        }
        while position < 5
            invariant
                position <= 5,
                all.len() == mask_count(position as nat),
                forall|k: int|
                    0 <= k < all.len() ==> mask_index((#[trigger] all[k])@.take(position as int))
                        == k,
            decreases 5 - position,
        {
            proof {
                reveal_with_fuel(mask_count, 6);
                assert(all.len() <= 81);
            }
            let marks: Vec<Correctness> = vec![
                Correctness::Correct,
                Correctness::Misplaced,
                Correctness::Wrong,
            ];
            let ghost shorter = all@;
            let pairs = pair_with_marks(all, marks);
            all = Vec::new();
            let mut k: usize = 0;
            while k < pairs.len()
                invariant
                    position < 5,
                    k <= pairs.len(),
                    all.len() == k,
                    pairs.len() == shorter.len() * 3,
                    pairs.len() == mask_count((position + 1) as nat),
                    forall|j: int|
                        0 <= j < shorter.len() ==> mask_index(
                            (#[trigger] shorter[j])@.take(position as int),
                        ) == j,
                    forall|j: int|
                        0 <= j < pairs.len() ==> (#[trigger] pairs[j]).0@ == shorter[j / 3]@
                            && digit(pairs[j].1) == j % 3,
                    forall|j: int|
                        0 <= j < k ==> mask_index((#[trigger] all[j])@.take(position + 1)) == j,
                decreases pairs.len() - k,
            {
                let mut mask: [Correctness; 5] = pairs[k].0;
                mask[position] = pairs[k].1;
                proof {
                    let longer = mask@.take(position + 1);
                    assert(longer.drop_last() =~= shorter[k as int / 3]@.take(position as int));
                    assert(longer.last() == pairs[k as int].1);
                }
                all.push(mask);
                k += 1;
            }
            position += 1;
        }
        proof {
            reveal_with_fuel(mask_count, 6);
            assert forall|k: int| 0 <= k < 243 implies mask_index(#[trigger] all[k]@) == k by {
                assert(all[k]@.take(5) =~= all[k]@);
            }
        }
        all
    }

    /// Looks for a copy of `letter` in `answer` that no earlier mark has
    /// used, and uses the first one.
    pub fn is_misplaced(letter: u8, answer: &Word, used: &mut [bool; 5]) -> (found: bool)
        ensures
            found == (first_free(answer@, old(used)@, letter, 0) < 5),
            found ==> final(used)@ == old(used)@.update(
                first_free(answer@, old(used)@, letter, 0),
                true,
            ),
            !found ==> final(used)@ == old(used)@,
    {
        broadcast use Word::lemma_length;

        let mut i: usize = 0;
        while i < 5
            invariant
                i <= 5,
                answer@.len() == 5,
                *used == *old(used),
                first_free(answer@, used@, letter, 0) == first_free(answer@, used@, letter, i as int),
            decreases 5 - i,
        {
            if answer.letter(i) == letter && !used[i] {
                used[i] = true;
                return true;
            }
            i += 1;
        }
        false
    }
}

/// The number of `mask` among the 243 masks, counted from 0.
pub fn enumerate_mask(mask: &[Correctness; 5]) -> (index: usize)
    ensures
        index == mask_index(mask@),
        index < 243,
{
    let mut index: usize = 0;
    let mut i: usize = 0;
    while i < 5
        invariant
            i <= 5,
            index == mask_index(mask@.take(i as int)),
            index < mask_count(i as nat),
        decreases 5 - i,
    {
        let low: usize = match mask[i] {
            Correctness::Correct => 0,
            Correctness::Misplaced => 1,
            Correctness::Wrong => 2,
        };
        proof {
            reveal_with_fuel(mask_count, 6);
            assert(mask@.take(i + 1).drop_last() =~= mask@.take(i as int));
        }
        index = index * 3 + low;
        i += 1;
    }
    proof {
        reveal_with_fuel(mask_count, 6);
        assert(mask@.take(5) =~= mask@);
    }
    index
}

} // verus!
