//! One turn of the game, and the test whether a word agrees with it.

use vstd::prelude::*;
use crate::correctness::{
    feedback, first_free, lemma_unmatched_in_answer_grows, mark_at, unmatched_in_answer,
    unmatched_in_guess, Correctness,
};
use crate::word::Word;

verus! {

/// A guessed word with the mask it received.
#[derive(Clone, Copy, Debug)]
pub struct Guess {
    pub word: Word,
    pub mask: [Correctness; 5],
}

/// How many copies of `letter` the marks before `position` have taken from
/// the copies that `answer` holds out of place.
pub open spec fn taken(answer: Seq<u8>, guess: Seq<u8>, letter: u8, position: int) -> int {
    vstd::math::min(
        unmatched_in_guess(answer, guess, letter, position) as int,
        unmatched_in_answer(answer, guess, letter, answer.len() as int) as int,
    )
}

/// What the flags say while the marks before `position` have been checked:
/// a letter of the answer is used when the guess holds it in place, or when
/// it is one of the first out-of-place copies, as many as were taken.
pub open spec fn used_as_taken(
    answer: Seq<u8>,
    guess: Seq<u8>,
    used: Seq<bool>,
    position: int,
) -> bool {
    forall|j: int|
        0 <= j < answer.len() ==> #[trigger] used[j] == (answer[j] == guess[j]
            || unmatched_in_answer(answer, guess, answer[j], j) < taken(
            answer,
            guess,
            answer[j],
            position,
        ))
}

/// With the flags as `used_as_taken` describes them, a free copy of
/// `letter` is found exactly when the answer has more copies out of place
/// than were taken, and the copy found is the next one to take.
proof fn lemma_first_free(
    answer: Seq<u8>,
    guess: Seq<u8>,
    used: Seq<bool>,
    letter: u8,
    position: int,
    from: int,
)
    requires
        answer.len() == guess.len(),
        answer.len() == used.len(),
        used_as_taken(answer, guess, used, position),
        0 <= from <= answer.len(),
        unmatched_in_answer(answer, guess, letter, from) <= taken(answer, guess, letter, position),
    ensures
        ({
            let free = first_free(answer, used, letter, from);
            let all = unmatched_in_answer(answer, guess, letter, answer.len() as int);
            &&& from <= free <= answer.len()
            &&& (free < answer.len()) == (taken(answer, guess, letter, position) < all)
            &&& free < answer.len() ==> {
                &&& answer[free] == letter
                &&& guess[free] != letter
                &&& unmatched_in_answer(answer, guess, letter, free) == taken(
                    answer,
                    guess,
                    letter,
                    position,
                )
            }
        }),
    decreases answer.len() - from,
{
    if from < answer.len() {
        if answer[from] == letter && !used[from] {
            lemma_unmatched_in_answer_grows(answer, guess, letter, from + 1, answer.len() as int);
        } else {
            lemma_first_free(answer, guess, used, letter, position, from + 1);
        }
    }
}

impl Guess {
    /// Whether `candidate` could be the answer as far as this guess tells:
    /// marking the guessed word against `candidate` gives the mask of the
    /// guess.
    pub open spec fn agrees_with(&self, candidate: Seq<u8>) -> bool {
        feedback(candidate, self.word@) == self.mask@
    }

    /// Tests whether `word` could be the answer, without marking the guess
    /// anew.
    ///
    /// The first pass checks the `Correct` marks against the letters in
    /// place. The second pass goes through the other marks and, for each,
    /// looks for a copy of the guessed letter in `word` that no mark has
    /// used yet: there is one exactly when the mark is `Misplaced`.
    pub fn matches(&self, word: &Word) -> (consistent: bool)
        ensures
            consistent == self.agrees_with(word@),
    {
        broadcast use Word::lemma_length;

        let ghost answer = word@;
        let ghost guess = self.word@;
        let mut used: [bool; 5] = [false;5];
        let mut i: usize = 0;
        while i < 5
            invariant
                i <= 5,
                answer == word@,
                guess == self.word@,
                answer.len() == 5,
                guess.len() == 5,
                forall|j: int|
                    0 <= j < i ==> (answer[j] == guess[j]) == (#[trigger] self.mask@[j]
                        == Correctness::Correct),
                forall|j: int| 0 <= j < i ==> #[trigger] used@[j] == (answer[j] == guess[j]),
                forall|j: int| i <= j < 5 ==> !#[trigger] used@[j],
            decreases 5 - i,
        {
            let a: u8 = word.letter(i);
            let g: u8 = self.word.letter(i);
            if a == g {
                if self.mask[i] != Correctness::Correct {
                    assert(feedback(answer, guess)[i as int] == mark_at(answer, guess, i as int));
                    return false;
                }
                used[i] = true;
            } else if self.mask[i] == Correctness::Correct {
                assert(feedback(answer, guess)[i as int] == mark_at(answer, guess, i as int));
                return false;
            }
            i += 1;
        }
        let mut i: usize = 0;
        while i < 5
            invariant
                i <= 5,
                answer == word@,
                guess == self.word@,
                answer.len() == 5,
                guess.len() == 5,
                forall|j: int|
                    0 <= j < 5 ==> (answer[j] == guess[j]) == (#[trigger] self.mask@[j]
                        == Correctness::Correct),
                forall|j: int| 0 <= j < i ==> #[trigger] self.mask@[j] == mark_at(answer, guess, j),
                used_as_taken(answer, guess, used@, i as int),
            decreases 5 - i,
        {
            if self.mask[i] != Correctness::Correct {
                let g: u8 = self.word.letter(i);
                let ghost before = used@;
                let found = Correctness::is_misplaced(g, word, &mut used);
                proof {
                    let free = first_free(answer, before, g, 0);
                    lemma_first_free(answer, guess, before, g, i as int, 0);
                    assert(found == (mark_at(answer, guess, i as int) == Correctness::Misplaced));
                    assert(feedback(answer, guess)[i as int] == mark_at(answer, guess, i as int));
                    if found == (self.mask@[i as int] == Correctness::Misplaced) {
                        assert forall|j: int| 0 <= j < 5 implies #[trigger] used@[j] == (answer[j]
                            == guess[j] || unmatched_in_answer(answer, guess, answer[j], j)
                            < taken(answer, guess, answer[j], i + 1)) by {
                            if found && answer[j] == g && answer[j] != guess[j] {
                                if j < free {
                                    lemma_unmatched_in_answer_grows(answer, guess, g, j + 1, free);
                                } else if j > free {
                                    lemma_unmatched_in_answer_grows(answer, guess, g, free + 1, j);
                                }
                            }
                        }
                    }
                }
                if found != (self.mask[i] == Correctness::Misplaced) {
                    return false;
                }
            }
            i += 1;
        }
        assert(self.mask@ =~= feedback(answer, guess));
        true
    }
}

/// Marking and matching agree. When the mask of `guess` is the one that its
/// word receives against `answer`, the guess matches `answer`, and it
/// matches another word exactly when its word receives the same mask
/// against that word.
pub proof fn lemma_round_trip(answer: Word, other: Word, guess: Guess)
    requires
        guess.mask@ == feedback(answer@, guess.word@),
    ensures
        guess.agrees_with(answer@),
        guess.agrees_with(other@) == (feedback(other@, guess.word@) == feedback(
            answer@,
            guess.word@,
        )),
{
}

} // verus!
