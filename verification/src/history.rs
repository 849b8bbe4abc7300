//! The log of earlier guesses, as it is written down in text.
//!
//! A log is a list of entries with commas between them. An entry is a word,
//! a colon and five digits, one for each letter: `1` for `Wrong`, `2` for
//! `Misplaced`, `3` for `Correct`. The entry `-----:00000` stands for no
//! guess at all and is passed over.

use vstd::prelude::*;
use vstd::string::StringSliceAdditionalSpecFns;
use crate::correctness::Correctness;
use crate::guess::Guess;
use crate::word::{is_word, Word};

verus! {

/// The byte between two entries of a log: a comma.
pub const ENTRY_MARK: u8 = 44;

/// The byte between the word and the mask of an entry: a colon.
pub const MASK_MARK: u8 = 58;

/// What is wrong with an entry.
#[derive(Clone, Copy, Debug, PartialEq, Eq, Structural)]
pub enum HistoryFault {
    /// The entry lacks its word or its mask: it has no colon, its word is
    /// not five lowercase letters, or its mask has not five digits.
    MalformedHistoryEntry,
    /// The mask of the entry holds something other than `1`, `2` or `3`.
    InvalidMaskCharacter,
}

/// The first entry of a log that cannot be read, and what is wrong with it.
#[derive(Clone, Copy, Debug, PartialEq, Eq, Structural)]
pub struct HistoryError {
    pub fault: HistoryFault,
    /// The place of the entry in the log, counted from 0.
    pub entry: usize,
}

/// The parts of `text` between the occurrences of `mark`: one part more
/// than there are marks, each possibly empty.
pub open spec fn split(text: Seq<u8>, mark: u8) -> Seq<Seq<u8>>
    decreases text.len(),
{
    if text.len() == 0 {
        seq![Seq::empty()]
    } else {
        let before = split(text.drop_last(), mark);
        if text.last() == mark {
            before.push(Seq::empty())
        } else {
            before.update(before.len() - 1, before.last().push(text.last()))
        }
    }
}

/// The entry that stands for an empty log: `-----:00000`.
pub open spec fn sentinel() -> Seq<u8> {
    seq![45u8, 45u8, 45u8, 45u8, 45u8, 58u8, 48u8, 48u8, 48u8, 48u8, 48u8]
}

/// Whether `digit` is one of the characters `1`, `2`, `3`.
pub open spec fn is_mark_digit(digit: u8) -> bool {
    49 <= digit <= 51
}

/// The mark that a digit of a mask stands for.
pub open spec fn mark_of(digit: u8) -> Correctness {
    if digit == 49 {
        Correctness::Wrong
    } else if digit == 50 {
        Correctness::Misplaced
    } else {
        Correctness::Correct
    }
}

/// What is wrong with an entry other than the sentinel, if anything.
///
/// An entry without a colon is malformed. Otherwise its word is what
/// stands before the first colon and its mask what stands between the first
/// colon and the second, or the end. A mask with a character that is no
/// mark is invalid; after that, a word that is not five lowercase letters
/// or a mask that has not five marks makes the entry malformed.
pub open spec fn fault_of(entry: Seq<u8>) -> Option<HistoryFault> {
    let parts = split(entry, MASK_MARK);
    if entry == sentinel() {
        None
    } else if parts.len() < 2 {
        Some(HistoryFault::MalformedHistoryEntry)
    } else if exists|i: int| 0 <= i < parts[1].len() && !is_mark_digit(#[trigger] parts[1][i]) {
        Some(HistoryFault::InvalidMaskCharacter)
    } else if !is_word(parts[0]) || parts[1].len() != 5 {
        Some(HistoryFault::MalformedHistoryEntry)
    } else {
        None
    }
}

/// The letters of the word of a well-formed entry.
pub open spec fn word_of(entry: Seq<u8>) -> Seq<u8> {
    split(entry, MASK_MARK)[0]
}

/// The mask of a well-formed entry.
pub open spec fn mask_of(entry: Seq<u8>) -> Seq<Correctness> {
    Seq::new(5, |i: int| mark_of(split(entry, MASK_MARK)[1][i]))
}

/// Whether `guess` is what the well-formed entry `entry` says.
pub open spec fn says(entry: Seq<u8>, guess: Guess) -> bool {
    guess.word@ == word_of(entry) && guess.mask@ == mask_of(entry)
}

/// The entries of a log that say a guess: all but the sentinels, in the
/// order of the log.
pub open spec fn telling_entries(entries: Seq<Seq<u8>>) -> Seq<Seq<u8>> {
    entries.filter(|entry: Seq<u8>| entry != sentinel())
}

/// Splitting gives at least one part.
pub proof fn lemma_split_is_not_empty(text: Seq<u8>, mark: u8)
    ensures
        split(text, mark).len() >= 1,
    decreases text.len(),
{
    if text.len() > 0 {
        lemma_split_is_not_empty(text.drop_last(), mark);
    }
}

/// A text without the mark is its own single part.
pub proof fn lemma_split_without_mark(text: Seq<u8>, mark: u8)
    requires
        forall|i: int| 0 <= i < text.len() ==> text[i] != mark,
    ensures
        split(text, mark) == seq![text],
    decreases text.len(),
{
    if text.len() > 0 {
        lemma_split_without_mark(text.drop_last(), mark);
        assert(text.drop_last().push(text.last()) =~= text);
        assert(seq![text.drop_last()].update(0, text) =~= seq![text]);
    } else {
        assert(text =~= Seq::empty());
    }
}

/// The parts of two texts joined by the mark are the parts of the first
/// followed by the parts of the second.
pub proof fn lemma_split_joined(first: Seq<u8>, second: Seq<u8>, mark: u8)
    ensures
        split(first + seq![mark] + second, mark) == split(first, mark) + split(second, mark),
    decreases second.len(),
{
    let text = first + seq![mark] + second;
    let head = split(first, mark);
    lemma_split_is_not_empty(first, mark);
    if second.len() == 0 {
        assert(text.drop_last() =~= first);
        assert(split(text, mark) =~= head + split(second, mark));
    } else {
        let shorter = second.drop_last();
        lemma_split_joined(first, shorter, mark);
        lemma_split_is_not_empty(shorter, mark);
        assert(text.drop_last() =~= first + seq![mark] + shorter);
        assert(split(text, mark) =~= head + split(second, mark));
    }
}

/// Splits `text` at every occurrence of `mark`.
pub fn split_bytes(text: &[u8], mark: u8) -> (parts: Vec<Vec<u8>>)
    ensures
        parts.len() == split(text@, mark).len(),
        forall|i: int| 0 <= i < parts.len() ==> (#[trigger] parts[i])@ == split(text@, mark)[i],
{
    let mut parts: Vec<Vec<u8>> = Vec::new();
    let mut part: Vec<u8> = Vec::new();
    let mut i: usize = 0;
    proof {
        assert(text@.take(0) =~= Seq::empty());
    }
    while i < text.len()
        invariant
            i <= text.len(),
            split(text@.take(i as int), mark).len() == parts.len() + 1,
            forall|j: int|
                0 <= j < parts.len() ==> (#[trigger] parts[j])@ == split(
                    text@.take(i as int),
                    mark,
                )[j],
            part@ == split(text@.take(i as int), mark).last(),
        decreases text.len() - i,
    {
        let byte: u8 = text[i];
        proof {
            assert(text@.take(i + 1).drop_last() =~= text@.take(i as int));
        }
        if byte == mark {
            parts.push(part);
            part = Vec::new();
        } else {
            part.push(byte);
        }
        i += 1;
    }
    proof {
        assert(text@.take(text@.len() as int) =~= text@);
    }
    parts.push(part);
    parts
}

/// Whether `entry` is the entry that stands for an empty log.
pub fn is_sentinel(entry: &[u8]) -> (same: bool)
    ensures
        same == (entry@ == sentinel()),
{
    let expected: [u8; 11] = [45u8, 45u8, 45u8, 45u8, 45u8, 58u8, 48u8, 48u8, 48u8, 48u8, 48u8];
    assert(expected@ =~= sentinel());
    if entry.len() != 11 {
        return false;
    }
    let mut i: usize = 0;
    while i < 11
        invariant
            i <= 11,
            entry@.len() == 11,
            expected@ == sentinel(),
            forall|j: int| 0 <= j < i ==> entry@[j] == expected@[j],
        decreases 11 - i,
    {
        if entry[i] != expected[i] {
            return false;
        }
        i += 1;
    }
    assert(entry@ =~= sentinel());
    true
}

/// Reads one entry of a log: nothing for the sentinel, a guess for a
/// well-formed entry, and otherwise what is wrong with the entry.
pub fn read_entry(entry: &[u8]) -> (out: Result<Option<Guess>, HistoryFault>)
    ensures
        match out {
            Ok(None) => entry@ == sentinel(),
            Ok(Some(guess)) => entry@ != sentinel() && fault_of(entry@) is None && says(
                entry@,
                guess,
            ),
            Err(fault) => fault_of(entry@) == Some(fault),
        },
{
    if is_sentinel(entry) {
        return Ok(None);
    }
    let parts = split_bytes(entry, MASK_MARK);
    if parts.len() < 2 {
        return Err(HistoryFault::MalformedHistoryEntry);
    }
    let digits: &Vec<u8> = &parts[1];
    let mut i: usize = 0;
    while i < digits.len()
        invariant
            i <= digits.len(),
            entry@ != sentinel(),
            split(entry@, MASK_MARK).len() >= 2,
            digits@ == split(entry@, MASK_MARK)[1],
            forall|j: int| 0 <= j < i ==> is_mark_digit(#[trigger] digits@[j]),
        decreases digits.len() - i,
    {
        if digits[i] < 49 || digits[i] > 51 {
            assert(!is_mark_digit(split(entry@, MASK_MARK)[1][i as int]));
            return Err(HistoryFault::InvalidMaskCharacter);
        }
        i += 1;
    }
    if digits.len() != 5 {
        return Err(HistoryFault::MalformedHistoryEntry);
    }
    let word = match Word::from_bytes(parts[0].as_slice()) {
        Some(word) => word,
        None => {
            return Err(HistoryFault::MalformedHistoryEntry);
        },
    };
    let mut mask: [Correctness; 5] = [Correctness::Correct;5];
    let mut i: usize = 0;
    while i < 5
        invariant
            i <= 5,
            digits@.len() == 5,
            forall|j: int| 0 <= j < i ==> #[trigger] mask@[j] == mark_of(digits@[j]),
        decreases 5 - i,
    {
        let digit: u8 = digits[i];
        mask[i] = if digit == 49 {
            Correctness::Wrong
        } else if digit == 50 {
            Correctness::Misplaced
        } else {
            Correctness::Correct
        };
        i += 1;
    }
    assert(mask@ =~= mask_of(entry@));
    Ok(Some(Guess { word, mask }))
}

/// Reads a log of guesses.
///
/// The log is read as its bytes, entry by entry. When every entry can be
/// read, the result holds the guesses that the entries say, in their order,
/// without the sentinels. Otherwise the result names the first entry that
/// cannot be read and what is wrong with it.
pub fn get_guesses(state: &str) -> (out: Result<Vec<Guess>, HistoryError>)
    ensures
        match out {
            Ok(history) => {
                let entries = split(state.spec_bytes(), ENTRY_MARK);
                &&& forall|i: int| 0 <= i < entries.len() ==> fault_of(#[trigger] entries[i]) is None
                &&& history.len() == telling_entries(entries).len()
                &&& forall|k: int|
                    0 <= k < history.len() ==> says(telling_entries(entries)[k], #[trigger] history[k])
            },
            Err(error) => {
                let entries = split(state.spec_bytes(), ENTRY_MARK);
                &&& error.entry < entries.len()
                &&& fault_of(entries[error.entry as int]) == Some(error.fault)
                &&& forall|i: int| 0 <= i < error.entry ==> fault_of(#[trigger] entries[i]) is None
            },
        },
{
    let parts = split_bytes(state.as_bytes(), ENTRY_MARK);
    let ghost entries = split(state.spec_bytes(), ENTRY_MARK);
    let mut history: Vec<Guess> = Vec::new();
    let mut i: usize = 0;
    proof {
        reveal(Seq::filter);
        assert(entries.take(0) =~= Seq::empty());
    }
    while i < parts.len()
        invariant
            i <= parts.len(),
            entries == split(state.spec_bytes(), ENTRY_MARK),
            parts.len() == entries.len(),
            forall|j: int| 0 <= j < parts.len() ==> (#[trigger] parts[j])@ == entries[j],
            forall|j: int| 0 <= j < i ==> fault_of(#[trigger] entries[j]) is None,
            history.len() == telling_entries(entries.take(i as int)).len(),
            forall|k: int|
                0 <= k < history.len() ==> says(
                    telling_entries(entries.take(i as int))[k],
                    #[trigger] history[k],
                ),
        decreases parts.len() - i,
    {
        proof {
            reveal(Seq::filter);
            assert(entries.take(i + 1).drop_last() =~= entries.take(i as int));
        }
        match read_entry(parts[i].as_slice()) {
            Ok(None) => {},
            Ok(Some(guess)) => {
                history.push(guess);
            },
            Err(fault) => {
                return Err(HistoryError { fault, entry: i });
            },
        }
        i += 1;
    }
    proof {
        assert(entries.take(entries.len() as int) =~= entries);
    }
    Ok(history)
}

} // verus!
