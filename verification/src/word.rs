//! Five-letter words.

use vstd::prelude::*;
use vstd::std_specs::cmp::PartialEqSpecImpl;
use vstd::string::StringSliceAdditionalSpecFns;

verus! {

/// Whether `letter` is a lowercase ASCII letter.
pub open spec fn is_lowercase(letter: u8) -> bool {
    97 <= letter <= 122
}

/// Whether `letters` spells a word: five lowercase ASCII letters.
pub open spec fn is_word(letters: Seq<u8>) -> bool {
    &&& letters.len() == 5
    &&& forall|i: int| 0 <= i < 5 ==> is_lowercase(#[trigger] letters[i])
}

/// A word of exactly five lowercase ASCII letters.
#[derive(Clone, Copy, Debug)]
pub struct Word {
    letters: [u8; 5],
}

impl View for Word {
    type V = Seq<u8>;

    /// The letters of the word, first letter first.
    closed spec fn view(&self) -> Seq<u8> {
        self.letters@
    }
}

impl Word {
    #[verifier::type_invariant]
    spec fn lowercase(self) -> bool {
        is_word(self.letters@)
    }

    /// The view of any value of the type has five letters.
    pub broadcast proof fn lemma_length(self)
        ensures
            #[trigger] self@.len() == 5,
    {
    }

    /// Makes a word of five letters, if all of them are lowercase.
    pub fn from_letters(letters: [u8; 5]) -> (out: Option<Word>)
        ensures
            out is Some <==> is_word(letters@),
            out is Some ==> out->0@ == letters@,
    {
        let mut i: usize = 0;
        while i < 5
            invariant
                i <= 5,
                forall|j: int| 0 <= j < i ==> is_lowercase(#[trigger] letters@[j]),
            decreases 5 - i,
        {
            if letters[i] < 97 || letters[i] > 122 {
                return None;
            }
            i += 1;
        }
        Some(Word { letters })
    }

    /// Reads a word from text: `Some` exactly when the text is five
    /// lowercase ASCII letters.
    pub fn new(text: &str) -> (out: Option<Word>)
        ensures
            out is Some <==> is_word(text.spec_bytes()),
            out is Some ==> out->0@ == text.spec_bytes(),
    {
        Word::from_bytes(text.as_bytes())
    }

    /// Reads a word from bytes: `Some` exactly when they are five lowercase
    /// ASCII letters.
    pub fn from_bytes(bytes: &[u8]) -> (out: Option<Word>)
        ensures
            out is Some <==> is_word(bytes@),
            out is Some ==> out->0@ == bytes@,
    {
        if bytes.len() != 5 {
            return None;
        }
        let mut letters: [u8; 5] = [97u8; 5];
        let mut i: usize = 0;
        while i < 5
            invariant
                i <= 5,
                bytes@.len() == 5,
                forall|j: int| 0 <= j < i ==> is_lowercase(#[trigger] bytes@[j]),
                forall|j: int| 0 <= j < i ==> letters@[j] == bytes@[j],
            decreases 5 - i,
        {
            let b: u8 = bytes[i];
            if b < 97 || b > 122 {
                return None;
            }
            letters[i] = b;
            i += 1;
        }
        assert(letters@ =~= bytes@);
        Some(Word { letters })
    }

    /// The letters of the word.
    pub fn letters(&self) -> (out: [u8; 5])
        ensures
            out@ == self@,
    {
        self.letters
    }

    /// The letter at `position`.
    pub fn letter(&self, position: usize) -> (out: u8)
        requires
            position < 5,
        ensures
            out == self@[position as int],
            is_lowercase(out),
    {
        proof {
            use_type_invariant(self);
        }
        self.letters[position]
    }
}

impl PartialEq for Word {
    /// Two words are equal when they have the same letters.
    fn eq(&self, other: &Word) -> (same: bool) {
        let mut i: usize = 0;
        while i < 5
            invariant
                i <= 5,
                forall|j: int| 0 <= j < i ==> self.letters@[j] == other.letters@[j],
            decreases 5 - i,
        {
            if self.letters[i] != other.letters[i] {
                return false;
            }
            i += 1;
        }
        assert(self.letters@ =~= other.letters@);
        true
    }
}

impl PartialEqSpecImpl for Word {
    open spec fn obeys_eq_spec() -> bool {
        true
    }

    open spec fn eq_spec(&self, other: &Word) -> bool {
        self@ == other@
    }
}

impl Eq for Word {

}

} // verus!
