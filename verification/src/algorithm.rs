//! Narrowing the dictionary and choosing the next guess.
//!
//! A guess splits the words that may still be the answer into groups, one
//! for each mask that it can receive. With `n` words in groups of the sizes
//! `s`, the guess is expected to tell `-sum((s / n) * log2(s / n))` bits, the
//! entropy of the split. That is `log2(n) - log2(c) / n` for the product `c`
//! of all `s^s`, which is a natural number. So one guess has the larger
//! entropy exactly when its product is the smaller, and the products are
//! compared, exactly, in place of the entropies.

use vstd::prelude::*;
use crate::correctness::{enumerate_mask, feedback, mask_index, Correctness};
use crate::guess::Guess;
use crate::natural::Natural;
use crate::word::Word;

verus! {

/// Why no guess was chosen.
#[derive(Clone, Copy, Debug, PartialEq, Eq, Structural)]
pub enum SelectionError {
    /// No word of the dictionary agrees with every earlier guess.
    EmptyCandidatePool,
    /// Several words are left, and every word of the dictionary is blocked.
    NoAdmissibleGuess,
}

/// Whether the word spelled `candidate` agrees with every guess of
/// `history`.
pub open spec fn consistent(history: Seq<Guess>, candidate: Seq<u8>) -> bool {
    forall|i: int| 0 <= i < history.len() ==> (#[trigger] history[i]).agrees_with(candidate)
}

/// The words of `dictionary` that agree with every guess of `history`, in
/// the order of the dictionary.
pub open spec fn candidates(dictionary: Seq<Word>, history: Seq<Guess>) -> Seq<Word> {
    dictionary.filter(|word: Word| consistent(history, word@))
}

/// Whether `blocked` holds the word spelled `word`.
pub open spec fn is_blocked(blocked: Seq<Word>, word: Seq<u8>) -> bool {
    exists|i: int| 0 <= i < blocked.len() && (#[trigger] blocked[i])@ == word
}

/// How many of the first `upto` words of `pool` would, as the answer, give
/// `guess` the mask with the number `index`.
pub open spec fn group_size(pool: Seq<Word>, guess: Seq<u8>, index: nat, upto: int) -> nat
    decreases upto,
{
    if upto <= 0 {
        0
    } else {
        group_size(pool, guess, index, upto - 1) + if mask_index(feedback(pool[upto - 1]@, guess))
            == index {
            1nat
        } else {
            0nat
        }
    }
}

/// `base` raised to `exponent`; 1 when `exponent` is 0.
pub open spec fn power(base: nat, exponent: nat) -> nat
    decreases exponent,
{
    if exponent == 0 {
        1
    } else {
        base * power(base, (exponent - 1) as nat)
    }
}

/// The product of `s^s` over the sizes `s` of the groups into which `guess`
/// splits `pool`, for the masks with a number below `masks`.
pub open spec fn crowding_below(pool: Seq<Word>, guess: Seq<u8>, masks: nat) -> nat
    decreases masks,
{
    if masks == 0 {
        1
    } else {
        let size = group_size(pool, guess, (masks - 1) as nat, pool.len() as int);
        crowding_below(pool, guess, (masks - 1) as nat) * power(size, size)
    }
}

/// The product of `s^s` over the sizes `s` of all groups into which `guess`
/// splits `pool`. The smaller it is, the larger is the entropy of the split.
pub open spec fn crowding(pool: Seq<Word>, guess: Seq<u8>) -> nat {
    crowding_below(pool, guess, 243)
}

/// Whether the dictionary word at `index` may be proposed.
pub open spec fn admissible(dictionary: Seq<Word>, blocked: Seq<Word>, index: int) -> bool {
    0 <= index < dictionary.len() && !is_blocked(blocked, dictionary[index]@)
}

/// Whether the dictionary word at `index` is the one to propose for `pool`:
/// it may be proposed, no word that may be proposed has a larger entropy,
/// and every such word before it has a smaller one.
pub open spec fn is_best(pool: Seq<Word>, dictionary: Seq<Word>, blocked: Seq<Word>, index: int) -> bool {
    &&& admissible(dictionary, blocked, index)
    &&& forall|other: int| #[trigger]
        admissible(dictionary, blocked, other) ==> crowding(pool, dictionary[index]@) <= crowding(
            pool,
            dictionary[other]@,
        )
    &&& forall|other: int| #[trigger]
        admissible(dictionary, blocked, other) && other < index ==> crowding(
            pool,
            dictionary[index]@,
        ) < crowding(pool, dictionary[other]@)
}

/// Whether `outcome` is what selecting from `pool` must give.
///
/// An empty pool gives `EmptyCandidatePool`. A pool of one word gives that
/// word, blocked or not. A larger pool gives `NoAdmissibleGuess` when every
/// dictionary word is blocked, and otherwise the best dictionary word that
/// is not blocked. The number beside the word is the size of the pool.
pub open spec fn selected(
    pool: Seq<Word>,
    dictionary: Seq<Word>,
    blocked: Seq<Word>,
    outcome: Result<(Word, usize), SelectionError>,
) -> bool {
    if pool.len() == 0 {
        outcome == Err::<(Word, usize), SelectionError>(SelectionError::EmptyCandidatePool)
    } else if pool.len() == 1 {
        outcome == Ok::<(Word, usize), SelectionError>((pool[0], 1))
    } else if forall|index: int| !#[trigger] admissible(dictionary, blocked, index) {
        outcome == Err::<(Word, usize), SelectionError>(SelectionError::NoAdmissibleGuess)
    } else {
        &&& outcome is Ok
        &&& outcome->Ok_0.1 == pool.len()
        &&& exists|index: int| #[trigger]
            is_best(pool, dictionary, blocked, index) && outcome->Ok_0.0 == dictionary[index]
    }
}

/// At most one dictionary word is the best: the choice is determined by the
/// pool, the dictionary and the blocked words.
pub proof fn lemma_best_is_unique(
    pool: Seq<Word>,
    dictionary: Seq<Word>,
    blocked: Seq<Word>,
    first: int,
    second: int,
)
    requires
        is_best(pool, dictionary, blocked, first),
        is_best(pool, dictionary, blocked, second),
    ensures
        first == second,
{
}

/// Selecting has one outcome only: two outcomes that `selected` admits for
/// the same pool, dictionary and blocked words are the same.
pub proof fn lemma_selection_is_determined(
    pool: Seq<Word>,
    dictionary: Seq<Word>,
    blocked: Seq<Word>,
    first: Result<(Word, usize), SelectionError>,
    second: Result<(Word, usize), SelectionError>,
)
    requires
        selected(pool, dictionary, blocked, first),
        selected(pool, dictionary, blocked, second),
    ensures
        first == second,
{
    if pool.len() >= 2 && first is Ok && second is Ok {
        let i = choose|index: int| #[trigger]
            is_best(pool, dictionary, blocked, index) && first->Ok_0.0 == dictionary[index];
        let j = choose|index: int| #[trigger]
            is_best(pool, dictionary, blocked, index) && second->Ok_0.0 == dictionary[index];
        lemma_best_is_unique(pool, dictionary, blocked, i, j);
        assert(first->Ok_0 == second->Ok_0);
    }
}

/// A blocked word is never chosen from a pool of two or more words.
pub proof fn lemma_blocked_is_never_chosen(
    pool: Seq<Word>,
    dictionary: Seq<Word>,
    blocked: Seq<Word>,
    word: Word,
    size: usize,
)
    requires
        pool.len() >= 2,
        selected(pool, dictionary, blocked, Ok((word, size))),
    ensures
        !is_blocked(blocked, word@),
{
}

/// The words of `dictionary` that agree with every guess of `history`, in
/// the order of the dictionary.
pub fn filter(dictionary: &Vec<Word>, history: &Vec<Guess>) -> (pool: Vec<Word>)
    ensures
        pool@ == candidates(dictionary@, history@),
{
    let mut pool: Vec<Word> = Vec::new();
    let mut i: usize = 0;
    proof {
        reveal(Seq::filter);
        assert(dictionary@.take(0) =~= Seq::<Word>::empty());
    }
    while i < dictionary.len()
        invariant
            i <= dictionary.len(),
            pool@ == candidates(dictionary@.take(i as int), history@),
        decreases dictionary.len() - i,
    {
        let word: &Word = &dictionary[i];
        let mut agrees: bool = true;
        let mut k: usize = 0;
        while agrees && k < history.len()
            invariant
                k <= history.len(),
                agrees == (forall|j: int|
                    0 <= j < k ==> (#[trigger] history@[j]).agrees_with(word@)),
            decreases history.len() - k + if agrees { 1int } else { 0int },
        {
            agrees = history[k].matches(word);
            k += 1;
        }
        proof {
            reveal(Seq::filter);
            assert(dictionary@.take(i + 1).drop_last() =~= dictionary@.take(i as int));
            assert(agrees == consistent(history@, word@));
        }
        if agrees {
            pool.push(*word);
        }
        i += 1;
    }
    proof {
        assert(dictionary@.take(dictionary@.len() as int) =~= dictionary@);
    }
    pool
}

/// No group is larger than the part of the pool that was counted.
proof fn lemma_group_size_bound(pool: Seq<Word>, guess: Seq<u8>, index: nat, upto: int)
    requires
        0 <= upto,
    ensures
        group_size(pool, guess, index, upto) <= upto,
    decreases upto,
{
    if upto > 0 {
        lemma_group_size_bound(pool, guess, index, upto - 1);
    }
}

/// Whether `blocked` holds `word`.
pub fn blocks(blocked: &Vec<Word>, word: &Word) -> (held: bool)
    ensures
        held == is_blocked(blocked@, word@),
{
    let mut i: usize = 0;
    while i < blocked.len()
        invariant
            i <= blocked.len(),
            forall|j: int| 0 <= j < i ==> (#[trigger] blocked@[j])@ != word@,
        decreases blocked.len() - i,
    {
        if blocked[i] == *word {
            return true;
        }
        i += 1;
    }
    false
}

/// The sizes of the groups into which `guess` splits `pool`: at place `k`
/// the number of words that would give `guess` the mask with the number `k`.
pub fn group_sizes(pool: &Vec<Word>, guess: &Word) -> (sizes: Vec<usize>)
    ensures
        sizes.len() == 243,
        forall|k: int|
            0 <= k < 243 ==> #[trigger] sizes[k] == group_size(
                pool@,
                guess@,
                k as nat,
                pool.len() as int,
            ),
{
    let mut sizes: Vec<usize> = vec![0usize; 243];
    let mut i: usize = 0;
    while i < pool.len()
        invariant
            i <= pool.len(),
            sizes.len() == 243,
            forall|k: int|
                0 <= k < 243 ==> #[trigger] sizes[k] == group_size(
                    pool@,
                    guess@,
                    k as nat,
                    i as int,
                ),
        decreases pool.len() - i,
    {
        let mask = Correctness::compute(&pool[i], guess);
        let index = enumerate_mask(&mask);
        proof {
            lemma_group_size_bound(pool@, guess@, index as nat, i as int);
        }
        let size: usize = sizes[index];
        sizes.set(index, size + 1);
        i += 1;
    }
    sizes
}

/// The product of `s^s` over the sizes `s` of the groups into which `guess`
/// splits `pool`.
pub fn crowding_of(pool: &Vec<Word>, guess: &Word) -> (product: Natural)
    ensures
        product@ == crowding(pool@, guess@),
{
    let sizes = group_sizes(pool, guess);
    let mut product = Natural::from_u64(1);
    let mut k: usize = 0;
    while k < 243
        invariant
            k <= 243,
            sizes.len() == 243,
            forall|j: int|
                0 <= j < 243 ==> #[trigger] sizes[j] == group_size(
                    pool@,
                    guess@,
                    j as nat,
                    pool.len() as int,
                ),
            product@ == crowding_below(pool@, guess@, k as nat),
        decreases 243 - k,
    {
        let size: usize = sizes[k];
        let ghost before = product@;
        let mut times: usize = 0;
        proof {
            assert(before * power(size as nat, 0) == before) by (nonlinear_arith)
                requires
                    power(size as nat, 0) == 1,
            ;
        }
        while times < size
            invariant
                times <= size,
                product@ == before * power(size as nat, times as nat),
            decreases size - times,
        {
            proof {
                assert(before * power(size as nat, times as nat) * size == before * (size * power(
                    size as nat,
                    times as nat,
                ))) by (nonlinear_arith);
            }
            product.multiply(size as u64);
            times += 1;
        }
        k += 1;
    }
    product
}

/// Chooses the next guess for a pool of remaining words.
///
/// An empty pool has no guess. A pool of one word gives that word at once.
/// For a larger pool every dictionary word that is not blocked is scored by
/// how it splits the pool, and the first word with the largest entropy is
/// chosen. Beside the word stands the size of the pool.
pub fn select(pool: &Vec<Word>, dictionary: &Vec<Word>, blocked: &Vec<Word>) -> (outcome: Result<
    (Word, usize),
    SelectionError,
>)
    ensures
        selected(pool@, dictionary@, blocked@, outcome),
        pool.len() >= 2 && outcome is Ok ==> !is_blocked(blocked@, outcome->Ok_0.0@),
{
    if pool.len() == 0 {
        return Err(SelectionError::EmptyCandidatePool);
    }
    if pool.len() == 1 {
        return Ok((pool[0], 1));
    }
    let mut best: usize = 0;
    let mut least: Natural = Natural::from_u64(0);
    let mut found: bool = false;
    let mut i: usize = 0;
    while i < dictionary.len()
        invariant
            i <= dictionary.len(),
            !found ==> forall|j: int| 0 <= j < i ==> !#[trigger] admissible(dictionary@, blocked@, j),
            found ==> {
                &&& best < i
                &&& admissible(dictionary@, blocked@, best as int)
                &&& least@ == crowding(pool@, dictionary[best as int]@)
                &&& forall|j: int|
                    0 <= j < i && #[trigger] admissible(dictionary@, blocked@, j) ==> least@
                        <= crowding(pool@, dictionary[j]@)
                &&& forall|j: int|
                    0 <= j < best && #[trigger] admissible(dictionary@, blocked@, j) ==> least@
                        < crowding(pool@, dictionary[j]@)
            },
        decreases dictionary.len() - i,
    {
        if !blocks(blocked, &dictionary[i]) {
            let score = crowding_of(pool, &dictionary[i]);
            if !found || score.less_than(&least) {
                best = i;
                least = score;
                found = true;
            }
        }
        i += 1;
    }
    if found {
        proof {
            assert(is_best(pool@, dictionary@, blocked@, best as int));
        }
        Ok((dictionary[best], pool.len()))
    } else {
        Err(SelectionError::NoAdmissibleGuess)
    }
}

/// Chooses the next guess from the log of earlier guesses: selects from the
/// dictionary words that agree with every guess of `history`.
pub fn guess(dictionary: &Vec<Word>, history: &Vec<Guess>, blocked: &Vec<Word>) -> (outcome: Result<
    (Word, usize),
    SelectionError,
>)
    ensures
        selected(candidates(dictionary@, history@), dictionary@, blocked@, outcome),
        candidates(dictionary@, history@).len() >= 2 && outcome is Ok ==> !is_blocked(
            blocked@,
            outcome->Ok_0.0@,
        ),
{
    let pool = filter(dictionary, history);
    select(&pool, dictionary, blocked)
}

} // verus!
