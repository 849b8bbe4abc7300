//! Natural numbers without an upper bound.
//!
//! Scores of guesses are products of many factors and outgrow every machine
//! integer. They are kept as digits in base 2^32, the least significant
//! digit first. Leading zero digits are allowed and change nothing.

use vstd::prelude::*;

verus! {

/// The base of the digits: 2^32.
pub open spec fn radix() -> nat {
    4294967296
}

/// The base raised to `exponent`.
pub open spec fn radix_power(exponent: nat) -> nat
    decreases exponent,
{
    if exponent == 0 {
        1
    } else {
        radix() * radix_power((exponent - 1) as nat)
    }
}

/// The number that `digits` spell, the least significant digit first.
pub open spec fn value_of(digits: Seq<u32>) -> nat
    decreases digits.len(),
{
    if digits.len() == 0 {
        0
    } else {
        value_of(digits.drop_last()) + digits.last() as nat * radix_power(
            (digits.len() - 1) as nat,
        )
    }
}

/// A natural number of any size.
#[derive(Debug)]
pub struct Natural {
    digits: Vec<u32>,
}

impl View for Natural {
    type V = nat;

    /// The number itself.
    closed spec fn view(&self) -> nat {
        value_of(self.digits@)
    }
}

/// A larger exponent never gives a smaller power, and no power is zero.
proof fn lemma_radix_power_grows(low: nat, high: nat)
    requires
        low <= high,
    ensures
        1 <= radix_power(low) <= radix_power(high),
    decreases high,
{
    if low < high {
        lemma_radix_power_grows(low, (high - 1) as nat);
        assert(radix_power((high - 1) as nat) <= radix() * radix_power((high - 1) as nat))
            by (nonlinear_arith)
            requires
                radix() >= 1,
        ;
    } else if low > 0 {
        lemma_radix_power_grows((low - 1) as nat, (low - 1) as nat);
        assert(1 <= radix() * radix_power((low - 1) as nat)) by (nonlinear_arith)
            requires
                radix() >= 1,
                radix_power((low - 1) as nat) >= 1,
        ;
    }
}

/// A number of `n` digits is below the base raised to `n`.
proof fn lemma_value_bound(digits: Seq<u32>)
    ensures
        value_of(digits) < radix_power(digits.len()),
    decreases digits.len(),
{
    if digits.len() > 0 {
        lemma_value_bound(digits.drop_last());
        let power = radix_power((digits.len() - 1) as nat);
        let top = digits.last() as nat;
        assert(top * power + power <= radix() * power) by (nonlinear_arith)
            requires
                top + 1 <= radix(),
        ;
    }
}

/// A number whose most significant digit is not zero is at least the base
/// raised to the number of its other digits.
proof fn lemma_value_floor(digits: Seq<u32>)
    requires
        digits.len() > 0,
        digits.last() != 0,
    ensures
        radix_power((digits.len() - 1) as nat) <= value_of(digits),
{
    let power = radix_power((digits.len() - 1) as nat);
    let top = digits.last() as nat;
    assert(power <= top * power) by (nonlinear_arith)
        requires
            top >= 1,
    ;
}

/// Of two numbers with equally many digits, the one with the smaller digit
/// at the most significant place where they differ is the smaller.
proof fn lemma_first_difference_decides(first: Seq<u32>, second: Seq<u32>, place: int)
    requires
        first.len() == second.len(),
        0 <= place < first.len(),
        first[place] < second[place],
        forall|j: int| place < j < first.len() ==> first[j] == second[j],
    ensures
        value_of(first) < value_of(second),
    decreases first.len(),
{
    let power = radix_power((first.len() - 1) as nat);
    if place == first.len() - 1 {
        lemma_value_bound(first.drop_last());
        let low = first.last() as nat;
        let high = second.last() as nat;
        assert(low * power + power <= high * power) by (nonlinear_arith)
            requires
                low + 1 <= high,
        ;
    } else {
        lemma_first_difference_decides(first.drop_last(), second.drop_last(), place);
    }
}

/// One step of a multiplication digit by digit.
proof fn lemma_multiply_step(
    done: nat,
    carry: nat,
    power: nat,
    read: nat,
    factor: nat,
    digit: nat,
    low: nat,
    next_carry: nat,
)
    requires
        done + carry * power == read * factor,
        digit * factor + carry == low + next_carry * radix(),
    ensures
        done + low * power + next_carry * (radix() * power) == (read + digit * power) * factor,
{
    assert(done + low * power + next_carry * (radix() * power) == (read + digit * power) * factor)
        by (nonlinear_arith)
        requires
            done + carry * power == read * factor,
            digit * factor + carry == low + next_carry * radix(),
    ;
}

impl Natural {
    /// The number `value`.
    pub fn from_u64(value: u64) -> (out: Natural)
        ensures
            out@ == value,
    {
        let low: u32 = (value % 4294967296) as u32;
        let high: u32 = (value / 4294967296) as u32;
        let mut digits: Vec<u32> = Vec::new();
        digits.push(low);
        digits.push(high);
        proof {
            let lower = digits@.drop_last();
            assert(lower.drop_last() =~= Seq::<u32>::empty());
            assert(value_of(lower.drop_last()) == 0);
            assert(radix_power(0) == 1);
            assert(radix_power(1) == radix() * radix_power(0));
            assert(value_of(lower) == value_of(lower.drop_last()) + lower.last() as nat
                * radix_power(0));
            assert(lower.last() == low);
            assert(value_of(digits@) == value_of(lower) + digits@.last() as nat * radix_power(1));
            assert(digits@.last() == high);
        }
        Natural { digits }
    }

    /// Multiplies the number by `factor`.
    pub fn multiply(&mut self, factor: u64)
        ensures
            final(self)@ == old(self)@ * factor,
    {
        let mut product: Vec<u32> = Vec::new();
        let mut carry: u64 = 0;
        let mut i: usize = 0;
        let count: usize = self.digits.len();
        proof {
            assert(self.digits@.take(0) =~= Seq::<u32>::empty());
            assert(value_of(self.digits@.take(0)) == 0);
            assert(value_of(product@) == 0);
            assert(0 * radix_power(0) == 0 && 0 * factor == 0) by (nonlinear_arith);
        }
        while i < count
            invariant
                i <= count,
                count == self.digits.len(),
                *self == *old(self),
                product.len() == i,
                value_of(product@) + carry * radix_power(i as nat) == value_of(
                    self.digits@.take(i as int),
                ) * factor,
            decreases count - i,
        {
            let digit: u32 = self.digits[i];
            assert(digit * factor + carry <= 4294967296 * 18446744073709551615)
                by (nonlinear_arith)
                requires
                    digit <= 4294967295,
                    factor <= 18446744073709551615,
                    carry <= 18446744073709551615,
            ;
            let total: u128 = (digit as u128) * (factor as u128) + (carry as u128);
            let low: u32 = (total % 4294967296) as u32;
            let next_carry: u64 = (total / 4294967296) as u64;
            proof {
                lemma_multiply_step(
                    value_of(product@),
                    carry as nat,
                    radix_power(i as nat),
                    value_of(self.digits@.take(i as int)),
                    factor as nat,
                    digit as nat,
                    low as nat,
                    next_carry as nat,
                );
                assert(self.digits@.take(i + 1).drop_last() =~= self.digits@.take(i as int));
                assert(product@.push(low).drop_last() =~= product@);
            }
            product.push(low);
            carry = next_carry;
            i += 1;
        }
        proof {
            assert(self.digits@.take(count as int) =~= self.digits@);
        }
        let low: u32 = (carry % 4294967296) as u32;
        let high: u32 = (carry / 4294967296) as u32;
        proof {
            let power = radix_power(count as nat);
            let longer = product@.push(low);
            let longest = longer.push(high);
            assert(longer.drop_last() =~= product@);
            assert(longest.drop_last() =~= longer);
            assert(value_of(longer) == value_of(product@) + low as nat * power);
            assert(radix_power((count + 1) as nat) == radix() * power);
            assert(value_of(longest) == value_of(longer) + high as nat * (radix() * power));
            assert(low * power + high * (radix() * power) == carry * power) by (nonlinear_arith)
                requires
                    carry == low + high * radix(),
            ;
            assert(high == 0 ==> high * (radix() * power) == 0) by (nonlinear_arith);
            assert(carry == 0 ==> carry * power == 0) by (nonlinear_arith);
        }
        if carry > 0 {
            product.push(low);
            if high > 0 {
                product.push(high);
            }
        }
        self.digits = product;
    }

    /// Whether the number is smaller than `other`.
    pub fn less_than(&self, other: &Natural) -> (smaller: bool)
        ensures
            smaller == (self@ < other@),
    {
        let own: usize = significant(&self.digits);
        let others: usize = significant(&other.digits);
        let ghost first = self.digits@.take(own as int);
        let ghost second = other.digits@.take(others as int);
        if own != others {
            proof {
                lemma_value_bound(first);
                lemma_value_bound(second);
                if own < others {
                    lemma_value_floor(second);
                    lemma_radix_power_grows(own as nat, (others - 1) as nat);
                } else {
                    lemma_value_floor(first);
                    lemma_radix_power_grows(others as nat, (own - 1) as nat);
                }
            }
            return own < others;
        }
        let mut i: usize = own;
        while i > 0
            invariant
                i <= own,
                own == others,
                own <= self.digits.len(),
                others <= other.digits.len(),
                first == self.digits@.take(own as int),
                second == other.digits@.take(others as int),
                value_of(first) == self@,
                value_of(second) == other@,
                forall|j: int| i <= j < own ==> first[j] == second[j],
            decreases i,
        {
            i -= 1;
            let mine: u32 = self.digits[i];
            let theirs: u32 = other.digits[i];
            if mine != theirs {
                proof {
                    if mine < theirs {
                        lemma_first_difference_decides(first, second, i as int);
                    } else {
                        lemma_first_difference_decides(second, first, i as int);
                    }
                }
                return mine < theirs;
            }
        }
        assert(first =~= second);
        false
    }
}

/// The number of digits up to the most significant one that is not zero.
fn significant(digits: &Vec<u32>) -> (count: usize)
    ensures
        count <= digits.len(),
        count > 0 ==> digits[count - 1] != 0,
        value_of(digits@.take(count as int)) == value_of(digits@),
{
    let mut count: usize = digits.len();
    proof {
        assert(digits@.take(count as int) =~= digits@);
    }
    while count > 0 && digits[count - 1] == 0
        invariant
            count <= digits.len(),
            value_of(digits@.take(count as int)) == value_of(digits@),
        decreases count,
    {
        proof {
            let longer = digits@.take(count as int);
            assert(longer.drop_last() =~= digits@.take(count - 1));
            assert(longer.last() == 0);
            assert(value_of(longer) == value_of(longer.drop_last()) + longer.last() as nat
                * radix_power((longer.len() - 1) as nat));
        }
        count -= 1;
    }
    count
}

} // verus!
