//! Decimal digits of unsigned numbers: how many the greatest number of a
//! slice has, and which one stands at a given place of a number.

use vstd::arithmetic::power::{lemma_pow_increases, lemma_pow_positive, pow};
use vstd::prelude::*;

verus! {

/// The base in which digits are counted and taken.
pub const BASE_10: u8 = 10;

/// The number of decimal digits of `n`; zero has one digit.
pub open spec fn decimal_digits(n: nat) -> nat
    decreases n,
{
    if n < 10 {
        1
    } else {
        1 + decimal_digits(n / 10)
    }
}

/// The greatest number of `s`; zero where `s` is empty.
pub open spec fn greatest(s: Seq<u128>) -> u128
    decreases s.len(),
{
    if s.len() == 0 {
        0
    } else if s.last() > greatest(s.drop_last()) {
        s.last()
    } else {
        greatest(s.drop_last())
    }
}

/// `num::NumCast::from` for `u128`, on a `u8`: the same number, always.
#[verifier::external_body]
fn number_of(small: u8) -> (number: Option<u128>)
    ensures
        number == Some(small as u128),
{
    <u128 as num::NumCast>::from(small)
}

/// `num::Zero::zero` for `u128`: the number zero.
#[verifier::external_body]
fn zero() -> (number: u128)
    ensures
        number == 0,
{
    <u128 as num::Zero>::zero()
}

/// `num::PrimInt::pow` for `u128`: `base` multiplied with itself `exp`
/// times, where that fits in `u128`; where it does not, the call may panic,
/// which the precondition excludes.
#[verifier::external_body]
fn power(base: u128, exp: u32) -> (number: u128)
    requires
        pow(base as int, exp as nat) <= u128::MAX,
    ensures
        number == pow(base as int, exp as nat),
{
    num::PrimInt::pow(base, exp)
}

/// Ten to the power of 38 is the greatest power of ten within `u128`.
pub proof fn lemma_power_of_ten_within_u128(e: nat)
    requires
        e <= 38,
    ensures
        0 < pow(10, e) <= 100000000000000000000000000000000000000 <= u128::MAX,
        pow(10, 39) > u128::MAX,
{
    reveal_with_fuel(pow, 40);
    assert(pow(10, 38) == 100000000000000000000000000000000000000);
    lemma_pow_increases(10, e, 38);
    lemma_pow_positive(10, e);
}

/// A number below the `k`-th power of ten has at most `k` digits.
pub proof fn lemma_digits_below_power(n: nat, k: nat)
    requires
        k >= 1,
        n < pow(10, k),
    ensures
        decimal_digits(n) <= k,
    decreases k,
{
    reveal(pow);
    if n >= 10 {
        if k == 1 {
            assert(pow(10, 0) == 1);
        } else {
            lemma_digits_below_power(n / 10, (k - 1) as nat);
        }
    }
}

/// The number of decimal digits of the greatest number of a non-empty slice.
pub fn count_max_digits(src: &[u128]) -> (max_digits: usize)
    requires
        src@.len() >= 1,
    ensures
        max_digits == decimal_digits(greatest(src@) as nat),
        1 <= max_digits <= 39,
{
    let mut max = src[0];
    let mut i: usize = 1;
    assert(max == greatest(src@.take(1))) by {
        assert(src@.take(1).drop_last() =~= Seq::<u128>::empty());
        assert(greatest(Seq::<u128>::empty()) == 0);
        assert(src@.take(1).last() == src@[0]);
    }
    while i < src.len()
        invariant
            1 <= i <= src@.len(),
            max == greatest(src@.take(i as int)),
        decreases src@.len() - i,
    {
        assert(src@.take(i + 1).drop_last() =~= src@.take(i as int));
        if src[i] > max {
            max = src[i];
        }
        i += 1;
    }
    assert(src@.take(src@.len() as int) =~= src@);
    let divisor = number_of(BASE_10).unwrap();
    let ghost whole = max;
    proof {
        lemma_power_of_ten_within_u128(0);
        lemma_digits_below_power(whole as nat, 39);
    }
    let mut max_digits: usize = 1;
    loop
        invariant_except_break
            max_digits - 1 + decimal_digits(max as nat) == decimal_digits(whole as nat),
        invariant
            divisor == 10,
            1 <= max_digits,
            decimal_digits(whole as nat) <= 39,
        ensures
            max_digits == decimal_digits(whole as nat),
        decreases max,
    {
        max = max / divisor;
        if max == zero() {
            break;
        }
        max_digits += 1;
    }
    max_digits
}

/// The decimal digit of `num` at place `radix`, counted from one at the
/// right. A `u128` has 39 places.
pub fn get_digit(num: u128, radix: u32) -> (digit: u128)
    requires
        1 <= radix <= 39,
    ensures
        digit == (num as int / pow(10, (radix - 1) as nat)) % 10,
{
    let divisor = number_of(BASE_10).unwrap();
    proof {
        lemma_power_of_ten_within_u128((radix - 1) as nat);
    }
    num / power(divisor, radix - 1) % divisor
}

} // verus!
