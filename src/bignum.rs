//! Arbitrary-precision naturals from `num-bigint`, seen through the number
//! each value holds.

use vstd::prelude::*;
use num_bigint::BigUint;
use num_integer::Integer;
use num_traits::{Pow, ToPrimitive};

verus! {

#[verifier::external_type_specification]
#[verifier::external_body]
pub struct ExBigUint(BigUint);

/// The number a `BigUint` holds.
pub uninterp spec fn big_value(b: BigUint) -> nat;

/// `base` to the power `exp`.
pub open spec fn power(base: nat, exp: nat) -> nat
    decreases exp,
{
    if exp == 0 {
        1
    } else {
        base * power(base, (exp - 1) as nat)
    }
}

/// Bytes read as a little-endian number.
pub open spec fn le_value(bytes: Seq<u8>) -> nat
    decreases bytes.len(),
{
    if bytes.len() == 0 {
        0
    } else {
        bytes[0] as nat + 256 * le_value(bytes.drop_first())
    }
}

/// How many binary digits `n` has; zero has none.
pub open spec fn bit_length(n: nat) -> nat
    decreases n,
{
    if n == 0 {
        0
    } else {
        1 + bit_length(n / 2)
    }
}

/// Relies on `From<usize> for BigUint`: the same number.
#[verifier::external_body]
pub(crate) fn big_from_usize(n: usize) -> (r: BigUint)
    ensures
        big_value(r) == n,
{
    BigUint::from(n)
}

/// Relies on `BigUint::from_bytes_le`: the bytes read least significant first.
#[verifier::external_body]
pub(crate) fn big_from_bytes_le(bytes: &[u8]) -> (r: BigUint)
    ensures
        big_value(r) == le_value(bytes@),
{
    BigUint::from_bytes_le(bytes)
}

/// Relies on `Pow<usize> for &BigUint`: `b` raised to `e`.
#[verifier::external_body]
pub(crate) fn big_pow(b: &BigUint, e: usize) -> (r: BigUint)
    ensures
        big_value(r) == power(big_value(*b), e as nat),
{
    Pow::pow(b, e)
}

/// Relies on `Sub<u32> for BigUint`, which panics below zero: the difference.
#[verifier::external_body]
pub(crate) fn big_sub(b: BigUint, k: u32) -> (r: BigUint)
    requires
        big_value(b) >= k,
    ensures
        big_value(r) == big_value(b) - k,
{
    b - k
}

/// Relies on `BigUint::bits`: the fewest bits that express the number.
#[verifier::external_body]
pub(crate) fn big_bits(b: &BigUint) -> (r: u64)
    ensures
        r == bit_length(big_value(*b)),
{
    b.bits()
}

/// Relies on `Integer::div_mod_floor for BigUint`, which panics on a zero
/// divisor: quotient and remainder.
#[verifier::external_body]
pub(crate) fn big_div_mod_floor(a: &BigUint, d: &BigUint) -> (r: (BigUint, BigUint))
    requires
        big_value(*d) > 0,
    ensures
        big_value(r.0) == big_value(*a) / big_value(*d),
        big_value(r.1) == big_value(*a) % big_value(*d),
{
    a.div_mod_floor(d)
}

/// Relies on `ToPrimitive::to_usize for BigUint`: the number when it fits.
#[verifier::external_body]
pub(crate) fn big_to_usize(b: &BigUint) -> (r: Option<usize>)
    ensures
        big_value(*b) <= usize::MAX ==> r == Some(big_value(*b) as usize),
        big_value(*b) > usize::MAX ==> r is None,
{
    b.to_usize()
}

pub proof fn lemma_power_positive(base: nat, exp: nat)
    requires
        base > 0,
    ensures
        power(base, exp) > 0,
    decreases exp,
{
    if exp > 0 {
        lemma_power_positive(base, (exp - 1) as nat);
        assert(base * power(base, (exp - 1) as nat) > 0) by (nonlinear_arith)
            requires
                base > 0,
                power(base, (exp - 1) as nat) > 0,
        ;
    }
}

proof fn lemma_power_base_monotonic(a: nat, b: nat, exp: nat)
    requires
        a <= b,
    ensures
        power(a, exp) <= power(b, exp),
    decreases exp,
{
    if exp > 0 {
        let e = (exp - 1) as nat;
        lemma_power_base_monotonic(a, b, e);
        let pa = power(a, e);
        let pb = power(b, e);
        assert(a * pa <= b * pb) by (nonlinear_arith)
            requires
                a <= b,
                pa <= pb,
        ;
    }
}

proof fn lemma_power_two_plus_seven(m: nat)
    ensures
        power(2, m + 7) == 128 * power(2, m),
{
    assert(power(2, m + 1) == 2 * power(2, m));
    assert(power(2, m + 2) == 2 * power(2, m + 1));
    assert(power(2, m + 3) == 2 * power(2, m + 2));
    assert(power(2, m + 4) == 2 * power(2, m + 3));
    assert(power(2, m + 5) == 2 * power(2, m + 4));
    assert(power(2, m + 6) == 2 * power(2, m + 5));
    assert(power(2, m + 7) == 2 * power(2, m + 6));
}

/// Below `2^k` a number has at most `k` bits.
proof fn lemma_bit_length_below(n: nat, k: nat)
    requires
        n < power(2, k),
    ensures
        bit_length(n) <= k,
    decreases k,
{
    if n > 0 {
        let e = (k - 1) as nat;
        assert(k > 0);
        assert(n / 2 < power(2, e));
        lemma_bit_length_below(n / 2, e);
    }
}

/// A number below `b^t`, with `b` at most 128, has at most `7 t` bits.
pub proof fn lemma_bit_length_of_power(n: nat, b: nat, t: nat)
    requires
        b <= 128,
        n < power(b, t),
    ensures
        bit_length(n) <= 7 * t,
{
    lemma_power_base_monotonic(b, 128, t);
    lemma_power_128(t);
    lemma_bit_length_below(n, 7 * t);
}

proof fn lemma_power_128(t: nat)
    ensures
        power(128, t) == power(2, 7 * t),
    decreases t,
{
    if t > 0 {
        lemma_power_128((t - 1) as nat);
        lemma_power_two_plus_seven((7 * (t - 1)) as nat);
        assert(7 * t == 7 * (t - 1) + 7);
    }
}

} // verus!
