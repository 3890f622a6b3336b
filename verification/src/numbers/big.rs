//! Arbitrarily large natural numbers.
//!
//! A [`BigNat`] holds its value as base 2<sup>32</sup> digits, least
//! significant first, the layout that `num_bigint::BigUint` uses. The
//! arithmetic itself is done by `num-bigint` behind the trusted wrappers of
//! this module, each of which states its result over the value.

use num_bigint::BigUint;
use vstd::arithmetic::power::pow;
use vstd::arithmetic::power2::pow2;
use vstd::prelude::*;

verus! {

/// The number that base 2<sup>32</sup> digits stand for, least significant first.
pub open spec fn digits_value(digits: Seq<u32>) -> nat
    decreases digits.len(),
{
    if digits.len() == 0 {
        0
    } else {
        digits[0] as nat + 0x1_0000_0000 * digits_value(digits.subrange(1, digits.len() as int))
    }
}

/// The number of binary digits of `m`: zero for zero, else the `b` with
/// `2^(b-1) <= m < 2^b`.
pub open spec fn bit_length(m: nat) -> nat
    decreases m,
{
    if m == 0 {
        0
    } else {
        1 + bit_length(m / 2)
    }
}

/// A natural number of any size.
pub struct BigNat {
    pub(crate) digits: Vec<u32>,
}

impl View for BigNat {
    type V = nat;

    closed spec fn view(&self) -> nat {
        digits_value(self.digits@)
    }
}

proof fn lemma_two_digits(lo: u32, hi: u32)
    ensures
        digits_value(seq![lo, hi]) == lo + 0x1_0000_0000 * hi,
{
    let s = seq![lo, hi];
    assert(s.subrange(1, 2) =~= seq![hi]);
    assert(seq![hi].subrange(1, 1) =~= Seq::<u32>::empty());
    assert(digits_value(Seq::<u32>::empty()) == 0);
    assert(digits_value(seq![hi]) == hi as nat);
}

impl BigNat {
    /// The number that `digits` stand for, base 2<sup>32</sup>, least significant first.
    pub fn from_digits(digits: Vec<u32>) -> (r: BigNat)
        ensures
            r@ == digits_value(digits@),
    {
        BigNat { digits }
    }

    /// The number `v`.
    pub fn from_u64(v: u64) -> (r: BigNat)
        ensures
            r@ == v,
    {
        let lo: u32 = (v % 0x1_0000_0000) as u32;
        let hi: u32 = (v / 0x1_0000_0000) as u32;
        proof {
            lemma_two_digits(lo, hi);
        }
        let digits = vec![lo, hi];
        assert(digits@ =~= seq![lo, hi]);
        BigNat { digits }
    }
}

/// `BigUint`'s subtraction of a `u8`: the difference. The subtraction panics
/// below zero, so `rhs` may not exceed the value.
#[verifier::external_body]
pub(crate) fn sub_small(a: &BigNat, rhs: u8) -> (r: BigNat)
    requires
        rhs <= a@,
    ensures
        r@ == a@ - rhs,
{
    let x = BigUint::new(a.digits.clone());
    BigNat { digits: (x - rhs).to_u32_digits() }
}

/// `BigUint`'s `<`.
#[verifier::external_body]
pub(crate) fn less_than(a: &BigNat, b: &BigNat) -> (r: bool)
    ensures
        r == (a@ < b@),
{
    BigUint::new(a.digits.clone()) < BigUint::new(b.digits.clone())
}

/// `BigUint`'s `==`.
#[verifier::external_body]
pub(crate) fn equals(a: &BigNat, b: &BigNat) -> (r: bool)
    ensures
        r == (a@ == b@),
{
    BigUint::new(a.digits.clone()) == BigUint::new(b.digits.clone())
}

/// `BigUint::trailing_zeros`: the number of least significant zero bits,
/// `None` for zero.
#[verifier::external_body]
pub(crate) fn trailing_zeros(a: &BigNat) -> (r: Option<u64>)
    ensures
        r is None <==> a@ == 0,
        r matches Some(s) ==> a@ % pow2(s as nat) == 0 && (a@ / pow2(s as nat)) % 2 == 1,
{
    BigUint::new(a.digits.clone()).trailing_zeros()
}

/// `BigUint`'s `>>` by a `u64`: the value divided by `2^shift`, rounded down.
#[verifier::external_body]
pub(crate) fn shift_right(a: &BigNat, shift: u64) -> (r: BigNat)
    ensures
        r@ == a@ / pow2(shift as nat),
{
    let x = BigUint::new(a.digits.clone());
    BigNat { digits: (x >> shift).to_u32_digits() }
}

/// `BigUint::bits`: the fewest bits that express the value.
#[verifier::external_body]
pub(crate) fn bits(a: &BigNat) -> (r: u64)
    ensures
        r == bit_length(a@),
{
    BigUint::new(a.digits.clone()).bits()
}

/// `BigUint::pow`: the value raised to `exponent`.
#[verifier::external_body]
pub(crate) fn power(a: &BigNat, exponent: u32) -> (r: BigNat)
    ensures
        r@ == pow(a@ as int, exponent as nat),
{
    BigNat { digits: BigUint::new(a.digits.clone()).pow(exponent).to_u32_digits() }
}

/// `BigUint::modpow`: `base` raised to `exponent`, modulo `modulus`. It
/// panics on a zero modulus; a modulus of one is left out here too.
#[verifier::external_body]
pub(crate) fn modpow(base: &BigNat, exponent: &BigNat, modulus: &BigNat) -> (r: BigNat)
    requires
        modulus@ > 1,
    ensures
        r@ == pow(base@ as int, exponent@) % (modulus@ as int),
{
    let b = BigUint::new(base.digits.clone());
    let e = BigUint::new(exponent.digits.clone());
    let m = BigUint::new(modulus.digits.clone());
    BigNat { digits: b.modpow(&e, &m).to_u32_digits() }
}

} // verus!
