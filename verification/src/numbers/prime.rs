//! The Miller-Rabin probable prime test.

use crate::numbers::big::{
    bit_length, bits, equals, less_than, modpow, power, shift_right, sub_small, trailing_zeros,
    BigNat,
};
use num_bigint::{BigRng010, BigUint};
use rand::rngs::StdRng;
use vstd::arithmetic::div_mod::lemma_fundamental_div_mod;
use vstd::arithmetic::power::pow;
use vstd::arithmetic::power2::{lemma_pow2_pos, lemma_pow2_unfold, pow2};
use vstd::prelude::*;

verus! {

#[verifier::external_type_specification]
#[verifier::external_body]
pub struct ExStdRng(StdRng);

/// The number of times 2 divides `m` (zero for zero).
pub open spec fn twos(m: nat) -> nat
    decreases m,
{
    if m > 0 && m % 2 == 0 {
        1 + twos(m / 2)
    } else {
        0
    }
}

/// `m` with every factor 2 divided out.
pub open spec fn odd_part(m: nat) -> nat {
    m / pow2(twos(m))
}

/// The `j`-th number of the squaring chain: `a^d mod n`, then each one
/// squared modulo `n`.
pub open spec fn square_chain(a: nat, d: nat, n: nat, j: nat) -> nat
    decreases j,
{
    if j == 0 {
        (pow(a as int, d) % (n as int)) as nat
    } else {
        (pow(square_chain(a, d, n, (j - 1) as nat) as int, 2) % (n as int)) as nat
    }
}

/// Step `j` of the chain finds no square root of one other than `1` and `n - 1`.
pub open spec fn step_ok(a: nat, d: nat, n: nat, j: nat) -> bool {
    !(square_chain(a, d, n, j + 1) == 1 && square_chain(a, d, n, j) != 1 && square_chain(a, d, n, j)
        != n - 1)
}

/// The Miller-Rabin round with base `a` on `n`, where `n - 1 = 2^s * d`:
/// no step of the chain finds a nontrivial square root of one, and after
/// `s` squarings, at `a^(n-1) mod n`, the chain stands at one.
pub open spec fn round_passes(a: nat, n: nat, s: nat, d: nat) -> bool {
    &&& forall|j: nat| j < s ==> #[trigger] step_ok(a, d, n, j)
    &&& square_chain(a, d, n, s) == 1
}

/// `n` passes the Miller-Rabin round with base `a`.
pub open spec fn passes_base(n: nat, a: nat) -> bool {
    round_passes(a, n, twos((n - 1) as nat), odd_part((n - 1) as nat))
}

/// The bases tried for numbers that fit in a `u64`: the primes up to 53.
pub open spec fn small_prime_bases() -> Seq<u64> {
    seq![2, 3, 5, 7, 11, 13, 17, 19, 23, 29, 31, 37, 41, 43, 47, 53]
}

/// Every small base below `n - 1` lets `n` pass.
pub open spec fn passes_small_bases(n: nat) -> bool {
    forall|i: int|
        0 <= i < 16 && small_prime_bases()[i] < n - 1 ==> #[trigger] passes_base(
            n,
            small_prime_bases()[i] as nat,
        )
}

/// Where the random bases for a number `n` above `u64::MAX` start:
/// `2^(b-1)`, with `b` the bit length of `n - 1`, or 2 where `n - 1` is that
/// power of two itself (and the range up to `n - 1` would be empty).
pub open spec fn random_base_floor(n: nat) -> nat {
    let p = pow2((bit_length((n - 1) as nat) - 1) as nat);
    if p < n - 1 {
        p
    } else {
        2
    }
}

proof fn lemma_twos(m: nat, s: nat, d: nat)
    requires
        m == pow2(s) * d,
        d % 2 == 1,
    ensures
        twos(m) == s,
    decreases s,
{
    if s == 0 {
        assert(pow2(0) == 1) by {
            lemma_pow2_pos(0);
            vstd::arithmetic::power::lemma_pow0(2);
        }
        assert(m == d);
    } else {
        lemma_pow2_unfold(s);
        let half = pow2((s - 1) as nat) * d;
        assert(m == 2 * half) by (nonlinear_arith)
            requires
                m == pow2(s) * d,
                pow2(s) == 2 * pow2((s - 1) as nat),
                half == pow2((s - 1) as nat) * d,
        ;
        lemma_pow2_pos((s - 1) as nat);
        assert(half > 0) by (nonlinear_arith)
            requires
                half == pow2((s - 1) as nat) * d,
                pow2((s - 1) as nat) > 0,
                d % 2 == 1,
        ;
        assert(m / 2 == half);
        lemma_twos(half, (s - 1) as nat, d);
    }
}

/// `a` raised to `d * 2^j`, modulo `n`.
pub open spec fn mr_power(a: nat, d: nat, n: nat, j: nat) -> int {
    pow(a as int, d * pow2(j)) % (n as int)
}

/// Each number of the squaring chain is `a^(d * 2^j) mod n`.
proof fn lemma_chain_is_power(a: nat, d: nat, n: nat, j: nat)
    requires
        n > 1,
    ensures
        square_chain(a, d, n, j) == mr_power(a, d, n, j),
    decreases j,
{
    lemma_pow2_pos(j);
    if j == 0 {
        assert(pow2(0) == 1) by {
            vstd::arithmetic::power::lemma_pow0(2);
        }
        assert(d * pow2(0) == d);
    } else {
        let i = (j - 1) as nat;
        lemma_chain_is_power(a, d, n, i);
        let big = pow(a as int, d * pow2(i));
        let x = square_chain(a, d, n, i);
        lemma_pow2_unfold(j);
        assert(d * pow2(j) == d * pow2(i) + d * pow2(i)) by (nonlinear_arith)
            requires
                pow2(j) == 2 * pow2(i),
        ;
        vstd::arithmetic::power::lemma_pow_adds(a as int, d * pow2(i), d * pow2(i));
        vstd::arithmetic::power::lemma_square_is_pow2(x as int);
        vstd::arithmetic::div_mod::lemma_mul_mod_noop(big, big, n as int);
        vstd::arithmetic::div_mod::lemma_mod_twice(big, n as int);
        vstd::arithmetic::div_mod::lemma_mul_mod_noop(x as int, x as int, n as int);
        assert(x as int == big % (n as int));
        vstd::arithmetic::div_mod::lemma_small_mod(x, n);
    }
}

/// Once the chain stands at one, it stays there.
proof fn lemma_chain_stays_one(a: nat, d: nat, n: nat, k: nat, m: nat)
    requires
        n > 1,
        k <= m,
        square_chain(a, d, n, k) == 1,
    ensures
        square_chain(a, d, n, m) == 1,
    decreases m - k,
{
    if k < m {
        lemma_chain_stays_one(a, d, n, k, (m - 1) as nat);
        vstd::arithmetic::power::lemma_square_is_pow2(1);
        vstd::arithmetic::div_mod::lemma_small_mod(1, n);
    }
}

/// After `n - 1` the chain stands at one: `(n - 1)^2 mod n == 1`.
proof fn lemma_chain_after_minus_one(a: nat, d: nat, n: nat, k: nat)
    requires
        n > 2,
        square_chain(a, d, n, k) == n - 1,
    ensures
        square_chain(a, d, n, k + 1) == 1,
{
    let x = (n - 1) as int;
    vstd::arithmetic::power::lemma_square_is_pow2(x);
    assert(x * x == n * (n - 2) + 1) by (nonlinear_arith)
        requires
            x == n - 1,
    ;
    vstd::arithmetic::div_mod::lemma_mod_multiples_vanish((n - 2) as int, 1, n as int);
    assert((n * (n - 2)) as int == (n - 2) * n) by (nonlinear_arith);
    vstd::arithmetic::div_mod::lemma_small_mod(1, n);
}

/// A chain that stands at one at `j` came there from one at the start or
/// through `n - 1`, when every step is fine.
proof fn lemma_reaches_one(a: nat, d: nat, n: nat, s: nat, j: nat)
    requires
        j <= s,
        square_chain(a, d, n, j) == 1,
        forall|i: nat| i < s ==> #[trigger] step_ok(a, d, n, i),
    ensures
        square_chain(a, d, n, 0) == 1 || exists|i: nat| i < j && #[trigger] square_chain(a, d, n, i) == n - 1,
    decreases j,
{
    if j > 0 {
        let i = (j - 1) as nat;
        assert(step_ok(a, d, n, i));
        if square_chain(a, d, n, i) != n - 1 {
            lemma_reaches_one(a, d, n, s, i);
        }
    }
}

/// The Miller-Rabin round as it is usually stated: for `n > 2` with
/// `n - 1 = 2^s * d`, `d` odd, the base `a` lets `n` pass exactly when
/// `a^d = 1 (mod n)` or `a^(d * 2^j) = -1 (mod n)` for some `j < s`; and a
/// base that lets `n` pass has `a^(n-1) = 1 (mod n)`.
pub proof fn law_round_is_miller_rabin(n: nat, a: nat, s: nat, d: nat)
    requires
        n > 2,
        (n - 1) as nat == pow2(s) * d,
        d % 2 == 1,
    ensures
        passes_base(n, a) <==> (mr_power(a, d, n, 0) == 1 || exists|j: nat|
            j < s && #[trigger] mr_power(a, d, n, j) == n - 1),
        passes_base(n, a) ==> pow(a as int, (n - 1) as nat) % (n as int) == 1,
{
    lemma_twos((n - 1) as nat, s, d);
    lemma_pow2_pos(s);
    assert(odd_part((n - 1) as nat) == d) by {
        vstd::arithmetic::div_mod::lemma_div_multiples_vanish(d as int, pow2(s) as int);
        assert(pow2(s) * d == d * pow2(s)) by (nonlinear_arith);
    }
    assert forall|j: nat| true implies #[trigger] square_chain(a, d, n, j) == mr_power(a, d, n, j) by {
        lemma_chain_is_power(a, d, n, j);
    }
    let pass = round_passes(a, n, s, d);
    if pass {
        lemma_reaches_one(a, d, n, s, s);
        assert(d * pow2(s) == n - 1) by (nonlinear_arith)
            requires
                (n - 1) as nat == pow2(s) * d,
                n > 2,
        ;
        if !(square_chain(a, d, n, 0) == 1) {
            let i = choose|i: nat| i < s && #[trigger] square_chain(a, d, n, i) == n - 1;
            assert(mr_power(a, d, n, i) == n - 1);
        }
    }
    if mr_power(a, d, n, 0) == 1 {
        assert forall|m: nat| true implies #[trigger] square_chain(a, d, n, m) == 1 by {
            lemma_chain_stays_one(a, d, n, 0, m);
        }
        assert forall|i: nat| i < s implies #[trigger] step_ok(a, d, n, i) by {
            assert(square_chain(a, d, n, i) == 1);
        }
    } else if exists|j: nat| j < s && #[trigger] mr_power(a, d, n, j) == n - 1 {
        let j = choose|j: nat| j < s && #[trigger] mr_power(a, d, n, j) == n - 1;
        assert(square_chain(a, d, n, j) == n - 1);
        lemma_chain_after_minus_one(a, d, n, j);
        assert forall|m: nat| j < m implies #[trigger] square_chain(a, d, n, m) == 1 by {
            lemma_chain_stays_one(a, d, n, j + 1, m);
        }
        assert forall|k: nat| k <= j implies #[trigger] square_chain(a, d, n, k) != 1 by {
            if square_chain(a, d, n, k) == 1 {
                lemma_chain_stays_one(a, d, n, k, j);
            }
        }
        assert forall|i: nat| i < s implies #[trigger] step_ok(a, d, n, i) by {
            if i < j {
                assert(square_chain(a, d, n, i + 1) != 1);
            } else if i > j {
                assert(square_chain(a, d, n, i) == 1);
            }
        }
        assert(square_chain(a, d, n, s) == 1);
    }
}

/// Every positive `m` is `2^twos(m)` times its odd part, and that part is odd.
proof fn lemma_twos_decomposes(m: nat)
    requires
        m > 0,
    ensures
        m == pow2(twos(m)) * odd_part(m),
        odd_part(m) % 2 == 1,
    decreases m,
{
    lemma_pow2_pos(twos(m));
    if m % 2 == 0 {
        let h = m / 2;
        lemma_twos_decomposes(h);
        let t = twos(h);
        let o = odd_part(h);
        assert(twos(m) == t + 1);
        lemma_pow2_unfold(t + 1);
        assert(m == pow2(t + 1) * o) by (nonlinear_arith)
            requires
                h == pow2(t) * o,
                m == 2 * h,
                pow2(t + 1) == 2 * pow2(t),
        ;
        lemma_pow2_pos(t + 1);
        let p = pow2(t + 1);
        vstd::arithmetic::div_mod::lemma_div_multiples_vanish(o as int, p as int);
        assert(p * o == m);
        assert((p * o) as int / (p as int) == o);
        assert(twos(m) == t + 1);
        assert(odd_part(m) == m / p);
        assert(odd_part(m) == o);
    } else {
        assert(pow2(0) == 1) by {
            vstd::arithmetic::power::lemma_pow0(2);
        }
        assert(twos(m) == 0);
        assert(odd_part(m) == m / 1);
        assert(m / 1 == m);
    }
}

/// A base that lets `n > 2` pass meets Fermat's test: `a^(n-1) = 1 (mod n)`.
pub proof fn law_passing_base_meets_fermat(n: nat, a: nat)
    requires
        n > 2,
    ensures
        passes_base(n, a) ==> pow(a as int, (n - 1) as nat) % (n as int) == 1,
{
    lemma_twos_decomposes((n - 1) as nat);
    law_round_is_miller_rabin(n, a, twos((n - 1) as nat), odd_part((n - 1) as nat));
}

/// For `4 <= n`, every small prime base below `n - 1` that lets `n` pass
/// meets Fermat's test: a `true` answer for such `n` means `p^(n-1) = 1
/// (mod n)` for each of them.
pub proof fn law_small_answer_meets_fermat(n: nat)
    requires
        n >= 4,
    ensures
        passes_small_bases(n) ==> forall|i: int|
            0 <= i < 16 && small_prime_bases()[i] < n - 1 ==> pow(
                #[trigger] small_prime_bases()[i] as int,
                (n - 1) as nat,
            ) % (n as int) == 1,
{
    if passes_small_bases(n) {
        assert forall|i: int| 0 <= i < 16 && small_prime_bases()[i] < n - 1 implies pow(
            #[trigger] small_prime_bases()[i] as int,
            (n - 1) as nat,
        ) % (n as int) == 1 by {
            assert(passes_base(n, small_prime_bases()[i] as nat));
            law_passing_base_meets_fermat(n, small_prime_bases()[i] as nat);
        }
    }
}

/// No even number from 4 on passes with base 2, so none up to `u64::MAX` is
/// called a probable prime: `2^(n-1) mod n` is even for an even `n`.
pub proof fn law_even_numbers_are_composite(n: nat)
    requires
        n >= 4,
        n % 2 == 0,
    ensures
        !passes_base(n, 2),
        !passes_small_bases(n),
{
    law_passing_base_meets_fermat(n, 2);
    let e = (n - 1) as nat;
    let x = pow(2, e);
    assert(x == 2 * pow(2, (e - 1) as nat)) by {
        vstd::arithmetic::power::lemma_pow_adds(2, 1, (e - 1) as nat);
        vstd::arithmetic::power::lemma_pow1(2);
    }
    vstd::arithmetic::div_mod::lemma_fundamental_div_mod(x, n as int);
    let q = x / (n as int);
    let h = pow(2, (e - 1) as nat);
    assert(x % (n as int) != 1) by (nonlinear_arith)
        requires
            x == 2 * h,
            x == (n as int) * q + x % (n as int),
            n % 2 == 0,
            n >= 4,
    {
        let r = x % (n as int);
        let k = (n / 2) as int;
        assert(n as int == 2 * k);
        assert(r == 2 * (h - k * q));
    }
    assert(small_prime_bases()[0] == 2);
}

/// Writes `n - 1` as `2^s * d` with `d` odd.
fn miller_rabin_decompose(n: &BigNat) -> (r: (u64, BigNat))
    requires
        n@ >= 2,
    ensures
        r.0 == twos((n@ - 1) as nat),
        r.1@ == odd_part((n@ - 1) as nat),
        (n@ - 1) as nat == pow2(r.0 as nat) * r.1@,
        r.1@ % 2 == 1,
{
    let m = sub_small(n, 1);
    let s = match trailing_zeros(&m) {
        Some(s) => s,
        None => {
            assert(false);
            0
        },
    };
    let d = shift_right(&m, s);
    proof {
        lemma_pow2_pos(s as nat);
        lemma_fundamental_div_mod(m@ as int, pow2(s as nat) as int);
        assert(m@ == pow2(s as nat) * d@);
        lemma_twos(m@, s as nat, d@);
    }
    (s, d)
}

/// One Miller-Rabin round with `base` on `num`, where `num - 1 = 2^s * d`.
fn miller_rabin(base: &BigNat, num: &BigNat, s: u64, d: &BigNat) -> (r: bool)
    requires
        num@ > 1,
    ensures
        r == round_passes(base@, num@, s as nat, d@),
{
    let n_minus_1 = sub_small(num, 1);
    let one = BigNat::from_u64(1);
    let two = BigNat::from_u64(2);
    let mut x = modpow(base, d, num);
    let mut i: u64 = 0;
    while i < s
        invariant
            num@ > 1,
            n_minus_1@ == num@ - 1,
            one@ == 1,
            two@ == 2,
            i <= s,
            x@ == square_chain(base@, d@, num@, i as nat),
            forall|j: nat| j < i ==> #[trigger] step_ok(base@, d@, num@, j),
        decreases s - i,
    {
        let y = modpow(&x, &two, num);
        assert(y@ == square_chain(base@, d@, num@, (i + 1) as nat));
        if equals(&y, &one) && !equals(&x, &one) && !equals(&x, &n_minus_1) {
            assert(!step_ok(base@, d@, num@, i as nat));
            return false;
        }
        assert(step_ok(base@, d@, num@, i as nat));
        x = y;
        i = i + 1;
    }
    equals(&x, &one)
}

/// Whether `n` passes the Miller-Rabin round with every one of `bases`.
pub fn passes_all_bases(n: &BigNat, bases: &Vec<BigNat>) -> (r: bool)
    requires
        n@ > 1,
    ensures
        r == forall|i: int| 0 <= i < bases.len() ==> #[trigger] passes_base(n@, bases[i]@),
{
    let (s, d) = miller_rabin_decompose(n);
    let mut i: usize = 0;
    while i < bases.len()
        invariant
            n@ > 1,
            s == twos((n@ - 1) as nat),
            d@ == odd_part((n@ - 1) as nat),
            i <= bases.len(),
            forall|j: int| 0 <= j < i ==> #[trigger] passes_base(n@, bases[j]@),
        decreases bases.len() - i,
    {
        if !miller_rabin(&bases[i], n, s, &d) {
            assert(!passes_base(n@, bases[i as int]@));
            return false;
        }
        i = i + 1;
    }
    true
}

/// `BigRng::random_biguint_range` of `num-bigint` on `rng`: a number in
/// `[low, high)`. It panics unless `low < high`. Which number comes out rests
/// on the generator and is left unsaid.
#[verifier::external_body]
fn random_in_range(rng: &mut StdRng, low: &BigNat, high: &BigNat) -> (r: BigNat)
    requires
        low@ < high@,
    ensures
        low@ <= r@ < high@,
{
    let lo = BigUint::new(low.digits.clone());
    let hi = BigUint::new(high.digits.clone());
    BigNat { digits: rng.random_biguint_range(&lo, &hi).to_u32_digits() }
}

/// Returns `true` if `n` is a probable prime.
///
/// Uses the Miller-Rabin primality test. Numbers up to `u64::MAX` are tried
/// with the primes up to 53 as bases (those below `n - 1`); larger numbers
/// with `k` bases drawn uniformly from `rng` between `2^(b-1)` (`b` the bit
/// length of `n - 1`) and `n - 1`, exclusive. The answer is `true` when every
/// base lets `n` pass, so a composite number passes `k` random rounds with a
/// probability of at most 4<sup>-k</sup>.
///
/// Where `n - 1` is a power of two that range is empty, and the bases are
/// drawn between 2 and `n - 1` instead. For numbers up to `u64::MAX` the
/// generator is left untouched.
pub fn is_probable_prime(n: &BigNat, k: usize, rng: &mut StdRng) -> (r: bool)
    requires
        n@ > u64::MAX ==> bit_length((n@ - 1) as nat) <= u32::MAX,
    ensures
        n@ <= u64::MAX ==> *final(rng) == *old(rng),
        n@ <= 1 ==> !r,
        2 <= n@ <= 3 ==> r,
        4 <= n@ <= u64::MAX ==> (r <==> passes_small_bases(n@)),
        n@ > u64::MAX ==> exists|draws: Seq<nat>|
            {
                &&& draws.len() == k
                &&& forall|i: int| 0 <= i < k ==> random_base_floor(n@) <= #[trigger] draws[i] < n@ - 1
                &&& r == forall|i: int| 0 <= i < k ==> #[trigger] passes_base(n@, draws[i])
            },
{
    let one = BigNat::from_u64(1);
    if !less_than(&one, n) {
        return false;
    }
    let three = BigNat::from_u64(3);
    if !less_than(&three, n) {
        return true;
    }
    let n_minus_one = sub_small(n, 1);
    let largest_small = BigNat::from_u64(u64::MAX);
    if !less_than(&largest_small, n) {
        let (s, d) = miller_rabin_decompose(n);
        let samples: Vec<u64> = vec![2, 3, 5, 7, 11, 13, 17, 19, 23, 29, 31, 37, 41, 43, 47, 53];
        assert(samples@ =~= small_prime_bases());
        let mut i: usize = 0;
        while i < 16
            invariant
                samples@ == small_prime_bases(),
                4 <= n@ <= u64::MAX,
                n_minus_one@ == n@ - 1,
                s == twos((n@ - 1) as nat),
                d@ == odd_part((n@ - 1) as nat),
                i <= 16,
                forall|j: int|
                    0 <= j < i && small_prime_bases()[j] < n@ - 1 ==> #[trigger] passes_base(
                        n@,
                        small_prime_bases()[j] as nat,
                    ),
            decreases 16 - i,
        {
            let base = BigNat::from_u64(samples[i]);
            if less_than(&base, &n_minus_one) && !miller_rabin(&base, n, s, &d) {
                assert(!passes_base(n@, small_prime_bases()[i as int] as nat));
                return false;
            }
            i = i + 1;
        }
        return true;
    }
    let two = BigNat::from_u64(2);
    let b = bits(&n_minus_one);
    let p = power(&two, (b - 1) as u32);
    let floor = if less_than(&p, &n_minus_one) {
        p
    } else {
        two
    };
    proof {
        assert(floor@ == random_base_floor(n@));
    }
    let mut draws: Vec<BigNat> = Vec::new();
    let mut i: usize = 0;
    while i < k
        invariant
            n@ > u64::MAX,
            n_minus_one@ == n@ - 1,
            floor@ == random_base_floor(n@),
            floor@ < n_minus_one@,
            i <= k,
            draws.len() == i,
            forall|j: int| 0 <= j < i ==> floor@ <= #[trigger] draws[j]@ < n@ - 1,
        decreases k - i,
    {
        let base = random_in_range(rng, &floor, &n_minus_one);
        draws.push(base);
        i = i + 1;
    }
    let r = passes_all_bases(n, &draws);
    proof {
        let values = draws@.map_values(|b: BigNat| b@);
        assert(values.len() == k);
        assert forall|i: int| 0 <= i < k implies random_base_floor(n@) <= #[trigger] values[i] < n@
            - 1 by {
            assert(values[i] == draws[i]@);
        }
        assert(r == forall|i: int| 0 <= i < k ==> #[trigger] passes_base(n@, values[i])) by {
            if !r {
                let i = choose|i: int| 0 <= i < draws.len() && !#[trigger] passes_base(n@, draws[i]@);
                assert(values[i] == draws[i]@);
            }
            if !forall|i: int| 0 <= i < k ==> #[trigger] passes_base(n@, values[i]) {
                let i = choose|i: int| 0 <= i < k && !#[trigger] passes_base(n@, values[i]);
                assert(values[i] == draws[i]@);
            }
        }
    }
    r
}

} // verus!
