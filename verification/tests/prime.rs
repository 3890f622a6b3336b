use rand::rngs::StdRng;
use rand::SeedableRng;
use tobys_lib::numbers::prime::passes_all_bases;
use tobys_lib::numbers::{is_probable_prime, BigNat};

fn big(n: u64) -> BigNat {
    BigNat::from_u64(n)
}

#[test]
fn simple_test() {
    let mut rng: StdRng = rand::make_rng();

    assert_eq!(Some(is_probable_prime(&big(5), 10, &mut rng)), Some(true));
    assert_eq!(Some(is_probable_prime(&big(6), 10, &mut rng)), Some(false));
    assert_eq!(Some(is_probable_prime(&big(8), 10, &mut rng)), Some(false));
    assert_eq!(Some(is_probable_prime(&big(9), 10, &mut rng)), Some(false));
    assert_eq!(
        Some(is_probable_prime(&big(949_284_328_995), 10, &mut rng)),
        Some(false)
    );
    assert_eq!(
        Some(is_probable_prime(&big(949_284_328_996), 10, &mut rng)),
        Some(false)
    );
    assert_eq!(
        Some(is_probable_prime(&big(252_097_800_623), 10, &mut rng)),
        Some(true)
    );
}

#[test]
fn smallest_numbers() {
    let mut rng: StdRng = rand::make_rng();
    assert!(!is_probable_prime(&big(0), 10, &mut rng));
    assert!(!is_probable_prime(&big(1), 10, &mut rng));
    assert!(is_probable_prime(&big(2), 10, &mut rng));
    assert!(is_probable_prime(&big(3), 10, &mut rng));
    assert!(!is_probable_prime(&big(4), 10, &mut rng));
    assert!(is_probable_prime(&big(7), 0, &mut rng));
    // 2047 = 23 * 89 passes with base 2 only.
    assert!(!is_probable_prime(&big(2047), 10, &mut rng));
}

#[test]
fn primes_below_u64_max() {
    let mut rng: StdRng = rand::make_rng();
    assert!(is_probable_prime(&big(18_446_744_073_709_551_557), 1, &mut rng));
    assert!(!is_probable_prime(&big(u64::MAX), 1, &mut rng));
    assert!(is_probable_prime(&big(2_147_483_647), 1, &mut rng));
}

#[test]
fn above_u64_max() {
    let mut rng: StdRng = rand::make_rng();
    // 2^64 + 13, the first prime above 2^64.
    let prime = BigNat::from_digits(vec![13, 0, 1]);
    assert!(is_probable_prime(&prime, 10, &mut rng));
    // No base is drawn, so no round fails.
    let composite_power = BigNat::from_digits(vec![0, 0, 9]);
    assert!(is_probable_prime(&composite_power, 0, &mut rng));
    // (2^61 - 1) * (2^31 - 1)
    let composite = BigNat::from_digits(vec![2_147_483_649, 3_758_096_383, 268_435_455]);
    assert!(!is_probable_prime(&composite, 10, &mut rng));
}

#[test]
fn strong_pseudoprime_to_base_two() {
    // 2047 = 23 * 89 passes with base 2 and fails with base 3.
    assert!(passes_all_bases(&big(2047), &vec![big(2)]));
    assert!(!passes_all_bases(&big(2047), &vec![big(3)]));
    assert!(!passes_all_bases(&big(2047), &vec![big(2), big(3)]));
    assert!(passes_all_bases(&big(2047), &vec![]));
    assert!(passes_all_bases(&big(13), &vec![big(5), big(2)]));
    // Even numbers fail the final check a^(n-1) = 1 (mod n).
    assert!(!passes_all_bases(&big(6), &vec![big(5)]));
}

#[test]
fn small_numbers_leave_the_generator_alone() {
    let mut used = StdRng::seed_from_u64(7);
    let fresh = StdRng::seed_from_u64(7);
    assert!(is_probable_prime(&big(1_000_003), 10, &mut used));
    assert!(used == fresh);
}

#[test]
fn one_above_a_power_of_two() {
    let mut rng: StdRng = rand::make_rng();
    // 2^64 + 1 = 274177 * 67280421310721; n - 1 is a power of two.
    let n = BigNat::from_digits(vec![1, 0, 1]);
    assert!(!is_probable_prime(&n, 10, &mut rng));
    // 2^128 + 1 = 59649589127497217 * 5704689200685129054721.
    let m = BigNat::from_digits(vec![1, 0, 0, 0, 1]);
    assert!(!is_probable_prime(&m, 10, &mut rng));
}
