use primality_test::is_prime;
use primality_test::IsPrime;
use primality_test::LinearSieve;

// Every path answers small values with trial-division primality.
#[test]
fn small_values_match_trial_division() {
    let s = LinearSieve::new(255);
    for i in 0..255usize {
        let by_trial = i >= 2 && (2..i).all(|d| i % d != 0);
        assert_eq!(s.is_prime(i), by_trial);
        assert_eq!(i.is_prime(), by_trial);
        assert_eq!(is_prime(i as u64), by_trial);
    }
}

// A value representable in several widths gets the same answer in each.
#[test]
fn cross_width_agreement() {
    for v in [2u64, 3, 255, 561, 41041, 65535, 65537, 998244353] {
        let expect = v.is_prime();
        if v <= u8::MAX as u64 {
            assert_eq!((v as u8).is_prime(), expect);
        }
        if v <= u16::MAX as u64 {
            assert_eq!((v as u16).is_prime(), expect);
        }
        if v <= u32::MAX as u64 {
            assert_eq!((v as u32).is_prime(), expect);
        }
        assert_eq!((v as usize).is_prime(), expect);
    }
}

// Repeated queries and repeated constructions answer identically.
#[test]
fn idempotent_results() {
    for v in [0u64, 1, 2, 561, 1000000007, 999999999999999989] {
        assert_eq!(is_prime(v), is_prime(v));
        assert_eq!(v.is_prime(), v.is_prime());
    }
    let s1 = LinearSieve::new(1000);
    let s2 = LinearSieve::new(1000);
    for i in 0..1000usize {
        assert_eq!(s1.is_prime(i), s2.is_prime(i));
        assert_eq!(s1.factors(i), s2.factors(i));
    }
}

// Exact factorizations, including the edge cases around 0 and 1.
#[test]
fn factorization_values() {
    let s = LinearSieve::new(100);
    assert_eq!(s.factors(60), vec![2, 2, 3, 5]);
    assert_eq!(s.factors(11), vec![11]);
    assert_eq!(s.factors(64), vec![2, 2, 2, 2, 2, 2]);
    assert!(s.factors(0).is_empty());
    assert!(s.factors(1).is_empty());
    assert_eq!(s.factors(2), vec![2]);
}

// The largest u8 value takes the Montgomery path of the 8-bit check.
#[test]
fn widest_u8_value() {
    assert!(!255u8.is_prime());
    assert!(251u8.is_prime());
}

// Values at and around the 64-bit extremes.
#[test]
fn extreme_u64_values() {
    assert!(is_prime(18446744073709551557)); // largest 64-bit prime
    assert!(!is_prime(u64::MAX));
    assert!(!is_prime(0));
    assert!(is_prime(2));
    assert!(!is_prime(1));
}

// Sieve construction at trivially small bounds.
#[test]
fn tiny_sieves() {
    let s0 = LinearSieve::new(0);
    assert_eq!(s0.len(), 0);
    assert!(s0.primes().is_empty());
    let s1 = LinearSieve::new(2);
    assert_eq!(s1.len(), 2);
    assert!(!s1.is_prime(0));
    assert!(!s1.is_prime(1));
    assert!(s1.primes().is_empty());
    let s2 = LinearSieve::new(3);
    assert!(s2.is_prime(2));
    assert_eq!(s2.primes(), vec![2]);
}

// The enumeration lists exactly the primes below the bound, in order.
#[test]
fn enumeration_matches_table() {
    let s = LinearSieve::new(50);
    assert_eq!(s.primes(), vec![2, 3, 5, 7, 11, 13, 17, 19, 23, 29, 31, 37, 41, 43, 47]);
}
