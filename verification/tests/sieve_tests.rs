use primality_test::IsPrime;
use primality_test::LinearSieve;

const LEN: usize = 10000;

#[test]
fn prime_check_test() {
    let s = LinearSieve::new(LEN);
    for i in 0..LEN {
        assert_eq!(i.is_prime(), s.is_prime(i));
    }
}

#[test]
fn sieve_iterator_test() {
    let s = LinearSieve::new(LEN);
    assert!(s.primes().into_iter().all(|p| p.is_prime()))
}

#[test]
fn factors_test() {
    let s = LinearSieve::new(LEN);
    for i in 0..LEN {
        let f = s.factors(i);
        assert!(f.windows(2).all(|v| v[0] <= v[1]));
        if i > 1 {
            assert_eq!(f.into_iter().fold(1usize, |acc, p| acc * p), i);
        } else {
            assert!(f.is_empty());
        }
    }
}
