use primality_test::is_prime;
use primality_test::IsPrime;

const PRIME: &[u64] = &[
    2, 3, 5, 7, 11, 13, 17, 19, 23, 29, 31, 37, 41, 47, 53, 59, 61, 67, 73, 79, 83, 89, 97,
    998244353, 1000000007, 67280421310721, 999999999999999989
];

const NO_PRIME: &[u64] = &[
    1,
    57,
    5329,
    49141,
    4759123141,
    1122004669633,
    21652684502221,
    31858317218647,
    47636622961201,
    55245642489451,
    3071837692357849,
    3770579582154547,
    7999252175582851,
    585226005592931977,
];

const CARMICHAEL: &[u64] = &[
    561, 1105, 1729, 2465, 2821, 6601, 8911, 10585, 15841, 29341, 41041, 46657, 52633, 62745,
    63973, 75361, 101101, 115921, 126217, 162401, 172081, 188461, 252601, 278545, 294409,
    314821, 334153, 340561, 399001, 410041, 449065, 488881, 512461,
];

#[test]
fn constfn_primality_test() {
    for &p in PRIME {
        assert!(is_prime(p))
    }
}

#[test]
fn constfn_non_primality_test() {
    for &p in NO_PRIME {
        assert!(!is_prime(p));
    }

    for &p in CARMICHAEL {
        assert!(!is_prime(p));
    }
}

#[test]
fn lib_primality_test() {
    for &p in PRIME {
        if p <= u8::MAX as u64 {
            assert!((p as u8).is_prime());
        }
        if p <= u16::MAX as u64 {
            assert!((p as u16).is_prime());
        }
        if p <= u32::MAX as u64 {
            assert!((p as u32).is_prime());
        }
        assert!(p.is_prime());
    }
}

#[test]
fn lib_non_primality_test() {
    for &p in NO_PRIME {
        if p <= u8::MAX as u64 {
            assert!(!(p as u8).is_prime());
        }
        if p <= u16::MAX as u64 {
            assert!(!(p as u16).is_prime());
        }
        if p <= u32::MAX as u64 {
            assert!(!(p as u32).is_prime());
        }
        assert!(!p.is_prime());
    }

    for &p in CARMICHAEL {
        if p <= u8::MAX as u64 {
            assert!(!(p as u8).is_prime());
        }
        if p <= u16::MAX as u64 {
            assert!(!(p as u16).is_prime());
        }
        if p <= u32::MAX as u64 {
            assert!(!(p as u32).is_prime());
        }
        assert!(!p.is_prime());
    }
}
