//! Deterministic primality testing for fixed-width unsigned integers.
//!
//! The `IsPrime` trait answers, for any `u8`/`u16`/`u32`/`u64`/`usize`
//! value, whether it is prime, with no false positives or negatives for
//! the supported width.  The decision combines a Montgomery
//! modular-arithmetic engine, a deterministic Miller-Rabin test with
//! width-specific witness sets, and a linear least-prime-factor sieve for
//! small values.
//!
//! The sieve's table is proven to hold exactly the least prime factor of
//! every index, so below the sieve bound every check is proven equal to
//! trial-division primality.  Above it, each check is proven equal to
//! the mathematical Miller-Rabin predicate for its width's fixed witness
//! set; that those witness sets decide primality exactly over the whole
//! width is the published deterministic-witness result, exercised here
//! by tests on known primes and on Carmichael numbers.

pub mod arith;
pub mod laws;
pub mod miller_rabin;
mod montgomery;
pub mod primes;
pub mod sieve;

pub use miller_rabin::is_prime;
pub use sieve::LinearSieve;

use vstd::prelude::*;

use crate::miller_rabin::mr_decision_32;
use crate::miller_rabin::mr_decision_64;

verus! {

/// Primality of an unsigned integer, decided deterministically for the
/// type's full range.
pub trait IsPrime {
    /// What the check for this width decides; below the sieve bound this
    /// is trial-division primality, above it the Miller-Rabin outcome
    /// for the width's witness set.
    spec fn prime_spec(&self) -> bool;

    /// Determine whether an unsigned integer is a prime number.
    fn is_prime(&self) -> (b: bool)
        ensures
            b == self.prime_spec(),
    ;
}

impl IsPrime for u8 {
    open spec fn prime_spec(&self) -> bool {
        mr_decision_32(*self as u64)
    }

    fn is_prime(&self) -> (b: bool) {
        crate::miller_rabin::decide_32(*self as u64)
    }
}

impl IsPrime for u16 {
    open spec fn prime_spec(&self) -> bool {
        mr_decision_32(*self as u64)
    }

    fn is_prime(&self) -> (b: bool) {
        crate::miller_rabin::decide_32(*self as u64)
    }
}

impl IsPrime for u32 {
    open spec fn prime_spec(&self) -> bool {
        mr_decision_32(*self as u64)
    }

    fn is_prime(&self) -> (b: bool) {
        crate::miller_rabin::decide_32(*self as u64)
    }
}

impl IsPrime for u64 {
    open spec fn prime_spec(&self) -> bool {
        mr_decision_64(*self)
    }

    fn is_prime(&self) -> (b: bool) {
        crate::miller_rabin::decide_64(*self)
    }
}

impl IsPrime for usize {
    open spec fn prime_spec(&self) -> bool {
        mr_decision_64(*self as u64)
    }

    fn is_prime(&self) -> (b: bool) {
        crate::miller_rabin::decide_64(*self as u64)
    }
}

} // verus!
