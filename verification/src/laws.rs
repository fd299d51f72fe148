//! Laws the library guarantees across its functions: agreement of the
//! Miller-Rabin paths with trial-division primality on small values,
//! agreement between widths, and determinism of the sieve.

use vstd::prelude::*;

use crate::miller_rabin::mr_decision_32;
use crate::miller_rabin::mr_decision_64;
use crate::miller_rabin::CASCADE_BOUND;
use crate::miller_rabin::SMALL_SIEVE_BOUND;
use crate::primes::is_prime_spec;
use crate::primes::lemma_small_and_even;
use crate::primes::lpf;
use crate::sieve::LinearSieve;

verus! {

/// For every value below the sieve shortcut bound, the decision at
/// either width equals trial-division primality: both paths answer such
/// values through the trivial filter or the sieve, whose table is
/// proven exact.
pub proof fn lemma_small_values_exact(p: u64)
    requires
        p < SMALL_SIEVE_BOUND,
    ensures
        mr_decision_32(p) == is_prime_spec(p as nat),
        mr_decision_64(p) == is_prime_spec(p as nat),
{
    lemma_small_and_even(p as nat);
}

/// A well-formed sieve agrees with the Miller-Rabin decision on every
/// value below the sieve shortcut bound that it covers.
pub proof fn lemma_sieve_agrees_with_decision(s: &LinearSieve, v: usize)
    requires
        s.wf(),
        v < s@.len(),
        v < SMALL_SIEVE_BOUND as usize,
    ensures
        (s@[v as int] == v) == mr_decision_64(v as u64),
{
    lemma_small_values_exact(v as u64);
    if v >= 2 {
        crate::primes::lemma_lpf_props(v as nat);
        crate::primes::lemma_prime_iff_lpf_self(v as nat);
    }
}

/// Every width agrees on every value below the cascade bound: the
/// 64-bit path delegates such values to the 32-bit path.
pub proof fn lemma_cross_width_agreement(p: u64)
    requires
        p < CASCADE_BOUND,
    ensures
        mr_decision_32(p) == mr_decision_64(p),
{
}

/// Two well-formed sieves with the same bound hold the same table:
/// construction is deterministic, and repeated constructions answer
/// every query identically.
pub proof fn lemma_sieve_deterministic(s1: &LinearSieve, s2: &LinearSieve)
    requires
        s1.wf(),
        s2.wf(),
        s1@.len() == s2@.len(),
    ensures
        s1@ == s2@,
{
    assert forall|v: int| 0 <= v < s1@.len() implies s1@[v] == s2@[v] by {
        if v >= 2 {
            assert(s1@[v] as nat == lpf(v as nat));
            assert(s2@[v] as nat == lpf(v as nat));
        }
    }
    assert(s1@ =~= s2@);
}

/// Repeated primality queries on the same input answer identically:
/// each width's result is a function of the input value alone.
pub proof fn lemma_decision_deterministic(p: u64, b1: bool, b2: bool)
    requires
        b1 == mr_decision_64(p),
        b2 == mr_decision_64(p),
    ensures
        b1 == b2,
{
}

} // verus!
