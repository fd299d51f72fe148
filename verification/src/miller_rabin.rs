//! Deterministic Miller-Rabin primality decision: width-specific witness
//! sets, the per-witness round run in Montgomery form, and the public
//! `is_prime` entry point for `u64`.

use vstd::prelude::*;
use vstd::arithmetic::div_mod::lemma_div_by_multiple;
use vstd::arithmetic::div_mod::lemma_mod_bound;
use vstd::arithmetic::power::pow;
use vstd::arithmetic::power2::lemma2_to64;
use vstd::arithmetic::power2::lemma_pow2_adds;
use vstd::arithmetic::power2::lemma_pow2_pos;
use vstd::arithmetic::power2::pow2;

use crate::arith::cong;
use crate::arith::lemma_check_minus_one;
use crate::arith::lemma_check_one;
use crate::arith::lemma_mont_form;
use crate::arith::lemma_odd_not_divides_pow2;
use crate::arith::lemma_square_step;
use crate::montgomery::Montgomery;

verus! {

/// Number of times 2 divides `n` (0 for odd or zero `n`).
pub open spec fn two_adic(n: nat) -> nat
    decreases n,
{
    if n == 0 || n % 2 == 1 {
        0
    } else {
        (1 + two_adic(n / 2)) as nat
    }
}

/// The odd part of `n`: what remains after all factors of 2 are removed.
pub open spec fn odd_part(n: nat) -> nat {
    n / pow2(two_adic(n))
}

/// A decomposition `n == t * 2^s` with `t` odd determines `s` and `t`.
pub proof fn lemma_two_adic_unique(m: nat, t: nat, s: nat)
    requires
        t % 2 == 1,
        m == t * pow2(s),
    ensures
        s == two_adic(m),
        t == odd_part(m),
    decreases s,
{
    lemma_pow2_pos(s);
    assert(m >= t) by (nonlinear_arith)
        requires
            m == t * pow2(s),
            pow2(s) >= 1,
            t >= 0,
    ;
    if s == 0 {
        lemma2_to64();
        assert(m == t);
    } else {
        lemma_pow2_adds(1, (s - 1) as nat);
        lemma2_to64();
        assert(m == 2 * (t * pow2((s - 1) as nat))) by (nonlinear_arith)
            requires
                m == t * pow2(s),
                pow2(s) == 2 * pow2((s - 1) as nat),
        ;
        let half = t * pow2((s - 1) as nat);
        assert(m % 2 == 0 && m / 2 == half) by (nonlinear_arith)
            requires
                m == 2 * half,
                half >= 0,
        ;
        lemma_two_adic_unique(half, t, (s - 1) as nat);
        assert(two_adic(m) == 1 + two_adic(half));
        assert(s == two_adic(m));
    }
    lemma_div_by_multiple(t as int, pow2(s) as int);
    assert(odd_part(m) == t);
}

/// The Miller-Rabin round for base `a` against odd `p >= 3` with
/// `p - 1 == t * 2^s`, `t` odd: the round accepts when `a^t` is 1, or
/// some `a^(t * 2^j)` with `j < s` is `p - 1`, modulo `p`.
pub open spec fn mr_witness_passes(p: nat, a: nat) -> bool {
    let s = two_adic((p - 1) as nat);
    let t = odd_part((p - 1) as nat);
    ||| pow(a as int, t) % (p as int) == 1
    ||| exists|j: nat|
        j < s && #[trigger] pow(a as int, t * pow2(j)) % (p as int) == p - 1
}

/// Every witness in `ws` passes its round against `p` (a witness that
/// reduces to 0 modulo `p` is skipped).
pub open spec fn mr_passes_all(p: nat, ws: Seq<u64>) -> bool {
    forall|i: int|
        0 <= i < ws.len() ==> {
            let a = (#[trigger] ws[i]) as nat % p;
            a == 0 || mr_witness_passes(p, a)
        }
}

/// Witness set sufficient for all values below `2^32` (and in fact below
/// the 64-bit cascade bound).
pub open spec fn witnesses_32() -> Seq<u64> {
    seq![2u64, 7u64, 61u64]
}

/// Witness set sufficient for all 64-bit values.
pub open spec fn witnesses_64() -> Seq<u64> {
    seq![2u64, 325u64, 9375u64, 28178u64, 450775u64, 9780504u64, 1795265022u64]
}

/// Values below this bound are answered by the sieve.
pub const SMALL_SIEVE_BOUND: u64 = 255;

/// 64-bit values below this bound are re-checked along the 32-bit
/// witness path; the bound is the largest 32-bit-path witness, and every
/// value below it fits in 32 bits.
pub const CASCADE_BOUND: u64 = 1795265022;

/// What the check with 32-bit witnesses decides: the trivial filter,
/// then the sieve for small values, then Miller-Rabin.
pub open spec fn mr_decision_32(p: u64) -> bool {
    if p == 1 || p % 2 == 0 {
        p == 2
    } else if p < SMALL_SIEVE_BOUND {
        crate::primes::is_prime_spec(p as nat)
    } else {
        mr_passes_all(p as nat, witnesses_32())
    }
}

/// What the check with 64-bit witnesses decides: like the 32-bit path,
/// with values under the cascade bound delegated to it.
pub open spec fn mr_decision_64(p: u64) -> bool {
    if p == 1 || p % 2 == 0 {
        p == 2
    } else if p < CASCADE_BOUND {
        mr_decision_32(p)
    } else {
        mr_passes_all(p as nat, witnesses_64())
    }
}

/// What the standalone `u64` check decides: the trivial filter, then
/// Miller-Rabin with the 64-bit witness set, with no sieve shortcut and
/// no width cascade.
pub open spec fn mr_direct_64(p: u64) -> bool {
    if p == 1 || p % 2 == 0 {
        p == 2
    } else {
        mr_passes_all(p as nat, witnesses_64())
    }
}

/// Writes `p - 1` as `t * 2^s` with `t` odd.
fn decompose(p: u64) -> (st: (u64, u64))
    requires
        p >= 3,
        p % 2 == 1,
    ensures
        st.1 % 2 == 1,
        (p - 1) as nat == st.1 as nat * pow2(st.0 as nat),
        st.0 as nat == two_adic((p - 1) as nat),
        st.1 as nat == odd_part((p - 1) as nat),
        1 <= st.0 < 64,
        st.1 >= 1,
{
    let mut t: u64 = p - 1;
    let mut s: u64 = 0;
    proof {
        lemma2_to64();
        assert((p - 1) as nat == t as nat * pow2(0));
    }
    while t % 2 == 0
        invariant
            3 <= p,
            1 <= t,
            s < 64,
            (p - 1) as nat == t as nat * pow2(s as nat),
        decreases t,
    {
        proof {
            lemma_pow2_adds(1, s as nat);
            lemma2_to64();
            assert((p - 1) as nat == (t / 2) as nat * pow2((s + 1) as nat)) by (nonlinear_arith)
                requires
                    (p - 1) as nat == t as nat * pow2(s as nat),
                    t % 2 == 0,
                    t >= 1,
                    pow2((s + 1) as nat) == 2 * pow2(s as nat),
            ;
            if s + 1 >= 64 {
                assert(s + 1 == 64);
                vstd::arithmetic::power2::lemma2_to64_rest();
                assert(pow2((s + 1) as nat) == 0x1_0000_0000_0000_0000nat);
                assert(t / 2 >= 1);
                assert((t / 2) as nat * pow2((s + 1) as nat) >= pow2((s + 1) as nat))
                    by (nonlinear_arith)
                    requires
                        (t / 2) as nat >= 1,
                        pow2((s + 1) as nat) >= 1,
                ;
                assert((p - 1) as nat >= 0x1_0000_0000_0000_0000nat);
                assert(false);
            }
        }
        t = t / 2;
        s = s + 1;
    }
    proof {
        lemma_two_adic_unique((p - 1) as nat, t as nat, s as nat);
        if s == 0 {
            lemma2_to64();
            assert((p - 1) as nat == t as nat);
            assert(false);
        }
    }
    (s, t)
}

/// Runs one Miller-Rabin round for the (already reduced) base `a`.
fn mr_witness_round(mont: &Montgomery, a: u64, s: u64, t: u64) -> (ok: bool)
    requires
        mont.wf(),
        1 <= a < mont.modulo,
        t % 2 == 1,
        1 <= s,
        (mont.modulo - 1) as nat == t as nat * pow2(s as nat),
    ensures
        ok == mr_witness_passes(mont.modulo as nat, a as nat),
{
    let p = mont.modulo;
    proof {
        lemma_two_adic_unique((p - 1) as nat, t as nat, s as nat);
        lemma_odd_not_divides_pow2(p as int, 64);
        lemma_mod_bound(pow2(64) as int, p as int);
    }
    let am = mont.convert(a);
    let at0 = mont.pow(am, t);
    proof {
        lemma_mont_form(p as int, am as int, a as int, t as nat, at0 as int);
        lemma_check_one(p as int, at0 as int, a as int, t as nat, mont.r as int);
        lemma_check_minus_one(p as int, at0 as int, a as int, t as nat, mont.r as int);
        lemma2_to64();
        assert(t as nat * pow2(0) == t as nat);
    }
    let mut found: bool = at0 == mont.r || at0 == p - mont.r;
    let mut at: u64 = at0;
    let mut j: u64 = 1;
    proof {
        if found {
            assert(pow(a as int, t as nat) % (p as int) == 1 || pow(
                a as int,
                t as nat * pow2(0),
            ) % (p as int) == p - 1);
        }
    }
    while j < s && !found
        invariant
            mont.wf(),
            mont.modulo == p,
            1 <= a < p,
            t % 2 == 1,
            1 <= s,
            (p - 1) as nat == t as nat * pow2(s as nat),
            1 <= j <= s,
            at < p,
            cong(p as int, at as int, pow(a as int, t as nat * pow2((j - 1) as nat)) * pow2(64)),
            found == (pow(a as int, t as nat) % (p as int) == 1 || exists|jj: nat|
                jj < j && #[trigger] pow(a as int, t as nat * pow2(jj)) % (p as int) == p - 1),
        decreases s - j,
    {
        let ghost at_old = at;
        at = mont.multiply(at, at);
        proof {
            let e = t as nat * pow2((j - 1) as nat);
            lemma_square_step(p as int, at_old as int, a as int, e, at as int);
            lemma_pow2_adds((j - 1) as nat, 1);
            lemma2_to64();
            assert(2 * e == t as nat * pow2(j as nat)) by (nonlinear_arith)
                requires
                    e == t as nat * pow2((j - 1) as nat),
                    pow2(j as nat) == pow2((j - 1) as nat) * 2,
            ;
            lemma_odd_not_divides_pow2(p as int, 64);
            lemma_mod_bound(pow2(64) as int, p as int);
            lemma_check_minus_one(
                p as int,
                at as int,
                a as int,
                t as nat * pow2(j as nat),
                mont.r as int,
            );
        }
        if at == p - mont.r {
            found = true;
            proof {
                assert(pow(a as int, t as nat * pow2(j as nat)) % (p as int) == p - 1);
            }
        }
        j = j + 1;
    }
    proof {
        if !found {
            assert(j == s);
            assert(!mr_witness_passes(p as nat, a as nat)) by {
                if mr_witness_passes(p as nat, a as nat) {
                    assert(exists|jj: nat|
                        jj < s && #[trigger] pow(a as int, t as nat * pow2(jj)) % (p as int)
                            == p - 1);
                }
            }
        }
    }
    found
}

/// Runs the rounds for every witness in `ws`, skipping any that reduces
/// to 0 modulo the candidate, and accepts only if all accept.
fn mr_all_witnesses(mont: &Montgomery, ws: &Vec<u64>, s: u64, t: u64) -> (ok: bool)
    requires
        mont.wf(),
        t % 2 == 1,
        1 <= s,
        (mont.modulo - 1) as nat == t as nat * pow2(s as nat),
    ensures
        ok == mr_passes_all(mont.modulo as nat, ws@),
{
    let p = mont.modulo;
    let mut i: usize = 0;
    while i < ws.len()
        invariant
            mont.wf(),
            mont.modulo == p,
            t % 2 == 1,
            1 <= s,
            (p - 1) as nat == t as nat * pow2(s as nat),
            i <= ws.len(),
            forall|k: int|
                0 <= k < i ==> {
                    let a = (#[trigger] ws@[k]) as nat % (p as nat);
                    a == 0 || mr_witness_passes(p as nat, a)
                },
        decreases ws.len() - i,
    {
        let a: u64 = ws[i] % p;
        proof {
            lemma_mod_bound(ws@[i as int] as int, p as int);
        }
        // a base that reduces to 0 proves nothing and is skipped; with the
        // fixed witness sets and the bounds of the callers this cannot
        // occur, but the guard is cheap and tolerates other witness tables
        if a != 0 {
            let good = mr_witness_round(mont, a, s, t);
            if !good {
                return false;
            }
        }
        i += 1;
    }
    true
}

/// Determines whether the `u64` value `p` is prime, by the trivial
/// filter on 1 and even numbers followed by the deterministic
/// Miller-Rabin test with the 64-bit witness set.
pub fn is_prime(p: u64) -> (b: bool)
    ensures
        b == mr_direct_64(p),
{
    proof {
        assert(p & 1 == p % 2) by (bit_vector);
    }
    if p == 1 || p & 1 == 0 {
        return p == 2;
    }
    let mont = Montgomery::new(p);
    let st = decompose(p);
    let ws: Vec<u64> = witness_vec_64();
    mr_all_witnesses(&mont, &ws, st.0, st.1)
}

/// The check used for values of at most 32 bits: trivial filter, sieve
/// shortcut for small values, Miller-Rabin with the 32-bit witness set
/// otherwise.
pub(crate) fn decide_32(p: u64) -> (b: bool)
    ensures
        b == mr_decision_32(p),
{
    proof {
        assert(p & 1 == p % 2) by (bit_vector);
    }
    if p == 1 || p & 1 == 0 {
        return p == 2;
    }
    if p < SMALL_SIEVE_BOUND {
        // the table is tiny; rebuilding it per query keeps the check free
        // of shared state
        let sieve = crate::sieve::LinearSieve::new(SMALL_SIEVE_BOUND as usize);
        return sieve.is_prime(p as usize);
    }
    let mont = Montgomery::new(p);
    let st = decompose(p);
    let ws: Vec<u64> = witness_vec_32();
    mr_all_witnesses(&mont, &ws, st.0, st.1)
}

/// The check used for 64-bit values: trivial filter, cascade to the
/// 32-bit path below the cascade bound, Miller-Rabin with the 64-bit
/// witness set otherwise.
pub(crate) fn decide_64(p: u64) -> (b: bool)
    ensures
        b == mr_decision_64(p),
{
    proof {
        assert(p & 1 == p % 2) by (bit_vector);
    }
    if p == 1 || p & 1 == 0 {
        return p == 2;
    }
    if p < CASCADE_BOUND {
        return decide_32(p);
    }
    let mont = Montgomery::new(p);
    let st = decompose(p);
    let ws: Vec<u64> = witness_vec_64();
    mr_all_witnesses(&mont, &ws, st.0, st.1)
}

/// The 64-bit witness set as a vector.
fn witness_vec_64() -> (ws: Vec<u64>)
    ensures
        ws@ == witnesses_64(),
{
    let mut ws: Vec<u64> = Vec::new();
    ws.push(2);
    ws.push(325);
    ws.push(9375);
    ws.push(28178);
    ws.push(450775);
    ws.push(9780504);
    ws.push(1795265022);
    proof {
        assert(ws@ =~= witnesses_64());
    }
    ws
}

/// The 32-bit witness set as a vector.
fn witness_vec_32() -> (ws: Vec<u64>)
    ensures
        ws@ == witnesses_32(),
{
    let mut ws: Vec<u64> = Vec::new();
    ws.push(2);
    ws.push(7);
    ws.push(61);
    proof {
        assert(ws@ =~= witnesses_32());
    }
    ws
}

} // verus!
