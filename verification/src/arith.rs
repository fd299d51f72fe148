//! Modular-congruence toolkit shared by the Montgomery engine and the
//! Miller-Rabin decision procedure: congruence basics, powers of two,
//! the Newton inversion step, and the modular inverse of `2^64`.

use vstd::prelude::*;
use vstd::arithmetic::div_mod::lemma_fundamental_div_mod;
use vstd::arithmetic::div_mod::lemma_mod_bound;
use vstd::arithmetic::div_mod::lemma_mod_mod;
use vstd::arithmetic::div_mod::lemma_mod_multiples_basic;
use vstd::arithmetic::div_mod::lemma_mod_multiples_vanish;
use vstd::arithmetic::div_mod::lemma_mod_twice;
use vstd::arithmetic::div_mod::lemma_mul_mod_noop_general;
use vstd::arithmetic::div_mod::lemma_small_mod;
use vstd::arithmetic::div_mod::lemma_sub_mod_noop;
use vstd::arithmetic::power::lemma1_pow;
use vstd::arithmetic::power::lemma_pow_adds;
use vstd::arithmetic::power::lemma_pow_distributes;
use vstd::arithmetic::power::lemma_pow_mod_noop;
use vstd::arithmetic::power::lemma_pow_multiplies;
use vstd::arithmetic::power::pow;
use vstd::arithmetic::power2::lemma2_to64;
use vstd::arithmetic::power2::lemma_pow2;
use vstd::arithmetic::power2::lemma_pow2_adds;
use vstd::arithmetic::power2::lemma_pow2_pos;
use vstd::arithmetic::power2::lemma_pow2_strictly_increases;
use vstd::arithmetic::power2::pow2;

verus! {

/// `a` and `b` are congruent modulo `n`.
pub open spec fn cong(n: int, a: int, b: int) -> bool {
    a % n == b % n
}

/// Congruence is compatible with multiplication.
pub proof fn lemma_cong_mul(n: int, a: int, b: int, c: int, d: int)
    requires
        n > 0,
        cong(n, a, b),
        cong(n, c, d),
    ensures
        cong(n, a * c, b * d),
{
    lemma_mul_mod_noop_general(a, c, n);
    lemma_mul_mod_noop_general(b, d, n);
}

/// Congruence is compatible with exponentiation.
pub proof fn lemma_cong_pow(n: int, a: int, b: int, e: nat)
    requires
        n > 0,
        cong(n, a, b),
    ensures
        cong(n, pow(a, e), pow(b, e)),
{
    lemma_pow_mod_noop(a, e, n);
    lemma_pow_mod_noop(b, e, n);
}

/// A congruence modulo `2^k1` also holds modulo any smaller power of two.
pub proof fn lemma_cong_pow2_weaken(a: int, b: int, k1: nat, k2: nat)
    requires
        k2 <= k1,
        cong(pow2(k1) as int, a, b),
    ensures
        cong(pow2(k2) as int, a, b),
{
    lemma_pow2_adds(k2, (k1 - k2) as nat);
    lemma_pow2_pos(k2);
    lemma_pow2_pos((k1 - k2) as nat);
    lemma_mod_mod(a, pow2(k2) as int, pow2((k1 - k2) as nat) as int);
    lemma_mod_mod(b, pow2(k2) as int, pow2((k1 - k2) as nat) as int);
}

/// One step of Newton's iteration for the inverse of `n` modulo a power
/// of two: a partial inverse modulo `2^k` is refined into one modulo `2^(2k)`.
pub proof fn lemma_newton_step(n: int, v: int, k: nat)
    requires
        k >= 1,
        (n * v) % (pow2(k) as int) == 1,
    ensures
        (n * (v * (2 - n * v))) % (pow2(2 * k) as int) == 1,
{
    let p = pow2(k) as int;
    let pp = pow2(2 * k) as int;
    lemma_pow2_pos(k);
    lemma_pow2_pos(2 * k);
    lemma_pow2_adds(k, k);
    assert(pp == p * p);
    lemma_fundamental_div_mod(n * v, p);
    let q = (n * v) / p;
    assert(n * v == q * p + 1);
    assert(n * (v * (2 - n * v)) == 1 - (q * q) * (p * p)) by (nonlinear_arith)
        requires
            n * v == q * p + 1,
    ;
    lemma_mod_multiples_vanish(-(q * q), 1, pp);
    assert(pp * -(q * q) + 1 == 1 - (q * q) * (p * p)) by (nonlinear_arith)
        requires
            pp == p * p,
    ;
    lemma2_to64();
    lemma_pow2_strictly_increases(0, 2 * k);
    lemma_small_mod(1, pp as nat);
}

/// The inverse of 2 modulo an odd number `n`: `(n + 1) / 2`.
pub open spec fn half_inverse(n: int) -> int {
    (n + 1) / 2
}

/// The inverse of `2^64` modulo an odd number `n`.
pub open spec fn r_inverse(n: int) -> int {
    pow(half_inverse(n), 64)
}

/// For odd `n`, `2 * half_inverse(n)` is congruent to 1.
pub proof fn lemma_half_inverse(n: int)
    requires
        n >= 3,
        n % 2 == 1,
    ensures
        cong(n, 2 * half_inverse(n), 1),
{
    lemma_fundamental_div_mod(n + 1, 2);
    assert(2 * half_inverse(n) == n + 1);
    lemma_mod_multiples_vanish(1, 1, n);
    lemma_small_mod(1, n as nat);
}

/// For odd `n`, `2^64 * r_inverse(n)` is congruent to 1 modulo `n`.
pub proof fn lemma_r_inverse(n: int)
    requires
        n >= 3,
        n % 2 == 1,
    ensures
        cong(n, pow2(64) as int * r_inverse(n), 1),
{
    lemma_half_inverse(n);
    lemma_pow2(64);
    lemma_pow_distributes(2, half_inverse(n), 64);
    assert(pow2(64) as int * r_inverse(n) == pow(2 * half_inverse(n), 64));
    lemma_cong_pow(n, 2 * half_inverse(n), 1, 64);
    lemma1_pow(64);
    assert(pow(1, 64) == 1);
}

/// An odd number squared is 1 modulo 8; this seeds Newton's iteration
/// for the inverse of an odd number modulo a power of two.
pub proof fn lemma_odd_square_mod8(n: int)
    requires
        n % 2 == 1,
    ensures
        (n * n) % (pow2(3) as int) == 1,
{
    lemma2_to64();
    lemma_fundamental_div_mod(n, 2);
    let m = n / 2;
    let e = if m % 2 == 0 {
        (m / 2) * (m + 1)
    } else {
        m * ((m + 1) / 2)
    };
    if m % 2 == 0 {
        lemma_fundamental_div_mod(m, 2);
        assert(m * (m + 1) == 2 * e) by (nonlinear_arith)
            requires
                m == 2 * (m / 2),
                e == (m / 2) * (m + 1),
        ;
    } else {
        lemma_fundamental_div_mod(m + 1, 2);
        lemma_mod_bound(m + 1, 2);
        assert((m + 1) % 2 == 0) by {
            lemma_fundamental_div_mod(m, 2);
            if (m + 1) % 2 == 1 {
                lemma_fundamental_div_mod(m + 1, 2);
                assert(false);
            }
        }
        assert(m * (m + 1) == 2 * e) by (nonlinear_arith)
            requires
                m + 1 == 2 * ((m + 1) / 2),
                e == m * ((m + 1) / 2),
        ;
    }
    assert(n * n == 8 * e + 1) by (nonlinear_arith)
        requires
            n == 2 * m + 1,
            m * (m + 1) == 2 * e,
    ;
    lemma_mod_multiples_vanish(e, 1, 8);
    lemma_small_mod(1, 8);
}

/// Multiplying both of two congruent values by the respective sides of
/// `2^64 * r_inverse(n) == 1` lets a factor `2^64` be cancelled.
pub proof fn lemma_cancel_r(n: int, a: int, b: int)
    requires
        n >= 3,
        n % 2 == 1,
        cong(n, a * pow2(64), b * pow2(64)),
    ensures
        cong(n, a, b),
{
    let ri = r_inverse(n);
    lemma_r_inverse(n);
    lemma_cong_mul(n, a * pow2(64), b * pow2(64), ri, ri);
    assert(a * pow2(64) * ri == a * (pow2(64) as int * ri)) by (nonlinear_arith);
    assert(b * pow2(64) * ri == b * (pow2(64) as int * ri)) by (nonlinear_arith);
    lemma_cong_mul(n, a, a, pow2(64) as int * ri, 1);
    lemma_cong_mul(n, b, b, pow2(64) as int * ri, 1);
}

/// One step of square-and-multiply in Montgomery form.  With `v2` the
/// Montgomery square of `v` and, for odd exponents, `res2` the Montgomery
/// product of `res` and `v`, the loop quantity
/// `res * v^e * ri^e` is unchanged when `e` is halved.
pub proof fn lemma_pow_step(n: int, ri: int, res: int, v: int, e: nat, res2: int, v2: int)
    requires
        n > 0,
        e >= 1,
        cong(n, v2, v * v * ri),
        e % 2 == 1 ==> cong(n, res2, res * v * ri),
        e % 2 == 0 ==> res2 == res,
    ensures
        cong(n, res2 * pow(v2, e / 2) * pow(ri, e / 2), res * pow(v, e) * pow(ri, e)),
{
    let h = e / 2;
    lemma_cong_pow(n, v2, v * v * ri, h);
    lemma_pow_distributes(v * v, ri, h);
    vstd::arithmetic::power::lemma_square_is_pow2(v);
    lemma_pow_multiplies(v, 2, h);
    let pv = pow(v, 2 * h);
    let ph = pow(ri, h);
    assert(cong(n, pow(v2, h), pv * ph));
    lemma_pow_adds(ri, h, h);
    if e % 2 == 0 {
        lemma_cong_mul(n, res2, res2, pow(v2, h), pv * ph);
        lemma_cong_mul(n, res2 * pow(v2, h), res2 * (pv * ph), ph, ph);
        assert(res2 * (pv * ph) * ph == res2 * pv * (ph * ph)) by (nonlinear_arith);
        assert(res2 * pv * (ph * ph) == res * pow(v, e) * pow(ri, e));
    } else {
        lemma_cong_mul(n, res2, res * v * ri, pow(v2, h), pv * ph);
        lemma_cong_mul(n, res2 * pow(v2, h), res * v * ri * (pv * ph), ph, ph);
        vstd::arithmetic::power::lemma_pow1(v);
        vstd::arithmetic::power::lemma_pow1(ri);
        lemma_pow_adds(v, 1, 2 * h);
        lemma_pow_adds(ri, 1, 2 * h);
        assert(res * v * ri * (pv * ph) * ph == res * (v * pv) * (ri * (ph * ph)))
            by (nonlinear_arith);
        assert(v * pv == pow(v, e));
        assert(ri * (ph * ph) == pow(ri, e));
    }
}

/// From `r * 2^64` congruent to `x`, conclude that `r` is congruent to
/// `x` scaled down by the inverse of `2^64`.
pub proof fn lemma_unscale(n: int, r: int, x: int)
    requires
        n >= 3,
        n % 2 == 1,
        cong(n, r * pow2(64), x),
    ensures
        cong(n, r, x * r_inverse(n)),
{
    let ri = r_inverse(n);
    lemma_r_inverse(n);
    lemma_cong_mul(n, r * pow2(64), x, ri, ri);
    assert(r * pow2(64) * ri == r * (pow2(64) as int * ri)) by (nonlinear_arith);
    lemma_cong_mul(n, r, r, pow2(64) as int * ri, 1);
}

/// No odd number of at least 3 divides a power of two.
pub proof fn lemma_odd_not_divides_pow2(n: int, k: nat)
    requires
        n >= 3,
        n % 2 == 1,
    ensures
        (pow2(k) as int) % n != 0,
    decreases k,
{
    lemma2_to64();
    if k == 0 {
        lemma_small_mod(1, n as nat);
    } else if (pow2(k) as int) % n == 0 {
        let e = pow2((k - 1) as nat) as int;
        lemma_pow2_adds(1, (k - 1) as nat);
        assert(pow2(k) as int == 2 * e);
        lemma_fundamental_div_mod(2 * e, n);
        let q = (2 * e) / n;
        assert(2 * e == n * q);
        lemma_fundamental_div_mod(q, 2);
        if q % 2 == 0 {
            assert(e == n * (q / 2)) by (nonlinear_arith)
                requires
                    2 * e == n * q,
                    q == 2 * (q / 2),
            ;
            lemma_mod_multiples_basic(q / 2, n);
            assert(e % n == (n * (q / 2)) % n == ((q / 2) * n) % n);
            lemma_odd_not_divides_pow2(n, (k - 1) as nat);
        } else {
            lemma_fundamental_div_mod(n, 2);
            assert(n * q == 2 * (2 * (n / 2) * (q / 2) + (n / 2) + (q / 2)) + 1)
                by (nonlinear_arith)
                requires
                    n == 2 * (n / 2) + 1,
                    q == 2 * (q / 2) + 1,
            ;
            assert(2 * e != n * q);
        }
    }
}

/// A value produced by Montgomery exponentiation of the converted
/// residue `am` of `a` carries `a^t * 2^64` modulo `n`.
pub proof fn lemma_mont_form(n: int, am: int, a: int, t: nat, at: int)
    requires
        n >= 3,
        n % 2 == 1,
        cong(n, am, a * pow2(64)),
        cong(n, at, pow(am, t) * pow(r_inverse(n), t) * pow2(64)),
    ensures
        cong(n, at, pow(a, t) * pow2(64)),
{
    let rr = pow2(64) as int;
    let ri = r_inverse(n);
    lemma_cong_pow(n, am, a * rr, t);
    lemma_pow_distributes(a, rr, t);
    lemma_cong_mul(n, pow(am, t), pow(a, t) * pow(rr, t), pow(ri, t), pow(ri, t));
    lemma_cong_mul(n, pow(am, t) * pow(ri, t), pow(a, t) * pow(rr, t) * pow(ri, t), rr, rr);
    lemma_pow_distributes(rr, ri, t);
    lemma_r_inverse(n);
    lemma_cong_pow(n, rr * ri, 1, t);
    lemma1_pow(t);
    assert(pow(a, t) * pow(rr, t) * pow(ri, t) * rr == pow(a, t) * (pow(rr, t) * pow(ri, t))
        * rr) by (nonlinear_arith);
    lemma_cong_mul(n, pow(a, t), pow(a, t), pow(rr * ri, t), 1);
    lemma_cong_mul(n, pow(a, t) * pow(rr * ri, t), pow(a, t) * 1, rr, rr);
    assert(pow(a, t) * 1 == pow(a, t));
}

/// Squaring in Montgomery form doubles the exponent carried by a value.
pub proof fn lemma_square_step(n: int, at: int, a: int, m: nat, at2: int)
    requires
        n >= 3,
        n % 2 == 1,
        cong(n, at, pow(a, m) * pow2(64)),
        cong(n, at2, at * at * r_inverse(n)),
    ensures
        cong(n, at2, pow(a, 2 * m) * pow2(64)),
{
    let rr = pow2(64) as int;
    let ri = r_inverse(n);
    let x = pow(a, m);
    lemma_cong_mul(n, at, x * rr, at, x * rr);
    lemma_cong_mul(n, at * at, (x * rr) * (x * rr), ri, ri);
    lemma_pow_adds(a, m, m);
    assert((x * rr) * (x * rr) * ri == (x * x) * rr * (rr * ri)) by (nonlinear_arith);
    assert((x * x) * rr * (rr * ri) == pow(a, 2 * m) * rr * (rr * ri));
    lemma_r_inverse(n);
    lemma_cong_mul(n, pow(a, 2 * m) * rr, pow(a, 2 * m) * rr, rr * ri, 1);
    assert(pow(a, 2 * m) * rr * 1 == pow(a, 2 * m) * rr);
}

/// In Montgomery form, equality with `r` (the form of 1) means the
/// carried power is congruent to 1.
pub proof fn lemma_check_one(n: int, at: int, a: int, m: nat, r: int)
    requires
        n >= 3,
        n % 2 == 1,
        0 <= at < n,
        r == pow2(64) as int % n,
        cong(n, at, pow(a, m) * pow2(64)),
    ensures
        (at == r) <==> (pow(a, m) % n == 1),
{
    let rr = pow2(64) as int;
    let x = pow(a, m);
    lemma_small_mod(at as nat, n as nat);
    lemma_small_mod(1, n as nat);
    lemma_mod_twice(rr, n);
    if at == r {
        assert(1 * rr == rr);
        assert(cong(n, x * rr, 1 * rr));
        lemma_cancel_r(n, x, 1);
    }
    if x % n == 1 {
        lemma_cong_mul(n, x, 1, rr, rr);
        assert(1 * rr == rr);
    }
}

/// In Montgomery form, equality with `n - r` (the form of -1) means the
/// carried power is congruent to -1, canonically `n - 1`.
pub proof fn lemma_check_minus_one(n: int, at: int, a: int, m: nat, r: int)
    requires
        n >= 3,
        n % 2 == 1,
        0 <= at < n,
        1 <= r < n,
        r == pow2(64) as int % n,
        cong(n, at, pow(a, m) * pow2(64)),
    ensures
        (at == n - r) <==> (pow(a, m) % n == n - 1),
{
    let rr = pow2(64) as int;
    let x = pow(a, m);
    lemma_small_mod(at as nat, n as nat);
    lemma_small_mod((n - 1) as nat, n as nat);
    lemma_small_mod((n - r) as nat, n as nat);
    lemma_small_mod(0, n as nat);
    lemma_mod_twice(rr, n);
    // (n - 1) * rr is congruent to n - r
    lemma_sub_mod_noop(0, rr, n);
    lemma_mod_multiples_vanish(1, -r, n);
    lemma_mod_multiples_vanish(rr, -rr, n);
    assert((n - 1) * rr == n * rr + (-rr)) by (nonlinear_arith);
    assert(((n - 1) * rr) % n == (-rr) % n);
    assert((0 - rr) % n == (0 - r) % n);
    assert(cong(n, (n - 1) * rr, n - r));
    if at == n - r {
        assert(cong(n, x * rr, (n - 1) * rr));
        lemma_cancel_r(n, x, n - 1);
    }
    if x % n == n - 1 {
        lemma_cong_mul(n, x, n - 1, rr, rr);
    }
}

} // verus!
