//! Mathematical notion of primality and of the least prime factor,
//! with the elementary number-theoretic lemmas the sieve and the
//! Miller-Rabin decision rest on.

use vstd::prelude::*;
use vstd::arithmetic::div_mod::lemma_fundamental_div_mod;
use vstd::arithmetic::div_mod::lemma_mod_bound;
use vstd::arithmetic::div_mod::lemma_mod_multiples_basic;
use vstd::arithmetic::div_mod::lemma_mod_self_0;
use vstd::arithmetic::div_mod::lemma_mul_mod_noop_left;
use vstd::arithmetic::div_mod::lemma_mul_mod_noop_right;
use vstd::arithmetic::div_mod::lemma_sub_mod_noop;

verus! {

/// `n` is prime: at least 2, with no divisor strictly between 1 and `n`.
pub open spec fn is_prime_spec(n: nat) -> bool {
    n >= 2 && forall|d: nat| 2 <= d < n ==> #[trigger] (n % d) != 0
}

/// The least divisor of `n` that is at least `c` (and `n` itself if none
/// smaller exists).
pub open spec fn least_factor_from(n: nat, c: nat) -> nat
    decreases n - c,
{
    if c >= n {
        n
    } else if n % c == 0 {
        c
    } else {
        least_factor_from(n, (c + 1) as nat)
    }
}

/// The least prime factor of `n`, for `n >= 2`; equals `n` exactly when
/// `n` is prime.
pub open spec fn lpf(n: nat) -> nat {
    least_factor_from(n, 2)
}

proof fn lemma_least_factor_from_props(n: nat, c: nat)
    requires
        2 <= c <= n,
        forall|d: nat| 2 <= d < c ==> #[trigger] (n % d) != 0,
    ensures
        c <= least_factor_from(n, c) <= n,
        n % least_factor_from(n, c) == 0,
        forall|d: nat| 2 <= d < least_factor_from(n, c) ==> #[trigger] (n % d) != 0,
    decreases n - c,
{
    if c >= n {
        lemma_mod_self_0(n as int);
    } else if n % c == 0 {
    } else {
        lemma_least_factor_from_props(n, (c + 1) as nat);
    }
}

/// The least prime factor divides `n`, lies in `[2, n]`, and nothing
/// smaller than it divides `n`.
pub proof fn lemma_lpf_props(n: nat)
    requires
        n >= 2,
    ensures
        2 <= lpf(n) <= n,
        n % lpf(n) == 0,
        forall|d: nat| 2 <= d < lpf(n) ==> #[trigger] (n % d) != 0,
{
    lemma_least_factor_from_props(n, 2);
}

/// Divisibility is transitive.
pub proof fn lemma_divides_trans(a: nat, b: nat, c: nat)
    requires
        a >= 1,
        b >= 1,
        b % a == 0,
        c % b == 0,
    ensures
        c % a == 0,
{
    lemma_fundamental_div_mod(b as int, a as int);
    lemma_fundamental_div_mod(c as int, b as int);
    let j = b as int / a as int;
    let k = c as int / b as int;
    assert(c as int == (j * k) * a) by (nonlinear_arith)
        requires
            b as int == a as int * j,
            c as int == b as int * k,
    ;
    lemma_mod_multiples_basic(j * k, a as int);
}

/// The least prime factor is prime.
pub proof fn lemma_lpf_prime(n: nat)
    requires
        n >= 2,
    ensures
        is_prime_spec(lpf(n)),
{
    let f = lpf(n);
    lemma_lpf_props(n);
    assert forall|d: nat| 2 <= d < f implies #[trigger] (f % d) != 0 by {
        if f % d == 0 {
            lemma_divides_trans(d, f, n);
        }
    }
}

/// `n >= 2` is prime exactly when its least prime factor is `n` itself.
pub proof fn lemma_prime_iff_lpf_self(n: nat)
    requires
        n >= 2,
    ensures
        is_prime_spec(n) <==> lpf(n) == n,
{
    lemma_lpf_props(n);
    if lpf(n) < n {
        assert(n % lpf(n) == 0);
        assert(!is_prime_spec(n));
    }
}

proof fn lemma_euclid_helper(p: nat, a: nat, b: nat)
    requires
        is_prime_spec(p),
        1 <= a < p,
        (a * b) % p == 0,
    ensures
        b % p == 0,
    decreases a,
{
    if a == 1 {
        assert(1 * b == b);
    } else {
        lemma_fundamental_div_mod(p as int, a as int);
        let q = p as int / a as int;
        let r = p as int % a as int;
        lemma_mod_bound(p as int, a as int);
        assert(r != 0);
        assert(r * b == p as int * b - q * (a as int * b)) by (nonlinear_arith)
            requires
                p as int == a as int * q + r,
        ;
        lemma_mod_multiples_basic(b as int, p as int);
        lemma_mul_mod_noop_right(q, a as int * b, p as int);
        assert((q * (a as int * b)) % (p as int) == 0);
        lemma_sub_mod_noop(p as int * b, q * (a as int * b), p as int);
        assert((r * b) % (p as int) == 0);
        lemma_euclid_helper(p, r as nat, b);
    }
}

/// Euclid's lemma: a prime dividing a product divides one of the factors.
pub proof fn lemma_euclid(p: nat, a: nat, b: nat)
    requires
        is_prime_spec(p),
        (a * b) % p == 0,
    ensures
        a % p == 0 || b % p == 0,
{
    let a2 = a % p;
    lemma_mul_mod_noop_left(a as int, b as int, p as int);
    if a2 != 0 {
        lemma_mod_bound(a as int, p as int);
        lemma_euclid_helper(p, a2, b);
    }
}

/// The least prime factor of `p * i` is `p`, when `p` is a prime no
/// larger than the least prime factor of `i`.
pub proof fn lemma_lpf_of_prime_multiple(p: nat, i: nat)
    requires
        is_prime_spec(p),
        i >= 2,
        p <= lpf(i),
    ensures
        lpf((p * i) as nat) == p,
{
    let w = (p * i) as nat;
    assert(w >= 4 && w as int == i as int * p as int) by (nonlinear_arith)
        requires
            p >= 2,
            i >= 2,
            w == p * i,
    ;
    lemma_lpf_props(w);
    lemma_lpf_props(i);
    let f = lpf(w);
    lemma_mod_multiples_basic(i as int, p as int);
    assert((w as int) % (p as int) == 0);
    assert(w % p == 0);
    // minimality of f among divisors of w puts f at or below p
    assert(f <= p);
    lemma_lpf_prime(w);
    lemma_euclid(f, p, i);
    if p % f == 0 {
        // a divisor of the prime p that is at least 2 is p itself
        if f < p {
            assert(!is_prime_spec(p));
        }
    } else {
        assert(i % f == 0);
        assert(f >= lpf(i));
    }
}

/// The cofactor of `v` with respect to its least prime factor.
pub open spec fn lpf_cofactor(v: nat) -> nat {
    v / lpf(v)
}

/// Dividing `v >= 2` by its least prime factor: the quotient is an exact
/// cofactor, smaller than `v`, and every prime factor of the quotient is
/// at least `lpf(v)`.
pub proof fn lemma_lpf_quotient(v: nat)
    requires
        v >= 2,
    ensures
        v == lpf(v) * lpf_cofactor(v),
        1 <= lpf_cofactor(v) < v,
        lpf_cofactor(v) >= 2 ==> lpf(lpf_cofactor(v)) >= lpf(v),
        !is_prime_spec(v) ==> lpf_cofactor(v) >= 2,
{
    lemma_lpf_props(v);
    let f = lpf(v);
    lemma_fundamental_div_mod(v as int, f as int);
    let m = lpf_cofactor(v) as int;
    assert(m == v as int / f as int);
    assert(v as int == f as int * m);
    assert(1 <= m < v) by (nonlinear_arith)
        requires
            v as int == f as int * m,
            2 <= f <= v,
            v >= 2,
    ;
    if m >= 2 {
        lemma_lpf_props(m as nat);
        lemma_mod_multiples_basic(f as int, m);
        assert((f as int * m) % m == 0);
        assert(v % m as nat == 0);
        lemma_divides_trans(lpf(m as nat), m as nat, v);
        assert(v % lpf(m as nat) == 0);
        assert(lpf(m as nat) >= f);
    }
    if m == 1 {
        assert(v == f) by (nonlinear_arith)
            requires
                v as int == f as int * m,
                m == 1,
        ;
        lemma_prime_iff_lpf_self(v);
    }
}

/// `0`, `1`, and even numbers other than `2` are not prime; `2` is.
pub proof fn lemma_small_and_even(n: nat)
    ensures
        n % 2 == 0 && n != 2 ==> !is_prime_spec(n),
        n == 1 ==> !is_prime_spec(n),
        is_prime_spec(2),
{
    if n % 2 == 0 && n != 2 && n >= 3 {
        assert(n % 2 == 0);
        assert(!is_prime_spec(n));
    }
}

} // verus!
