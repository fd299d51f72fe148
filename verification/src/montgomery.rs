//! Montgomery modular arithmetic for a 64-bit odd modulus: residues are
//! carried as `x * 2^64 mod N`, so that modular multiplication needs no
//! division, only a double-width product and a reduction.
//!
//! One 64-bit engine serves the checks of every width: the primality
//! decision depends only on the candidate's value, never on the width of
//! the arithmetic, so the narrower checks differ only in their witness
//! sets.

use vstd::prelude::*;
use vstd::arithmetic::div_mod::lemma_fundamental_div_mod;
use vstd::arithmetic::div_mod::lemma_mod_bound;
use vstd::arithmetic::div_mod::lemma_mod_multiples_vanish;
use vstd::arithmetic::div_mod::lemma_mod_twice;
use vstd::arithmetic::div_mod::lemma_mul_mod_noop;
use vstd::arithmetic::div_mod::lemma_mul_mod_noop_left;
use vstd::arithmetic::div_mod::lemma_mul_mod_noop_right;
use vstd::arithmetic::div_mod::lemma_small_mod;
use vstd::arithmetic::div_mod::lemma_sub_mod_noop;
use vstd::arithmetic::mul::lemma_mul_is_associative;
use vstd::arithmetic::mul::lemma_mul_is_commutative;
use vstd::arithmetic::power::lemma_pow0;
use vstd::arithmetic::power::pow;
use vstd::arithmetic::power2::lemma2_to64;
use vstd::arithmetic::power2::lemma2_to64_rest;
use vstd::arithmetic::power2::lemma_pow2_adds;
use vstd::arithmetic::power2::lemma_pow2_strictly_increases;
use vstd::arithmetic::power2::pow2;
use vstd::bits::lemma_u128_shr_is_div;

use crate::arith::cong;
use crate::arith::lemma_cong_mul;
use crate::arith::lemma_cong_pow2_weaken;
use crate::arith::lemma_newton_step;
use crate::arith::lemma_odd_square_mod8;
use crate::arith::lemma_pow_step;
use crate::arith::lemma_unscale;
use crate::arith::r_inverse;

verus! {

/// `2^64`, the Montgomery radix for a 64-bit modulus.
const RADIX: u128 = 0x1_0000_0000_0000_0000;

/// Modulus context for Montgomery arithmetic: the odd modulus `N`, its
/// multiplicative inverse modulo `2^64`, and `2^64 mod N` together with
/// its square, used to convert residues into Montgomery form.
pub(crate) struct Montgomery {
    pub modulo: u64,
    pub modulo_inv: u64,
    pub r: u64,
    pub r2: u64,
}

impl Montgomery {
    /// The four fields are mutually consistent functions of the odd modulus.
    pub(crate) open spec fn wf(&self) -> bool {
        &&& self.modulo >= 3
        &&& self.modulo % 2 == 1
        &&& (self.modulo as int * self.modulo_inv as int) % (pow2(64) as int) == 1
        &&& self.r as int == (pow2(64) as int) % (self.modulo as int)
        &&& self.r2 as int == (pow2(64) as int * pow2(64) as int) % (self.modulo as int)
    }

    /// One Newton step for the inverse of `n` modulo `2^64`: doubles the
    /// number of correct low bits of the candidate inverse `v`.
    fn newton_step(n: u64, v: u64, Ghost(k): Ghost<nat>) -> (w: u64)
        requires
            n % 2 == 1,
            1 <= k <= 64,
            (n as int * v as int) % (pow2(k) as int) == 1,
        ensures
            2 * k < 64 ==> (n as int * w as int) % (pow2(2 * k) as int) == 1,
            2 * k >= 64 ==> (n as int * w as int) % (pow2(64) as int) == 1,
    {
        let x: u64 = n.wrapping_mul(v);
        let y: u64 = 2u64.wrapping_sub(x);
        let w: u64 = v.wrapping_mul(y);
        proof {
            lemma2_to64();
            lemma2_to64_rest();
            let rr = pow2(64) as int;
            let ni = n as int;
            let vi = v as int;
            lemma_mod_bound(ni * vi, rr);
            lemma_mod_twice(ni * vi, rr);
            assert(x as int == (ni * vi) % rr);
            if 2 - (x as int) < 0 {
                lemma_mod_multiples_vanish(1, 2 - x as int, rr);
            }
            lemma_small_mod(y as nat, pow2(64));
            lemma_sub_mod_noop(2, x as int, rr);
            lemma_sub_mod_noop(2, ni * vi, rr);
            assert(y as int % rr == (2 - ni * vi) % rr);
            assert(y as int == (2 - ni * vi) % rr);
            lemma_mul_mod_noop_right(vi, 2 - ni * vi, rr);
            assert(w as int == (vi * (2 - ni * vi)) % rr);
            lemma_mod_twice(vi * (2 - ni * vi), rr);
            lemma_cong_mul(rr, ni, ni, w as int, vi * (2 - ni * vi));
            lemma_newton_step(ni, vi, k);
            let target = ni * (vi * (2 - ni * vi));
            assert(target % (pow2(2 * k) as int) == 1);
            lemma_pow2_strictly_increases(0, 2 * k);
            lemma_small_mod(1, pow2(2 * k));
            if 2 * k < 64 {
                lemma_cong_pow2_weaken(ni * (w as int), target, 64, 2 * k);
            } else {
                lemma_cong_pow2_weaken(target, 1, 2 * k, 64);
                lemma_small_mod(1, pow2(64));
            }
        }
        w
    }

    /// Builds the context for an odd modulus of at least 3: computes
    /// `2^64 mod N`, its square modulo `N`, and the inverse of `N`
    /// modulo `2^64` by Newton's iteration.
    pub(crate) fn new(modulo: u64) -> (m: Montgomery)
        requires
            modulo >= 3,
            modulo % 2 == 1,
        ensures
            m.wf(),
            m.modulo == modulo,
    {
        proof {
            lemma2_to64();
            lemma2_to64_rest();
        }
        let n128: u128 = modulo as u128;
        proof {
            lemma_mod_bound(RADIX as int, n128 as int);
        }
        let r: u64 = (RADIX % n128) as u64;
        proof {
            lemma_mod_bound(r as int * r as int, n128 as int);
            lemma_mul_mod_noop(pow2(64) as int, pow2(64) as int, modulo as int);
        }
        proof {
            assert((r as int) * (r as int) <= u128::MAX) by (nonlinear_arith)
                requires
                    r <= u64::MAX,
            ;
        }
        let r2: u64 = (((r as u128) * (r as u128)) % n128) as u64;
        proof {
            lemma_odd_square_mod8(modulo as int);
        }
        let inv1: u64 = Self::newton_step(modulo, modulo, Ghost(3nat));
        let inv2: u64 = Self::newton_step(modulo, inv1, Ghost(6nat));
        let inv3: u64 = Self::newton_step(modulo, inv2, Ghost(12nat));
        let inv4: u64 = Self::newton_step(modulo, inv3, Ghost(24nat));
        let modulo_inv: u64 = Self::newton_step(modulo, inv4, Ghost(48nat));
        Montgomery { modulo, modulo_inv, r, r2 }
    }

    /// Montgomery product: returns `lhs * rhs / 2^64 mod N`, kept in
    /// `[0, N)`.  Wrapping arithmetic is intentional: the reduction works
    /// modulo `2^64` and one conditional addition of `N` corrects it.
    pub(crate) fn multiply(&self, lhs: u64, rhs: u64) -> (res: u64)
        requires
            self.wf(),
            lhs < self.modulo,
        ensures
            res < self.modulo,
            cong(self.modulo as int, res as int * pow2(64) as int, lhs as int * rhs as int),
            cong(
                self.modulo as int,
                res as int,
                lhs as int * rhs as int * r_inverse(self.modulo as int),
            ),
    {
        proof {
            lemma2_to64();
            lemma2_to64_rest();
            assert(lhs as int * rhs as int <= u128::MAX) by (nonlinear_arith)
                requires
                    lhs <= u64::MAX,
                    rhs <= u64::MAX,
            ;
        }
        let a: u128 = (lhs as u128) * (rhs as u128);
        proof {
            lemma_mod_bound(a as int, RADIX as int);
        }
        let lo: u64 = (a % RADIX) as u64;
        let m: u64 = lo.wrapping_mul(self.modulo_inv);
        proof {
            lemma_u128_shr_is_div(a, 64);
            lemma_pow2_adds(64, 64);
            assert((a as int) < pow2(64) as int * pow2(64) as int) by (nonlinear_arith)
                requires
                    a as int <= u128::MAX,
                    u128::MAX < pow2(64) as int * pow2(64) as int,
            ;
            assert((a >> 64) < pow2(64)) by (nonlinear_arith)
                requires
                    (a >> 64) as int == a as nat / pow2(64),
                    (a as int) < pow2(64) as int * pow2(64) as int,
                    pow2(64) >= 1,
            ;
        }
        let hi: u64 = (a >> 64) as u64;
        proof {
            assert((m as int) * (self.modulo as int) <= u128::MAX) by (nonlinear_arith)
                requires
                    m <= u64::MAX,
                    self.modulo <= u64::MAX,
            ;
        }
        let mn: u128 = (m as u128) * (self.modulo as u128);
        proof {
            lemma_u128_shr_is_div(mn, 64);
            assert((mn as int) < pow2(64) as int * pow2(64) as int) by (nonlinear_arith)
                requires
                    mn as int <= u128::MAX,
                    u128::MAX < pow2(64) as int * pow2(64) as int,
            ;
            assert((mn >> 64) < pow2(64)) by (nonlinear_arith)
                requires
                    (mn >> 64) as int == mn as nat / pow2(64),
                    (mn as int) < pow2(64) as int * pow2(64) as int,
                    pow2(64) >= 1,
            ;
        }
        let sub: u64 = (mn >> 64) as u64;
        let res: u64 = if hi >= sub {
            hi - sub
        } else {
            hi.wrapping_sub(sub).wrapping_add(self.modulo)
        };
        proof {
            let ni = self.modulo as int;
            let rr = pow2(64) as int;
            let ai = a as int;
            let mi = m as int;
            let loi = lo as int;
            // the low word of m * N is again the low word of a
            assert(mi == (loi * self.modulo_inv as int) % rr);
            lemma_mul_mod_noop_left(loi * self.modulo_inv as int, ni, rr);
            lemma_mul_is_associative(loi, self.modulo_inv as int, ni);
            lemma_mul_is_commutative(self.modulo_inv as int, ni);
            lemma_cong_mul(rr, loi, loi, self.modulo_inv as int * ni, 1);
            lemma_mul_mod_noop_right(loi, ni * self.modulo_inv as int, rr);
            assert((mi * ni) % rr == (loi * (self.modulo_inv as int * ni)) % rr);
            assert(loi * (self.modulo_inv as int * ni) == loi * (ni * self.modulo_inv as int));
            lemma_mul_mod_noop_right(loi, (ni * self.modulo_inv as int) % rr, rr);
            assert((mi * ni) % rr == (loi * 1) % rr);
            lemma_small_mod(lo as nat, pow2(64));
            assert((mi * ni) % rr == loi);
            // decompose both double-width values around 2^64
            lemma_fundamental_div_mod(ai, rr);
            lemma_fundamental_div_mod(mi * ni, rr);
            assert(lo as int == ai % rr);
            assert(ai == rr * hi as int + loi);
            assert(mn as int == rr * sub as int + loi);
            // bounds put the corrected difference in [0, N)
            assert(ai < ni * rr) by (nonlinear_arith)
                requires
                    ai == lhs as int * rhs as int,
                    lhs as int <= ni - 1,
                    (rhs as int) < rr,
                    ni >= 1,
                    rr >= 1,
            ;
            assert((mn as int) < rr * ni) by (nonlinear_arith)
                requires
                    mn as int == mi * ni,
                    mi < rr,
                    ni >= 1,
            ;
            let d = hi as int - sub as int;
            assert(ai - mn as int == rr * d);
            assert(-ni < d < ni) by (nonlinear_arith)
                requires
                    ai - mn as int == rr * d,
                    ai < ni * rr,
                    (mn as int) < rr * ni,
                    ai >= 0,
                    mn as int >= 0,
                    rr >= 2,
                    ni >= 1,
            ;
            let ri = res as int;
            assert(ri == if d >= 0 { d } else { d + ni });
            assert(res < self.modulo);
            // res * 2^64 differs from a by a multiple of N
            let mult = if d >= 0 { -mi } else { -mi + rr };
            assert(ri * rr == ni * mult + ai) by (nonlinear_arith)
                requires
                    ri == if d >= 0 { d } else { d + ni },
                    ai - mn as int == rr * d,
                    mn as int == mi * ni,
                    mult == if d >= 0 { -mi } else { -mi + rr },
            ;
            lemma_mod_multiples_vanish(mult, ai, ni);
            assert(cong(ni, ri * rr, ai));
            lemma_unscale(ni, ri, ai);
        }
        res
    }

    /// Binary exponentiation in Montgomery form: for `val` carrying
    /// `x * 2^64 mod N`, the result carries `x^exp * 2^64 mod N`.  The
    /// accumulator starts at `r`, the Montgomery form of 1.
    pub(crate) fn pow(&self, val: u64, exp: u64) -> (res: u64)
        requires
            self.wf(),
            val < self.modulo,
        ensures
            res < self.modulo,
            cong(
                self.modulo as int,
                res as int,
                pow(val as int, exp as nat) * pow(r_inverse(self.modulo as int), exp as nat)
                    * pow2(64) as int,
            ),
    {
        let mut res: u64 = self.r;
        let mut v: u64 = val;
        let mut e: u64 = exp;
        proof {
            let ni = self.modulo as int;
            let rr = pow2(64) as int;
            let pq = pow(val as int, exp as nat) * pow(r_inverse(ni), exp as nat);
            lemma_mod_twice(rr, ni);
            assert(cong(ni, res as int, rr));
            lemma_cong_mul(ni, res as int, rr, pq, pq);
            assert(res as int * pq == res as int * pow(val as int, exp as nat) * pow(
                r_inverse(ni),
                exp as nat,
            )) by (nonlinear_arith)
                requires
                    pq == pow(val as int, exp as nat) * pow(r_inverse(ni), exp as nat),
            ;
            assert(rr * pq == pq * rr) by (nonlinear_arith);
        }
        while e > 0
            invariant
                self.wf(),
                res < self.modulo,
                v < self.modulo,
                cong(
                    self.modulo as int,
                    res as int * pow(v as int, e as nat) * pow(
                        r_inverse(self.modulo as int),
                        e as nat,
                    ),
                    pow(val as int, exp as nat) * pow(r_inverse(self.modulo as int), exp as nat)
                        * pow2(64) as int,
                ),
            decreases e,
        {
            let ghost res0 = res;
            let ghost v0 = v;
            let ghost ebefore = e;
            if e & 1 != 0 {
                res = self.multiply(res, v);
            }
            v = self.multiply(v, v);
            e = e >> 1;
            proof {
                let ni = self.modulo as int;
                let ri = r_inverse(ni);
                assert(ebefore & 1 == ebefore % 2) by (bit_vector);
                assert(ebefore >> 1 == ebefore / 2) by (bit_vector);
                lemma_pow_step(
                    ni,
                    ri,
                    res0 as int,
                    v0 as int,
                    ebefore as nat,
                    res as int,
                    v as int,
                );
            }
        }
        proof {
            let ni = self.modulo as int;
            lemma_pow0(v as int);
            lemma_pow0(r_inverse(ni));
        }
        res
    }

    /// Brings an ordinary residue into Montgomery form: returns
    /// `val * 2^64 mod N`.
    pub(crate) fn convert(&self, val: u64) -> (res: u64)
        requires
            self.wf(),
        ensures
            res < self.modulo,
            cong(self.modulo as int, res as int, val as int * pow2(64) as int),
    {
        proof {
            lemma_mod_bound(pow2(64) as int * pow2(64) as int, self.modulo as int);
        }
        let res: u64 = self.multiply(self.r2, val);
        proof {
            let ni = self.modulo as int;
            let rr = pow2(64) as int;
            // res * 2^64 is congruent to r2 * val, which is val * 2^64 * 2^64
            lemma_mul_mod_noop_left(rr * rr, val as int, ni);
            assert((rr * rr) % ni * val as int == self.r2 as int * val as int);
            assert(rr * rr * val as int == (val as int * rr) * rr) by (nonlinear_arith);
            assert(cong(ni, res as int * rr, (val as int * rr) * rr));
            crate::arith::lemma_cancel_r(ni, res as int, val as int * rr);
        }
        res
    }
}

} // verus!
