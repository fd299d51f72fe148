//! Least-prime-factor table built by a linear sieve: each composite is
//! marked exactly once, by its least prime factor, so construction is
//! linear in the bound.  The table answers primality and factors values
//! below its bound.

use vstd::prelude::*;
use vstd::arithmetic::div_mod::lemma_div_by_multiple;
use vstd::arithmetic::div_mod::lemma_div_is_ordered;
use vstd::arithmetic::div_mod::lemma_fundamental_div_mod;
use vstd::arithmetic::div_mod::lemma_mod_multiples_basic;

use crate::primes::is_prime_spec;
use crate::primes::lemma_divides_trans;
use crate::primes::lemma_lpf_of_prime_multiple;
use crate::primes::lemma_lpf_prime;
use crate::primes::lemma_lpf_props;
use crate::primes::lemma_lpf_quotient;
use crate::primes::lemma_prime_iff_lpf_self;
use crate::primes::lpf;
use crate::primes::lpf_cofactor;

verus! {

/// The product of a sequence of values, 1 when empty.
pub open spec fn seq_product(s: Seq<usize>) -> nat
    decreases s.len(),
{
    if s.len() == 0 {
        1
    } else {
        (seq_product(s.drop_last()) * s.last()) as nat
    }
}

/// Expected table entry for `v` before outer sieve iteration `i`:
/// primes are recorded when reached, composites when their cofactor
/// (value divided by least prime factor) is reached.
spec fn mid_entry(v: nat, i: nat) -> nat {
    if v < 2 {
        usize::MAX as nat
    } else if is_prime_spec(v) {
        if v < i {
            v
        } else {
            usize::MAX as nat
        }
    } else if lpf_cofactor(v) < i {
        lpf(v)
    } else {
        usize::MAX as nat
    }
}

/// Expected table entry during iteration `i`, right after a prime `i`
/// has been recorded but before the inner marking pass.
spec fn marked_entry(v: nat, i: nat) -> nat {
    if v >= 2 && is_prime_spec(v) && v == i {
        v
    } else {
        mid_entry(v, i)
    }
}

/// Expected table entry during the inner marking pass of iteration `i`,
/// after the first `j` recorded primes have marked their multiples of `i`.
spec fn inner_entry(v: nat, i: nat, ps: Seq<usize>, j: int) -> nat {
    if 2 <= v && !is_prime_spec(v) && lpf_cofactor(v) == i && (exists|k: int|
        0 <= k < j && ps[k] as nat == lpf(v)) {
        lpf(v)
    } else {
        marked_entry(v, i)
    }
}

/// Table of least prime factors for every value below a bound, built
/// once by a linear sieve and immutable afterwards.
pub struct LinearSieve {
    arr: Vec<usize>,
}

impl View for LinearSieve {
    type V = Seq<usize>;

    closed spec fn view(&self) -> Seq<usize> {
        self.arr@
    }
}

impl LinearSieve {
    /// The table is fully built: `0` and `1` carry the sentinel, and
    /// every other entry holds the least prime factor of its index, so
    /// an entry equals its index exactly for primes.
    pub open spec fn wf(&self) -> bool {
        &&& forall|v: int| 0 <= v < 2 && v < self@.len() ==> self@[v] == usize::MAX
        &&& forall|v: int| 2 <= v < self@.len() ==> (#[trigger] self@[v]) as nat == lpf(v as nat)
    }

    /// Build the table for the range `[0, len)` in one linear pass: each
    /// value not yet marked when reached is a new prime; then every
    /// recorded prime `p` up to the least factor of `i` marks `p * i`.
    pub fn new(len: usize) -> (s: Self)
        ensures
            s.wf(),
            s@.len() == len,
    {
        let mut arr: Vec<usize> = Vec::new();
        while arr.len() < len
            invariant
                arr@.len() <= len,
                forall|v: int| 0 <= v < arr@.len() ==> arr@[v] == usize::MAX,
            decreases len - arr@.len(),
        {
            arr.push(usize::MAX);
        }
        let mut primes: Vec<usize> = Vec::new();
        let mut i: usize = 2;
        proof {
            assert forall|v: int| 0 <= v < len implies arr@[v] as nat == mid_entry(v as nat, 2)
            by {
                if v >= 2 {
                    lemma_lpf_quotient(v as nat);
                }
            }
        }
        while i < len
            invariant
                arr@.len() == len,
                2 <= i,
                forall|k1: int, k2: int|
                    0 <= k1 < k2 < primes@.len() ==> primes@[k1] < primes@[k2],
                forall|k: int|
                    0 <= k < primes@.len() ==> is_prime_spec((#[trigger] primes@[k]) as nat) && 2
                        <= primes@[k] < i,
                forall|q: nat|
                    2 <= q < i && #[trigger] is_prime_spec(q) ==> exists|k: int|
                        0 <= k < primes@.len() && #[trigger] primes@[k] == q,
                forall|v: int|
                    0 <= v < len ==> (#[trigger] arr@[v]) as nat == mid_entry(v as nat, i as nat),
            decreases len - i,
        {
            proof {
                if i >= 2 {
                    lemma_lpf_props(i as nat);
                    lemma_prime_iff_lpf_self(i as nat);
                    lemma_lpf_quotient(i as nat);
                }
                assert(arr@[i as int] as nat == mid_entry(i as nat, i as nat));
            }
            let ghost pre = primes@;
            if arr[i] == usize::MAX {
                primes.push(i);
                arr.set(i, i);
                proof {
                    assert(is_prime_spec(i as nat));
                }
            }
            proof {
                assert(is_prime_spec(i as nat) ==> lpf(i as nat) == i as nat);
                assert(arr@[i as int] as nat == lpf(i as nat));
                assert forall|q: nat|
                    2 <= q < i + 1 && #[trigger] is_prime_spec(q) implies exists|k: int|
                    0 <= k < primes@.len() && #[trigger] primes@[k] == q by {
                    if q == i as nat {
                        assert(primes@[primes@.len() - 1] == i);
                    } else {
                        assert(exists|k: int| 0 <= k < pre.len() && pre[k] == q);
                        let k0 = choose|k: int| 0 <= k < pre.len() && pre[k] == q;
                        assert(primes@[k0] == q);
                    }
                }
                assert forall|v: int|
                    0 <= v < len implies (#[trigger] arr@[v]) as nat == inner_entry(
                    v as nat,
                    i as nat,
                    primes@,
                    0,
                ) by {
                    if v >= 2 {
                        lemma_lpf_quotient(v as nat);
                    }
                }
            }
            let lim: usize = arr[i];
            let ghost primes_now = primes@;
            let mut j: usize = 0;
            while j < primes.len() && primes[j] <= lim && primes[j] <= (len - 1) / i
                invariant
                    arr@.len() == len,
                    2 <= i < len,
                    primes@ == primes_now,
                    j <= primes@.len(),
                    lim as nat == lpf(i as nat),
                    forall|k1: int, k2: int|
                        0 <= k1 < k2 < primes@.len() ==> primes@[k1] < primes@[k2],
                    forall|k: int|
                        0 <= k < primes@.len() ==> is_prime_spec((#[trigger] primes@[k]) as nat)
                            && 2 <= primes@[k] < i + 1,
                    forall|q: nat|
                        2 <= q < i + 1 && #[trigger] is_prime_spec(q) ==> exists|k: int|
                            0 <= k < primes@.len() && #[trigger] primes@[k] == q,
                    forall|v: int|
                        0 <= v < len ==> (#[trigger] arr@[v]) as nat == inner_entry(
                            v as nat,
                            i as nat,
                            primes@,
                            j as int,
                        ),
                decreases primes@.len() - j,
            {
                let pj: usize = primes[j];
                proof {
                    lemma_fundamental_div_mod((len - 1) as int, i as int);
                    assert(pj as int * i as int <= (len - 1) as int) by (nonlinear_arith)
                        requires
                            pj as int <= ((len - 1) as int) / (i as int),
                            (len - 1) as int == i as int * (((len - 1) as int) / (i as int)) + (
                            (len - 1) as int) % (i as int),
                            0 <= ((len - 1) as int) % (i as int),
                            i >= 2,
                    ;
                }
                let w: usize = pj * i;
                proof {
                    lemma_lpf_props(i as nat);
                    lemma_lpf_of_prime_multiple(pj as nat, i as nat);
                    lemma_div_by_multiple(i as int, pj as int);
                    assert((i as int * pj as int) / (pj as int) == i as int);
                    assert(w as nat == pj as nat * i as nat);
                    assert(w as int == i as int * pj as int) by (nonlinear_arith)
                        requires
                            w as int == pj as int * i as int,
                    ;
                    assert(lpf(w as nat) == pj as nat);
                    assert(lpf_cofactor(w as nat) == i as nat) by {
                        assert(w as nat / lpf(w as nat) == w as nat / (pj as nat));
                        assert(w as nat / (pj as nat) == i as nat);
                    }
                    assert(w as int > pj as int) by (nonlinear_arith)
                        requires
                            w as int == pj as int * i as int,
                            i >= 2,
                            pj >= 1,
                    ;
                    lemma_prime_iff_lpf_self(w as nat);
                    assert(!is_prime_spec(w as nat));
                }
                arr.set(w, pj);
                j += 1;
                proof {
                    assert forall|v: int|
                        0 <= v < len implies (#[trigger] arr@[v]) as nat == inner_entry(
                        v as nat,
                        i as nat,
                        primes@,
                        j as int,
                    ) by {
                        if v == w {
                            assert(primes@[j - 1] as nat == lpf(v as nat));
                        } else if v >= 2 && !is_prime_spec(v as nat) && lpf_cofactor(v as nat)
                            == i as nat {
                            lemma_lpf_quotient(v as nat);
                            if exists|k: int|
                                0 <= k < j && primes@[k] as nat == lpf(v as nat) {
                                let k = choose|k: int|
                                    0 <= k < j && primes@[k] as nat == lpf(v as nat);
                                if k == j - 1 {
                                    assert(v as int == lpf(v as nat) * lpf_cofactor(v as nat));
                                    assert(v as int == pj as int * i as int);
                                    assert(v == w);
                                }
                                assert(0 <= k < j - 1 ==> inner_entry(
                                    v as nat,
                                    i as nat,
                                    primes@,
                                    j - 1,
                                ) == lpf(v as nat));
                            }
                        }
                    }
                }
            }
            proof {
                let ghost jend = j as int;
                assert forall|v: int|
                    0 <= v < len implies (#[trigger] arr@[v]) as nat == mid_entry(
                    v as nat,
                    (i + 1) as nat,
                ) by {
                    if v >= 2 && !is_prime_spec(v as nat) && lpf_cofactor(v as nat) == i as nat {
                        // every composite whose cofactor is i has been marked:
                        // its least factor sits among the first jend primes
                        lemma_lpf_quotient(v as nat);
                        lemma_lpf_prime(v as nat);
                        lemma_lpf_props(v as nat);
                        lemma_lpf_props(i as nat);
                        let f = lpf(v as nat);
                        assert(v as int == f * i as int);
                        // lpf(i) divides v, so minimality of f bounds it by lpf(i)
                        lemma_mod_multiples_basic(f as int, i as int);
                        assert((f * i as int) % (i as int) == 0);
                        assert(v as nat % (i as nat) == 0);
                        lemma_divides_trans(lpf(i as nat), i as nat, v as nat);
                        assert(f <= lpf(i as nat));
                        assert(2 <= f < i + 1 && is_prime_spec(f));
                        assert(exists|k: int|
                            0 <= k < primes@.len() && #[trigger] primes@[k] == f);
                        let k = choose|k: int|
                            0 <= k < primes@.len() && primes@[k] == f;
                        if k >= jend {
                            assert(primes@[jend] <= primes@[k]);
                            assert(primes@[jend] as nat <= lpf(i as nat));
                            assert(primes@[jend] as int * i as int <= f * i as int)
                                by (nonlinear_arith)
                                requires
                                    primes@[jend] as int <= f,
                                    i >= 2,
                            ;
                            assert(primes@[jend] as int * i as int <= (len - 1) as int);
                            lemma_div_by_multiple(primes@[jend] as int, i as int);
                            lemma_div_is_ordered(
                                primes@[jend] as int * i as int,
                                (len - 1) as int,
                                i as int,
                            );
                            assert(primes@[jend] as int <= ((len - 1) as int) / (i as int));
                            assert(false);
                        }
                        assert(inner_entry(v as nat, i as nat, primes@, jend) == lpf(v as nat));
                    }
                }
            }
            i += 1;
        }
        proof {
            assert forall|v: int| 2 <= v < len implies arr@[v] as nat == lpf(v as nat) by {
                lemma_lpf_quotient(v as nat);
                lemma_prime_iff_lpf_self(v as nat);
            }
        }
        LinearSieve { arr }
    }

    /// Return the length of the internal array, the exclusive bound of
    /// the values the sieve can answer for.
    pub fn len(&self) -> (n: usize)
        ensures
            n == self@.len(),
    {
        self.arr.len()
    }

    /// Factorize `value` into its prime factors, in non-decreasing
    /// order, by repeatedly dividing by the recorded least prime factor.
    /// The result is empty exactly for `value < 2`, and the product of
    /// its entries restores `value`.
    pub fn factors(&self, value: usize) -> (fs: Vec<usize>)
        requires
            self.wf(),
            value < self@.len(),
        ensures
            forall|k: int| 0 <= k < fs@.len() ==> is_prime_spec((#[trigger] fs@[k]) as nat),
            forall|k1: int, k2: int| 0 <= k1 <= k2 < fs@.len() ==> fs@[k1] <= fs@[k2],
            value >= 1 ==> seq_product(fs@) == value,
            (fs@.len() == 0) <==> (value < 2),
    {
        let mut fs: Vec<usize> = Vec::new();
        let mut v: usize = value;
        proof {
            assert(seq_product(fs@) == 1);
            assert(1 * (value as nat) == value as nat) by (nonlinear_arith);
        }
        while v > 1
            invariant
                self.wf(),
                value < self@.len(),
                v <= value,
                seq_product(fs@) * v == value,
                forall|k: int| 0 <= k < fs@.len() ==> is_prime_spec((#[trigger] fs@[k]) as nat),
                forall|k1: int, k2: int| 0 <= k1 <= k2 < fs@.len() ==> fs@[k1] <= fs@[k2],
                forall|k: int|
                    0 <= k < fs@.len() && v >= 2 ==> (#[trigger] fs@[k]) as nat <= lpf(v as nat),
                fs@.len() == 0 ==> v == value,
                value < 2 ==> fs@.len() == 0,
            decreases v,
        {
            proof {
                lemma_lpf_props(v as nat);
                lemma_lpf_prime(v as nat);
                lemma_lpf_quotient(v as nat);
            }
            let f: usize = self.arr[v];
            let ghost fs_old = fs@;
            let ghost v_old = v as nat;
            fs.push(f);
            v = v / f;
            proof {
                assert(fs@.drop_last() =~= fs_old);
                assert(seq_product(fs@) == seq_product(fs_old) * f);
                assert(v as nat == lpf_cofactor(v_old));
                assert(seq_product(fs_old) * (f as nat * v as nat) == (seq_product(fs_old) * f)
                    * v as nat) by (nonlinear_arith);
                if v >= 2 {
                    assert(lpf(v as nat) >= f);
                }
            }
        }
        proof {
            if value >= 1 {
                assert(seq_product(fs@) * 1 == seq_product(fs@)) by (nonlinear_arith);
                if v == 0 {
                    assert(seq_product(fs@) * 0 == 0) by (nonlinear_arith);
                    assert(value == 0);
                }
            }
        }
        fs
    }

    /// Enumerate all primes below the sieve's bound, in increasing order.
    pub fn primes(&self) -> (ps: Vec<usize>)
        requires
            self.wf(),
        ensures
            forall|k: int|
                0 <= k < ps@.len() ==> is_prime_spec((#[trigger] ps@[k]) as nat) && ps@[k]
                    < self@.len(),
            forall|k1: int, k2: int| 0 <= k1 < k2 < ps@.len() ==> ps@[k1] < ps@[k2],
            forall|q: nat|
                q < self@.len() && #[trigger] is_prime_spec(q) ==> exists|k: int|
                    0 <= k < ps@.len() && #[trigger] ps@[k] == q,
    {
        let mut ps: Vec<usize> = Vec::new();
        let mut i: usize = 0;
        let n: usize = self.arr.len();
        while i < n
            invariant
                self.wf(),
                n == self@.len(),
                i <= n,
                forall|k: int|
                    0 <= k < ps@.len() ==> is_prime_spec((#[trigger] ps@[k]) as nat) && ps@[k] < i,
                forall|k1: int, k2: int| 0 <= k1 < k2 < ps@.len() ==> ps@[k1] < ps@[k2],
                forall|q: nat|
                    q < i && #[trigger] is_prime_spec(q) ==> exists|k: int|
                        0 <= k < ps@.len() && #[trigger] ps@[k] == q,
            decreases n - i,
        {
            proof {
                if i >= 2 {
                    lemma_lpf_props(i as nat);
                    lemma_prime_iff_lpf_self(i as nat);
                }
            }
            let ghost pre = ps@;
            if self.arr[i] == i {
                ps.push(i);
            }
            proof {
                assert forall|q: nat|
                    q < i + 1 && #[trigger] is_prime_spec(q) implies exists|k: int|
                    0 <= k < ps@.len() && #[trigger] ps@[k] == q by {
                    if q == i as nat {
                        assert(ps@[ps@.len() - 1] == i);
                    } else {
                        assert(exists|k: int| 0 <= k < pre.len() && pre[k] == q);
                        let k0 = choose|k: int| 0 <= k < pre.len() && pre[k] == q;
                        assert(ps@[k0] == q);
                    }
                }
            }
            i += 1;
        }
        ps
    }

    /// Check if `value` is prime by comparing its entry with itself.
    pub fn is_prime(&self, value: usize) -> (res: bool)
        requires
            self.wf(),
            value < self@.len(),
        ensures
            res == is_prime_spec(value as nat),
    {
        proof {
            if value >= 2 {
                lemma_lpf_props(value as nat);
                lemma_prime_iff_lpf_self(value as nat);
            }
        }
        self.arr[value] == value
    }
}

} // verus!
