//! Elements of the cyclotomic quotient ring Z/pZ[X]/(X^n + 1): coefficient
//! vectors reduced mod `p`, with elementwise add/sub/neg, schoolbook
//! multiplication followed by the negative-wrapped reduction `X^n == -1`,
//! and a fold over sequences of elements.

use vstd::prelude::*;

verus! {

use vstd::arithmetic::div_mod::{
    lemma_add_mod_noop,
    lemma_add_mod_noop_right,
    lemma_mod_bound,
    lemma_mod_multiples_vanish,
    lemma_mul_mod_noop_left,
    lemma_mul_mod_noop_right,
    lemma_small_mod,
    lemma_sub_mod_noop,
};
use crate::arithmetic::{add_mod, sub_mod};
use crate::ring::Ring;
use vstd::pervasive::VecAdditionalExecFns;

/// Mathematical image of a ring element: its modulus and the integer
/// sequence of its coefficients (whose length is the ring degree).
pub ghost struct PolyModel {
    pub p: int,
    pub coefs: Seq<int>,
}

/// A well-formed image: positive modulus, every coefficient reduced.
pub open spec fn poly_wf(a: PolyModel) -> bool {
    a.p >= 1 && forall|i: int| 0 <= i < a.coefs.len() ==> 0 <= #[trigger] a.coefs[i] < a.p
}

/// Two images that may be combined: both well-formed, same modulus, same
/// degree.
pub open spec fn poly_compat(a: PolyModel, b: PolyModel) -> bool {
    poly_wf(a) && poly_wf(b) && a.p == b.p && a.coefs.len() == b.coefs.len()
}

/// Elementwise modular sum.
pub open spec fn poly_add(a: PolyModel, b: PolyModel) -> PolyModel {
    PolyModel {
        p: a.p,
        coefs: Seq::new(a.coefs.len(), |i: int| add_mod(a.coefs[i], b.coefs[i], a.p)),
    }
}

/// Elementwise modular difference.
pub open spec fn poly_sub(a: PolyModel, b: PolyModel) -> PolyModel {
    PolyModel {
        p: a.p,
        coefs: Seq::new(a.coefs.len(), |i: int| sub_mod(a.coefs[i], b.coefs[i], a.p)),
    }
}

/// Elementwise modular negation.
pub open spec fn poly_neg(a: PolyModel) -> PolyModel {
    PolyModel { p: a.p, coefs: Seq::new(a.coefs.len(), |i: int| sub_mod(0, a.coefs[i], a.p)) }
}

/// The contribution of row `i` to convolution position `c`:
/// `a[i] * b[c - i]` when that lands inside `b`, zero otherwise.
pub open spec fn conv_term(a: Seq<int>, b: Seq<int>, c: int, i: int) -> int {
    if 0 <= c - i < b.len() {
        a[i] * b[c - i]
    } else {
        0
    }
}

/// Partial convolution at position `c`, summed over rows `0 .. rows`.
pub open spec fn conv_to(a: Seq<int>, b: Seq<int>, c: int, rows: int) -> int
    decreases rows,
{
    if rows <= 0 {
        0
    } else {
        conv_to(a, b, c, rows - 1) + conv_term(a, b, c, rows - 1)
    }
}

/// Coefficient `c` of the plain (non-reduced) product of the polynomials
/// with coefficient sequences `a` and `b`.
pub open spec fn conv(a: Seq<int>, b: Seq<int>, c: int) -> int {
    conv_to(a, b, c, a.len() as int)
}

/// Coefficient `c` of the product in Z/pZ[X]/(X^n + 1): the plain
/// convolution with the wrapped high part subtracted, since `X^n == -1`.
pub open spec fn cyclic_mul_coef(a: Seq<int>, b: Seq<int>, p: int, c: int) -> int {
    (conv(a, b, c) - conv(a, b, a.len() + c)) % p
}

/// Image of the ring product of two compatible elements.
pub open spec fn poly_mul(a: PolyModel, b: PolyModel) -> PolyModel {
    PolyModel {
        p: a.p,
        coefs: Seq::new(a.coefs.len(), |i: int| cyclic_mul_coef(a.coefs, b.coefs, a.p, i)),
    }
}

/// The sentinel an empty fold yields: degree 0, modulus 1. It must not be
/// mixed arithmetically with a real element.
pub open spec fn poly_default() -> PolyModel {
    PolyModel { p: 1, coefs: Seq::empty() }
}

/// Left-to-right elementwise sum of a sequence of images; the empty
/// sequence yields the sentinel.
pub open spec fn poly_sum(s: Seq<PolyModel>) -> PolyModel
    decreases s.len(),
{
    if s.len() == 0 {
        poly_default()
    } else if s.len() == 1 {
        s[0]
    } else {
        poly_add(poly_sum(s.drop_last()), s.last())
    }
}

/// A sequence of images that may be folded: all well-formed and sharing the
/// first element's modulus and degree.
pub open spec fn poly_sum_ok(s: Seq<PolyModel>) -> bool {
    forall|k: int| 0 <= k < s.len() ==> poly_wf(#[trigger] s[k]) && s[k].p == s[0].p
        && s[k].coefs.len() == s[0].coefs.len()
}

/// An element of Z/pZ[X]/(X^n + 1): `n` coefficients, each reduced mod `p`.
#[derive(Clone, Debug, PartialEq)]
pub struct KyberRingElt {
    pub p: u32,
    pub n: usize,
    pub coefs: Vec<u32>,
}

impl KyberRingElt {
    /// The stored coefficients as a sequence of integers.
    pub open spec fn coefs_int(self) -> Seq<int> {
        Seq::new(self.coefs@.len(), |i: int| self.coefs@[i] as int)
    }

    /// Builds an element from a coefficient vector, padding with zeros or
    /// truncating so that exactly `n` coefficients remain.
    pub fn new(p: u32, n: usize, coefs: Vec<u32>) -> (r: Self)
        requires
            p >= 1,
            forall|i: int| 0 <= i < coefs@.len() && i < n ==> coefs@[i] < p,
        ensures
            r.wf(),
            r.p == p,
            r.n == n,
            r.coefs@.len() == n,
            forall|i: int|
                0 <= i < n ==> #[trigger] r.coefs@[i] == (if i < coefs@.len() {
                    coefs@[i]
                } else {
                    0u32
                }),
    {
        let mut c = coefs;
        if c.len() > n {
            c.truncate(n);
        }
        while c.len() < n
            invariant
                c@.len() <= n,
                c@.len() >= coefs@.len() || c@.len() >= n,
                forall|i: int|
                    0 <= i < c@.len() ==> #[trigger] c@[i] == (if i < coefs@.len() {
                        coefs@[i]
                    } else {
                        0u32
                    }),
                forall|i: int| 0 <= i < coefs@.len() && i < n ==> coefs@[i] < p,
                p >= 1,
            decreases n - c@.len(),
        {
            c.push(0);
        }
        KyberRingElt { p, n, coefs: c }
    }
}

impl Default for KyberRingElt {
    /// The sentinel element an empty fold yields: degree 0, modulus 1.
    fn default() -> (r: Self)
        ensures
            r.wf(),
            r.p == 1,
            r.n == 0,
            r.coefs@.len() == 0,
            r.model() == poly_default(),
    {
        let r = KyberRingElt { p: 1, n: 0, coefs: Vec::new() };
        proof {
            assert(r.model().coefs =~= poly_default().coefs);
        }
        r
    }
}

impl Ring for KyberRingElt {
    type Model = PolyModel;

    /// Coefficient count matches the degree, the modulus is positive, and
    /// every coefficient is reduced.
    open spec fn wf(&self) -> bool {
        self.coefs@.len() == self.n && self.p >= 1 && forall|i: int|
            0 <= i < self.coefs@.len() ==> #[trigger] self.coefs@[i] < self.p
    }

    open spec fn model(&self) -> PolyModel {
        PolyModel { p: self.p as int, coefs: self.coefs_int() }
    }

    open spec fn m_add(a: PolyModel, b: PolyModel) -> PolyModel {
        poly_add(a, b)
    }

    open spec fn m_sub(a: PolyModel, b: PolyModel) -> PolyModel {
        poly_sub(a, b)
    }

    open spec fn m_neg(a: PolyModel) -> PolyModel {
        poly_neg(a)
    }

    open spec fn m_mul(a: PolyModel, b: PolyModel) -> PolyModel {
        poly_mul(a, b)
    }

    open spec fn m_sum(s: Seq<PolyModel>) -> PolyModel {
        poly_sum(s)
    }

    open spec fn add_ok(a: PolyModel, b: PolyModel) -> bool {
        poly_compat(a, b)
    }

    open spec fn sub_ok(a: PolyModel, b: PolyModel) -> bool {
        poly_compat(a, b)
    }

    open spec fn neg_ok(a: PolyModel) -> bool {
        poly_wf(a)
    }

    open spec fn mul_ok(a: PolyModel, b: PolyModel) -> bool {
        poly_compat(a, b) && 2 * a.coefs.len() <= usize::MAX
    }

    open spec fn sum_ok(s: Seq<PolyModel>) -> bool {
        poly_sum_ok(s)
    }

    /// Elementwise sum of coefficients, each reduced mod `p`.
    fn add(&self, other: &Self) -> (r: Self) {
        let n = self.n;
        let p64: u64 = self.p as u64;
        let mut coefs: Vec<u32> = Vec::new();
        let mut i: usize = 0;
        while i < n
            invariant
                i <= n,
                n == self.n,
                p64 == self.p as u64,
                self.wf(),
                other.wf(),
                other.n == n,
                other.p == self.p,
                coefs@.len() == i,
                forall|k: int|
                    0 <= k < i ==> #[trigger] coefs@[k] < self.p && coefs@[k] as int == add_mod(
                        self.coefs@[k] as int,
                        other.coefs@[k] as int,
                        self.p as int,
                    ),
            decreases n - i,
        {
            let s: u64 = (self.coefs[i] as u64 + other.coefs[i] as u64) % p64;
            coefs.push(s as u32);
            i = i + 1;
        }
        let r = KyberRingElt { p: self.p, n, coefs };
        proof {
            assert(r.model().coefs =~= Self::m_add(self.model(), other.model()).coefs);
        }
        r
    }

    /// Elementwise `(a + p - b) mod p`: subtraction by adding the modular
    /// negation, so no signed arithmetic is needed.
    fn sub(&self, other: &Self) -> (r: Self) {
        let n = self.n;
        let p64: u64 = self.p as u64;
        let mut coefs: Vec<u32> = Vec::new();
        let mut i: usize = 0;
        while i < n
            invariant
                i <= n,
                n == self.n,
                p64 == self.p as u64,
                self.wf(),
                other.wf(),
                other.n == n,
                other.p == self.p,
                coefs@.len() == i,
                forall|k: int|
                    0 <= k < i ==> #[trigger] coefs@[k] < self.p && coefs@[k] as int == sub_mod(
                        self.coefs@[k] as int,
                        other.coefs@[k] as int,
                        self.p as int,
                    ),
            decreases n - i,
        {
            let s: u64 = (self.coefs[i] as u64 + p64 - other.coefs[i] as u64) % p64;
            coefs.push(s as u32);
            proof {
                let a = self.coefs@[i as int] as int;
                let b = other.coefs@[i as int] as int;
                let m = p64 as int;
                assert(a + m - b == m * 1 + (a - b));
                lemma_mod_multiples_vanish(1, a - b, m);
            }
            i = i + 1;
        }
        let r = KyberRingElt { p: self.p, n, coefs };
        proof {
            assert(r.model().coefs =~= Self::m_sub(self.model(), other.model()).coefs);
        }
        r
    }

    /// Elementwise `(p - c) mod p`; a zero coefficient stays zero.
    fn neg(&self) -> (r: Self) {
        let n = self.n;
        let p64: u64 = self.p as u64;
        let mut coefs: Vec<u32> = Vec::new();
        let mut i: usize = 0;
        while i < n
            invariant
                i <= n,
                n == self.n,
                p64 == self.p as u64,
                self.wf(),
                coefs@.len() == i,
                forall|k: int|
                    0 <= k < i ==> #[trigger] coefs@[k] < self.p && coefs@[k] as int == sub_mod(
                        0,
                        self.coefs@[k] as int,
                        self.p as int,
                    ),
            decreases n - i,
        {
            let s: u64 = (p64 - self.coefs[i] as u64) % p64;
            coefs.push(s as u32);
            proof {
                let b = self.coefs@[i as int] as int;
                let m = p64 as int;
                assert(m - b == m * 1 + (0 - b));
                lemma_mod_multiples_vanish(1, 0 - b, m);
            }
            i = i + 1;
        }
        let r = KyberRingElt { p: self.p, n, coefs };
        proof {
            assert(r.model().coefs =~= Self::m_neg(self.model()).coefs);
        }
        r
    }

    /// Schoolbook convolution into a buffer of length `2n` (each cell kept
    /// reduced), then the cyclotomic reduction: position `n + i` wraps to
    /// position `i` with its sign flipped, because `X^n == -1`.
    fn mul(&self, other: &Self) -> (r: Self) {
        let n = self.n;
        let p64: u64 = self.p as u64;
        let ghost av = self.coefs_int();
        let ghost bv = other.coefs_int();
        let ghost m = self.p as int;
        let mut temp: Vec<u32> = Vec::new();
        let mut t: usize = 0;
        while t < 2 * n
            invariant
                t <= 2 * n,
                2 * n <= usize::MAX,
                temp@.len() == t,
                forall|c: int| 0 <= c < t ==> #[trigger] temp@[c] == 0u32,
            decreases 2 * n - t,
        {
            temp.push(0);
            t = t + 1;
        }
        proof {
            lemma_small_mod(0, m as nat);
        }
        let mut i: usize = 0;
        while i < n
            invariant
                i <= n,
                2 * n <= usize::MAX,
                n == self.n,
                p64 == self.p as u64,
                m == self.p as int,
                self.wf(),
                other.wf(),
                other.n == n,
                other.p == self.p,
                av == self.coefs_int(),
                bv == other.coefs_int(),
                temp@.len() == 2 * n,
                forall|c: int|
                    0 <= c < 2 * n ==> #[trigger] temp@[c] < self.p && temp@[c] as int == conv_to(
                        av,
                        bv,
                        c,
                        i as int,
                    ) % m,
            decreases n - i,
        {
            let mut j: usize = 0;
            while j < n
                invariant
                    j <= n,
                    i < n,
                    2 * n <= usize::MAX,
                    n == self.n,
                    p64 == self.p as u64,
                    m == self.p as int,
                    self.wf(),
                    other.wf(),
                    other.n == n,
                    other.p == self.p,
                    av == self.coefs_int(),
                    bv == other.coefs_int(),
                    temp@.len() == 2 * n,
                    forall|c: int| 0 <= c < 2 * n ==> #[trigger] temp@[c] < self.p,
                    forall|c: int|
                        0 <= c < 2 * n && i <= c < i + j ==> #[trigger] temp@[c] as int == conv_to(
                            av,
                            bv,
                            c,
                            i as int + 1,
                        ) % m,
                    forall|c: int|
                        0 <= c < 2 * n && !(i <= c < i + j) ==> #[trigger] temp@[c] as int
                            == conv_to(av, bv, c, i as int) % m,
                decreases n - j,
            {
                let idx = i + j;
                proof {
                    assert(self.coefs@[i as int] as int * (other.coefs@[j as int] as int)
                        <= 0xffff_ffff * 0xffff_ffff) by (nonlinear_arith)
                        requires
                            0 <= self.coefs@[i as int] as int <= 0xffff_ffff,
                            0 <= other.coefs@[j as int] as int <= 0xffff_ffff,
                    ;
                }
                let prod: u64 = (self.coefs[i] as u64 * (other.coefs[j] as u64)) % p64;
                let cell: u64 = (temp[idx] as u64 + prod) % p64;
                temp.set(idx, cell as u32);
                proof {
                    let c = idx as int;
                    let x = conv_to(av, bv, c, i as int);
                    let y = av[i as int] * bv[j as int];
                    assert(conv_term(av, bv, c, i as int) == y);
                    lemma_add_mod_noop(x, y, m);
                }
                j = j + 1;
            }
            proof {
                assert forall|c: int| 0 <= c < 2 * n implies #[trigger] temp@[c] as int == conv_to(
                    av,
                    bv,
                    c,
                    i as int + 1,
                ) % m by {
                    if !(i <= c < i + n) {
                        assert(conv_term(av, bv, c, i as int) == 0);
                    }
                };
            }
            i = i + 1;
        }
        let mut coefs: Vec<u32> = Vec::new();
        let mut k: usize = 0;
        while k < n
            invariant
                k <= n,
                2 * n <= usize::MAX,
                n == self.n,
                p64 == self.p as u64,
                m == self.p as int,
                self.wf(),
                other.wf(),
                other.n == n,
                other.p == self.p,
                av == self.coefs_int(),
                bv == other.coefs_int(),
                temp@.len() == 2 * n,
                forall|c: int|
                    0 <= c < 2 * n ==> #[trigger] temp@[c] < self.p && temp@[c] as int == conv_to(
                        av,
                        bv,
                        c,
                        n as int,
                    ) % m,
                coefs@.len() == k,
                forall|q: int|
                    0 <= q < k ==> #[trigger] coefs@[q] < self.p && coefs@[q] as int
                        == cyclic_mul_coef(av, bv, m, q),
            decreases n - k,
        {
            let lo: u64 = temp[k] as u64;
            let hi: u64 = temp[n + k] as u64;
            proof {
                assert((p64 as int - 1) * (hi as int) <= 0xffff_ffff * 0xffff_ffff)
                    by (nonlinear_arith)
                    requires
                        0 <= p64 as int - 1 <= 0xffff_ffff,
                        0 <= hi as int <= 0xffff_ffff,
                ;
            }
            let cell: u64 = (lo + (p64 - 1) * hi) % p64;
            coefs.push(cell as u32);
            proof {
                let big = conv_to(av, bv, k as int, n as int);
                let wrap = conv_to(av, bv, n + k as int, n as int);
                lemma_add_mod_noop_right(big % m, (m - 1) * (wrap % m), m);
                lemma_mul_mod_noop_right(m - 1, wrap, m);
                lemma_add_mod_noop(big, (m - 1) * wrap, m);
                assert(big + (m - 1) * wrap == m * wrap + (big - wrap)) by (nonlinear_arith);
                lemma_mod_multiples_vanish(wrap, big - wrap, m);
                assert(av.len() == n);
            }
            k = k + 1;
        }
        let r = KyberRingElt { p: self.p, n, coefs };
        proof {
            assert(r.model().coefs =~= Self::m_mul(self.model(), other.model()).coefs);
        }
        r
    }

    /// In-place elementwise modular sum, reusing the coefficient buffer.
    fn add_assign(&mut self, other: &Self) {
        let n = self.n;
        let p64: u64 = self.p as u64;
        let mut i: usize = 0;
        while i < n
            invariant
                i <= n,
                n == old(self).n,
                self.n == n,
                self.p == old(self).p,
                p64 == self.p as u64,
                old(self).wf(),
                other.wf(),
                other.n == n,
                other.p == self.p,
                self.coefs@.len() == n,
                forall|k: int|
                    0 <= k < i ==> #[trigger] self.coefs@[k] < self.p && self.coefs@[k] as int
                        == add_mod(
                        old(self).coefs@[k] as int,
                        other.coefs@[k] as int,
                        self.p as int,
                    ),
                forall|k: int| i <= k < n ==> #[trigger] self.coefs@[k] == old(self).coefs@[k],
            decreases n - i,
        {
            let s: u64 = (self.coefs[i] as u64 + other.coefs[i] as u64) % p64;
            self.coefs.set(i, s as u32);
            i = i + 1;
        }
        proof {
            assert(self.model().coefs =~= Self::m_add(old(self).model(), other.model()).coefs);
        }
    }

    /// In-place elementwise modular difference, reusing the buffer.
    fn sub_assign(&mut self, other: &Self) {
        let n = self.n;
        let p64: u64 = self.p as u64;
        let mut i: usize = 0;
        while i < n
            invariant
                i <= n,
                n == old(self).n,
                self.n == n,
                self.p == old(self).p,
                p64 == self.p as u64,
                old(self).wf(),
                other.wf(),
                other.n == n,
                other.p == self.p,
                self.coefs@.len() == n,
                forall|k: int|
                    0 <= k < i ==> #[trigger] self.coefs@[k] < self.p && self.coefs@[k] as int
                        == sub_mod(
                        old(self).coefs@[k] as int,
                        other.coefs@[k] as int,
                        self.p as int,
                    ),
                forall|k: int| i <= k < n ==> #[trigger] self.coefs@[k] == old(self).coefs@[k],
            decreases n - i,
        {
            let s: u64 = (self.coefs[i] as u64 + p64 - other.coefs[i] as u64) % p64;
            self.coefs.set(i, s as u32);
            proof {
                let a = old(self).coefs@[i as int] as int;
                let b = other.coefs@[i as int] as int;
                assert(a + p64 as int - b == p64 as int * 1 + (a - b));
                lemma_mod_multiples_vanish(1, a - b, p64 as int);
            }
            i = i + 1;
        }
        proof {
            assert(self.model().coefs =~= Self::m_sub(old(self).model(), other.model()).coefs);
        }
    }

    /// Folds a sequence of compatible elements into their elementwise sum,
    /// accumulating in place; an empty sequence yields the sentinel.
    fn sum(v: Vec<Self>) -> (r: Self) {
        let ghost ms = Seq::new(v@.len(), |k: int| v@[k].model());
        if v.len() == 0 {
            let r = KyberRingElt { p: 1, n: 0, coefs: Vec::new() };
            proof {
                assert(r.model().coefs =~= poly_default().coefs);
            }
            return r;
        }
        let p = v[0].p;
        let n = v[0].n;
        let mut coefs: Vec<u32> = Vec::new();
        let mut t: usize = 0;
        while t < n
            invariant
                t <= n,
                coefs@.len() == t,
                forall|q: int| 0 <= q < t ==> #[trigger] coefs@[q] == 0u32,
            decreases n - t,
        {
            coefs.push(0);
            t = t + 1;
        }
        let mut acc = KyberRingElt { p, n, coefs };
        let mut k: usize = 0;
        while k < v.len()
            invariant
                k <= v@.len(),
                1 <= v@.len(),
                ms == Seq::new(v@.len(), |q: int| v@[q].model()),
                poly_sum_ok(ms),
                forall|q: int| 0 <= q < v@.len() ==> (#[trigger] v@[q]).wf(),
                p == v@[0].p,
                n == v@[0].n,
                acc.wf(),
                acc.p == p,
                acc.n == n,
                k == 0 ==> forall|q: int| 0 <= q < n ==> #[trigger] acc.coefs@[q] == 0u32,
                k >= 1 ==> acc.model() == poly_sum(ms.take(k as int)),
            decreases v@.len() - k,
        {
            proof {
                assert(v@[k as int].model() == ms[k as int]);
                assert(poly_wf(ms[k as int]));
                assert(poly_wf(acc.model()));
            }
            acc.add_assign(&v[k]);
            proof {
                assert(acc.model().coefs.len() == n as int);
                assert(acc.coefs@.len() == n as int);
                let t1 = ms.take(k as int + 1);
                if k == 0 {
                    assert(t1 =~= seq![ms[0]]);
                    assert(poly_sum(t1) == ms[0]);
                    assert forall|q: int| 0 <= q < acc.model().coefs.len() implies #[trigger] acc
                        .model().coefs[q] == ms[0].coefs[q] by {
                        lemma_small_mod(ms[0].coefs[q] as nat, p as nat);
                    };
                    assert(acc.model().coefs =~= ms[0].coefs);
                } else {
                    assert(t1.drop_last() =~= ms.take(k as int));
                    assert(t1.last() == ms[k as int]);
                }
            }
            k = k + 1;
        }
        proof {
            assert(ms.take(v@.len() as int) =~= ms);
        }
        acc
    }
}

/// A coefficient sequence that is `v` at position `d` and zero elsewhere.
pub open spec fn single_seq(n: int, d: int, v: int) -> Seq<int> {
    Seq::new(n as nat, |i: int| if i == d { v } else { 0 })
}

/// The image of the constant polynomial 1: coefficients `[1, 0, ..., 0]`.
pub open spec fn one_poly(p: int, n: int) -> PolyModel {
    PolyModel { p, coefs: single_seq(n, 0, 1) }
}

/// The image of the monomial X^d in a ring of degree `n`.
pub open spec fn x_power(p: int, n: int, d: int) -> PolyModel {
    PolyModel { p, coefs: single_seq(n, d, 1) }
}

/// Convolving against a sequence with a single nonzero entry collapses the
/// sum to at most one term.
proof fn lemma_conv_single(n: int, d: int, v: int, b: Seq<int>, c: int, rows: int)
    requires
        0 <= d < n,
        0 <= rows <= n,
    ensures
        conv_to(single_seq(n, d, v), b, c, rows) == (if d < rows && 0 <= c - d < b.len() {
            v * b[c - d]
        } else {
            0
        }),
    decreases rows,
{
    if rows > 0 {
        lemma_conv_single(n, d, v, b, c, rows - 1);
    }
}

/// Every element added to its negation gives the zero element: each
/// coefficient of `a + (-a)` is zero.
pub proof fn lemma_add_neg_zero(a: PolyModel)
    requires
        poly_wf(a),
    ensures
        poly_add(a, poly_neg(a)).p == a.p,
        poly_add(a, poly_neg(a)).coefs.len() == a.coefs.len(),
        forall|i: int| 0 <= i < a.coefs.len() ==> #[trigger] poly_add(a, poly_neg(a)).coefs[i]
            == 0,
{
    assert forall|i: int| 0 <= i < a.coefs.len() implies #[trigger] poly_add(
        a,
        poly_neg(a),
    ).coefs[i] == 0 by {
        let c = a.coefs[i];
        let m = a.p;
        lemma_add_mod_noop_right(c, 0 - c, m);
        lemma_small_mod(0, m as nat);
    };
}

/// The element with coefficients `[1, 0, ..., 0]` is the multiplicative
/// identity: multiplying it by any element of the same ring returns that
/// element unchanged.
pub proof fn lemma_mul_identity(b: PolyModel)
    requires
        poly_wf(b),
        b.coefs.len() >= 1,
    ensures
        poly_mul(one_poly(b.p, b.coefs.len() as int), b) == b,
{
    let n = b.coefs.len() as int;
    let u = one_poly(b.p, n);
    let prod = poly_mul(u, b);
    assert forall|i: int| 0 <= i < n implies #[trigger] prod.coefs[i] == b.coefs[i] by {
        lemma_conv_single(n, 0, 1, b.coefs, i, n);
        lemma_conv_single(n, 0, 1, b.coefs, n + i, n);
        assert(conv(u.coefs, b.coefs, i) == b.coefs[i]);
        assert(conv(u.coefs, b.coefs, n + i) == 0);
        lemma_small_mod(b.coefs[i] as nat, b.p as nat);
    };
    assert(prod.coefs =~= b.coefs);
}

/// Replacing every entry of the right operand by a congruent one modulo
/// `p` leaves each partial convolution congruent modulo `p`.
proof fn lemma_conv_to_mod_right(
    a: Seq<int>,
    b1: Seq<int>,
    b2: Seq<int>,
    p: int,
    c: int,
    rows: int,
)
    requires
        p >= 1,
        b1.len() == b2.len(),
        forall|k: int| 0 <= k < b1.len() ==> #[trigger] b1[k] % p == b2[k] % p,
    ensures
        conv_to(a, b1, c, rows) % p == conv_to(a, b2, c, rows) % p,
    decreases rows,
{
    if rows > 0 {
        lemma_conv_to_mod_right(a, b1, b2, p, c, rows - 1);
        let i = rows - 1;
        if 0 <= c - i < b1.len() {
            lemma_mul_mod_noop_right(a[i], b1[c - i], p);
            lemma_mul_mod_noop_right(a[i], b2[c - i], p);
        }
        lemma_add_mod_noop(conv_to(a, b1, c, rows - 1), conv_term(a, b1, c, i), p);
        lemma_add_mod_noop(conv_to(a, b2, c, rows - 1), conv_term(a, b2, c, i), p);
    }
}

/// Convolution is additive in its right operand.
proof fn lemma_conv_to_add_right(a: Seq<int>, b: Seq<int>, c2: Seq<int>, c0: int, rows: int)
    requires
        b.len() == c2.len(),
    ensures
        conv_to(a, Seq::new(b.len(), |k: int| b[k] + c2[k]), c0, rows) == conv_to(a, b, c0, rows)
            + conv_to(a, c2, c0, rows),
    decreases rows,
{
    if rows > 0 {
        lemma_conv_to_add_right(a, b, c2, c0, rows - 1);
        let i = rows - 1;
        if 0 <= c0 - i < b.len() {
            assert(a[i] * (b[c0 - i] + c2[c0 - i]) == a[i] * b[c0 - i] + a[i] * c2[c0 - i])
                by (nonlinear_arith);
        }
    }
}

/// Ring multiplication distributes over ring addition:
/// `a * (b + c) == a * b + a * c` for compatible elements.
pub proof fn lemma_poly_mul_distributes(a: PolyModel, b: PolyModel, c: PolyModel)
    requires
        poly_compat(a, b),
        poly_compat(a, c),
    ensures
        poly_mul(a, poly_add(b, c)) == poly_add(poly_mul(a, b), poly_mul(a, c)),
{
    let p = a.p;
    let n = a.coefs.len() as int;
    let bc_red = poly_add(b, c).coefs;
    let bc_plain = Seq::new(b.coefs.len(), |k: int| b.coefs[k] + c.coefs[k]);
    assert forall|k: int| 0 <= k < n implies #[trigger] bc_red[k] % p == bc_plain[k] % p by {
        lemma_mod_bound(b.coefs[k] + c.coefs[k], p);
        lemma_small_mod(bc_red[k] as nat, p as nat);
    };
    assert forall|i: int| 0 <= i < n implies #[trigger] poly_mul(a, poly_add(b, c)).coefs[i]
        == poly_add(poly_mul(a, b), poly_mul(a, c)).coefs[i] by {
        let x1 = conv(a.coefs, b.coefs, i);
        let y1 = conv(a.coefs, b.coefs, n + i);
        let x2 = conv(a.coefs, c.coefs, i);
        let y2 = conv(a.coefs, c.coefs, n + i);
        let xr = conv(a.coefs, bc_red, i);
        let yr = conv(a.coefs, bc_red, n + i);
        lemma_conv_to_mod_right(a.coefs, bc_red, bc_plain, p, i, n);
        lemma_conv_to_mod_right(a.coefs, bc_red, bc_plain, p, n + i, n);
        lemma_conv_to_add_right(a.coefs, b.coefs, c.coefs, i, n);
        lemma_conv_to_add_right(a.coefs, b.coefs, c.coefs, n + i, n);
        lemma_sub_mod_noop(xr, yr, p);
        lemma_sub_mod_noop(x1 + x2, y1 + y2, p);
        lemma_add_mod_noop(x1 - y1, x2 - y2, p);
    };
    assert(poly_mul(a, poly_add(b, c)).coefs =~= poly_add(
        poly_mul(a, b),
        poly_mul(a, c),
    ).coefs);
}

/// Replacing every entry of the left operand by a congruent one modulo
/// `p` leaves each partial convolution congruent modulo `p`.
proof fn lemma_conv_to_mod_left(
    a1: Seq<int>,
    a2: Seq<int>,
    b: Seq<int>,
    p: int,
    c: int,
    rows: int,
)
    requires
        p >= 1,
        a1.len() == a2.len(),
        forall|k: int| 0 <= k < a1.len() ==> #[trigger] a1[k] % p == a2[k] % p,
        rows <= a1.len(),
    ensures
        conv_to(a1, b, c, rows) % p == conv_to(a2, b, c, rows) % p,
    decreases rows,
{
    if rows > 0 {
        lemma_conv_to_mod_left(a1, a2, b, p, c, rows - 1);
        let i = rows - 1;
        if 0 <= c - i < b.len() {
            lemma_mul_mod_noop_left(a1[i], b[c - i], p);
            lemma_mul_mod_noop_left(a2[i], b[c - i], p);
        }
        lemma_add_mod_noop(conv_to(a1, b, c, rows - 1), conv_term(a1, b, c, i), p);
        lemma_add_mod_noop(conv_to(a2, b, c, rows - 1), conv_term(a2, b, c, i), p);
    }
}

/// Convolution is additive in its left operand.
proof fn lemma_conv_to_add_left(a: Seq<int>, a2: Seq<int>, b: Seq<int>, c0: int, rows: int)
    requires
        a.len() == a2.len(),
        rows <= a.len(),
    ensures
        conv_to(Seq::new(a.len(), |k: int| a[k] + a2[k]), b, c0, rows) == conv_to(a, b, c0, rows)
            + conv_to(a2, b, c0, rows),
    decreases rows,
{
    if rows > 0 {
        lemma_conv_to_add_left(a, a2, b, c0, rows - 1);
        let i = rows - 1;
        if 0 <= c0 - i < b.len() {
            assert((a[i] + a2[i]) * b[c0 - i] == a[i] * b[c0 - i] + a2[i] * b[c0 - i])
                by (nonlinear_arith);
        }
    }
}

/// Ring multiplication distributes over ring addition from the right:
/// `(a + b) * c == a * c + b * c` for compatible elements.
pub proof fn lemma_poly_mul_distributes_right(a: PolyModel, b: PolyModel, c: PolyModel)
    requires
        poly_compat(a, c),
        poly_compat(b, c),
        a.p == b.p,
        a.coefs.len() == b.coefs.len(),
    ensures
        poly_mul(poly_add(a, b), c) == poly_add(poly_mul(a, c), poly_mul(b, c)),
{
    let p = a.p;
    let n = a.coefs.len() as int;
    let ab_red = poly_add(a, b).coefs;
    let ab_plain = Seq::new(a.coefs.len(), |k: int| a.coefs[k] + b.coefs[k]);
    assert forall|k: int| 0 <= k < n implies #[trigger] ab_red[k] % p == ab_plain[k] % p by {
        lemma_mod_bound(a.coefs[k] + b.coefs[k], p);
        lemma_small_mod(ab_red[k] as nat, p as nat);
    };
    assert forall|i: int| 0 <= i < n implies #[trigger] poly_mul(poly_add(a, b), c).coefs[i]
        == poly_add(poly_mul(a, c), poly_mul(b, c)).coefs[i] by {
        let x1 = conv(a.coefs, c.coefs, i);
        let y1 = conv(a.coefs, c.coefs, n + i);
        let x2 = conv(b.coefs, c.coefs, i);
        let y2 = conv(b.coefs, c.coefs, n + i);
        let xr = conv(ab_red, c.coefs, i);
        let yr = conv(ab_red, c.coefs, n + i);
        lemma_conv_to_mod_left(ab_red, ab_plain, c.coefs, p, i, n);
        lemma_conv_to_mod_left(ab_red, ab_plain, c.coefs, p, n + i, n);
        lemma_conv_to_add_left(a.coefs, b.coefs, c.coefs, i, n);
        lemma_conv_to_add_left(a.coefs, b.coefs, c.coefs, n + i, n);
        lemma_sub_mod_noop(xr, yr, p);
        lemma_sub_mod_noop(x1 + x2, y1 + y2, p);
        lemma_add_mod_noop(x1 - y1, x2 - y2, p);
    };
    assert(poly_mul(poly_add(a, b), c).coefs =~= poly_add(
        poly_mul(a, c),
        poly_mul(b, c),
    ).coefs);
}

/// The shape of a fold over a nonempty compatible sequence: it keeps the
/// first element's modulus and degree.
proof fn lemma_poly_sum_shape(s: Seq<PolyModel>)
    requires
        s.len() >= 1,
        poly_sum_ok(s),
    ensures
        poly_sum(s).p == s[0].p,
        poly_sum(s).coefs.len() == s[0].coefs.len(),
    decreases s.len(),
{
    if s.len() > 1 {
        lemma_poly_sum_shape(s.drop_last());
    }
}

/// Folding the elementwise sums of two compatible sequences equals the
/// elementwise sum of the two folds.
pub proof fn lemma_poly_sum_add(s1: Seq<PolyModel>, s2: Seq<PolyModel>)
    requires
        s1.len() == s2.len(),
        s1.len() >= 1,
        poly_sum_ok(s1),
        poly_sum_ok(s2),
        s1[0].p == s2[0].p,
        s1[0].coefs.len() == s2[0].coefs.len(),
    ensures
        poly_sum(Seq::new(s1.len(), |k: int| poly_add(s1[k], s2[k]))) == poly_add(
            poly_sum(s1),
            poly_sum(s2),
        ),
    decreases s1.len(),
{
    let p = s1[0].p;
    let both = Seq::new(s1.len(), |k: int| poly_add(s1[k], s2[k]));
    if s1.len() == 1 {
        assert(poly_sum(both) == both[0]);
    } else {
        let t1 = s1.drop_last();
        let t2 = s2.drop_last();
        lemma_poly_sum_add(t1, t2);
        lemma_poly_sum_shape(t1);
        lemma_poly_sum_shape(t2);
        assert(both.drop_last() =~= Seq::new(t1.len(), |k: int| poly_add(t1[k], t2[k])));
        let a1 = poly_sum(t1);
        let a2 = poly_sum(t2);
        let x = s1.last();
        let y = s2.last();
        let lhs = poly_add(poly_sum(both.drop_last()), both.last());
        let rhs = poly_add(poly_add(a1, x), poly_add(a2, y));
        assert forall|j: int| 0 <= j < a1.coefs.len() implies #[trigger] lhs.coefs[j]
            == rhs.coefs[j] by {
            let w = a1.coefs[j];
            let z = a2.coefs[j];
            let u = x.coefs[j];
            let v = y.coefs[j];
            lemma_add_mod_noop(w + z, u + v, p);
            lemma_add_mod_noop(w + u, z + v, p);
        };
        assert(lhs.coefs =~= rhs.coefs);
        assert(poly_sum(both) == lhs);
    }
}

/// Multiplication respects the defining relation `X^n == -1`: the product
/// of X^(n-1) and X is the element representing -1, that is, coefficient
/// `p - 1` at position 0 and zero everywhere else.
pub proof fn lemma_mul_defining_relation(p: int, n: int)
    requires
        p >= 2,
        n >= 2,
    ensures
        poly_mul(x_power(p, n, n - 1), x_power(p, n, 1)).coefs.len() == n,
        poly_mul(x_power(p, n, n - 1), x_power(p, n, 1)).coefs[0] == p - 1,
        forall|i: int| 1 <= i < n ==> #[trigger] poly_mul(
            x_power(p, n, n - 1),
            x_power(p, n, 1),
        ).coefs[i] == 0,
{
    let a = x_power(p, n, n - 1);
    let b = x_power(p, n, 1);
    let prod = poly_mul(a, b);
    assert forall|i: int| 0 <= i < n implies #[trigger] prod.coefs[i] == (if i == 0 {
        p - 1
    } else {
        0
    }) by {
        lemma_conv_single(n, n - 1, 1, b.coefs, i, n);
        lemma_conv_single(n, n - 1, 1, b.coefs, n + i, n);
        if i == 0 {
            assert(conv(a.coefs, b.coefs, 0) == 0);
            assert(conv(a.coefs, b.coefs, n) == 1 * b.coefs[1]);
            assert(b.coefs[1] == 1);
            assert(p * (-1) + (p - 1) == 0 - 1);
            lemma_mod_multiples_vanish(-1, p - 1, p);
            lemma_small_mod((p - 1) as nat, p as nat);
        } else {
            assert(conv(a.coefs, b.coefs, i) == 0);
            assert(conv(a.coefs, b.coefs, n + i) == 0);
            lemma_small_mod(0, p as nat);
        }
    };
}

} // verus!
