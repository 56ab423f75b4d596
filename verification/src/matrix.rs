//! Row-major two-dimensional matrices over any entry type satisfying the
//! `Ring` contract: elementwise add/sub/neg, in-place variants, and matrix
//! multiplication by inner products folded with the entry type's `sum`.

use vstd::prelude::*;

verus! {

use vstd::arithmetic::div_mod::{
    lemma_div_pos_is_pos,
    lemma_fundamental_div_mod_converse_div,
    lemma_fundamental_div_mod_converse_mod,
    lemma_mod_bound,
    lemma_multiply_divide_lt,
};
use crate::kyberpoly::{
    lemma_poly_mul_distributes,
    lemma_poly_mul_distributes_right,
    lemma_poly_sum_add,
    poly_add,
    poly_sum,
    poly_sum_ok,
    KyberRingElt,
};
use crate::ring::{int_sum, Ring};
use vstd::pervasive::VecAdditionalExecFns;

/// A two-dimensional matrix: `shape = (rows, cols)` and a row-major flat
/// buffer of exactly `rows * cols` entries.
#[derive(Debug, PartialEq)]
pub struct Matrix2D<T> {
    pub shape: (usize, usize),
    pub values: Vec<T>,
}

impl<T: Ring> Matrix2D<T> {
    /// The structural invariant: the flat buffer matches the shape and
    /// every entry is well-formed.
    pub open spec fn wf(self) -> bool {
        self.values@.len() == self.shape.0 * self.shape.1 && forall|q: int|
            0 <= q < self.values@.len() ==> (#[trigger] self.values@[q]).wf()
    }

    /// Model of the entry in row `i`, column `j`.
    pub open spec fn ent(self, i: int, j: int) -> T::Model {
        self.values@[i * (self.shape.1 as int) + j].model()
    }

    /// Builds a matrix from a shape and a flat row-major value sequence,
    /// which must have exactly `rows * cols` entries.
    pub fn new(shape: (usize, usize), values: Vec<T>) -> (r: Self)
        requires
            shape.0 * shape.1 == values@.len(),
        ensures
            r.shape == shape,
            r.values == values,
    {
        Matrix2D { shape, values }
    }

    /// Read access to the entry in row `i`, column `j` of the row-major
    /// buffer.
    pub fn entry(&self, i: usize, j: usize) -> (r: &T)
        requires
            self.wf(),
            i < self.shape.0,
            j < self.shape.1,
        ensures
            *r == self.values@[i * self.shape.1 + j],
    {
        let len = self.values.len();
        proof {
            assert(i * self.shape.1 + j < self.shape.0 * self.shape.1) by (nonlinear_arith)
                requires
                    0 <= i < self.shape.0,
                    0 <= j < self.shape.1,
            ;
            assert(self.shape.0 * self.shape.1 == len);
        }
        &self.values[i * self.shape.1 + j]
    }

    /// Write access to the entry in row `i`, column `j`: replaces it,
    /// leaving the rest of the buffer unchanged.
    pub fn set_entry(&mut self, i: usize, j: usize, v: T)
        requires
            old(self).wf(),
            i < old(self).shape.0,
            j < old(self).shape.1,
        ensures
            final(self).shape == old(self).shape,
            final(self).values@ == old(self).values@.update(
                i * old(self).shape.1 + j,
                v,
            ),
    {
        let len = self.values.len();
        proof {
            assert(i * self.shape.1 + j < self.shape.0 * self.shape.1) by (nonlinear_arith)
                requires
                    0 <= i < self.shape.0,
                    0 <= j < self.shape.1,
            ;
            assert(self.shape.0 * self.shape.1 == len);
        }
        self.values.set(i * self.shape.1 + j, v);
    }

    /// Shape-preserving elementwise sum.
    pub fn add(&self, rhs: &Matrix2D<T>) -> (r: Matrix2D<T>)
        requires
            self.wf(),
            rhs.wf(),
            self.shape == rhs.shape,
            add_all_ok(*self, *rhs),
        ensures
            r.wf(),
            r.shape == self.shape,
            r.values@.len() == self.values@.len(),
            forall|q: int|
                0 <= q < r.values@.len() ==> (#[trigger] r.values@[q]).model() == T::m_add(
                    self.values@[q].model(),
                    rhs.values@[q].model(),
                ),
    {
        let len = self.values.len();
        let mut out: Vec<T> = Vec::new();
        let mut q: usize = 0;
        while q < len
            invariant
                q <= len,
                len == self.values@.len(),
                self.wf(),
                rhs.wf(),
                self.shape == rhs.shape,
                rhs.values@.len() == len,
                add_all_ok(*self, *rhs),
                out@.len() == q,
                forall|t: int|
                    0 <= t < q ==> (#[trigger] out@[t]).wf() && out@[t].model() == T::m_add(
                        self.values@[t].model(),
                        rhs.values@[t].model(),
                    ),
            decreases len - q,
        {
            let a = &self.values[q];
            let b = &rhs.values[q];
            let s = a.add(b);
            out.push(s);
            q = q + 1;
        }
        Matrix2D { shape: self.shape, values: out }
    }

    /// Shape-preserving elementwise difference.
    pub fn sub(&self, rhs: &Matrix2D<T>) -> (r: Matrix2D<T>)
        requires
            self.wf(),
            rhs.wf(),
            self.shape == rhs.shape,
            sub_all_ok(*self, *rhs),
        ensures
            r.wf(),
            r.shape == self.shape,
            r.values@.len() == self.values@.len(),
            forall|q: int|
                0 <= q < r.values@.len() ==> (#[trigger] r.values@[q]).model() == T::m_sub(
                    self.values@[q].model(),
                    rhs.values@[q].model(),
                ),
    {
        let len = self.values.len();
        let mut out: Vec<T> = Vec::new();
        let mut q: usize = 0;
        while q < len
            invariant
                q <= len,
                len == self.values@.len(),
                self.wf(),
                rhs.wf(),
                self.shape == rhs.shape,
                rhs.values@.len() == len,
                sub_all_ok(*self, *rhs),
                out@.len() == q,
                forall|t: int|
                    0 <= t < q ==> (#[trigger] out@[t]).wf() && out@[t].model() == T::m_sub(
                        self.values@[t].model(),
                        rhs.values@[t].model(),
                    ),
            decreases len - q,
        {
            let a = &self.values[q];
            let b = &rhs.values[q];
            let s = a.sub(b);
            out.push(s);
            q = q + 1;
        }
        Matrix2D { shape: self.shape, values: out }
    }

    /// Shape-preserving elementwise negation.
    pub fn neg(&self) -> (r: Matrix2D<T>)
        requires
            self.wf(),
            neg_all_ok(*self),
        ensures
            r.wf(),
            r.shape == self.shape,
            r.values@.len() == self.values@.len(),
            forall|q: int|
                0 <= q < r.values@.len() ==> (#[trigger] r.values@[q]).model() == T::m_neg(
                    self.values@[q].model(),
                ),
    {
        let len = self.values.len();
        let mut out: Vec<T> = Vec::new();
        let mut q: usize = 0;
        while q < len
            invariant
                q <= len,
                len == self.values@.len(),
                self.wf(),
                neg_all_ok(*self),
                out@.len() == q,
                forall|t: int|
                    0 <= t < q ==> (#[trigger] out@[t]).wf() && out@[t].model() == T::m_neg(
                        self.values@[t].model(),
                    ),
            decreases len - q,
        {
            let a = &self.values[q];
            let s = a.neg();
            out.push(s);
            q = q + 1;
        }
        Matrix2D { shape: self.shape, values: out }
    }

    /// In-place elementwise sum, reusing the value buffer.
    pub fn add_assign(&mut self, rhs: &Matrix2D<T>)
        requires
            old(self).wf(),
            rhs.wf(),
            old(self).shape == rhs.shape,
            add_all_ok(*old(self), *rhs),
        ensures
            final(self).wf(),
            final(self).shape == old(self).shape,
            final(self).values@.len() == old(self).values@.len(),
            forall|q: int|
                0 <= q < final(self).values@.len() ==> (#[trigger] final(self).values@[q]).model()
                    == T::m_add(old(self).values@[q].model(), rhs.values@[q].model()),
    {
        let len = self.values.len();
        let mut q: usize = 0;
        while q < len
            invariant
                q <= len,
                self.shape == old(self).shape,
                self.values@.len() == len,
                len == old(self).values@.len(),
                old(self).wf(),
                rhs.wf(),
                rhs.values@.len() == len,
                add_all_ok(*old(self), *rhs),
                forall|t: int|
                    0 <= t < q ==> (#[trigger] self.values@[t]).wf() && self.values@[t].model()
                        == T::m_add(old(self).values@[t].model(), rhs.values@[t].model()),
                forall|t: int| q <= t < len ==> self.values@[t] == old(self).values@[t],
            decreases len - q,
        {
            let a = &self.values[q];
            let b = &rhs.values[q];
            let s = a.add(b);
            self.values.set(q, s);
            q = q + 1;
        }
    }

    /// In-place elementwise difference, reusing the value buffer.
    pub fn sub_assign(&mut self, rhs: &Matrix2D<T>)
        requires
            old(self).wf(),
            rhs.wf(),
            old(self).shape == rhs.shape,
            sub_all_ok(*old(self), *rhs),
        ensures
            final(self).wf(),
            final(self).shape == old(self).shape,
            final(self).values@.len() == old(self).values@.len(),
            forall|q: int|
                0 <= q < final(self).values@.len() ==> (#[trigger] final(self).values@[q]).model()
                    == T::m_sub(old(self).values@[q].model(), rhs.values@[q].model()),
    {
        let len = self.values.len();
        let mut q: usize = 0;
        while q < len
            invariant
                q <= len,
                self.shape == old(self).shape,
                self.values@.len() == len,
                len == old(self).values@.len(),
                old(self).wf(),
                rhs.wf(),
                rhs.values@.len() == len,
                sub_all_ok(*old(self), *rhs),
                forall|t: int|
                    0 <= t < q ==> (#[trigger] self.values@[t]).wf() && self.values@[t].model()
                        == T::m_sub(old(self).values@[t].model(), rhs.values@[t].model()),
                forall|t: int| q <= t < len ==> self.values@[t] == old(self).values@[t],
            decreases len - q,
        {
            let a = &self.values[q];
            let b = &rhs.values[q];
            let s = a.sub(b);
            self.values.set(q, s);
            q = q + 1;
        }
    }

    /// In-place matrix multiplication: computes the full product first and
    /// only then rebinds the receiver's shape and values.
    pub fn matmul(&mut self, mat: &Matrix2D<T>)
        requires
            old(self).wf(),
            mat.wf(),
            old(self).shape.1 == mat.shape.0,
            matmul_ok(*old(self), *mat),
        ensures
            final(self).wf(),
            final(self).shape.0 == old(self).shape.0,
            final(self).shape.1 == mat.shape.1,
            forall|i: int, j: int|
                0 <= i < old(self).shape.0 && 0 <= j < mat.shape.1 ==> #[trigger] final(self).ent(
                    i,
                    j,
                ) == T::m_sum(prod_seq(*old(self), *mat, i, j)),
    {
        let r = matmul(self, mat);
        *self = r;
    }
}

/// When every entry of `a` may be added to the matching entry of `b`.
pub open spec fn add_all_ok<T: Ring>(a: Matrix2D<T>, b: Matrix2D<T>) -> bool {
    forall|q: int|
        0 <= q < a.values@.len() ==> T::add_ok(
            (#[trigger] a.values@[q]).model(),
            b.values@[q].model(),
        )
}

/// When every entry of `b` may be subtracted from the matching entry of `a`.
pub open spec fn sub_all_ok<T: Ring>(a: Matrix2D<T>, b: Matrix2D<T>) -> bool {
    forall|q: int|
        0 <= q < a.values@.len() ==> T::sub_ok(
            (#[trigger] a.values@[q]).model(),
            b.values@[q].model(),
        )
}

/// When every entry of `a` may be negated.
pub open spec fn neg_all_ok<T: Ring>(a: Matrix2D<T>) -> bool {
    forall|q: int| 0 <= q < a.values@.len() ==> T::neg_ok((#[trigger] a.values@[q]).model())
}

/// The inner-product operand sequence for output cell `(i, j)`: the models
/// of the entrywise products of row `i` of `l` with column `j` of `r`.
pub open spec fn prod_seq<T: Ring>(l: Matrix2D<T>, r: Matrix2D<T>, i: int, j: int) -> Seq<
    T::Model,
> {
    Seq::new(l.shape.1 as nat, |k: int| T::m_mul(l.ent(i, k), r.ent(k, j)))
}

/// When the product `l * r` may be formed: every entrywise product is
/// defined and every inner-product fold is defined.
pub open spec fn matmul_ok<T: Ring>(l: Matrix2D<T>, r: Matrix2D<T>) -> bool {
    &&& forall|i: int, k: int, j: int|
        0 <= i < l.shape.0 && 0 <= k < l.shape.1 && 0 <= j < r.shape.1 ==> T::mul_ok(
            #[trigger] l.ent(i, k),
            #[trigger] r.ent(k, j),
        )
    &&& forall|i: int, j: int|
        0 <= i < l.shape.0 && 0 <= j < r.shape.1 ==> T::sum_ok(#[trigger] prod_seq(l, r, i, j))
}

/// Matrix product of an `(n, p)` and a `(p, m)` matrix: each output cell
/// `(i, j)` is the fold of the entrywise products of row `i` of `lhs` with
/// column `j` of `rhs`.
pub fn matmul<T: Ring>(lhs: &Matrix2D<T>, rhs: &Matrix2D<T>) -> (r: Matrix2D<T>)
    requires
        lhs.wf(),
        rhs.wf(),
        lhs.shape.1 == rhs.shape.0,
        matmul_ok(*lhs, *rhs),
    ensures
        r.wf(),
        r.shape.0 == lhs.shape.0,
        r.shape.1 == rhs.shape.1,
        forall|i: int, j: int|
            0 <= i < lhs.shape.0 && 0 <= j < rhs.shape.1 ==> #[trigger] r.ent(i, j) == T::m_sum(
                prod_seq(*lhs, *rhs, i, j),
            ),
{
    let n = lhs.shape.0;
    let p = lhs.shape.1;
    let m = rhs.shape.1;
    let ll = lhs.values.len();
    let rl = rhs.values.len();
    let mut mprod: Vec<T> = Vec::new();
    let mut i: usize = 0;
    while i < n
        invariant
            i <= n,
            n == lhs.shape.0,
            p == lhs.shape.1,
            m == rhs.shape.1,
            ll == lhs.values@.len(),
            rl == rhs.values@.len(),
            lhs.wf(),
            rhs.wf(),
            lhs.shape.1 == rhs.shape.0,
            matmul_ok(*lhs, *rhs),
            mprod@.len() == i * m,
            forall|q: int|
                0 <= q < mprod@.len() ==> (#[trigger] mprod@[q]).wf() && mprod@[q].model()
                    == T::m_sum(prod_seq(*lhs, *rhs, q / (m as int), q % (m as int))),
        decreases n - i,
    {
        let mut j: usize = 0;
        while j < m
            invariant
                j <= m,
                i < n,
                n == lhs.shape.0,
                p == lhs.shape.1,
                m == rhs.shape.1,
                ll == lhs.values@.len(),
                rl == rhs.values@.len(),
                lhs.wf(),
                rhs.wf(),
                lhs.shape.1 == rhs.shape.0,
                matmul_ok(*lhs, *rhs),
                mprod@.len() == i * m + j,
                forall|q: int|
                    0 <= q < mprod@.len() ==> (#[trigger] mprod@[q]).wf() && mprod@[q].model()
                        == T::m_sum(prod_seq(*lhs, *rhs, q / (m as int), q % (m as int))),
            decreases m - j,
        {
            let mut temp: Vec<T> = Vec::new();
            let mut k: usize = 0;
            while k < p
                invariant
                    k <= p,
                    i < n,
                    j < m,
                    n == lhs.shape.0,
                    p == lhs.shape.1,
                    m == rhs.shape.1,
                    ll == lhs.values@.len(),
                    rl == rhs.values@.len(),
                    lhs.wf(),
                    rhs.wf(),
                    lhs.shape.1 == rhs.shape.0,
                    matmul_ok(*lhs, *rhs),
                    temp@.len() == k,
                    forall|t: int|
                        0 <= t < k ==> (#[trigger] temp@[t]).wf() && temp@[t].model() == T::m_mul(
                            lhs.ent(i as int, t),
                            rhs.ent(t, j as int),
                        ),
                decreases p - k,
            {
                proof {
                    assert(i * p + k < n * p) by (nonlinear_arith)
                        requires
                            0 <= i < n,
                            0 <= k < p,
                    ;
                    assert(k * m + j < p * m) by (nonlinear_arith)
                        requires
                            0 <= k < p,
                            0 <= j < m,
                    ;
                    assert(n * p == ll);
                    assert(p * m == rl);
                    assert(T::mul_ok(lhs.ent(i as int, k as int), rhs.ent(k as int, j as int)));
                }
                let a = &lhs.values[i * p + k];
                let b = &rhs.values[k * m + j];
                let prod = a.mul(b);
                temp.push(prod);
                k = k + 1;
            }
            proof {
                assert(Seq::new(temp@.len(), |t: int| temp@[t].model()) =~= prod_seq(
                    *lhs,
                    *rhs,
                    i as int,
                    j as int,
                ));
            }
            let cell = T::sum(temp);
            proof {
                let q = i as int * m + j;
                lemma_fundamental_div_mod_converse_div(q, m as int, i as int, j as int);
                lemma_fundamental_div_mod_converse_mod(q, m as int, i as int, j as int);
            }
            mprod.push(cell);
            j = j + 1;
        }
        proof {
            assert(i as int * m + m == (i + 1) * m) by (nonlinear_arith);
        }
        i = i + 1;
    }
    let r = Matrix2D { shape: (n, m), values: mprod };
    proof {
        assert forall|i: int, j: int|
            0 <= i < lhs.shape.0 && 0 <= j < rhs.shape.1 implies #[trigger] r.ent(i, j)
            == T::m_sum(prod_seq(*lhs, *rhs, i, j)) by {
            let q = i * (m as int) + j;
            assert(0 <= i * (m as int) + j < n * m) by (nonlinear_arith)
                requires
                    0 <= i < n,
                    0 <= j < m,
            ;
            lemma_fundamental_div_mod_converse_div(q, m as int, i, j);
            lemma_fundamental_div_mod_converse_mod(q, m as int, i, j);
        };
    }
    r
}

/// The flat buffer of a 64-bit integer matrix as a sequence of integers.
pub open spec fn int_vals(x: Matrix2D<i64>) -> Seq<int> {
    Seq::new(x.values@.len(), |q: int| x.values@[q] as int)
}

/// Cell `(i, j)` of the product of flat row-major integer matrices, where
/// the left operand has `p` columns and the right operand `m` columns.
pub open spec fn imm_cell(a: Seq<int>, b: Seq<int>, p: int, m: int, i: int, j: int) -> int {
    int_sum(Seq::new(p as nat, |k: int| a[i * p + k] * b[k * m + j]))
}

/// Flat row-major product of an `(n, p)` and a `(p, m)` integer matrix.
pub open spec fn imm(a: Seq<int>, b: Seq<int>, n: int, p: int, m: int) -> Seq<int> {
    Seq::new((n * m) as nat, |q: int| imm_cell(a, b, p, m, q / m, q % m))
}

/// Elementwise sum of two flat integer matrices.
pub open spec fn madd(a: Seq<int>, b: Seq<int>) -> Seq<int> {
    Seq::new(a.len(), |q: int| a[q] + b[q])
}

/// For 64-bit integer matrices, the inner product that `matmul`'s contract
/// promises for a cell is exactly the flat integer-matrix product cell.
pub proof fn lemma_i64_cell_is_imm_cell(l: Matrix2D<i64>, r: Matrix2D<i64>, i: int, j: int)
    requires
        l.wf(),
        r.wf(),
        l.shape.1 == r.shape.0,
        0 <= i < l.shape.0,
        0 <= j < r.shape.1,
    ensures
        int_sum(prod_seq(l, r, i, j)) == imm_cell(
            int_vals(l),
            int_vals(r),
            l.shape.1 as int,
            r.shape.1 as int,
            i,
            j,
        ),
{
    let p = l.shape.1 as int;
    let m = r.shape.1 as int;
    let ops = Seq::new(p as nat, |k: int| int_vals(l)[i * p + k] * int_vals(r)[k * m + j]);
    assert forall|k: int| 0 <= k < p implies prod_seq(l, r, i, j)[k] == #[trigger] ops[k] by {
        assert(0 <= i * p + k < l.shape.0 * p) by (nonlinear_arith)
            requires
                0 <= i < l.shape.0,
                0 <= k < p,
        ;
        assert(0 <= k * m + j < p * m) by (nonlinear_arith)
            requires
                0 <= k < p,
                0 <= j < m,
        ;
    };
    assert(prod_seq(l, r, i, j) =~= ops);
}

/// The sum of an all-zero sequence is zero.
proof fn lemma_int_sum_zeros(len: int)
    requires
        len >= 0,
    ensures
        int_sum(Seq::new(len as nat, |k: int| 0int)) == 0,
    decreases len,
{
    if len > 0 {
        lemma_int_sum_zeros(len - 1);
        assert(Seq::new(len as nat, |k: int| 0int).drop_last() =~= Seq::new(
            (len - 1) as nat,
            |k: int| 0,
        ));
    }
}

/// Summation distributes over elementwise addition of two sequences.
proof fn lemma_int_sum_add(s1: Seq<int>, s2: Seq<int>)
    requires
        s1.len() == s2.len(),
    ensures
        int_sum(Seq::new(s1.len(), |k: int| s1[k] + s2[k])) == int_sum(s1) + int_sum(s2),
    decreases s1.len(),
{
    if s1.len() > 0 {
        lemma_int_sum_add(s1.drop_last(), s2.drop_last());
        assert(Seq::new(s1.len(), |k: int| s1[k] + s2[k]).drop_last() =~= Seq::new(
            s1.drop_last().len(),
            |k: int| s1.drop_last()[k] + s2.drop_last()[k],
        ));
    }
}

/// Summation commutes with scaling every element by a constant.
proof fn lemma_int_sum_scale(c: int, s: Seq<int>)
    ensures
        int_sum(Seq::new(s.len(), |k: int| c * s[k])) == c * int_sum(s),
    decreases s.len(),
{
    if s.len() > 0 {
        lemma_int_sum_scale(c, s.drop_last());
        assert(Seq::new(s.len(), |k: int| c * s[k]).drop_last() =~= Seq::new(
            s.drop_last().len(),
            |k: int| c * s.drop_last()[k],
        ));
        assert(c * int_sum(s.drop_last()) + c * s.last() == c * (int_sum(s.drop_last())
            + s.last())) by (nonlinear_arith);
    }
}

/// A finite double sum may be taken in either order.
proof fn lemma_int_sum_exchange(f: spec_fn(int, int) -> int, rows: int, cols: int)
    requires
        rows >= 0,
        cols >= 0,
    ensures
        int_sum(
            Seq::new(rows as nat, |i: int| int_sum(Seq::new(cols as nat, |j: int| f(i, j)))),
        ) == int_sum(
            Seq::new(cols as nat, |j: int| int_sum(Seq::new(rows as nat, |i: int| f(i, j)))),
        ),
    decreases rows,
{
    let lhs_seq = Seq::new(rows as nat, |i: int| int_sum(Seq::new(cols as nat, |j: int| f(i, j))));
    let rhs_seq = Seq::new(cols as nat, |j: int| int_sum(Seq::new(rows as nat, |i: int| f(i, j))));
    if rows == 0 {
        assert(rhs_seq =~= Seq::new(cols as nat, |j: int| 0int));
        lemma_int_sum_zeros(cols);
    } else {
        lemma_int_sum_exchange(f, rows - 1, cols);
        let prev = Seq::new(
            (rows - 1) as nat,
            |i: int| int_sum(Seq::new(cols as nat, |j: int| f(i, j))),
        );
        let prev_rhs = Seq::new(
            cols as nat,
            |j: int| int_sum(Seq::new((rows - 1) as nat, |i: int| f(i, j))),
        );
        let last_row = Seq::new(cols as nat, |j: int| f(rows - 1, j));
        assert(lhs_seq.drop_last() =~= prev);
        assert forall|j: int| 0 <= j < cols implies rhs_seq[j] == prev_rhs[j] + last_row[j] by {
            assert(Seq::new(rows as nat, |i: int| f(i, j)).drop_last() =~= Seq::new(
                (rows - 1) as nat,
                |i: int| f(i, j),
            ));
        };
        assert(rhs_seq =~= Seq::new(prev_rhs.len(), |j: int| prev_rhs[j] + last_row[j]));
        lemma_int_sum_add(prev_rhs, last_row);
    }
}

/// Matrix multiplication of integer matrices is associative: with `a` of
/// shape `(n, p)`, `b` of shape `(p, q)` and `c` of shape `(q, r)`,
/// `(a b) c == a (b c)`.
pub proof fn lemma_matmul_assoc(
    a: Seq<int>,
    b: Seq<int>,
    c: Seq<int>,
    n: int,
    p: int,
    q: int,
    r: int,
)
    requires
        n >= 0,
        p >= 1,
        q >= 1,
        r >= 1,
        a.len() == n * p,
        b.len() == p * q,
        c.len() == q * r,
    ensures
        imm(imm(a, b, n, p, q), c, n, q, r) == imm(a, imm(b, c, p, q, r), n, p, r),
{
    let ab = imm(a, b, n, p, q);
    let bc = imm(b, c, p, q, r);
    let lhs = imm(ab, c, n, q, r);
    let rhs = imm(a, bc, n, p, r);
    assert forall|i: int, j: int| 0 <= i < n && 0 <= j < r implies imm_cell(ab, c, q, r, i, j)
        == imm_cell(a, bc, p, r, i, j) by {
        let fkl = |k: int, l: int| c[k * r + j] * (a[i * p + l] * b[l * q + k]);
        let left_ops = Seq::new(q as nat, |k: int| ab[i * q + k] * c[k * r + j]);
        let right_ops = Seq::new(p as nat, |l: int| a[i * p + l] * bc[l * r + j]);
        let left_nested = Seq::new(
            q as nat,
            |k: int| int_sum(Seq::new(p as nat, |l: int| fkl(k, l))),
        );
        let right_nested = Seq::new(
            p as nat,
            |l: int| int_sum(Seq::new(q as nat, |k: int| fkl(k, l))),
        );
        assert forall|k: int| 0 <= k < q implies left_ops[k] == left_nested[k] by {
            assert(0 <= i * q + k < n * q) by (nonlinear_arith)
                requires
                    0 <= i < n,
                    0 <= k < q,
            ;
            lemma_fundamental_div_mod_converse_div(i * q + k, q, i, k);
            lemma_fundamental_div_mod_converse_mod(i * q + k, q, i, k);
            assert(ab[i * q + k] == imm_cell(a, b, p, q, i, k));
            let s = Seq::new(p as nat, |l: int| a[i * p + l] * b[l * q + k]);
            lemma_int_sum_scale(c[k * r + j], s);
            assert(Seq::new(s.len(), |l: int| c[k * r + j] * s[l]) =~= Seq::new(
                p as nat,
                |l: int| fkl(k, l),
            ));
            assert(ab[i * q + k] * c[k * r + j] == c[k * r + j] * int_sum(s)) by (nonlinear_arith)
                requires
                    ab[i * q + k] == int_sum(s),
            ;
        };
        assert forall|l: int| 0 <= l < p implies right_ops[l] == right_nested[l] by {
            assert(0 <= l * r + j < p * r) by (nonlinear_arith)
                requires
                    0 <= l < p,
                    0 <= j < r,
            ;
            lemma_fundamental_div_mod_converse_div(l * r + j, r, l, j);
            lemma_fundamental_div_mod_converse_mod(l * r + j, r, l, j);
            assert(bc[l * r + j] == imm_cell(b, c, q, r, l, j));
            let s = Seq::new(q as nat, |k: int| b[l * q + k] * c[k * r + j]);
            lemma_int_sum_scale(a[i * p + l], s);
            let scaled = Seq::new(s.len(), |k2: int| a[i * p + l] * s[k2]);
            assert forall|k: int| 0 <= k < q implies #[trigger] scaled[k] == fkl(k, l) by {
                assert(a[i * p + l] * (b[l * q + k] * c[k * r + j]) == c[k * r + j] * (a[i * p + l]
                    * b[l * q + k])) by (nonlinear_arith);
            };
            assert(scaled =~= Seq::new(q as nat, |k: int| fkl(k, l)));
            assert(a[i * p + l] * bc[l * r + j] == a[i * p + l] * int_sum(s)) by (nonlinear_arith)
                requires
                    bc[l * r + j] == int_sum(s),
            ;
        };
        assert(left_ops =~= left_nested);
        assert(right_ops =~= right_nested);
        lemma_int_sum_exchange(fkl, q, p);
        assert(left_nested =~= Seq::new(
            q as nat,
            |k: int| int_sum(Seq::new(p as nat, |l: int| fkl(k, l))),
        ));
        assert(right_nested =~= Seq::new(
            p as nat,
            |l: int| int_sum(Seq::new(q as nat, |k: int| fkl(k, l))),
        ));
    };
    assert forall|q0: int| 0 <= q0 < n * r implies imm(ab, c, n, q, r)[q0] == imm(
        a,
        bc,
        n,
        p,
        r,
    )[q0] by {
        lemma_div_pos_is_pos(q0, r);
        lemma_mod_bound(q0, r);
        assert(q0 < r * n) by (nonlinear_arith)
            requires
                q0 < n * r,
        ;
        lemma_multiply_divide_lt(q0, r, n);
    };
    assert(imm(ab, c, n, q, r) =~= imm(a, bc, n, p, r));
}

/// Matrix multiplication of integer matrices distributes over matrix
/// addition on both sides: `a (b + c) == a b + a c` for `a` of shape
/// `(n, p)` and `b`, `c` of shape `(p, m)`, and `(a + b) c == a c + b c`
/// for `a`, `b` of shape `(n, p)` and `c` of shape `(p, m)`.
pub proof fn lemma_matmul_distributes(
    a: Seq<int>,
    b: Seq<int>,
    c: Seq<int>,
    n: int,
    p: int,
    m: int,
)
    requires
        n >= 0,
        p >= 1,
        m >= 1,
    ensures
        b.len() == p * m && c.len() == p * m ==> imm(a, madd(b, c), n, p, m) == madd(
            imm(a, b, n, p, m),
            imm(a, c, n, p, m),
        ),
        a.len() == n * p && b.len() == n * p ==> imm(madd(a, b), c, n, p, m) == madd(
            imm(a, c, n, p, m),
            imm(b, c, n, p, m),
        ),
{
    if b.len() == p * m && c.len() == p * m {
        assert forall|i: int, j: int| 0 <= i < n && 0 <= j < m implies imm_cell(
            a,
            madd(b, c),
            p,
            m,
            i,
            j,
        ) == imm_cell(a, b, p, m, i, j) + imm_cell(a, c, p, m, i, j) by {
            let s1 = Seq::new(p as nat, |k: int| a[i * p + k] * b[k * m + j]);
            let s2 = Seq::new(p as nat, |k: int| a[i * p + k] * c[k * m + j]);
            lemma_int_sum_add(s1, s2);
            let ops = Seq::new(p as nat, |k2: int| a[i * p + k2] * madd(b, c)[k2 * m + j]);
            assert forall|k: int| 0 <= k < p implies #[trigger] ops[k] == s1[k] + s2[k] by {
                assert(0 <= k * m + j < p * m) by (nonlinear_arith)
                    requires
                        0 <= k < p,
                        0 <= j < m,
                ;
                assert(a[i * p + k] * (b[k * m + j] + c[k * m + j]) == a[i * p + k] * b[k * m + j]
                    + a[i * p + k] * c[k * m + j]) by (nonlinear_arith);
            };
            assert(ops =~= Seq::new(s1.len(), |k: int| s1[k] + s2[k]));
        };
        assert forall|q0: int| 0 <= q0 < n * m implies imm(a, madd(b, c), n, p, m)[q0] == madd(
            imm(a, b, n, p, m),
            imm(a, c, n, p, m),
        )[q0] by {
            lemma_div_pos_is_pos(q0, m);
            lemma_mod_bound(q0, m);
            assert(q0 < m * n) by (nonlinear_arith)
                requires
                    q0 < n * m,
            ;
            lemma_multiply_divide_lt(q0, m, n);
        };
        assert(imm(a, madd(b, c), n, p, m) =~= madd(imm(a, b, n, p, m), imm(a, c, n, p, m)));
    }
    if a.len() == n * p && b.len() == n * p {
        assert forall|i: int, j: int| 0 <= i < n && 0 <= j < m implies imm_cell(
            madd(a, b),
            c,
            p,
            m,
            i,
            j,
        ) == imm_cell(a, c, p, m, i, j) + imm_cell(b, c, p, m, i, j) by {
            let s1 = Seq::new(p as nat, |k: int| a[i * p + k] * c[k * m + j]);
            let s2 = Seq::new(p as nat, |k: int| b[i * p + k] * c[k * m + j]);
            lemma_int_sum_add(s1, s2);
            let ops = Seq::new(p as nat, |k2: int| madd(a, b)[i * p + k2] * c[k2 * m + j]);
            assert forall|k: int| 0 <= k < p implies #[trigger] ops[k] == s1[k] + s2[k] by {
                assert(0 <= i * p + k < n * p) by (nonlinear_arith)
                    requires
                        0 <= i < n,
                        0 <= k < p,
                ;
                assert((a[i * p + k] + b[i * p + k]) * c[k * m + j] == a[i * p + k] * c[k * m + j]
                    + b[i * p + k] * c[k * m + j]) by (nonlinear_arith);
            };
            assert(ops =~= Seq::new(s1.len(), |k: int| s1[k] + s2[k]));
        };
        assert forall|q0: int| 0 <= q0 < n * m implies imm(madd(a, b), c, n, p, m)[q0] == madd(
            imm(a, c, n, p, m),
            imm(b, c, n, p, m),
        )[q0] by {
            lemma_div_pos_is_pos(q0, m);
            lemma_mod_bound(q0, m);
            assert(q0 < m * n) by (nonlinear_arith)
                requires
                    q0 < n * m,
            ;
            lemma_multiply_divide_lt(q0, m, n);
        };
        assert(imm(madd(a, b), c, n, p, m) =~= madd(imm(a, c, n, p, m), imm(b, c, n, p, m)));
    }
}

/// Matrix multiplication of ring-element matrices distributes over matrix
/// addition: when `bc` holds the elementwise ring sums of `b` and `c` (as
/// matrix `add` returns), every cell that `matmul` promises for `a * bc`
/// is the elementwise ring sum of the cells it promises for `a * b` and
/// `a * c`.
pub proof fn lemma_poly_matmul_distributes(
    a: Matrix2D<KyberRingElt>,
    b: Matrix2D<KyberRingElt>,
    c: Matrix2D<KyberRingElt>,
    bc: Matrix2D<KyberRingElt>,
    i: int,
    j: int,
)
    requires
        a.wf(),
        b.wf(),
        c.wf(),
        b.shape == c.shape,
        bc.shape == b.shape,
        a.shape.1 == b.shape.0,
        a.shape.1 >= 1,
        matmul_ok(a, b),
        matmul_ok(a, c),
        forall|q: int|
            0 <= q < bc.values@.len() ==> (#[trigger] bc.values@[q]).model() == poly_add(
                b.values@[q].model(),
                c.values@[q].model(),
            ),
        bc.values@.len() == b.values@.len(),
        0 <= i < a.shape.0,
        0 <= j < b.shape.1,
    ensures
        poly_sum(prod_seq(a, bc, i, j)) == poly_add(
            poly_sum(prod_seq(a, b, i, j)),
            poly_sum(prod_seq(a, c, i, j)),
        ),
{
    let p = a.shape.1 as int;
    let ps_b = prod_seq(a, b, i, j);
    let ps_c = prod_seq(a, c, i, j);
    assert forall|k: int| 0 <= k < p implies #[trigger] prod_seq(a, bc, i, j)[k] == poly_add(
        ps_b[k],
        ps_c[k],
    ) by {
        assert(0 <= k * (b.shape.1 as int) + j < b.shape.0 * b.shape.1) by (nonlinear_arith)
            requires
                0 <= k < b.shape.0,
                0 <= j < b.shape.1,
        ;
        assert(bc.ent(k, j) == poly_add(b.ent(k, j), c.ent(k, j)));
        assert(<KyberRingElt as Ring>::mul_ok(a.ent(i, k), b.ent(k, j)));
        assert(<KyberRingElt as Ring>::mul_ok(a.ent(i, k), c.ent(k, j)));
        lemma_poly_mul_distributes(a.ent(i, k), b.ent(k, j), c.ent(k, j));
    };
    assert(prod_seq(a, bc, i, j) =~= Seq::new(ps_b.len(), |k: int| poly_add(ps_b[k], ps_c[k])));
    assert(poly_sum_ok(ps_b));
    assert(poly_sum_ok(ps_c));
    assert(<KyberRingElt as Ring>::mul_ok(a.ent(i, 0), b.ent(0, j)));
    assert(<KyberRingElt as Ring>::mul_ok(a.ent(i, 0), c.ent(0, j)));
    lemma_poly_sum_add(ps_b, ps_c);
}

/// The mirror image: when `ab` holds the elementwise ring sums of `a` and
/// `b`, every cell that `matmul` promises for `ab * c` is the elementwise
/// ring sum of the cells it promises for `a * c` and `b * c`.
pub proof fn lemma_poly_matmul_distributes_right(
    a: Matrix2D<KyberRingElt>,
    b: Matrix2D<KyberRingElt>,
    ab: Matrix2D<KyberRingElt>,
    c: Matrix2D<KyberRingElt>,
    i: int,
    j: int,
)
    requires
        a.wf(),
        b.wf(),
        c.wf(),
        a.shape == b.shape,
        ab.shape == a.shape,
        a.shape.1 == c.shape.0,
        a.shape.1 >= 1,
        matmul_ok(a, c),
        matmul_ok(b, c),
        forall|q: int|
            0 <= q < ab.values@.len() ==> (#[trigger] ab.values@[q]).model() == poly_add(
                a.values@[q].model(),
                b.values@[q].model(),
            ),
        ab.values@.len() == a.values@.len(),
        0 <= i < a.shape.0,
        0 <= j < c.shape.1,
    ensures
        poly_sum(prod_seq(ab, c, i, j)) == poly_add(
            poly_sum(prod_seq(a, c, i, j)),
            poly_sum(prod_seq(b, c, i, j)),
        ),
{
    let p = a.shape.1 as int;
    let ps_a = prod_seq(a, c, i, j);
    let ps_b = prod_seq(b, c, i, j);
    assert forall|k: int| 0 <= k < p implies #[trigger] prod_seq(ab, c, i, j)[k] == poly_add(
        ps_a[k],
        ps_b[k],
    ) by {
        assert(0 <= i * (a.shape.1 as int) + k < a.shape.0 * a.shape.1) by (nonlinear_arith)
            requires
                0 <= i < a.shape.0,
                0 <= k < a.shape.1,
        ;
        assert(ab.ent(i, k) == poly_add(a.ent(i, k), b.ent(i, k)));
        assert(<KyberRingElt as Ring>::mul_ok(a.ent(i, k), c.ent(k, j)));
        assert(<KyberRingElt as Ring>::mul_ok(b.ent(i, k), c.ent(k, j)));
        lemma_poly_mul_distributes_right(a.ent(i, k), b.ent(i, k), c.ent(k, j));
    };
    assert(prod_seq(ab, c, i, j) =~= Seq::new(ps_a.len(), |k: int| poly_add(ps_a[k], ps_b[k])));
    assert(poly_sum_ok(ps_a));
    assert(poly_sum_ok(ps_b));
    assert(<KyberRingElt as Ring>::mul_ok(a.ent(i, 0), c.ent(0, j)));
    assert(<KyberRingElt as Ring>::mul_ok(b.ent(i, 0), c.ent(0, j)));
    lemma_poly_sum_add(ps_a, ps_b);
}

} // verus!
