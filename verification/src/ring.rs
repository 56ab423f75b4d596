//! The interface contract a matrix entry type must satisfy: add, subtract,
//! negate, multiply, and a fold (`sum`) over a sequence of itself, each
//! pinned to a mathematical model of the type. Plain 64-bit integers
//! implement it here; ring elements implement it in `kyberpoly`.

use vstd::prelude::*;

verus! {

/// A type with the arithmetic a matrix needs. `Model` is the mathematical
/// image of a value; every operation's contract says exactly which model the
/// result has. The `*_ok` predicates are the preconditions under which an
/// operation is defined (matching moduli and degrees, no machine overflow).
pub trait Ring: Sized {
    /// Mathematical image of a value, the thing contracts speak of.
    type Model;

    /// The type's internal invariant.
    spec fn wf(&self) -> bool;

    /// The model of this value.
    spec fn model(&self) -> Self::Model;

    /// Model of the sum of two values.
    spec fn m_add(a: Self::Model, b: Self::Model) -> Self::Model;

    /// Model of the difference of two values.
    spec fn m_sub(a: Self::Model, b: Self::Model) -> Self::Model;

    /// Model of the additive inverse of a value.
    spec fn m_neg(a: Self::Model) -> Self::Model;

    /// Model of the product of two values.
    spec fn m_mul(a: Self::Model, b: Self::Model) -> Self::Model;

    /// Model of the fold of a sequence of values.
    spec fn m_sum(s: Seq<Self::Model>) -> Self::Model;

    /// When two values may be added (compatible and within machine limits).
    spec fn add_ok(a: Self::Model, b: Self::Model) -> bool;

    /// When two values may be subtracted.
    spec fn sub_ok(a: Self::Model, b: Self::Model) -> bool;

    /// When a value may be negated.
    spec fn neg_ok(a: Self::Model) -> bool;

    /// When two values may be multiplied.
    spec fn mul_ok(a: Self::Model, b: Self::Model) -> bool;

    /// When a sequence of values may be folded into its sum.
    spec fn sum_ok(s: Seq<Self::Model>) -> bool;

    /// Elementwise sum of two compatible values.
    fn add(&self, other: &Self) -> (r: Self)
        requires
            self.wf(),
            other.wf(),
            Self::add_ok(self.model(), other.model()),
        ensures
            r.wf(),
            r.model() == Self::m_add(self.model(), other.model()),
    ;

    /// Difference of two compatible values.
    fn sub(&self, other: &Self) -> (r: Self)
        requires
            self.wf(),
            other.wf(),
            Self::sub_ok(self.model(), other.model()),
        ensures
            r.wf(),
            r.model() == Self::m_sub(self.model(), other.model()),
    ;

    /// Additive inverse of a value.
    fn neg(&self) -> (r: Self)
        requires
            self.wf(),
            Self::neg_ok(self.model()),
        ensures
            r.wf(),
            r.model() == Self::m_neg(self.model()),
    ;

    /// Product of two compatible values.
    fn mul(&self, other: &Self) -> (r: Self)
        requires
            self.wf(),
            other.wf(),
            Self::mul_ok(self.model(), other.model()),
        ensures
            r.wf(),
            r.model() == Self::m_mul(self.model(), other.model()),
    ;

    /// In-place sum, the accumulating form of `add`.
    fn add_assign(&mut self, other: &Self)
        requires
            old(self).wf(),
            other.wf(),
            Self::add_ok(old(self).model(), other.model()),
        ensures
            final(self).wf(),
            final(self).model() == Self::m_add(old(self).model(), other.model()),
    ;

    /// In-place difference, the accumulating form of `sub`.
    fn sub_assign(&mut self, other: &Self)
        requires
            old(self).wf(),
            other.wf(),
            Self::sub_ok(old(self).model(), other.model()),
        ensures
            final(self).wf(),
            final(self).model() == Self::m_sub(old(self).model(), other.model()),
    ;

    /// Folds a sequence of values into their sum; an empty sequence yields
    /// the type's defined zero.
    fn sum(v: Vec<Self>) -> (r: Self)
        requires
            forall|k: int| 0 <= k < v@.len() ==> (#[trigger] v@[k]).wf(),
            Self::sum_ok(Seq::new(v@.len(), |k: int| v@[k].model())),
        ensures
            r.wf(),
            r.model() == Self::m_sum(Seq::new(v@.len(), |k: int| v@[k].model())),
    ;
}

/// Left-to-right sum of a sequence of integers; the empty sum is zero.
pub open spec fn int_sum(s: Seq<int>) -> int
    decreases s.len(),
{
    if s.len() == 0 {
        0
    } else {
        int_sum(s.drop_last()) + s.last()
    }
}

/// Whether an integer fits the 64-bit signed machine type.
pub open spec fn fits_i64(x: int) -> bool {
    i64::MIN as int <= x <= i64::MAX as int
}

impl Ring for i64 {
    type Model = int;

    open spec fn wf(&self) -> bool {
        true
    }

    open spec fn model(&self) -> int {
        *self as int
    }

    open spec fn m_add(a: int, b: int) -> int {
        a + b
    }

    open spec fn m_sub(a: int, b: int) -> int {
        a - b
    }

    open spec fn m_neg(a: int) -> int {
        -a
    }

    open spec fn m_mul(a: int, b: int) -> int {
        a * b
    }

    open spec fn m_sum(s: Seq<int>) -> int {
        int_sum(s)
    }

    open spec fn add_ok(a: int, b: int) -> bool {
        fits_i64(a + b)
    }

    open spec fn sub_ok(a: int, b: int) -> bool {
        fits_i64(a - b)
    }

    open spec fn neg_ok(a: int) -> bool {
        fits_i64(-a)
    }

    open spec fn mul_ok(a: int, b: int) -> bool {
        fits_i64(a * b)
    }

    open spec fn sum_ok(s: Seq<int>) -> bool {
        forall|k: int| 0 <= k <= s.len() ==> fits_i64(int_sum(#[trigger] s.take(k)))
    }

    fn add(&self, other: &i64) -> (r: i64) {
        *self + *other
    }

    fn sub(&self, other: &i64) -> (r: i64) {
        *self - *other
    }

    fn neg(&self) -> (r: i64) {
        -*self
    }

    fn mul(&self, other: &i64) -> (r: i64) {
        *self * *other
    }

    fn add_assign(&mut self, other: &i64) {
        *self = *self + *other;
    }

    fn sub_assign(&mut self, other: &i64) {
        *self = *self - *other;
    }

    fn sum(v: Vec<i64>) -> (r: i64) {
        let ghost ms = Seq::new(v@.len(), |k: int| v@[k].model());
        let mut acc: i64 = 0;
        let mut k: usize = 0;
        proof {
            assert(ms.take(0) =~= Seq::<int>::empty());
        }
        while k < v.len()
            invariant
                0 <= k <= v@.len(),
                ms == Seq::new(v@.len(), |k: int| v@[k].model()),
                <i64 as Ring>::sum_ok(ms),
                acc as int == int_sum(ms.take(k as int)),
            decreases v@.len() - k,
        {
            proof {
                let t = ms.take(k as int + 1);
                assert(t.drop_last() =~= ms.take(k as int));
                assert(t.last() == v@[k as int] as int);
                assert(fits_i64(int_sum(t)));
            }
            acc = acc + v[k];
            k = k + 1;
        }
        proof {
            assert(ms.take(v@.len() as int) =~= ms);
        }
        acc
    }
}

} // verus!
