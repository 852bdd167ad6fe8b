//! Vectors over the scalar field.
//!
//! A vector is an ordered, runtime-length sequence of scalars; the
//! fixed-dimension spaces of small dimension are the values whose length
//! is that dimension.  A zero-length vector stands for the zero vector of
//! any dimension: elementwise arithmetic accepts operands of equal length
//! or a zero-length operand (missing entries count as zero), and equality
//! across lengths holds exactly when both sides are entirely zero.

use vstd::prelude::*;

use crate::error::AlgebraError;
use crate::scalar::{
    comp_add, comp_conj, comp_eq, comp_fits, comp_is_real, comp_is_zero, comp_mul, comp_neg,
    comp_re, comp_sub, comp_unscale, comp_wf, comp_zero, rat_is_zero, Comp, Rat, Rational, Scalar,
};

verus! {

// ---------------------------------------------------------------------------
// The model: sequences of complex values.
// ---------------------------------------------------------------------------

/// Every entry has a positive denominator.
pub open spec fn seq_wf(s: Seq<Comp>) -> bool {
    forall|i: int| 0 <= i < s.len() ==> comp_wf(#[trigger] s[i])
}

/// Every entry fits the stored 64-bit fractions.
pub open spec fn seq_fits(s: Seq<Comp>) -> bool {
    forall|i: int| 0 <= i < s.len() ==> comp_fits(#[trigger] s[i])
}

/// The entry at `i`, reading zero beyond the end: a short vector is
/// extended with zeros when combined with a longer one.
pub open spec fn comp_pad(s: Seq<Comp>, i: int) -> Comp {
    if 0 <= i < s.len() {
        s[i]
    } else {
        comp_zero()
    }
}

pub open spec fn max_len(a: Seq<Comp>, b: Seq<Comp>) -> int {
    if a.len() >= b.len() {
        a.len() as int
    } else {
        b.len() as int
    }
}

/// Elementwise combination is defined for equal lengths or a zero-length
/// operand.
pub open spec fn lengths_compatible(a: Seq<Comp>, b: Seq<Comp>) -> bool {
    a.len() == b.len() || a.len() == 0 || b.len() == 0
}

pub open spec fn vec_add_spec(a: Seq<Comp>, b: Seq<Comp>) -> Seq<Comp> {
    Seq::new(max_len(a, b) as nat, |i: int| comp_add(comp_pad(a, i), comp_pad(b, i)))
}

pub open spec fn vec_sub_spec(a: Seq<Comp>, b: Seq<Comp>) -> Seq<Comp> {
    Seq::new(max_len(a, b) as nat, |i: int| comp_sub(comp_pad(a, i), comp_pad(b, i)))
}

pub open spec fn vec_mul_spec(a: Seq<Comp>, b: Seq<Comp>) -> Seq<Comp> {
    Seq::new(max_len(a, b) as nat, |i: int| comp_mul(comp_pad(a, i), comp_pad(b, i)))
}

pub open spec fn vec_neg_spec(a: Seq<Comp>) -> Seq<Comp> {
    Seq::new(a.len(), |i: int| comp_neg(a[i]))
}

pub open spec fn vec_unscale_spec(a: Seq<Comp>, r: Rat) -> Seq<Comp> {
    Seq::new(a.len(), |i: int| comp_unscale(a[i], r))
}

pub open spec fn vec_is_zero_spec(a: Seq<Comp>) -> bool {
    forall|i: int| 0 <= i < a.len() ==> comp_is_zero(#[trigger] a[i])
}

/// Structural vector equality: elementwise when the lengths match;
/// across different lengths both sides must be entirely zero.
pub open spec fn vec_eq_spec(a: Seq<Comp>, b: Seq<Comp>) -> bool {
    if a.len() == b.len() {
        forall|i: int| 0 <= i < a.len() ==> comp_eq(#[trigger] a[i], #[trigger] b[i])
    } else {
        vec_is_zero_spec(a) && vec_is_zero_spec(b)
    }
}

pub open spec fn vec_zero_spec(n: int) -> Seq<Comp> {
    Seq::new(n as nat, |i: int| comp_zero())
}

/// The standard basis vector of dimension `dim` with one at position `i`.
pub open spec fn canonical_spec(dim: int, i: int) -> Seq<Comp> {
    Seq::new(
        dim as nat,
        |j: int|
            if j == i {
                comp_one_entry()
            } else {
                comp_zero()
            },
    )
}

pub open spec fn comp_one_entry() -> Comp {
    Comp { re: 1, im: 0, d: 1 }
}

/// The inner product of the first `k` padded entries:
/// `sum a[j] * conj(b[j])`, accumulated left to right.
pub open spec fn inner_prefix(a: Seq<Comp>, b: Seq<Comp>, k: int) -> Comp
    decreases k,
{
    if k <= 0 {
        comp_zero()
    } else {
        comp_add(
            inner_prefix(a, b, k - 1),
            comp_mul(comp_pad(a, k - 1), comp_conj(comp_pad(b, k - 1))),
        )
    }
}

/// `sum_j a[j] * conj(b[j])` over all entries.
pub open spec fn inner_spec(a: Seq<Comp>, b: Seq<Comp>) -> Comp {
    inner_prefix(a, b, max_len(a, b))
}

/// Whether every intermediate value of the inner-product accumulation up
/// to `k` fits the stored scalars.
pub open spec fn inner_fits(a: Seq<Comp>, b: Seq<Comp>, k: int) -> bool
    decreases k,
{
    k <= 0 || {
        let p = comp_mul(comp_pad(a, k - 1), comp_conj(comp_pad(b, k - 1)));
        inner_fits(a, b, k - 1) && comp_fits(p) && comp_fits(comp_add(inner_prefix(a, b, k - 1), p))
    }
}

/// A fitting accumulation fits at every shorter prefix too.
pub proof fn lemma_inner_fits_mono(a: Seq<Comp>, b: Seq<Comp>, m: int, k: int)
    requires
        0 <= k <= m,
        inner_fits(a, b, m),
    ensures
        inner_fits(a, b, k),
    decreases m,
{
    if k < m {
        lemma_inner_fits_mono(a, b, m - 1, k);
    }
}

// ---------------------------------------------------------------------------
// The executable vector.
// ---------------------------------------------------------------------------

/// An ordered, runtime-length vector of scalars.
#[derive(Debug)]
pub struct Vector {
    elems: Vec<Scalar>,
}

impl View for Vector {
    type V = Seq<Comp>;

    closed spec fn view(&self) -> Seq<Comp> {
        Seq::new(self.elems@.len(), |i: int| self.elems@[i]@)
    }
}

impl Clone for Vector {
    fn clone(&self) -> (r: Self)
        ensures
            r@ == self@,
            r.real_flags() == self.real_flags(),
            self.wf() ==> r.wf(),
    {
        let mut out: Vec<Scalar> = Vec::new();
        let n = self.elems.len();
        for i in 0..n
            invariant
                out@.len() == i,
                n == self.elems@.len(),
                forall|j: int| 0 <= j < i ==> out@[j] == self.elems@[j],
        {
            out.push(self.elems[i]);
        }
        let r = Vector { elems: out };
        proof {
            assert(r@ =~= self@);
            assert(r.real_flags() =~= self.real_flags());
        }
        r
    }
}

impl Vector {
    /// Every stored scalar is validly stored.
    pub closed spec fn wf(&self) -> bool {
        forall|i: int| 0 <= i < self.elems@.len() ==> (#[trigger] self.elems@[i]).wf()
    }

    /// A well-formed vector denotes a sequence of representable,
    /// positive-denominator values.
    pub proof fn lemma_wf_model(&self)
        requires
            self.wf(),
        ensures
            seq_fits(self@),
            seq_wf(self@),
    {
        assert forall|i: int| 0 <= i < self@.len() implies comp_fits(#[trigger] self@[i]) by {
            assert(self@[i] == self.elems@[i]@);
        }
        assert forall|i: int| 0 <= i < self@.len() implies comp_wf(#[trigger] self@[i]) by {
            assert(self@[i] == self.elems@[i]@);
        }
    }

    /// Which entries are carried in the real representation.
    pub closed spec fn real_flags(&self) -> Seq<bool> {
        Seq::new(self.elems@.len(), |i: int| self.elems@[i].is_real_repr())
    }

    /// Wraps an explicit element sequence.
    pub fn new(data: Vec<Scalar>) -> (r: Vector)
        requires
            forall|i: int| 0 <= i < data@.len() ==> (#[trigger] data@[i]).wf(),
        ensures
            r.wf(),
            r@.len() == data@.len(),
            forall|i: int| 0 <= i < data@.len() ==> r@[i] == (#[trigger] data@[i])@,
            forall|i: int|
                0 <= i < data@.len() ==> r.real_flags()[i] == (#[trigger] data@[i]).is_real_repr(),
    {
        Vector { elems: data }
    }

    /// The additive identity of dimension `n`.
    pub fn zero(n: usize) -> (r: Vector)
        ensures
            r.wf(),
            r@ == vec_zero_spec(n as int),
            forall|i: int| 0 <= i < n ==> r.real_flags()[i],
    {
        let mut out: Vec<Scalar> = Vec::new();
        for i in 0..n
            invariant
                out@.len() == i,
                forall|j: int|
                    0 <= j < i ==> (#[trigger] out@[j])@ == comp_zero() && out@[j].wf()
                        && out@[j].is_real_repr(),
        {
            out.push(Scalar::zero());
        }
        let r = Vector { elems: out };
        proof {
            assert(r@ =~= vec_zero_spec(n as int));
        }
        r
    }

    /// The number of elements.
    pub fn len(&self) -> (r: usize)
        ensures
            r == self@.len(),
    {
        self.elems.len()
    }

    /// The element at `index`; `IndexOutOfRange` at or beyond the length.
    pub fn get(&self, index: usize) -> (r: Result<Scalar, AlgebraError>)
        requires
            self.wf(),
        ensures
            r is Ok <==> index < self@.len(),
            r matches Ok(s) ==> s.wf() && s@ == self@[index as int] && s.is_real_repr()
                == self.real_flags()[index as int],
            r matches Err(e) ==> e == AlgebraError::IndexOutOfRange,
    {
        if index < self.elems.len() {
            Ok(self.elems[index])
        } else {
            Err(AlgebraError::IndexOutOfRange)
        }
    }

    /// Replaces the element at `index`; `IndexOutOfRange` beyond the
    /// length, leaving the vector unchanged.
    pub fn set(&mut self, index: usize, value: Scalar) -> (r: Result<(), AlgebraError>)
        requires
            old(self).wf(),
            value.wf(),
        ensures
            final(self).wf(),
            r is Ok <==> index < old(self)@.len(),
            r is Ok ==> final(self)@ == old(self)@.update(index as int, value@),
            r matches Err(e) ==> e == AlgebraError::IndexOutOfRange && final(self)@ == old(self)@,
    {
        if index < self.elems.len() {
            self.elems.set(index, value);
            proof {
                assert(self@ =~= old(self)@.update(index as int, value@));
            }
            Ok(())
        } else {
            Err(AlgebraError::IndexOutOfRange)
        }
    }

    /// True exactly when every element is zero; vacuously true for a
    /// zero-length vector.
    pub fn is_zero(&self) -> (r: bool)
        requires
            self.wf(),
        ensures
            r == vec_is_zero_spec(self@),
    {
        let n = self.elems.len();
        for i in 0..n
            invariant
                n == self.elems@.len(),
                self.wf(),
                forall|j: int| 0 <= j < i ==> comp_is_zero(#[trigger] self@[j]),
        {
            if !self.elems[i].is_zero() {
                proof {
                    assert(self@[i as int] == self.elems@[i as int]@);
                }
                return false;
            }
        }
        true
    }

    /// Structural equality: elementwise when lengths match, and across
    /// lengths exactly when both vectors are entirely zero.
    pub fn equals(&self, other: &Vector) -> (r: bool)
        requires
            self.wf(),
            other.wf(),
        ensures
            r == vec_eq_spec(self@, other@),
    {
        let n = self.elems.len();
        if n == other.elems.len() {
            for i in 0..n
                invariant
                    n == self.elems@.len(),
                    n == other.elems@.len(),
                    self.wf(),
                    other.wf(),
                    forall|j: int| 0 <= j < i ==> comp_eq(#[trigger] self@[j], #[trigger] other@[j]),
            {
                if !self.elems[i].equals(&other.elems[i]) {
                    proof {
                        assert(self@[i as int] == self.elems@[i as int]@);
                        assert(other@[i as int] == other.elems@[i as int]@);
                    }
                    return false;
                }
            }
            true
        } else {
            self.is_zero() && other.is_zero()
        }
    }

    /// Elementwise negation.
    pub fn negate(&self) -> (r: Vector)
        requires
            self.wf(),
        ensures
            r.wf(),
            r@ == vec_neg_spec(self@),
            r.real_flags() == self.real_flags(),
    {
        let n = self.elems.len();
        let mut out: Vec<Scalar> = Vec::new();
        for i in 0..n
            invariant
                n == self.elems@.len(),
                self.wf(),
                out@.len() == i,
                forall|j: int| 0 <= j < i ==> (#[trigger] out@[j])@ == comp_neg(self@[j]),
                forall|j: int| 0 <= j < i ==> (#[trigger] out@[j]).wf(),
                forall|j: int|
                    0 <= j < i ==> (#[trigger] out@[j]).is_real_repr() == self.real_flags()[j],
        {
            out.push(self.elems[i].neg());
        }
        let r = Vector { elems: out };
        proof {
            assert(r@ =~= vec_neg_spec(self@));
            assert(r.real_flags() =~= self.real_flags());
        }
        r
    }

    /// The padded element at `i`: the stored entry below the length, zero
    /// beyond it.
    fn padded(&self, i: usize) -> (r: Scalar)
        requires
            self.wf(),
        ensures
            r.wf(),
            r@ == comp_pad(self@, i as int),
            r.is_real_repr() == if (i as int) < self@.len() {
                self.real_flags()[i as int]
            } else {
                true
            },
    {
        if i < self.elems.len() {
            self.elems[i]
        } else {
            Scalar::zero()
        }
    }

    /// Elementwise sum.  `LengthMismatch` when both lengths are nonzero
    /// and unequal; `Overflow` when some exact entry does not fit.
    pub fn add(&self, other: &Vector) -> (r: Result<Vector, AlgebraError>)
        requires
            self.wf(),
            other.wf(),
        ensures
            r is Ok <==> lengths_compatible(self@, other@) && seq_fits(vec_add_spec(self@, other@)),
            r matches Ok(v) ==> v.wf() && v@ == vec_add_spec(self@, other@) && v.real_flags()
                == add_flags(self, other),
            r matches Err(e) ==> (e == AlgebraError::LengthMismatch && !lengths_compatible(
                self@,
                other@,
            )) || (e == AlgebraError::Overflow && lengths_compatible(self@, other@)),
    {
        if !(self.elems.len() == other.elems.len() || self.elems.len() == 0 || other.elems.len()
            == 0) {
            return Err(AlgebraError::LengthMismatch);
        }
        let n = if self.elems.len() >= other.elems.len() {
            self.elems.len()
        } else {
            other.elems.len()
        };
        let mut out: Vec<Scalar> = Vec::new();
        for i in 0..n
            invariant
                n == max_len(self@, other@),
                lengths_compatible(self@, other@),
                self.wf(),
                other.wf(),
                out@.len() == i,
                forall|j: int| 0 <= j < i ==> (#[trigger] out@[j])@ == vec_add_spec(self@, other@)[j],
                forall|j: int| 0 <= j < i ==> (#[trigger] out@[j]).wf(),
                forall|j: int| 0 <= j < i ==> (#[trigger] out@[j]).is_real_repr() == add_flags(
                    self,
                    other,
                )[j],
        {
            let a = self.padded(i);
            let b = other.padded(i);
            match a.add(&b) {
                Ok(s) => {
                    out.push(s);
                },
                Err(e) => {
                    proof {
                        assert(vec_add_spec(self@, other@)[i as int] == comp_add(
                            comp_pad(self@, i as int),
                            comp_pad(other@, i as int),
                        ));
                    }
                    return Err(e);
                },
            }
        }
        let r = Vector { elems: out };
        proof {
            assert forall|j: int|
                0 <= j < max_len(self@, other@) implies comp_fits(
                #[trigger] vec_add_spec(self@, other@)[j],
            ) by {
                assert(vec_add_spec(self@, other@)[j] == out@[j]@);
            }
            assert(r@ =~= vec_add_spec(self@, other@));
            assert(r.real_flags() =~= add_flags(self, other));
        }
        Ok(r)
    }

    /// Elementwise difference; the same length and overflow rules as
    /// `add`.
    pub fn sub(&self, other: &Vector) -> (r: Result<Vector, AlgebraError>)
        requires
            self.wf(),
            other.wf(),
        ensures
            r is Ok <==> lengths_compatible(self@, other@) && seq_fits(vec_sub_spec(self@, other@)),
            r matches Ok(v) ==> v.wf() && v@ == vec_sub_spec(self@, other@) && v.real_flags()
                == add_flags(self, other),
            r matches Err(e) ==> (e == AlgebraError::LengthMismatch && !lengths_compatible(
                self@,
                other@,
            )) || (e == AlgebraError::Overflow && lengths_compatible(self@, other@)),
    {
        if !(self.elems.len() == other.elems.len() || self.elems.len() == 0 || other.elems.len()
            == 0) {
            return Err(AlgebraError::LengthMismatch);
        }
        let n = if self.elems.len() >= other.elems.len() {
            self.elems.len()
        } else {
            other.elems.len()
        };
        let mut out: Vec<Scalar> = Vec::new();
        for i in 0..n
            invariant
                n == max_len(self@, other@),
                lengths_compatible(self@, other@),
                self.wf(),
                other.wf(),
                out@.len() == i,
                forall|j: int| 0 <= j < i ==> (#[trigger] out@[j])@ == vec_sub_spec(self@, other@)[j],
                forall|j: int| 0 <= j < i ==> (#[trigger] out@[j]).wf(),
                forall|j: int| 0 <= j < i ==> (#[trigger] out@[j]).is_real_repr() == add_flags(
                    self,
                    other,
                )[j],
        {
            let a = self.padded(i);
            let b = other.padded(i);
            match a.sub(&b) {
                Ok(s) => {
                    out.push(s);
                },
                Err(e) => {
                    proof {
                        assert(vec_sub_spec(self@, other@)[i as int] == comp_sub(
                            comp_pad(self@, i as int),
                            comp_pad(other@, i as int),
                        ));
                    }
                    return Err(e);
                },
            }
        }
        let r = Vector { elems: out };
        proof {
            assert forall|j: int|
                0 <= j < max_len(self@, other@) implies comp_fits(
                #[trigger] vec_sub_spec(self@, other@)[j],
            ) by {
                assert(vec_sub_spec(self@, other@)[j] == out@[j]@);
            }
            assert(r@ =~= vec_sub_spec(self@, other@));
            assert(r.real_flags() =~= add_flags(self, other));
        }
        Ok(r)
    }

    /// Elementwise product; the same length and overflow rules as `add`.
    pub fn mul(&self, other: &Vector) -> (r: Result<Vector, AlgebraError>)
        requires
            self.wf(),
            other.wf(),
        ensures
            r is Ok <==> lengths_compatible(self@, other@) && seq_fits(vec_mul_spec(self@, other@)),
            r matches Ok(v) ==> v.wf() && v@ == vec_mul_spec(self@, other@) && v.real_flags()
                == add_flags(self, other),
            r matches Err(e) ==> (e == AlgebraError::LengthMismatch && !lengths_compatible(
                self@,
                other@,
            )) || (e == AlgebraError::Overflow && lengths_compatible(self@, other@)),
    {
        if !(self.elems.len() == other.elems.len() || self.elems.len() == 0 || other.elems.len()
            == 0) {
            return Err(AlgebraError::LengthMismatch);
        }
        let n = if self.elems.len() >= other.elems.len() {
            self.elems.len()
        } else {
            other.elems.len()
        };
        let mut out: Vec<Scalar> = Vec::new();
        for i in 0..n
            invariant
                n == max_len(self@, other@),
                lengths_compatible(self@, other@),
                self.wf(),
                other.wf(),
                out@.len() == i,
                forall|j: int| 0 <= j < i ==> (#[trigger] out@[j])@ == vec_mul_spec(self@, other@)[j],
                forall|j: int| 0 <= j < i ==> (#[trigger] out@[j]).wf(),
                forall|j: int| 0 <= j < i ==> (#[trigger] out@[j]).is_real_repr() == add_flags(
                    self,
                    other,
                )[j],
        {
            let a = self.padded(i);
            let b = other.padded(i);
            match a.mul(&b) {
                Ok(s) => {
                    out.push(s);
                },
                Err(e) => {
                    proof {
                        assert(vec_mul_spec(self@, other@)[i as int] == comp_mul(
                            comp_pad(self@, i as int),
                            comp_pad(other@, i as int),
                        ));
                    }
                    return Err(e);
                },
            }
        }
        let r = Vector { elems: out };
        proof {
            assert forall|j: int|
                0 <= j < max_len(self@, other@) implies comp_fits(
                #[trigger] vec_mul_spec(self@, other@)[j],
            ) by {
                assert(vec_mul_spec(self@, other@)[j] == out@[j]@);
            }
            assert(r@ =~= vec_mul_spec(self@, other@));
            assert(r.real_flags() =~= add_flags(self, other));
        }
        Ok(r)
    }
}

impl Vector {
    /// Elementwise sum in place; on error the vector is unchanged.
    pub fn add_assign(&mut self, other: &Vector) -> (r: Result<(), AlgebraError>)
        requires
            old(self).wf(),
            other.wf(),
        ensures
            r is Ok <==> lengths_compatible(old(self)@, other@) && seq_fits(
                vec_add_spec(old(self)@, other@),
            ),
            r is Ok ==> final(self).wf() && final(self)@ == vec_add_spec(old(self)@, other@),
            r matches Err(e) ==> final(self)@ == old(self)@ && final(self).wf() && ((e
                == AlgebraError::LengthMismatch && !lengths_compatible(old(self)@, other@)) || (e
                == AlgebraError::Overflow && lengths_compatible(old(self)@, other@))),
    {
        match self.add(other) {
            Ok(v) => {
                *self = v;
                Ok(())
            },
            Err(e) => Err(e),
        }
    }

    /// Elementwise difference in place; on error the vector is unchanged.
    pub fn sub_assign(&mut self, other: &Vector) -> (r: Result<(), AlgebraError>)
        requires
            old(self).wf(),
            other.wf(),
        ensures
            r is Ok <==> lengths_compatible(old(self)@, other@) && seq_fits(
                vec_sub_spec(old(self)@, other@),
            ),
            r is Ok ==> final(self).wf() && final(self)@ == vec_sub_spec(old(self)@, other@),
            r matches Err(e) ==> final(self)@ == old(self)@ && final(self).wf() && ((e
                == AlgebraError::LengthMismatch && !lengths_compatible(old(self)@, other@)) || (e
                == AlgebraError::Overflow && lengths_compatible(old(self)@, other@))),
    {
        match self.sub(other) {
            Ok(v) => {
                *self = v;
                Ok(())
            },
            Err(e) => Err(e),
        }
    }

    /// Elementwise product in place; on error the vector is unchanged.
    pub fn mul_assign(&mut self, other: &Vector) -> (r: Result<(), AlgebraError>)
        requires
            old(self).wf(),
            other.wf(),
        ensures
            r is Ok <==> lengths_compatible(old(self)@, other@) && seq_fits(
                vec_mul_spec(old(self)@, other@),
            ),
            r is Ok ==> final(self).wf() && final(self)@ == vec_mul_spec(old(self)@, other@),
            r matches Err(e) ==> final(self)@ == old(self)@ && final(self).wf() && ((e
                == AlgebraError::LengthMismatch && !lengths_compatible(old(self)@, other@)) || (e
                == AlgebraError::Overflow && lengths_compatible(old(self)@, other@))),
    {
        match self.mul(other) {
            Ok(v) => {
                *self = v;
                Ok(())
            },
            Err(e) => Err(e),
        }
    }

    /// A vector of length `n` whose every entry is `s`.
    fn splat(n: usize, s: &Scalar) -> (r: Vector)
        requires
            s.wf(),
        ensures
            r.wf(),
            r@ == Seq::new(n as nat, |i: int| s@),
    {
        let mut out: Vec<Scalar> = Vec::new();
        for i in 0..n
            invariant
                out@.len() == i,
                s.wf(),
                forall|j: int| 0 <= j < i ==> out@[j] == *s,
        {
            out.push(*s);
        }
        let r = Vector { elems: out };
        proof {
            assert(r@ =~= Seq::new(n as nat, |i: int| s@));
        }
        r
    }

    /// Adds the scalar `s` to every element in place.
    pub fn add_scalar_assign(&mut self, s: &Scalar) -> (r: Result<(), AlgebraError>)
        requires
            old(self).wf(),
            s.wf(),
        ensures
            r is Ok <==> seq_fits(vec_scalar_add_spec(old(self)@, s@)),
            r is Ok ==> final(self).wf() && final(self)@ == vec_scalar_add_spec(old(self)@, s@),
            r matches Err(e) ==> final(self)@ == old(self)@ && final(self).wf() && e
                == AlgebraError::Overflow,
    {
        let f = Vector::splat(self.len(), s);
        proof {
            assert(vec_add_spec(old(self)@, f@) =~= vec_scalar_add_spec(old(self)@, s@));
        }
        self.add_assign(&f)
    }

    /// Subtracts the scalar `s` from every element in place.
    pub fn sub_scalar_assign(&mut self, s: &Scalar) -> (r: Result<(), AlgebraError>)
        requires
            old(self).wf(),
            s.wf(),
        ensures
            r is Ok <==> seq_fits(vec_scalar_sub_spec(old(self)@, s@)),
            r is Ok ==> final(self).wf() && final(self)@ == vec_scalar_sub_spec(old(self)@, s@),
            r matches Err(e) ==> final(self)@ == old(self)@ && final(self).wf() && e
                == AlgebraError::Overflow,
    {
        let f = Vector::splat(self.len(), s);
        proof {
            assert(vec_sub_spec(old(self)@, f@) =~= vec_scalar_sub_spec(old(self)@, s@));
        }
        self.sub_assign(&f)
    }

    /// Multiplies every element by the scalar `s` in place.
    pub fn mul_scalar_assign(&mut self, s: &Scalar) -> (r: Result<(), AlgebraError>)
        requires
            old(self).wf(),
            s.wf(),
        ensures
            r is Ok <==> seq_fits(vec_scalar_mul_spec(old(self)@, s@)),
            r is Ok ==> final(self).wf() && final(self)@ == vec_scalar_mul_spec(old(self)@, s@),
            r matches Err(e) ==> final(self)@ == old(self)@ && final(self).wf() && e
                == AlgebraError::Overflow,
    {
        let f = Vector::splat(self.len(), s);
        proof {
            assert(vec_mul_spec(old(self)@, f@) =~= vec_scalar_mul_spec(old(self)@, s@));
        }
        self.mul_assign(&f)
    }

    /// The element at a position known to be in range.
    pub(crate) fn at(&self, i: usize) -> (r: Scalar)
        requires
            self.wf(),
            i < self@.len(),
        ensures
            r.wf(),
            r@ == self@[i as int],
    {
        proof {
            assert(self@[i as int] == self.elems@[i as int]@);
        }
        self.elems[i]
    }

    /// Divides every element by the nonzero real scalar `by`.
    pub(crate) fn unscale_all(&self, by: &Rational) -> (r: Result<Vector, AlgebraError>)
        requires
            self.wf(),
            by.wf(),
            !rat_is_zero(by@),
        ensures
            r is Ok <==> seq_fits(vec_unscale_spec(self@, by@)),
            r matches Ok(v) ==> v.wf() && v@ == vec_unscale_spec(self@, by@),
            r matches Err(e) ==> e == AlgebraError::Overflow,
    {
        let n = self.elems.len();
        let mut out: Vec<Scalar> = Vec::new();
        for i in 0..n
            invariant
                n == self.elems@.len(),
                self.wf(),
                by.wf(),
                !rat_is_zero(by@),
                out@.len() == i,
                forall|j: int|
                    0 <= j < i ==> (#[trigger] out@[j])@ == vec_unscale_spec(self@, by@)[j],
                forall|j: int| 0 <= j < i ==> (#[trigger] out@[j]).wf(),
        {
            proof {
                assert(self@[i as int] == self.elems@[i as int]@);
            }
            match self.elems[i].unscale(by) {
                Ok(s) => {
                    out.push(s);
                },
                Err(e) => {
                    proof {
                        assert(vec_unscale_spec(self@, by@)[i as int] == comp_unscale(
                            self@[i as int],
                            by@,
                        ));
                    }
                    return Err(e);
                },
            }
        }
        let r = Vector { elems: out };
        proof {
            assert forall|j: int|
                0 <= j < self@.len() implies comp_fits(
                #[trigger] vec_unscale_spec(self@, by@)[j],
            ) by {
                assert(vec_unscale_spec(self@, by@)[j] == out@[j]@);
            }
            assert(r@ =~= vec_unscale_spec(self@, by@));
        }
        Ok(r)
    }

    /// The inner product `sum_i self[i] * conj(other[i])`, under the same
    /// length rules as the elementwise operations.
    pub fn inner_product(&self, other: &Vector) -> (r: Result<Scalar, AlgebraError>)
        requires
            self.wf(),
            other.wf(),
        ensures
            r is Ok <==> lengths_compatible(self@, other@) && inner_fits(
                self@,
                other@,
                max_len(self@, other@),
            ),
            r matches Ok(s) ==> s.wf() && s@ == inner_spec(self@, other@),
            r matches Err(e) ==> (e == AlgebraError::LengthMismatch && !lengths_compatible(
                self@,
                other@,
            )) || (e == AlgebraError::Overflow && lengths_compatible(self@, other@)),
    {
        if !(self.elems.len() == other.elems.len() || self.elems.len() == 0 || other.elems.len()
            == 0) {
            return Err(AlgebraError::LengthMismatch);
        }
        let n = if self.elems.len() >= other.elems.len() {
            self.elems.len()
        } else {
            other.elems.len()
        };
        let mut acc = Scalar::zero();
        for i in 0..n
            invariant
                n == max_len(self@, other@),
                lengths_compatible(self@, other@),
                self.wf(),
                other.wf(),
                acc.wf(),
                acc@ == inner_prefix(self@, other@, i as int),
                inner_fits(self@, other@, i as int),
        {
            let a = self.padded(i);
            let b = other.padded(i);
            let p = match a.mul(&b.conjugate()) {
                Ok(p) => p,
                Err(e) => {
                    proof {
                        if inner_fits(self@, other@, n as int) {
                            lemma_inner_fits_mono(self@, other@, n as int, i as int + 1);
                        }
                    }
                    return Err(e);
                },
            };
            acc = match acc.add(&p) {
                Ok(s) => s,
                Err(e) => {
                    proof {
                        if inner_fits(self@, other@, n as int) {
                            lemma_inner_fits_mono(self@, other@, n as int, i as int + 1);
                        }
                    }
                    return Err(e);
                },
            };
        }
        Ok(acc)
    }

    /// The dot product, defined as the inner product: on a plain vector
    /// space the bare bilinear product is not offered separately.
    pub fn dot(&self, other: &Vector) -> (r: Result<Scalar, AlgebraError>)
        requires
            self.wf(),
            other.wf(),
        ensures
            r is Ok <==> lengths_compatible(self@, other@) && inner_fits(
                self@,
                other@,
                max_len(self@, other@),
            ),
            r matches Ok(s) ==> s.wf() && s@ == inner_spec(self@, other@),
            r matches Err(e) ==> (e == AlgebraError::LengthMismatch && !lengths_compatible(
                self@,
                other@,
            )) || (e == AlgebraError::Overflow && lengths_compatible(self@, other@)),
    {
        self.inner_product(other)
    }

    /// The squared norm: the real part of `<self, self>`, exact and
    /// nonnegative.
    pub fn norm_squared(&self) -> (r: Result<Rational, AlgebraError>)
        requires
            self.wf(),
        ensures
            r is Ok <==> inner_fits(self@, self@, self@.len() as int),
            r matches Ok(s) ==> s.wf() && s@ == comp_re(inner_spec(self@, self@)) && s@.n >= 0,
            r matches Err(e) ==> e == AlgebraError::Overflow,
    {
        proof {
            self.lemma_wf_model();
            lemma_inner_self_real_nonneg(self@);
        }
        match self.inner_product(self) {
            Ok(s) => Ok(s.real_part()),
            Err(e) => Err(e),
        }
    }

    /// The standard basis vector of dimension `dim` with one at `index`;
    /// `IndexOutOfRange` when `index >= dim`.
    pub fn canonical_basis_element(dim: usize, index: usize) -> (r: Result<
        Vector,
        AlgebraError,
    >)
        ensures
            r is Ok <==> index < dim,
            r matches Ok(v) ==> v.wf() && v@ == canonical_spec(dim as int, index as int),
            r matches Err(e) ==> e == AlgebraError::IndexOutOfRange,
    {
        if index >= dim {
            return Err(AlgebraError::IndexOutOfRange);
        }
        let mut out = Vector::zero(dim);
        match out.set(index, Scalar::one()) {
            Ok(_) => {},
            Err(_) => {},
        }
        proof {
            assert(out@ =~= canonical_spec(dim as int, index as int));
        }
        Ok(out)
    }
}

pub open spec fn vec_scalar_add_spec(a: Seq<Comp>, s: Comp) -> Seq<Comp> {
    Seq::new(a.len(), |i: int| comp_add(a[i], s))
}

pub open spec fn vec_scalar_sub_spec(a: Seq<Comp>, s: Comp) -> Seq<Comp> {
    Seq::new(a.len(), |i: int| comp_sub(a[i], s))
}

pub open spec fn vec_scalar_mul_spec(a: Seq<Comp>, s: Comp) -> Seq<Comp> {
    Seq::new(a.len(), |i: int| comp_mul(a[i], s))
}

// ---------------------------------------------------------------------------
// Algebraic laws of the vector operations.
// ---------------------------------------------------------------------------

/// The zero vector of any dimension is entirely zero.
pub proof fn lemma_zero_is_zero(n: int)
    ensures
        vec_is_zero_spec(vec_zero_spec(n)),
{
}

/// Additive identity: adding the zero vector of matching dimension
/// changes nothing.
pub proof fn lemma_add_zero_identity(v: Seq<Comp>, n: int)
    requires
        seq_wf(v),
        v.len() == n,
    ensures
        vec_eq_spec(vec_add_spec(vec_zero_spec(n), v), v),
{
    let z = vec_zero_spec(n);
    let s = vec_add_spec(z, v);
    assert forall|i: int| 0 <= i < s.len() implies comp_eq(#[trigger] s[i], #[trigger] v[i]) by {
        assert(s[i] == comp_add(comp_pad(z, i), comp_pad(v, i)));
    }
}

/// Double negation is the identity, exactly.
pub proof fn lemma_double_negation(v: Seq<Comp>)
    ensures
        vec_neg_spec(vec_neg_spec(v)) == v,
{
    assert(vec_neg_spec(vec_neg_spec(v)) =~= v);
}

/// Inverse cancellation: `(v + w) - w == v` for equal lengths.  Over the
/// exact scalars this needs no tolerance at all.
pub proof fn lemma_add_sub_cancel(v: Seq<Comp>, w: Seq<Comp>)
    requires
        seq_wf(v),
        seq_wf(w),
        v.len() == w.len(),
    ensures
        vec_eq_spec(vec_sub_spec(vec_add_spec(v, w), w), v),
{
    let s = vec_sub_spec(vec_add_spec(v, w), w);
    assert forall|i: int| 0 <= i < s.len() implies comp_eq(#[trigger] s[i], #[trigger] v[i]) by {
        let x = v[i];
        let y = w[i];
        assert(s[i] == comp_sub(comp_add(x, y), y));
        assert(comp_eq(comp_sub(comp_add(x, y), y), x)) by (nonlinear_arith)
            requires
                comp_wf(x),
                comp_wf(y),
        ;
    }
}

/// The inner product of a vector with itself is real, nonnegative, and
/// well formed: positive-definiteness of the induced squared norm.
pub proof fn lemma_inner_self_real_nonneg(v: Seq<Comp>)
    requires
        seq_wf(v),
    ensures
        comp_is_real(inner_spec(v, v)),
        inner_spec(v, v).re >= 0,
        comp_wf(inner_spec(v, v)),
{
    lemma_inner_self_prefix(v, v.len() as int);
}

/// Induction step for `lemma_inner_self_real_nonneg` over the prefix
/// length.
proof fn lemma_inner_self_prefix(v: Seq<Comp>, k: int)
    requires
        seq_wf(v),
        k <= v.len(),
    ensures
        inner_prefix(v, v, k).im == 0,
        inner_prefix(v, v, k).re >= 0,
        inner_prefix(v, v, k).d > 0,
    decreases k,
{
    if k <= 0 {
    } else {
        lemma_inner_self_prefix(v, k - 1);
        let acc = inner_prefix(v, v, k - 1);
        let x = comp_pad(v, k - 1);
        let p = comp_mul(x, comp_conj(x));
        assert(p.im == 0 && p.re >= 0 && p.d > 0) by (nonlinear_arith)
            requires
                x.d > 0,
                p == comp_mul(x, comp_conj(x)),
        ;
        assert(comp_add(acc, p).im == 0 && comp_add(acc, p).re >= 0 && comp_add(acc, p).d > 0)
            by (nonlinear_arith)
            requires
                acc.im == 0,
                acc.re >= 0,
                acc.d > 0,
                p.im == 0,
                p.re >= 0,
                p.d > 0,
        ;
    }
}

/// The representation flags of an elementwise combination: an entry is
/// real exactly when both (padded) operands are.
pub open spec fn add_flags(a: &Vector, b: &Vector) -> Seq<bool> {
    Seq::new(
        max_len(a@, b@) as nat,
        |i: int| pad_flag(a, i) && pad_flag(b, i),
    )
}

/// The representation flag of the padded entry at `i` (a padding zero is
/// real).
pub open spec fn pad_flag(v: &Vector, i: int) -> bool {
    if 0 <= i < v@.len() {
        v.real_flags()[i]
    } else {
        true
    }
}

} // verus!
