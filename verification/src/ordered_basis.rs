//! Ordered bases and orthonormal change-of-basis transforms.

use vstd::prelude::*;

use crate::error::AlgebraError;
use crate::matrix::{
    column_spec, identity_spec, mat_eq_spec, mat_vec_fits, mat_vec_spec, row_dot, transpose_spec,
    Matrix,
};
use crate::scalar::{comp_eq, comp_mul, comp_zero, Comp};
use crate::vector::{canonical_spec, comp_one_entry, seq_wf, vec_eq_spec, Vector};

verus! {

/// An ordered sequence of vectors of the same space, a labelled
/// container with no algebraic constraint beyond the ordering.
#[derive(Debug, Clone)]
pub struct OrderedBasis {
    vectors: Vec<Vector>,
}

impl View for OrderedBasis {
    type V = Seq<Seq<Comp>>;

    closed spec fn view(&self) -> Seq<Seq<Comp>> {
        Seq::new(self.vectors@.len(), |i: int| self.vectors@[i]@)
    }
}

impl OrderedBasis {
    pub closed spec fn wf(&self) -> bool {
        forall|i: int| 0 <= i < self.vectors@.len() ==> (#[trigger] self.vectors@[i]).wf()
    }

    /// Stores the ordered sequence of basis vectors.
    pub fn new(vectors: Vec<Vector>) -> (r: OrderedBasis)
        requires
            forall|i: int| 0 <= i < vectors@.len() ==> (#[trigger] vectors@[i]).wf(),
        ensures
            r.wf(),
            r@.len() == vectors@.len(),
            forall|i: int| 0 <= i < vectors@.len() ==> r@[i] == (#[trigger] vectors@[i])@,
    {
        OrderedBasis { vectors }
    }

    /// The number of stored vectors.
    pub fn len(&self) -> (r: usize)
        ensures
            r == self@.len(),
    {
        self.vectors.len()
    }

    /// The vector at `index`; `IndexOutOfRange` beyond the end.
    pub fn index(&self, index: usize) -> (r: Result<Vector, AlgebraError>)
        requires
            self.wf(),
        ensures
            r is Ok <==> index < self@.len(),
            r matches Ok(v) ==> v.wf() && v@ == self@[index as int],
            r matches Err(e) ==> e == AlgebraError::IndexOutOfRange,
    {
        if index < self.vectors.len() {
            let v = self.vectors[index].clone();
            proof {
                assert(self@[index as int] == self.vectors@[index as int]@);
            }
            Ok(v)
        } else {
            Err(AlgebraError::IndexOutOfRange)
        }
    }
}

/// A square invertible transform from this basis's coordinates to the
/// standard basis, together with its inverse.  `from` takes the
/// transpose as the inverse without verifying orthonormality: for a
/// matrix that is not orthonormal the stored inverse is simply wrong,
/// exactly as the documented precondition warns.  `from_checked`
/// verifies the matrix first and rejects one that is not orthonormal.
#[derive(Debug)]
pub struct OrderedOrthonormalBasis {
    matrix: Matrix,
    inverse: Matrix,
}

impl Clone for OrderedOrthonormalBasis {
    fn clone(&self) -> (r: Self)
        ensures
            r.matrix_spec() == self.matrix_spec(),
            self.wf() ==> r.wf(),
    {
        OrderedOrthonormalBasis { matrix: self.matrix.clone(), inverse: self.inverse.clone() }
    }
}

impl OrderedOrthonormalBasis {
    /// The transform from this basis to the standard one.
    pub closed spec fn matrix_spec(&self) -> Seq<Seq<Comp>> {
        self.matrix@
    }

    pub closed spec fn wf(&self) -> bool {
        self.matrix.wf() && self.inverse.wf() && self.inverse@ == transpose_spec(self.matrix@)
    }

    /// Stores `matrix` with its transpose as the inverse.  Precondition
    /// (unchecked, as documented): `matrix` is orthonormal.
    pub fn from(matrix: Matrix) -> (r: OrderedOrthonormalBasis)
        requires
            matrix.wf(),
        ensures
            r.wf(),
            r.matrix_spec() == matrix@,
    {
        let inverse = matrix.transpose();
        OrderedOrthonormalBasis { matrix, inverse }
    }

    /// Stores `matrix` after verifying that it is orthonormal;
    /// `InvariantViolation` when it is not, `Overflow` when some exact
    /// Gram sum does not fit the stored scalars.
    pub fn from_checked(matrix: Matrix) -> (r: Result<OrderedOrthonormalBasis, AlgebraError>)
        requires
            matrix.wf(),
        ensures
            r is Ok <==> crate::matrix::gram_fits(matrix@) && crate::matrix::is_orthonormal_spec(
                matrix@,
            ),
            r matches Ok(b) ==> b.wf() && b.matrix_spec() == matrix@
                && crate::matrix::is_orthonormal_spec(matrix@),
            r matches Err(e) ==> (e == AlgebraError::InvariantViolation && crate::matrix::gram_fits(
                matrix@,
            ) && !crate::matrix::is_orthonormal_spec(matrix@)) || (e == AlgebraError::Overflow
                && !crate::matrix::gram_fits(matrix@)),
    {
        let ok = match matrix.is_orthonormal() {
            Ok(b) => b,
            Err(e) => {
                return Err(e);
            },
        };
        if ok {
            Ok(OrderedOrthonormalBasis::from(matrix))
        } else {
            Err(AlgebraError::InvariantViolation)
        }
    }

    /// The identity transform of the ambient dimension `n`.
    pub fn standard(n: usize) -> (r: OrderedOrthonormalBasis)
        ensures
            r.wf(),
            r.matrix_spec() == identity_spec(n as int),
            r.matrix_spec().len() == n,
    {
        OrderedOrthonormalBasis::from(Matrix::identity(n))
    }

    /// The dimension of the underlying vector space.
    pub fn dimension(&self) -> (r: usize)
        ensures
            r == self.matrix_spec().len(),
    {
        self.matrix.dimension()
    }

    /// The `index`-th basis vector, expressed in the standard basis: the
    /// `index`-th column of the matrix.
    pub fn get(&self, index: usize) -> (r: Result<Vector, AlgebraError>)
        requires
            self.wf(),
        ensures
            r is Ok <==> index < self.matrix_spec().len(),
            r matches Ok(v) ==> v.wf() && v@ == column_spec(self.matrix_spec(), index as int),
            r matches Err(e) ==> e == AlgebraError::IndexOutOfRange,
    {
        self.matrix.column(index)
    }

    /// The coordinates, in this basis, of a vector given in the standard
    /// basis: `inverse * vector`.
    pub fn change_from_standard_basis(&self, vector_in_standard_basis: &Vector) -> (r: Result<
        Vector,
        AlgebraError,
    >)
        requires
            self.wf(),
            vector_in_standard_basis.wf(),
        ensures
            r is Ok <==> vector_in_standard_basis@.len() == self.matrix_spec().len()
                && mat_vec_fits(transpose_spec(self.matrix_spec()), vector_in_standard_basis@),
            r matches Ok(u) ==> u.wf() && u@ == mat_vec_spec(
                transpose_spec(self.matrix_spec()),
                vector_in_standard_basis@,
            ),
            r matches Err(e) ==> (e == AlgebraError::LengthMismatch
                && vector_in_standard_basis@.len() != self.matrix_spec().len()) || (e
                == AlgebraError::Overflow && vector_in_standard_basis@.len()
                == self.matrix_spec().len()),
    {
        proof {
            assert(transpose_spec(self.matrix_spec()).len() == self.matrix_spec().len());
        }
        self.inverse.mul_vector(vector_in_standard_basis)
    }

    /// The standard-basis representation of a vector of coordinates in
    /// this basis: `matrix * coordinates`.
    pub fn change_to_standard_basis(&self, coordinates: &Vector) -> (r: Result<
        Vector,
        AlgebraError,
    >)
        requires
            self.wf(),
            coordinates.wf(),
        ensures
            r is Ok <==> coordinates@.len() == self.matrix_spec().len() && mat_vec_fits(
                self.matrix_spec(),
                coordinates@,
            ),
            r matches Ok(u) ==> u.wf() && u@ == mat_vec_spec(self.matrix_spec(), coordinates@),
            r matches Err(e) ==> (e == AlgebraError::LengthMismatch && coordinates@.len()
                != self.matrix_spec().len()) || (e == AlgebraError::Overflow && coordinates@.len()
                == self.matrix_spec().len()),
    {
        self.matrix.mul_vector(coordinates)
    }

    /// Converts coordinates from `old_basis` to this basis, through the
    /// standard basis: `inverse * (old_basis.matrix * old_vector)`.
    pub fn change_from_basis(&self, old_vector: &Vector, old_basis: &OrderedOrthonormalBasis) -> (r:
        Result<Vector, AlgebraError>)
        requires
            self.wf(),
            old_vector.wf(),
            old_basis.wf(),
        ensures
            r matches Ok(u) ==> u.wf() && u@ == mat_vec_spec(
                transpose_spec(self.matrix_spec()),
                mat_vec_spec(old_basis.matrix_spec(), old_vector@),
            ),
            r matches Err(e) ==> e == AlgebraError::LengthMismatch || e == AlgebraError::Overflow,
            r is Ok <==> old_vector@.len() == old_basis.matrix_spec().len() && mat_vec_fits(
                old_basis.matrix_spec(),
                old_vector@,
            ) && mat_vec_spec(old_basis.matrix_spec(), old_vector@).len()
                == self.matrix_spec().len() && mat_vec_fits(
                transpose_spec(self.matrix_spec()),
                mat_vec_spec(old_basis.matrix_spec(), old_vector@),
            ),
    {
        let w = match old_basis.matrix.mul_vector(old_vector) {
            Ok(w) => w,
            Err(e) => {
                return Err(e);
            },
        };
        self.change_from_standard_basis(&w)
    }

    /// Two bases are equal exactly when their matrices are: the inverse
    /// is derived and not compared.
    pub fn equals(&self, other: &OrderedOrthonormalBasis) -> (r: bool)
        requires
            self.wf(),
            other.wf(),
        ensures
            r == mat_eq_spec(self.matrix_spec(), other.matrix_spec()),
    {
        self.matrix.equals(&other.matrix)
    }
}

// ---------------------------------------------------------------------------
// Laws of the basis transforms.
// ---------------------------------------------------------------------------

/// A well-formed basis carries a well-formed square matrix model.
pub proof fn lemma_basis_wf_model(b: &OrderedOrthonormalBasis)
    requires
        b.wf(),
    ensures
        crate::matrix::mat_wf_model(b.matrix_spec(), b.matrix_spec().len() as int),
{
    b.matrix.lemma_wf_model();
}

/// Basis round trip: for an orthonormal basis, taking coordinates to
/// the standard basis (`matrix * v`, as `change_to_standard_basis`
/// computes) and back (`transpose * _`, as `change_from_standard_basis`
/// computes) reproduces every coordinate vector.
pub proof fn lemma_basis_round_trip(b: &OrderedOrthonormalBasis, v: Seq<Comp>)
    requires
        b.wf(),
        crate::matrix::is_orthonormal_spec(b.matrix_spec()),
        seq_wf(v),
        v.len() == b.matrix_spec().len(),
    ensures
        vec_eq_spec(
            mat_vec_spec(
                transpose_spec(b.matrix_spec()),
                mat_vec_spec(b.matrix_spec(), v),
            ),
            v,
        ),
{
    lemma_basis_wf_model(b);
    crate::matrix::lemma_orthonormal_round_trip(b.matrix_spec(), v);
}

/// A row of the identity sums against any equally long vector to that
/// vector's entry, up to denotational equality: the delta row picks out
/// one coordinate.
proof fn lemma_delta_row_dot(n: int, i: int, v: Seq<Comp>, k: int)
    requires
        0 <= i < n,
        v.len() == n,
        seq_wf(v),
        0 <= k <= n,
    ensures
        crate::matrix::row_dot_prefix(canonical_spec(n, i), v, k).d > 0,
        k <= i ==> crate::scalar::comp_is_zero(
            crate::matrix::row_dot_prefix(canonical_spec(n, i), v, k),
        ),
        k > i ==> comp_eq(crate::matrix::row_dot_prefix(canonical_spec(n, i), v, k), v[i]),
    decreases k,
{
    let e = canonical_spec(n, i);
    if k > 0 {
        lemma_delta_row_dot(n, i, v, k - 1);
        let acc = crate::matrix::row_dot_prefix(e, v, k - 1);
        let p = comp_mul(e[k - 1], v[k - 1]);
        assert(crate::matrix::row_dot_prefix(e, v, k) == crate::scalar::comp_add(acc, p));
        assert(acc.d * p.d > 0) by (nonlinear_arith)
            requires
                acc.d > 0,
                p.d > 0,
        ;
        if k - 1 == i {
            assert(e[k - 1] == comp_one_entry());
            assert(p == (Comp { re: v[i].re, im: v[i].im, d: v[i].d })) by (nonlinear_arith)
                requires
                    p == comp_mul(comp_one_entry(), v[i]),
            ;
            assert(comp_eq(crate::scalar::comp_add(acc, p), v[i])) by (nonlinear_arith)
                requires
                    acc.re == 0,
                    acc.im == 0,
                    acc.d > 0,
                    p == (Comp { re: v[i].re, im: v[i].im, d: v[i].d }),
                    v[i].d > 0,
            ;
        } else {
            assert(e[k - 1] == comp_zero());
            assert(p == (Comp { re: 0, im: 0, d: v[k - 1].d })) by (nonlinear_arith)
                requires
                    p == comp_mul(comp_zero(), v[k - 1]),
            ;
            if k - 1 < i {
                assert(crate::scalar::comp_is_zero(crate::scalar::comp_add(acc, p)))
                    by (nonlinear_arith)
                    requires
                        acc.re == 0,
                        acc.im == 0,
                        p.re == 0,
                        p.im == 0,
                ;
            }
            if k - 1 > i {
                assert(comp_eq(crate::scalar::comp_add(acc, p), v[i])) by (nonlinear_arith)
                    requires
                        comp_eq(acc, v[i]),
                        acc.d > 0,
                        p.re == 0,
                        p.im == 0,
                        p.d > 0,
                        v[i].d > 0,
                ;
            }
        }
    }
}

/// Applying the standard (identity) transform changes no coordinates:
/// the change of basis from the standard basis to itself is the
/// identity, so a round trip through the standard basis returns every
/// vector unchanged.
pub proof fn lemma_identity_mat_vec(n: int, v: Seq<Comp>)
    requires
        v.len() == n,
        n >= 0,
        seq_wf(v),
    ensures
        vec_eq_spec(mat_vec_spec(identity_spec(n), v), v),
{
    let m = identity_spec(n);
    let u = mat_vec_spec(m, v);
    assert forall|i: int| 0 <= i < n implies comp_eq(#[trigger] u[i], #[trigger] v[i]) by {
        assert(m[i] == canonical_spec(n, i));
        lemma_delta_row_dot(n, i, v, n);
        assert(u[i] == row_dot(m[i], v));
    }
}

} // verus!
