//! Superpositions: unit-norm coefficient vectors over an orthonormal
//! basis, convertible between bases through the standard basis.

use vstd::prelude::*;

use crate::error::AlgebraError;
use crate::matrix::{mat_vec_fits, mat_vec_spec, transpose_spec};
use crate::ordered_basis::OrderedOrthonormalBasis;
use crate::scalar::{comp_eq, comp_fits, comp_of_rat, comp_re, rat_one, Comp, Rational};
use crate::utility::{comp_round_to, default_eps, Approximate};
use crate::vector::{inner_fits, inner_spec, Vector};

verus! {

/// The squared norm of `v` is very close to one: it rounds to the same
/// multiple of the default tolerance as one does.
pub open spec fn is_unit_norm(v: Seq<Comp>) -> bool {
    comp_eq(
        comp_round_to(comp_of_rat(comp_re(inner_spec(v, v))), default_eps()),
        comp_round_to(comp_of_rat(rat_one()), default_eps()),
    )
}

/// When construction of a superposition from these coefficients over
/// this basis matrix succeeds: the dimensions match, the exact squared
/// norm and its rounding fit the stored scalars, the norm is very close
/// to one, and the cached standard-basis product fits.
pub open spec fn constructible(scalars: Seq<Comp>, basis_m: Seq<Seq<Comp>>) -> bool {
    scalars.len() == basis_m.len() && inner_fits(scalars, scalars, scalars.len() as int)
        && comp_fits(
        comp_round_to(comp_of_rat(comp_re(inner_spec(scalars, scalars))), default_eps()),
    ) && is_unit_norm(scalars) && mat_vec_fits(basis_m, scalars)
}

/// When construction fails with `InvariantViolation` rather than
/// `Overflow`: the dimensions mismatch, or everything needed to decide
/// fits and the squared norm is not very close to one.
pub open spec fn invariant_violated(scalars: Seq<Comp>, basis_m: Seq<Seq<Comp>>) -> bool {
    scalars.len() != basis_m.len() || (inner_fits(scalars, scalars, scalars.len() as int)
        && comp_fits(
        comp_round_to(comp_of_rat(comp_re(inner_spec(scalars, scalars))), default_eps()),
    ) && !is_unit_norm(scalars))
}

/// A state vector: coefficients over a named orthonormal basis, with
/// the same state cached in the standard basis.  Construction validates
/// the dimension and the normalization, so every value of this type
/// carries a coefficient vector whose squared norm is very close to
/// one.
#[derive(Debug)]
pub struct SuperPosition {
    scalars: Vector,
    basis: OrderedOrthonormalBasis,
    vector_in_standard_basis: Vector,
}

impl SuperPosition {
    /// The coefficients in the named basis.
    pub closed spec fn scalars_spec(&self) -> Seq<Comp> {
        self.scalars@
    }

    /// The matrix of the named basis.
    pub closed spec fn basis_matrix(&self) -> Seq<Seq<Comp>> {
        self.basis.matrix_spec()
    }

    /// The cached representation in the standard basis.
    pub closed spec fn standard_spec(&self) -> Seq<Comp> {
        self.vector_in_standard_basis@
    }

    /// The invariant every constructed superposition carries.
    pub closed spec fn wf(&self) -> bool {
        self.scalars.wf() && self.basis.wf() && self.vector_in_standard_basis.wf()
            && self.scalars@.len() == self.basis.matrix_spec().len() && is_unit_norm(self.scalars@)
            && self.vector_in_standard_basis@ == mat_vec_spec(
            self.basis.matrix_spec(),
            self.scalars@,
        )
    }

    /// Builds a superposition after validating that the coefficients
    /// match the basis dimension and have squared norm very close to
    /// one; caches the standard-basis representation.
    pub fn from_scalars_and_basis(scalars: Vector, basis: &OrderedOrthonormalBasis) -> (r: Result<
        SuperPosition,
        AlgebraError,
    >)
        requires
            scalars.wf(),
            basis.wf(),
        ensures
            r is Ok <==> constructible(scalars@, basis.matrix_spec()),
            r matches Ok(sp) ==> sp.wf() && sp.scalars_spec() == scalars@ && sp.basis_matrix()
                == basis.matrix_spec() && sp.standard_spec() == mat_vec_spec(
                basis.matrix_spec(),
                scalars@,
            ),
            r matches Err(e) ==> e == AlgebraError::InvariantViolation || e
                == AlgebraError::Overflow,
            r matches Err(e) ==> ((e == AlgebraError::InvariantViolation) <==> invariant_violated(
                scalars@,
                basis.matrix_spec(),
            )),
    {
        let dim = basis.dimension();
        if scalars.len() != dim {
            return Err(AlgebraError::InvariantViolation);
        }
        let ns = match scalars.norm_squared() {
            Ok(v) => v,
            Err(e) => {
                return Err(e);
            },
        };
        proof {
            assert(comp_fits(comp_round_to(comp_of_rat(rat_one()), default_eps())));
        }
        let close = match ns.is_very_close(&Rational::one()) {
            Ok(b) => b,
            Err(e) => {
                return Err(e);
            },
        };
        if !close {
            return Err(AlgebraError::InvariantViolation);
        }
        let cache = match basis.change_to_standard_basis(&scalars) {
            Ok(v) => v,
            Err(e) => {
                return Err(e);
            },
        };
        Ok(
            SuperPosition {
                scalars,
                basis: basis.clone(),
                vector_in_standard_basis: cache,
            },
        )
    }

    /// The same state expressed over `new_basis`: reads the cached
    /// standard-basis vector, applies the new basis's inverse transform,
    /// and revalidates the normalization on the way out.
    pub fn to_basis(&self, new_basis: &OrderedOrthonormalBasis) -> (r: Result<
        SuperPosition,
        AlgebraError,
    >)
        requires
            self.wf(),
            new_basis.wf(),
        ensures
            r is Ok <==> self.standard_spec().len() == new_basis.matrix_spec().len()
                && mat_vec_fits(transpose_spec(new_basis.matrix_spec()), self.standard_spec())
                && constructible(
                mat_vec_spec(transpose_spec(new_basis.matrix_spec()), self.standard_spec()),
                new_basis.matrix_spec(),
            ),
            r matches Ok(sp) ==> sp.wf() && sp.basis_matrix() == new_basis.matrix_spec()
                && sp.scalars_spec() == mat_vec_spec(
                transpose_spec(new_basis.matrix_spec()),
                self.standard_spec(),
            ),
            r matches Err(e) ==> e == AlgebraError::LengthMismatch || e
                == AlgebraError::InvariantViolation || e == AlgebraError::Overflow,
            r matches Err(e) ==> ((e == AlgebraError::LengthMismatch) <==> self.standard_spec().len()
                != new_basis.matrix_spec().len()),
            r matches Err(e) ==> ((e == AlgebraError::InvariantViolation) <==> (
            self.standard_spec().len() == new_basis.matrix_spec().len() && mat_vec_fits(
                transpose_spec(new_basis.matrix_spec()),
                self.standard_spec(),
            ) && invariant_violated(
                mat_vec_spec(transpose_spec(new_basis.matrix_spec()), self.standard_spec()),
                new_basis.matrix_spec(),
            ))),
    {
        let new_scalars = match new_basis.change_from_standard_basis(
            &self.vector_in_standard_basis,
        ) {
            Ok(v) => v,
            Err(e) => {
                return Err(e);
            },
        };
        proof {
            assert(new_scalars@.len() == new_basis.matrix_spec().len());
        }
        SuperPosition::from_scalars_and_basis(new_scalars, new_basis)
    }

    /// The coefficients in the named basis.
    pub fn scalars(&self) -> (r: Vector)
        requires
            self.wf(),
        ensures
            r.wf(),
            r@ == self.scalars_spec(),
    {
        self.scalars.clone()
    }

    /// The named basis.
    pub fn basis(&self) -> (r: &OrderedOrthonormalBasis)
        requires
            self.wf(),
        ensures
            r.wf(),
            r.matrix_spec() == self.basis_matrix(),
    {
        &self.basis
    }

    /// The cached standard-basis representation.
    pub fn vector_in_standard_basis(&self) -> (r: Vector)
        requires
            self.wf(),
        ensures
            r.wf(),
            r@ == self.standard_spec(),
    {
        self.vector_in_standard_basis.clone()
    }
}

/// Every superposition keeps unit norm: after any chain of
/// constructions and basis conversions the coefficient vector's squared
/// norm stays very close to one, because each step revalidates it.
pub proof fn lemma_superposition_unit_norm(sp: &SuperPosition)
    requires
        sp.wf(),
    ensures
        is_unit_norm(sp.scalars_spec()),
{
}

/// Superposition round trip: converting a state to another orthonormal
/// basis and back to the original reproduces the original coefficient
/// vector, and the coefficient norm stays very close to one after each
/// conversion.  `there` and `back` are the two conversion results, with
/// the coefficients `to_basis` describes; a genuinely orthonormal
/// matrix has orthonormal rows as well as columns, and both facts are
/// taken as given, since neither is derived from the other here.
pub proof fn lemma_superposition_round_trip(
    sp: &SuperPosition,
    there: &SuperPosition,
    back: &SuperPosition,
)
    requires
        sp.wf(),
        there.wf(),
        back.wf(),
        there.scalars_spec() == mat_vec_spec(
            transpose_spec(there.basis_matrix()),
            sp.standard_spec(),
        ),
        back.basis_matrix() == sp.basis_matrix(),
        back.scalars_spec() == mat_vec_spec(
            transpose_spec(sp.basis_matrix()),
            there.standard_spec(),
        ),
        there.basis_matrix().len() == sp.basis_matrix().len(),
        crate::matrix::is_orthonormal_spec(sp.basis_matrix()),
        crate::matrix::is_orthonormal_spec(transpose_spec(there.basis_matrix())),
    ensures
        crate::vector::vec_eq_spec(back.scalars_spec(), sp.scalars_spec()),
        is_unit_norm(back.scalars_spec()),
        is_unit_norm(there.scalars_spec()),
{
    let m1 = sp.basis_matrix();
    let m2 = there.basis_matrix();
    let s = sp.scalars_spec();
    sp.scalars.lemma_wf_model();
    crate::ordered_basis::lemma_basis_wf_model(&sp.basis);
    crate::ordered_basis::lemma_basis_wf_model(&there.basis);
    crate::matrix::lemma_double_change_round_trip(m1, m2, s);
}

} // verus!
