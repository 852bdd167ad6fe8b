//! Finite-dimensional vector spaces over an exact scalar field (real or
//! complex rationals), with inner-product structure, orthonormal-basis
//! change-of-basis transforms, and unit-norm superposition states.

pub mod error;
pub mod scalar;
pub mod utility;
pub mod matrix;
pub mod norm;
pub mod ordered_basis;
pub mod super_position;
pub mod vector;

pub use crate::error::AlgebraError;
pub use crate::matrix::Matrix;
pub use crate::norm::Angle;
pub use crate::ordered_basis::OrderedBasis;
pub use crate::ordered_basis::OrderedOrthonormalBasis;
pub use crate::scalar::Rational;
pub use crate::scalar::Scalar;
pub use crate::super_position::SuperPosition;
pub use crate::vector::Vector;
