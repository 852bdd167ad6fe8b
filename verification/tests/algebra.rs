use quantum::error::AlgebraError;
use quantum::matrix::Matrix;
use quantum::norm::Angle;
use quantum::ordered_basis::{OrderedBasis, OrderedOrthonormalBasis};
use quantum::scalar::{Rational, Scalar};
use quantum::super_position::SuperPosition;
use quantum::utility::{Approximate, DefaultEpsilon, RoundTo};
use quantum::vector::Vector;

fn rvec(values: &[i64]) -> Vector {
    let mut data: Vec<Scalar> = Vec::new();
    for &v in values {
        data.push(Scalar::real_of(v, 1));
    }
    Vector::new(data)
}

fn rot_basis() -> OrderedOrthonormalBasis {
    // An orthonormal rotation: columns (3/5, -4/5) and (4/5, 3/5).
    let row0 = Vector::new(vec![Scalar::real_of(3, 5), Scalar::real_of(4, 5)]);
    let row1 = Vector::new(vec![Scalar::real_of(-4, 5), Scalar::real_of(3, 5)]);
    let m = Matrix::from_rows(vec![row0, row1]).unwrap();
    OrderedOrthonormalBasis::from(m)
}

#[test]
fn zero_vector_is_zero_and_identity() {
    // Additive identity law over several dimensions.
    for n in 0..4 {
        assert!(Vector::zero(n).is_zero());
    }
    let v = rvec(&[5, -7, 9]);
    let sum = Vector::zero(3).add(&v).unwrap();
    assert!(sum.equals(&v));
    // The zero-length vector also acts as the zero vector.
    let sum2 = Vector::zero(0).add(&v).unwrap();
    assert!(sum2.equals(&v));
}

#[test]
fn double_negation_is_identity() {
    let v = Vector::new(vec![
        Scalar::real_of(2, 3),
        Scalar::complex(-1, 4, 7),
        Scalar::real_of(0, 1),
    ]);
    assert!(v.negate().negate().equals(&v));
}

#[test]
fn add_sub_cancellation() {
    let v = Vector::new(vec![Scalar::real_of(1, 2), Scalar::complex(3, -5, 4)]);
    let w = Vector::new(vec![Scalar::real_of(-7, 3), Scalar::complex(2, 2, 9)]);
    let back = v.add(&w).unwrap().sub(&w).unwrap();
    assert!(back.equals(&v));
}

#[test]
fn inner_product_self_real_nonnegative() {
    let v = Vector::new(vec![Scalar::complex(1, 2, 3), Scalar::complex(-4, 5, 2)]);
    let ip = v.inner_product(&v).unwrap();
    assert!(ip.is_real() || ip.conjugate().equals(&ip));
    let re = ip.real_part();
    assert!(Rational::zero().le(&re));
    // For a real vector the squared norm is the exact sum of squares.
    let u = rvec(&[3, 4]);
    assert!(u.norm_squared().unwrap().equals(&Rational::from_int(25)));
}

#[test]
fn canonical_basis_elements_have_norm_one() {
    for i in 0..3 {
        let e = Vector::canonical_basis_element(3, i).unwrap();
        assert!(e.norm().unwrap().equals(&Rational::one()));
    }
}

#[test]
fn angle_with_self_and_with_zero() {
    let v = rvec(&[2, 1]);
    assert!(matches!(v.angle(&v).unwrap(), Angle::Zero));
    let z = Vector::zero(2);
    assert!(matches!(v.angle(&z).unwrap(), Angle::Zero));
    assert!(matches!(z.angle(&v).unwrap(), Angle::Zero));
}

#[test]
fn angle_orthogonal_and_opposite() {
    let e0 = Vector::canonical_basis_element(2, 0).unwrap();
    let e1 = Vector::canonical_basis_element(2, 1).unwrap();
    match e0.angle(&e1).unwrap() {
        Angle::Acos(c) => assert!(c.equals(&Rational::zero())),
        _ => panic!("expected a right angle cosine"),
    }
    let opposite = e0.negate();
    assert!(matches!(e0.angle(&opposite).unwrap(), Angle::Straight));
}

#[test]
fn basis_round_trip_through_standard() {
    // Coordinate round trip through the standard basis is the identity.
    let b = rot_basis();
    let v = rvec(&[7, -2]);
    let in_standard = b.change_to_standard_basis(&v).unwrap();
    let back = b.change_from_standard_basis(&in_standard).unwrap();
    assert!(back.equals(&v));
}

#[test]
fn superposition_round_trip() {
    // A quarter-turn basis: columns (0, -1) and (1, 0), exactly
    // orthonormal with integer entries.
    let row0 = Vector::new(vec![Scalar::real_of(0, 1), Scalar::real_of(1, 1)]);
    let row1 = Vector::new(vec![Scalar::real_of(-1, 1), Scalar::real_of(0, 1)]);
    let rot = OrderedOrthonormalBasis::from(Matrix::from_rows(vec![row0, row1]).unwrap());
    let std2 = OrderedOrthonormalBasis::standard(2);
    let scalars = Vector::new(vec![Scalar::real_of(1, 1), Scalar::real_of(0, 1)]);
    let sp = SuperPosition::from_scalars_and_basis(scalars.clone(), &rot).unwrap();
    let in_std = sp.to_basis(&std2).unwrap();
    let back = in_std.to_basis(&rot).unwrap();
    assert!(back.scalars().equals(&sp.scalars()));
    // The norm stays very close to one after each conversion.
    let one = Rational::one();
    assert!(in_std
        .scalars()
        .norm_squared()
        .unwrap()
        .is_very_close(&one)
        .unwrap());
    assert!(back.scalars().norm_squared().unwrap().is_very_close(&one).unwrap());
}

#[test]
fn norm_of_one_two_vector() {
    // |(1, 2)| = sqrt(5), reported on the 2^-20 grid: floor(sqrt(5) * 2^20).
    let v = rvec(&[1, 2]);
    let n = v.norm().unwrap();
    assert_eq!(n.numerator(), 2344687);
    assert_eq!(n.denominator(), 1048576);
    // Rendered in order, the elements read 1 and 2.
    assert_eq!(v.len(), 2);
    assert_eq!(v.get(0).unwrap().real_part().numerator(), 1);
    assert_eq!(v.get(1).unwrap().real_part().numerator(), 2);
}

#[test]
fn real_times_complex_elementwise() {
    let real = rvec(&[1, 2]);
    let complex = Vector::new(vec![Scalar::complex(1, 2, 1), Scalar::complex(3, 4, 1)]);
    let prod = real.mul(&complex).unwrap();
    let expected = Vector::new(vec![Scalar::complex(1, 2, 1), Scalar::complex(6, 8, 1)]);
    assert!(prod.equals(&expected));
    // The result elements carry the complex representation.
    assert!(!prod.get(0).unwrap().is_real());
    assert!(!prod.get(1).unwrap().is_real());
}

#[test]
fn identity_basis_first_column_is_standard_vector() {
    let basis = OrderedOrthonormalBasis::from(Matrix::identity(2));
    let got = basis.get(0).unwrap();
    let e0 = Vector::canonical_basis_element(2, 0).unwrap();
    assert!(got.equals(&e0));
    assert_eq!(basis.dimension(), 2);
}

#[test]
fn length_mismatch_is_reported() {
    let v2 = rvec(&[1, 2]);
    let v3 = rvec(&[1, 2, 3]);
    assert_eq!(v2.add(&v3).unwrap_err(), AlgebraError::LengthMismatch);
    assert_eq!(v2.sub(&v3).unwrap_err(), AlgebraError::LengthMismatch);
    assert_eq!(v2.mul(&v3).unwrap_err(), AlgebraError::LengthMismatch);
    assert_eq!(v2.inner_product(&v3).unwrap_err(), AlgebraError::LengthMismatch);
}

#[test]
fn index_out_of_range_is_reported() {
    let v = rvec(&[1, 2]);
    assert_eq!(v.get(2).unwrap_err(), AlgebraError::IndexOutOfRange);
    assert_eq!(
        Vector::canonical_basis_element(2, 5).unwrap_err(),
        AlgebraError::IndexOutOfRange
    );
    let basis = OrderedOrthonormalBasis::standard(2);
    assert_eq!(basis.get(7).unwrap_err(), AlgebraError::IndexOutOfRange);
}

#[test]
fn degenerate_normalize_is_reported() {
    let z = Vector::zero(3);
    assert_eq!(z.normalize().unwrap_err(), AlgebraError::DegenerateNorm);
    assert!(z.try_normalize(&Rational::zero()).unwrap().is_none());
}

#[test]
fn normalize_scales_to_unit_length() {
    let v = rvec(&[3, 4]);
    let u = v.normalize().unwrap();
    let expected = Vector::new(vec![Scalar::real_of(3, 5), Scalar::real_of(4, 5)]);
    assert!(u.equals(&expected));
    let mut w = rvec(&[3, 4]);
    let n = w.normalize_mut().unwrap();
    assert!(w.equals(&expected));
    assert!(n.equals(&Rational::one()));
}

#[test]
fn superposition_invariants_are_checked() {
    let basis = OrderedOrthonormalBasis::standard(2);
    // Dimension mismatch.
    let three = rvec(&[1, 0, 0]);
    assert_eq!(
        SuperPosition::from_scalars_and_basis(three, &basis).unwrap_err(),
        AlgebraError::InvariantViolation
    );
    // Norm far from one.
    let long = rvec(&[3, 4]);
    assert_eq!(
        SuperPosition::from_scalars_and_basis(long, &basis).unwrap_err(),
        AlgebraError::InvariantViolation
    );
    // A valid unit vector is accepted.
    let unit = Vector::new(vec![Scalar::real_of(3, 5), Scalar::real_of(-4, 5)]);
    let sp = SuperPosition::from_scalars_and_basis(unit.clone(), &basis).unwrap();
    assert!(sp.scalars().equals(&unit));
    assert!(sp.vector_in_standard_basis().equals(&unit));
}

#[test]
fn overflow_is_reported() {
    let big = Scalar::real_of(i64::MAX, 1);
    assert_eq!(big.mul(&big).unwrap_err(), AlgebraError::Overflow);
    let huge = Vector::new(vec![Scalar::real_of(i64::MAX, 1)]);
    assert_eq!(huge.mul(&huge).unwrap_err(), AlgebraError::Overflow);
}

#[test]
fn default_epsilon_value() {
    let ep = Rational::ep_7();
    assert_eq!(ep.numerator(), 1);
    assert_eq!(ep.denominator(), 8388608);
}

#[test]
fn rounding_to_a_grid() {
    // 10/7 to the nearest half: 1.428... rounds to 1.5.
    let v = Rational::new(10, 7);
    let half = Rational::new(1, 2);
    let rounded = v.round_to(&half).unwrap();
    assert!(rounded.equals(&Rational::new(3, 2)));
    // Half-way cases round away from zero, in both signs.
    let pos = Rational::new(3, 2).round_to(&Rational::one()).unwrap();
    assert!(pos.equals(&Rational::from_int(2)));
    let neg = Rational::new(-3, 2).round_to(&Rational::one()).unwrap();
    assert!(neg.equals(&Rational::from_int(-2)));
}

#[test]
fn approximate_equality() {
    let a = Rational::new(1, 3);
    let b = Rational::new(1, 3).add(&Rational::new(1, 1 << 30)).unwrap();
    assert!(a.is_very_close(&b).unwrap());
    let one = Rational::one();
    let two = Rational::from_int(2);
    assert!(!one.is_close(&two, &Rational::new(1, 2)).unwrap());
    // The same predicates act componentwise on complex scalars.
    let c1 = Scalar::complex(1, 1, 3);
    let c2 = Scalar::complex(1, 1, 3);
    assert!(c1.is_very_close(&c2).unwrap());
    let small = Scalar::complex(1, 1, 3).round_small().unwrap();
    let direct = c1.round_to(&Rational::ep_7()).unwrap();
    assert!(small.equals(&direct));
}

#[test]
fn dot_equals_inner_product() {
    // This library defines `dot` as the inner product.
    let v = Vector::new(vec![Scalar::complex(1, 2, 1), Scalar::real_of(3, 1)]);
    let w = Vector::new(vec![Scalar::complex(0, 1, 2), Scalar::real_of(-5, 4)]);
    let d = v.dot(&w).unwrap();
    let ip = v.inner_product(&w).unwrap();
    assert!(d.equals(&ip));
}

#[test]
fn complex_scalar_arithmetic() {
    // (1 + 2i) * (3 + 4i) = -5 + 10i.
    let a = Scalar::complex(1, 2, 1);
    let b = Scalar::complex(3, 4, 1);
    assert!(a.mul(&b).unwrap().equals(&Scalar::complex(-5, 10, 1)));
    assert!(a.conjugate().equals(&Scalar::complex(1, -2, 1)));
    assert!(a.real_part().equals(&Rational::one()));
    // Mixed real and complex addition stays exact.
    let r = Scalar::real_of(1, 2);
    assert!(r.add(&a).unwrap().equals(&Scalar::complex(3, 4, 2)));
}

#[test]
fn compound_assignment() {
    let mut v = rvec(&[1, 2]);
    v.add_assign(&rvec(&[10, 20])).unwrap();
    assert!(v.equals(&rvec(&[11, 22])));
    v.sub_assign(&rvec(&[1, 2])).unwrap();
    assert!(v.equals(&rvec(&[10, 20])));
    v.mul_assign(&rvec(&[2, 3])).unwrap();
    assert!(v.equals(&rvec(&[20, 60])));
    v.add_scalar_assign(&Scalar::real_of(1, 1)).unwrap();
    assert!(v.equals(&rvec(&[21, 61])));
    v.sub_scalar_assign(&Scalar::real_of(1, 1)).unwrap();
    assert!(v.equals(&rvec(&[20, 60])));
    v.mul_scalar_assign(&Scalar::real_of(0, 1)).unwrap();
    assert!(v.is_zero());
}

#[test]
fn cross_length_zero_equality() {
    // A zero-length vector equals any all-zero vector of any length.
    let empty = Vector::zero(0);
    let zeros = Vector::zero(3);
    assert!(empty.equals(&zeros));
    assert!(zeros.equals(&empty));
    assert!(!empty.equals(&rvec(&[0, 1])));
}

#[test]
fn ordered_basis_stores_and_indexes() {
    let v0 = rvec(&[1, 0]);
    let v1 = rvec(&[0, 1]);
    let basis = OrderedBasis::new(vec![v0.clone(), v1.clone()]);
    assert_eq!(basis.len(), 2);
    assert!(basis.index(0).unwrap().equals(&v0));
    assert!(basis.index(1).unwrap().equals(&v1));
    assert_eq!(basis.index(2).unwrap_err(), AlgebraError::IndexOutOfRange);
}

#[test]
fn matrix_shape_is_checked() {
    let rows = vec![rvec(&[1, 0]), rvec(&[0, 1, 2])];
    assert_eq!(Matrix::from_rows(rows).unwrap_err(), AlgebraError::LengthMismatch);
}

#[test]
fn checked_basis_construction() {
    // The 3-4-5 rotation passes the orthonormality check.
    let row0 = Vector::new(vec![Scalar::real_of(3, 5), Scalar::real_of(4, 5)]);
    let row1 = Vector::new(vec![Scalar::real_of(-4, 5), Scalar::real_of(3, 5)]);
    let good = Matrix::from_rows(vec![row0, row1]).unwrap();
    assert!(good.is_orthonormal().unwrap());
    assert!(OrderedOrthonormalBasis::from_checked(good).is_ok());
    // A shear does not.
    let bad = Matrix::from_rows(vec![rvec(&[1, 1]), rvec(&[0, 1])]).unwrap();
    assert!(!bad.is_orthonormal().unwrap());
    assert_eq!(
        OrderedOrthonormalBasis::from_checked(bad).unwrap_err(),
        AlgebraError::InvariantViolation
    );
}

#[test]
fn basis_equality_ignores_inverse() {
    let a = rot_basis();
    let b = rot_basis();
    let i = OrderedOrthonormalBasis::standard(2);
    assert!(a.equals(&b));
    assert!(!a.equals(&i));
}
