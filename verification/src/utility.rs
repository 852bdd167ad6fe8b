//! Epsilon derivation, rounding to a grid, and approximate equality.
//!
//! `round_to` rounds a scalar to the nearest multiple of a positive real
//! tolerance (half-way cases away from zero), componentwise for complex
//! values.  Two scalars are "close" under a tolerance when they round to
//! the same grid point, and "very close" under the default tolerance
//! `2^-23`.

use vstd::arithmetic::div_mod::{
    lemma_fundamental_div_mod, lemma_fundamental_div_mod_converse, lemma_mod_bound,
};
use vstd::prelude::*;

use crate::error::AlgebraError;
use crate::scalar::{
    comp_eq, comp_fits, comp_of_rat, int_fits, rat_lt, rat_zero, Comp, Rat, Rational, Scalar,
    SCALAR_BOUND,
};

verus! {

/// The default tolerance for approximate comparisons: `2^-23`.
pub open spec fn default_eps() -> Rat {
    Rat { n: 1, d: 0x80_0000 }
}

/// Rounds the fraction `q` (with `q.d > 0`) to the nearest integer,
/// half-way cases away from zero.
pub open spec fn rat_round(q: Rat) -> int {
    if q.n >= 0 {
        (2 * q.n + q.d) / (2 * q.d)
    } else {
        -((2 * (-q.n) + q.d) / (2 * q.d))
    }
}

/// The nearest multiple of the positive tolerance `ep` to each component
/// of `c`: divide by `ep`, round to an integer, scale back.
pub open spec fn comp_round_to(c: Comp, ep: Rat) -> Comp {
    Comp {
        re: rat_round(Rat { n: c.re * ep.d, d: c.d * ep.n }) * ep.n,
        im: rat_round(Rat { n: c.im * ep.d, d: c.d * ep.n }) * ep.n,
        d: ep.d,
    }
}

/// Rounding a zero numerator yields zero.
proof fn lemma_round_zero(d: int)
    requires
        d > 0,
    ensures
        rat_round(Rat { n: 0, d }) == 0,
{
    assert(2 * 0 + d == d);
    assert(d / (2 * d) == 0) by {
        lemma_fundamental_div_mod_converse(d, 2 * d, 0, d);
    }
}

/// Rounding half away from zero, computed from quotient and remainder:
/// with `a == q*b + rem`, `0 <= rem < b`, the rounded value is `q`
/// when `2*rem < b` and `q + 1` otherwise.
proof fn lemma_round_from_div_mod(a: int, b: int, q: int, rem: int)
    requires
        b > 0,
        a >= 0,
        0 <= rem < b,
        a == q * b + rem,
    ensures
        rat_round(Rat { n: a, d: b }) == if 2 * rem >= b {
            q + 1
        } else {
            q
        },
{
    assert(2 * a + b == q * (2 * b) + (2 * rem + b)) by (nonlinear_arith)
        requires
            a == q * b + rem,
    ;
    if 2 * rem >= b {
        assert(2 * a + b == (q + 1) * (2 * b) + (2 * rem - b)) by (nonlinear_arith)
            requires
                a == q * b + rem,
        ;
        lemma_fundamental_div_mod_converse(2 * a + b, 2 * b, q + 1, 2 * rem - b);
    } else {
        lemma_fundamental_div_mod_converse(2 * a + b, 2 * b, q, 2 * rem + b);
    }
}

/// Rounds `a / b` to the nearest integer, half-way cases away from zero.
fn round_half_i128(a: i128, b: i128) -> (r: i128)
    requires
        b > 0,
        a > i128::MIN,
        a < i128::MAX,
    ensures
        r as int == rat_round(Rat { n: a as int, d: b as int }),
{
    if a >= 0 {
        let au: u128 = a as u128;
        let bu: u128 = b as u128;
        let q: u128 = au / bu;
        let rem: u128 = au % bu;
        proof {
            lemma_fundamental_div_mod(a as int, b as int);
            lemma_mod_bound(a as int, b as int);
            assert((a as int) / (b as int) <= a as int && (a as int) / (b as int) >= 0) by (nonlinear_arith)
                requires
                    b as int >= 1,
                    a as int >= 0,
            ;
            lemma_round_from_div_mod(a as int, b as int, q as int, rem as int);
        }
        if 2 * rem >= bu {
            q as i128 + 1
        } else {
            q as i128
        }
    } else {
        let m: i128 = -a;
        let mu: u128 = m as u128;
        let bu: u128 = b as u128;
        let q: u128 = mu / bu;
        let rem: u128 = mu % bu;
        proof {
            lemma_fundamental_div_mod(m as int, b as int);
            lemma_mod_bound(m as int, b as int);
            assert((m as int) / (b as int) <= m as int && (m as int) / (b as int) >= 0) by (nonlinear_arith)
                requires
                    b as int >= 1,
                    m as int >= 0,
            ;
            lemma_round_from_div_mod(m as int, b as int, q as int, rem as int);
        }
        if 2 * rem >= bu {
            proof {
                assert(q as int + 1 <= m as int) by (nonlinear_arith)
                    requires
                        m as int == (q as int) * (b as int) + rem as int,
                        b as int >= 1,
                        rem as int >= 1,
                        q as int >= 0,
                ;
            }
            -(q as i128 + 1)
        } else {
            -(q as i128)
        }
    }
}

/// A value whose rounded grid index already exceeds the scalar bound
/// cannot give a representable multiple of the tolerance.
proof fn lemma_large_index_overflows(k: int, p: int)
    requires
        p >= 1,
        !int_fits(k),
    ensures
        !int_fits(k * p),
{
    assert(k > SCALAR_BOUND as int ==> k * p > SCALAR_BOUND as int) by (nonlinear_arith)
        requires
            p >= 1,
    ;
    assert(k < -(SCALAR_BOUND as int) ==> k * p < -(SCALAR_BOUND as int)) by (nonlinear_arith)
        requires
            p >= 1,
    ;
}

/// Scalar types that carry the default comparison tolerance.
pub trait DefaultEpsilon: Sized {
    /// The denoted real value of a scalar of this type.
    spec fn rat_model(&self) -> Rat;

    /// Whether the scalar is validly stored.
    spec fn rat_model_wf(&self) -> bool;

    /// The default tolerance, `2^-23`.
    fn ep_7() -> (r: Self)
        ensures
            r.rat_model_wf(),
            r.rat_model() == default_eps(),
    ;
}

impl DefaultEpsilon for Rational {
    open spec fn rat_model(&self) -> Rat {
        self@
    }

    open spec fn rat_model_wf(&self) -> bool {
        self.wf()
    }

    /// One part in `2^23`: the value repeated halving of one reaches
    /// after twenty-three steps.
    fn ep_7() -> (r: Rational) {
        Rational::new(1, 0x80_0000)
    }
}

/// Scalars that can be rounded to a grid of multiples of a real
/// tolerance.
pub trait RoundTo: Sized {
    /// The denoted complex value of a scalar of this type.
    spec fn comp_model(&self) -> Comp;

    /// Whether the scalar is validly stored.
    spec fn comp_model_wf(&self) -> bool;

    /// Rounds each component to the nearest multiple of `ep`.
    fn round_to(&self, ep: &Rational) -> (r: Result<Self, AlgebraError>)
        requires
            self.comp_model_wf(),
            ep.wf(),
            rat_lt(rat_zero(), ep@),
        ensures
            r is Ok <==> comp_fits(comp_round_to(self.comp_model(), ep@)),
            r matches Ok(s) ==> s.comp_model_wf() && s.comp_model() == comp_round_to(
                self.comp_model(),
                ep@,
            ),
            r matches Err(e) ==> e == AlgebraError::Overflow,
    ;

    /// Rounds to the default tolerance `2^-23`.
    fn round_small(&self) -> (r: Result<Self, AlgebraError>)
        requires
            self.comp_model_wf(),
        ensures
            r is Ok <==> comp_fits(comp_round_to(self.comp_model(), default_eps())),
            r matches Ok(s) ==> s.comp_model_wf() && s.comp_model() == comp_round_to(
                self.comp_model(),
                default_eps(),
            ),
            r matches Err(e) ==> e == AlgebraError::Overflow,
    ;
}

/// Approximate equality: two scalars are close under a tolerance when
/// they round to the same multiple of it.
pub trait Approximate: RoundTo {
    /// Whether the two values round to the same grid point under `ep`.
    fn is_close(&self, other: &Self, ep: &Rational) -> (r: Result<bool, AlgebraError>)
        requires
            self.comp_model_wf(),
            other.comp_model_wf(),
            ep.wf(),
            rat_lt(rat_zero(), ep@),
        ensures
            r is Ok <==> comp_fits(comp_round_to(self.comp_model(), ep@)) && comp_fits(
                comp_round_to(other.comp_model(), ep@),
            ),
            r matches Ok(b) ==> b == comp_eq(
                comp_round_to(self.comp_model(), ep@),
                comp_round_to(other.comp_model(), ep@),
            ),
            r matches Err(e) ==> e == AlgebraError::Overflow,
    ;

    /// `is_close` under the default tolerance `2^-23`.
    fn is_very_close(&self, other: &Self) -> (r: Result<bool, AlgebraError>)
        requires
            self.comp_model_wf(),
            other.comp_model_wf(),
        ensures
            r is Ok <==> comp_fits(comp_round_to(self.comp_model(), default_eps())) && comp_fits(
                comp_round_to(other.comp_model(), default_eps()),
            ),
            r matches Ok(b) ==> b == comp_eq(
                comp_round_to(self.comp_model(), default_eps()),
                comp_round_to(other.comp_model(), default_eps()),
            ),
            r matches Err(e) ==> e == AlgebraError::Overflow,
    ;
}

impl RoundTo for Scalar {
    open spec fn comp_model(&self) -> Comp {
        self@
    }

    open spec fn comp_model_wf(&self) -> bool {
        self.wf()
    }

    fn round_to(&self, ep: &Rational) -> (r: Result<Scalar, AlgebraError>) {
        scalar_round_to(self, ep)
    }

    fn round_small(&self) -> (r: Result<Scalar, AlgebraError>) {
        scalar_round_to(self, &Rational::ep_7())
    }
}

impl Approximate for Scalar {
    fn is_close(&self, other: &Scalar, ep: &Rational) -> (r: Result<bool, AlgebraError>) {
        let a = match scalar_round_to(self, ep) {
            Ok(v) => v,
            Err(e) => {
                return Err(e);
            },
        };
        let b = match scalar_round_to(other, ep) {
            Ok(v) => v,
            Err(e) => {
                return Err(e);
            },
        };
        Ok(a.equals(&b))
    }

    fn is_very_close(&self, other: &Scalar) -> (r: Result<bool, AlgebraError>) {
        self.is_close(other, &Rational::ep_7())
    }
}

impl RoundTo for Rational {
    open spec fn comp_model(&self) -> Comp {
        comp_of_rat(self@)
    }

    open spec fn comp_model_wf(&self) -> bool {
        self.wf()
    }

    fn round_to(&self, ep: &Rational) -> (r: Result<Rational, AlgebraError>) {
        match scalar_round_to(&Scalar::from_rational(self), ep) {
            Ok(s) => {
                proof {
                    crate::scalar::lemma_bounded_product(self@.d, ep@.n);
                    lemma_round_zero(self@.d * ep@.n);
                }
                Ok(s.real_part())
            },
            Err(e) => Err(e),
        }
    }

    fn round_small(&self) -> (r: Result<Rational, AlgebraError>) {
        self.round_to(&Rational::ep_7())
    }
}

impl Approximate for Rational {
    fn is_close(&self, other: &Rational, ep: &Rational) -> (r: Result<bool, AlgebraError>) {
        let a = Scalar::from_rational(self);
        let b = Scalar::from_rational(other);
        a.is_close(&b, ep)
    }

    fn is_very_close(&self, other: &Rational) -> (r: Result<bool, AlgebraError>) {
        self.is_close(other, &Rational::ep_7())
    }
}

/// Rounds each component of `v` to the nearest multiple of `ep`.
fn scalar_round_to(v: &Scalar, ep: &Rational) -> (r: Result<Scalar, AlgebraError>)
    requires
        v.wf(),
        ep.wf(),
        rat_lt(rat_zero(), ep@),
    ensures
        r is Ok <==> comp_fits(comp_round_to(v@, ep@)),
        r matches Ok(s) ==> s.wf() && s@ == comp_round_to(v@, ep@) && s.is_real_repr()
            == v.is_real_repr(),
        r matches Err(e) ==> e == AlgebraError::Overflow,
{
    let (ar, ai, ad) = v.unpack();
    let (en, ed) = (ep.numerator(), ep.denominator());
    proof {
        crate::scalar::lemma_bounded_product(ar as int, ed as int);
        crate::scalar::lemma_bounded_product(ai as int, ed as int);
        crate::scalar::lemma_bounded_product(ad as int, en as int);
    }
    let b: i128 = ad as i128 * en as i128;
    let k_re: i128 = round_half_i128(ar as i128 * ed as i128, b);
    let k_im: i128 = round_half_i128(ai as i128 * ed as i128, b);
    let bound: i128 = SCALAR_BOUND as i128;
    if k_re < -bound || k_re > bound {
        proof {
            lemma_large_index_overflows(k_re as int, en as int);
        }
        Err(AlgebraError::Overflow)
    } else if k_im < -bound || k_im > bound {
        proof {
            lemma_large_index_overflows(k_im as int, en as int);
        }
        Err(AlgebraError::Overflow)
    } else {
        let real_flag = v.is_real();
        proof {
            crate::scalar::lemma_bounded_product(k_re as int, en as int);
            crate::scalar::lemma_bounded_product(k_im as int, en as int);
            if real_flag {
                crate::scalar::lemma_real_repr_im_zero(v);
                lemma_round_zero(b as int);
            }
        }
        Scalar::make(k_re * en as i128, k_im * en as i128, ed as i128, real_flag)
    }
}

} // verus!
