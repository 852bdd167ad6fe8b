//! Norms, normalization and angles.
//!
//! The squared norm is exact; the norm itself is the square root rounded
//! down to the grid of multiples of `1 / SQRT_SCALE`, which is exact
//! whenever the squared norm is one.  Angles are reported as the clamped
//! cases of `acos`: zero when a norm vanishes or the cosine reaches one,
//! a straight angle when the cosine reaches minus one, and otherwise the
//! exact rational cosine whose arc cosine the angle is.

use vstd::arithmetic::div_mod::{
    lemma_div_multiples_vanish, lemma_div_pos_is_pos, lemma_fundamental_div_mod, lemma_mod_bound,
};
use vstd::prelude::*;

use crate::error::AlgebraError;
use crate::scalar::{
    comp_re, rat_div, rat_eq, rat_is_zero, rat_le, rat_lt, rat_mul, rat_neg, rat_one, Rat,
    Rational,
};
use crate::vector::{
    inner_fits, inner_spec, lengths_compatible, max_len, seq_fits, seq_wf, vec_unscale_spec,
    Vector,
};

verus! {

/// Denominator of computed norms: square roots are reported as exact
/// multiples of `1 / SQRT_SCALE` (`2^-20`).
pub const SQRT_SCALE: i64 = 0x10_0000;

/// `r` is the integer square root of `n`.
pub open spec fn is_int_sqrt(n: int, r: int) -> bool {
    r >= 0 && r * r <= n && n < (r + 1) * (r + 1)
}

/// The integer square root of a nonnegative integer.
pub open spec fn int_sqrt(n: int) -> int {
    choose|r: int| is_int_sqrt(n, r)
}

/// An integer square root exists for every nonnegative integer, so
/// `int_sqrt` denotes it.
pub proof fn lemma_int_sqrt_exists(n: int)
    requires
        n >= 0,
    ensures
        is_int_sqrt(n, int_sqrt(n)),
    decreases n,
{
    if n == 0 {
        assert(is_int_sqrt(0, 0));
    } else {
        lemma_int_sqrt_exists(n - 1);
        let r = int_sqrt(n - 1);
        if (r + 1) * (r + 1) <= n {
            assert(is_int_sqrt(n, r + 1)) by (nonlinear_arith)
                requires
                    r >= 0,
                    (r + 1) * (r + 1) <= n,
                    n - 1 < (r + 1) * (r + 1),
            ;
        } else {
            assert(is_int_sqrt(n, r));
        }
    }
}

/// The integer square root is unique.
pub proof fn lemma_int_sqrt_unique(n: int, r: int)
    requires
        is_int_sqrt(n, r),
    ensures
        r == int_sqrt(n),
{
    lemma_int_sqrt_exists(n);
    let s = int_sqrt(n);
    assert(r == s) by (nonlinear_arith)
        requires
            is_int_sqrt(n, r),
            is_int_sqrt(n, s),
    ;
}

/// Binary search for the integer square root.
fn isqrt_u128(x: u128) -> (r: u128)
    requires
        x < 0x4000_0000_0000_0000_0000_0000_0000_0000u128,
    ensures
        is_int_sqrt(x as int, r as int),
{
    let mut lo: u128 = 0;
    let mut hi: u128 = 0x8000_0000_0000_0000u128;
    proof {
        assert((hi as int) * (hi as int) == 0x4000_0000_0000_0000_0000_0000_0000_0000);
    }
    while hi - lo > 1
        invariant
            lo < hi,
            hi <= 0x8000_0000_0000_0000u128,
            (lo as int) * (lo as int) <= x as int,
            (x as int) < (hi as int) * (hi as int),
        decreases hi - lo,
    {
        let mid: u128 = lo + (hi - lo) / 2;
        proof {
            assert((mid as int) * (mid as int) <= 0x4000_0000_0000_0000_0000_0000_0000_0000)
                by (nonlinear_arith)
                requires
                    0 <= (mid as int) <= 0x8000_0000_0000_0000,
            ;
        }
        if mid * mid <= x {
            lo = mid;
        } else {
            hi = mid;
        }
    }
    lo
}

/// The grid index of the square root of `x`: the integer square root
/// of `x` scaled by `SQRT_SCALE` squared.
pub open spec fn sqrt_index(x: Rat) -> int {
    int_sqrt(x.n * (SQRT_SCALE as int) * (SQRT_SCALE as int) / x.d)
}

/// The square root of the nonnegative fraction `x`, rounded down to a
/// multiple of `1 / SQRT_SCALE`; a root that lands on a whole number is
/// stored over denominator one.
pub open spec fn rat_sqrt_spec(x: Rat) -> Rat {
    let m = sqrt_index(x);
    if m % (SQRT_SCALE as int) == 0 {
        Rat { n: m / (SQRT_SCALE as int), d: 1 }
    } else {
        Rat { n: m, d: SQRT_SCALE as int }
    }
}

/// What the computed square root guarantees: it is nonnegative, its
/// square does not exceed the argument, the next grid point's square
/// does, and the root of one is exactly one.
pub proof fn lemma_sqrt_bounds(x: Rat)
    requires
        x.d > 0,
        x.n >= 0,
    ensures
        rat_sqrt_spec(x).n >= 0,
        rat_sqrt_spec(x).d > 0,
        rat_eq(rat_sqrt_spec(x), Rat { n: sqrt_index(x), d: SQRT_SCALE as int }),
        rat_le(rat_mul(rat_sqrt_spec(x), rat_sqrt_spec(x)), x),
        rat_lt(
            x,
            rat_mul(
                Rat { n: sqrt_index(x) + 1, d: SQRT_SCALE as int },
                Rat { n: sqrt_index(x) + 1, d: SQRT_SCALE as int },
            ),
        ),
        rat_eq(x, rat_one()) ==> rat_eq(rat_sqrt_spec(x), rat_one()),
        rat_is_zero(rat_sqrt_spec(x)) <==> x.n * (SQRT_SCALE as int) * (SQRT_SCALE as int) < x.d,
{
    let s = SQRT_SCALE as int;
    let scaled = x.n * s * s;
    assert(scaled >= 0) by (nonlinear_arith)
        requires
            scaled == x.n * s * s,
            x.n >= 0,
            s > 0,
    ;
    let q = scaled / x.d;
    lemma_div_pos_is_pos(scaled, x.d);
    lemma_int_sqrt_exists(q);
    let m = int_sqrt(q);
    lemma_fundamental_div_mod(scaled, x.d);
    lemma_mod_bound(scaled, x.d);
    // scaled == x.d * q + rem with 0 <= rem < x.d.
    let rem = scaled % x.d;
    // Lower bound: m*m*x.d <= q*x.d <= scaled.
    assert((m * m) * x.d <= scaled) by (nonlinear_arith)
        requires
            m * m <= q,
            x.d > 0,
            scaled == x.d * q + rem,
            rem >= 0,
    ;
    let r = rat_sqrt_spec(x);
    if m % s == 0 {
        lemma_fundamental_div_mod(m, s);
        lemma_div_pos_is_pos(m, s);
        assert(m == s * (m / s));
        assert(r == (Rat { n: m / s, d: 1 }));
        assert(r.n * s == m) by (nonlinear_arith)
            requires
                m == s * (m / s),
                r.n == m / s,
        ;
        assert(rat_eq(r, Rat { n: m, d: s })) by (nonlinear_arith)
            requires
                r.n * s == m,
                r.d == 1,
        ;
        assert(rat_le(rat_mul(r, r), x)) by (nonlinear_arith)
            requires
                (m * m) * x.d <= x.n * s * s,
                r.n * s == m,
                r.d == 1,
                x.d > 0,
                s > 0,
        ;
        if m != 0 {
            assert(r.n >= 1) by (nonlinear_arith)
                requires
                    m == s * r.n,
                    m > 0,
                    s > 0,
                    r.n >= 0,
            ;
        }
    } else {
        assert(r == (Rat { n: m, d: s }));
        assert(rat_le(rat_mul(r, r), x)) by (nonlinear_arith)
            requires
                (m * m) * x.d <= x.n * s * s,
                r == (Rat { n: m, d: s }),
                x.d > 0,
                s > 0,
        ;
    }
    // Upper bound: scaled < x.d * (q + 1) <= x.d * (m+1)^2.
    assert(scaled < x.d * ((m + 1) * (m + 1))) by (nonlinear_arith)
        requires
            q < (m + 1) * (m + 1),
            x.d > 0,
            scaled == x.d * q + rem,
            rem < x.d,
    ;
    assert(rat_lt(x, rat_mul(Rat { n: m + 1, d: s }, Rat { n: m + 1, d: s })))
        by (nonlinear_arith)
        requires
            x.n * s * s < x.d * ((m + 1) * (m + 1)),
            x.d > 0,
            s > 0,
    ;
    if rat_eq(x, rat_one()) {
        assert(x.n * 1 == 1 * x.d);
        assert(x.n == x.d);
        assert(scaled == x.d * (s * s)) by (nonlinear_arith)
            requires
                x.n == x.d,
                scaled == x.n * s * s,
        ;
        lemma_div_multiples_vanish(s * s, x.d);
        assert(q == s * s);
        assert(is_int_sqrt(s * s, s)) by (nonlinear_arith)
            requires
                s > 0,
        ;
        lemma_int_sqrt_unique(s * s, s);
        assert(m == s);
        assert(m % s == 0) by (nonlinear_arith)
            requires
                m == s,
                s > 0,
                m % s == (s * 1 + 0) % s,
                (s * 1 + 0) % s == 0,
        ;
        assert(rat_eq(rat_sqrt_spec(x), rat_one()));
    }
    // Zero root exactly below the grid resolution.
    if m == 0 {
        assert(q < 1) by (nonlinear_arith)
            requires
                q < (m + 1) * (m + 1),
                m == 0,
        ;
        assert(scaled < x.d) by (nonlinear_arith)
            requires
                q < 1,
                x.d > 0,
                scaled == x.d * q + rem,
                rem < x.d,
                q >= 0,
        ;
    }
    if scaled < x.d {
        assert(q == 0) by {
            assert(x.d * q + rem < x.d);
            assert(q < 1) by (nonlinear_arith)
                requires
                    x.d * q + rem < x.d,
                    rem >= 0,
                    x.d > 0,
                    q >= 0,
            ;
        }
        assert(is_int_sqrt(0, 0));
        lemma_int_sqrt_unique(0, 0);
    }
}

impl Rational {
    /// The square root of a nonnegative scalar, rounded down to a
    /// multiple of `1 / SQRT_SCALE`; exact on one.
    pub fn sqrt_approx(&self) -> (r: Rational)
        requires
            self.wf(),
            self@.n >= 0,
        ensures
            r.wf(),
            r@ == rat_sqrt_spec(self@),
            r@.n >= 0,
    {
        proof {
            lemma_sqrt_bounds(self@);
        }
        let s2: u128 = (SQRT_SCALE as u128) * (SQRT_SCALE as u128);
        let nn: u128 = self.numerator() as u128;
        let dd: u128 = self.denominator() as u128;
        proof {
            assert((nn as int) * (s2 as int) < 0x4000_0000_0000_0000_0000_0000_0000_0000)
                by (nonlinear_arith)
                requires
                    (nn as int) <= 0x7fff_ffff_ffff_ffff,
                    s2 as int == 0x100_0000_0000,
            ;
        }
        let scaled: u128 = nn * s2;
        let q: u128 = scaled / dd;
        proof {
            assert(scaled as int == self@.n * (SQRT_SCALE as int) * (SQRT_SCALE as int))
                by (nonlinear_arith)
                requires
                    scaled as int == (nn as int) * (s2 as int),
                    nn as int == self@.n,
                    s2 as int == (SQRT_SCALE as int) * (SQRT_SCALE as int),
            ;
        }
        let m: u128 = isqrt_u128(q);
        proof {
            lemma_int_sqrt_unique(q as int, m as int);
            assert((m as int) <= 0x7fff_ffff_ffff_ffff) by (nonlinear_arith)
                requires
                    (m as int) * (m as int) <= q as int,
                    (q as int) < 0x4000_0000_0000_0000_0000_0000_0000_0000,
                    (m as int) >= 0,
            ;
        }
        let sc: u128 = SQRT_SCALE as u128;
        if m % sc == 0 {
            proof {
                lemma_fundamental_div_mod(m as int, sc as int);
                assert((m as int) / (sc as int) <= m as int) by (nonlinear_arith)
                    requires
                        m as int == (sc as int) * ((m as int) / (sc as int)) + (m as int) % (
                        sc as int),
                        (m as int) % (sc as int) >= 0,
                        sc as int > 1,
                        (m as int) / (sc as int) >= 0,
                ;
                lemma_div_pos_is_pos(m as int, sc as int);
            }
            Rational::new((m / sc) as i64, 1)
        } else {
            Rational::new(m as i64, SQRT_SCALE)
        }
    }
}

/// The norm of a vector: the rounded-down square root of its exact
/// squared norm.
pub open spec fn norm_spec(v: Seq<crate::scalar::Comp>) -> Rat {
    rat_sqrt_spec(comp_re(inner_spec(v, v)))
}

/// The cosine the angle between `a` and `b` is the arc cosine of, for
/// nonzero norms: `re <a, b> / (norm(a) * norm(b))`.
pub open spec fn cosine_spec(a: Seq<crate::scalar::Comp>, b: Seq<crate::scalar::Comp>) -> Rat {
    rat_div(comp_re(inner_spec(a, b)), rat_mul(norm_spec(a), norm_spec(b)))
}

/// The angle between two vectors, clamped as `acos` demands: zero when
/// either norm vanishes or the cosine is at least one, a straight angle
/// (pi) when the cosine is at most minus one, and otherwise the arc
/// cosine of the reported rational cosine strictly between minus one and
/// one.
#[derive(Clone, Copy, Debug, PartialEq, Eq, Structural)]
pub enum Angle {
    /// An angle of zero.
    Zero,
    /// A straight angle, pi.
    Straight,
    /// The angle whose cosine is the carried value.
    Acos(Rational),
}

impl Vector {
    /// The norm, rounded down to a multiple of `1 / SQRT_SCALE`.
    pub fn norm(&self) -> (r: Result<Rational, AlgebraError>)
        requires
            self.wf(),
        ensures
            r is Ok <==> inner_fits(self@, self@, self@.len() as int),
            r matches Ok(s) ==> s.wf() && s@ == norm_spec(self@) && s@.n >= 0,
            r matches Err(e) ==> e == AlgebraError::Overflow,
    {
        let ns = match self.norm_squared() {
            Ok(v) => v,
            Err(e) => {
                return Err(e);
            },
        };
        Ok(ns.sqrt_approx())
    }

    /// Scales the vector to unit length, or yields nothing when the norm
    /// does not exceed the nonnegative tolerance `eps`.
    pub fn try_normalize(&self, eps: &Rational) -> (r: Result<Option<Vector>, AlgebraError>)
        requires
            self.wf(),
            eps.wf(),
            rat_le(crate::scalar::rat_zero(), eps@),
        ensures
            r is Ok <==> inner_fits(self@, self@, self@.len() as int) && (rat_le(
                crate::scalar::rat_abs(norm_spec(self@)),
                eps@,
            ) || seq_fits(vec_unscale_spec(self@, norm_spec(self@)))),
            r matches Ok(o) ==> (o is None <==> rat_le(crate::scalar::rat_abs(norm_spec(self@)), eps@)),
            r matches Ok(o) ==> (o matches Some(u) ==> u.wf() && u@ == vec_unscale_spec(
                self@,
                norm_spec(self@),
            )),
            r matches Err(e) ==> e == AlgebraError::Overflow,
    {
        let nrm = match self.norm() {
            Ok(v) => v,
            Err(e) => {
                return Err(e);
            },
        };
        if nrm.abs().le(eps) {
            return Ok(None);
        }
        match self.unscale_all(&nrm) {
            Ok(u) => Ok(Some(u)),
            Err(e) => Err(e),
        }
    }

    /// Scales the vector to unit length; `DegenerateNorm` when the norm
    /// is zero.
    pub fn normalize(&self) -> (r: Result<Vector, AlgebraError>)
        requires
            self.wf(),
        ensures
            r is Ok <==> inner_fits(self@, self@, self@.len() as int) && !rat_is_zero(
                norm_spec(self@),
            ) && seq_fits(vec_unscale_spec(self@, norm_spec(self@))),
            r matches Ok(u) ==> u.wf() && u@ == vec_unscale_spec(self@, norm_spec(self@)),
            r matches Err(e) ==> e == AlgebraError::DegenerateNorm || e == AlgebraError::Overflow,
            r matches Err(e) ==> ((e == AlgebraError::DegenerateNorm) <==> (inner_fits(
                self@,
                self@,
                self@.len() as int,
            ) && rat_is_zero(norm_spec(self@)))),
    {
        proof {
            self.lemma_wf_model();
            crate::vector::lemma_inner_self_real_nonneg(self@);
            lemma_sqrt_bounds(comp_re(inner_spec(self@, self@)));
        }
        match self.try_normalize(&Rational::zero()) {
            Ok(None) => Err(AlgebraError::DegenerateNorm),
            Ok(Some(u)) => Ok(u),
            Err(e) => Err(e),
        }
    }

    /// Scales the vector to unit length in place and returns the norm of
    /// the scaled vector; on error the vector is unchanged.
    pub fn normalize_mut(&mut self) -> (r: Result<Rational, AlgebraError>)
        requires
            old(self).wf(),
        ensures
            r is Ok <==> inner_fits(old(self)@, old(self)@, old(self)@.len() as int)
                && !rat_is_zero(norm_spec(old(self)@)) && seq_fits(
                vec_unscale_spec(old(self)@, norm_spec(old(self)@)),
            ) && inner_fits(
                vec_unscale_spec(old(self)@, norm_spec(old(self)@)),
                vec_unscale_spec(old(self)@, norm_spec(old(self)@)),
                old(self)@.len() as int,
            ),
            r matches Ok(nr) ==> final(self).wf() && final(self)@ == vec_unscale_spec(
                old(self)@,
                norm_spec(old(self)@),
            ) && nr@ == norm_spec(final(self)@),
            r matches Err(e) ==> final(self)@ == old(self)@ && final(self).wf() && (e
                == AlgebraError::DegenerateNorm || e == AlgebraError::Overflow),
            r matches Err(e) ==> ((e == AlgebraError::DegenerateNorm) <==> (inner_fits(
                old(self)@,
                old(self)@,
                old(self)@.len() as int,
            ) && rat_is_zero(norm_spec(old(self)@)))),
    {
        let u = match self.normalize() {
            Ok(u) => u,
            Err(e) => {
                return Err(e);
            },
        };
        let nr = match u.norm() {
            Ok(v) => v,
            Err(e) => {
                return Err(e);
            },
        };
        *self = u;
        Ok(nr)
    }

    /// The angle between two vectors, as the clamped cases of the arc
    /// cosine of `re <self, other> / (norm(self) * norm(other))`: zero
    /// when either norm vanishes or the cosine reaches one, a straight
    /// angle when it reaches minus one.
    pub fn angle(&self, other: &Vector) -> (r: Result<Angle, AlgebraError>)
        requires
            self.wf(),
            other.wf(),
        ensures
            r is Ok <==> lengths_compatible(self@, other@) && inner_fits(
                self@,
                other@,
                max_len(self@, other@),
            ) && inner_fits(self@, self@, self@.len() as int) && inner_fits(
                other@,
                other@,
                other@.len() as int,
            ) && (rat_is_zero(norm_spec(self@)) || rat_is_zero(norm_spec(other@)) || (
            crate::scalar::rat_fits(rat_mul(norm_spec(self@), norm_spec(other@)))
                && crate::scalar::rat_fits(cosine_spec(self@, other@)))),
            r == Ok::<Angle, AlgebraError>(Angle::Zero) <==> r is Ok && (rat_is_zero(norm_spec(self@)) || rat_is_zero(
                norm_spec(other@),
            ) || rat_le(rat_one(), cosine_spec(self@, other@))),
            r == Ok::<Angle, AlgebraError>(Angle::Straight) <==> r is Ok && !rat_is_zero(norm_spec(self@))
                && !rat_is_zero(norm_spec(other@)) && !rat_le(
                rat_one(),
                cosine_spec(self@, other@),
            ) && rat_le(cosine_spec(self@, other@), rat_neg(rat_one())),
            r matches Ok(a) ==> (a matches Angle::Acos(c) ==> c.wf() && c@ == cosine_spec(
                self@,
                other@,
            ) && rat_lt(cosine_spec(self@, other@), rat_one()) && rat_lt(
                rat_neg(rat_one()),
                cosine_spec(self@, other@),
            )),
            r matches Err(e) ==> (e == AlgebraError::LengthMismatch && !lengths_compatible(
                self@,
                other@,
            )) || e == AlgebraError::Overflow,
    {
        let ip = match self.inner_product(other) {
            Ok(v) => v,
            Err(e) => {
                return Err(e);
            },
        };
        let n1 = match self.norm() {
            Ok(v) => v,
            Err(e) => {
                return Err(e);
            },
        };
        let n2 = match other.norm() {
            Ok(v) => v,
            Err(e) => {
                return Err(e);
            },
        };
        if n1.is_zero() || n2.is_zero() {
            return Ok(Angle::Zero);
        }
        let prod = match n1.mul(&n2) {
            Ok(v) => v,
            Err(e) => {
                return Err(e);
            },
        };
        proof {
            assert(prod@.n > 0) by (nonlinear_arith)
                requires
                    prod@.n == n1@.n * n2@.n,
                    n1@.n > 0,
                    n2@.n > 0,
            ;
        }
        let cos = match ip.real_part().div(&prod) {
            Ok(v) => v,
            Err(e) => {
                return Err(e);
            },
        };
        let one = Rational::one();
        if one.le(&cos) {
            Ok(Angle::Zero)
        } else if cos.le(&one.neg()) {
            Ok(Angle::Straight)
        } else {
            Ok(Angle::Acos(cos))
        }
    }
}

// ---------------------------------------------------------------------------
// Laws of the norm.
// ---------------------------------------------------------------------------

/// Every standard basis vector has norm exactly one.
pub proof fn lemma_canonical_norm_one(dim: int, i: int)
    requires
        0 <= i < dim,
    ensures
        rat_eq(norm_spec(crate::vector::canonical_spec(dim, i)), rat_one()),
{
    let e = crate::vector::canonical_spec(dim, i);
    lemma_canonical_inner_prefix(dim, i, dim);
    assert(inner_spec(e, e) == crate::scalar::comp_one());
    lemma_sqrt_bounds(comp_re(crate::scalar::comp_one()));
}

/// The inner product of a standard basis vector with itself accumulates
/// to zero before the unit entry and one from it on.
proof fn lemma_canonical_inner_prefix(dim: int, i: int, k: int)
    requires
        0 <= i < dim,
        0 <= k <= dim,
    ensures
        crate::vector::inner_prefix(
            crate::vector::canonical_spec(dim, i),
            crate::vector::canonical_spec(dim, i),
            k,
        ) == if k <= i {
            crate::scalar::comp_zero()
        } else {
            crate::scalar::comp_one()
        },
    decreases k,
{
    if k > 0 {
        lemma_canonical_inner_prefix(dim, i, k - 1);
        let e = crate::vector::canonical_spec(dim, i);
        let x = crate::vector::comp_pad(e, k - 1);
        assert(x == e[k - 1]);
        let p = crate::scalar::comp_mul(x, crate::scalar::comp_conj(x));
        let acc = crate::vector::inner_prefix(e, e, k - 1);
        if k - 1 == i {
            assert(x == crate::vector::comp_one_entry());
            assert(p == crate::scalar::comp_one());
            assert(crate::scalar::comp_add(acc, p) == crate::scalar::comp_one());
        } else {
            assert(x == crate::scalar::comp_zero());
            assert(p == crate::scalar::comp_zero());
            assert(crate::scalar::comp_add(acc, p) == acc);
        }
    }
}

/// The zero vector of any dimension has norm zero.
pub proof fn lemma_zero_vector_norm(n: int)
    requires
        n >= 0,
    ensures
        rat_is_zero(norm_spec(crate::vector::vec_zero_spec(n))),
{
    let z = crate::vector::vec_zero_spec(n);
    lemma_zero_inner_prefix(n, n);
    assert(inner_spec(z, z) == crate::scalar::comp_zero());
    lemma_sqrt_bounds(comp_re(crate::scalar::comp_zero()));
    assert(0 * (SQRT_SCALE as int) * (SQRT_SCALE as int) < 1);
}

/// The inner product of the zero vector with itself accumulates to zero.
proof fn lemma_zero_inner_prefix(n: int, k: int)
    requires
        0 <= k <= n,
    ensures
        crate::vector::inner_prefix(
            crate::vector::vec_zero_spec(n),
            crate::vector::vec_zero_spec(n),
            k,
        ) == crate::scalar::comp_zero(),
    decreases k,
{
    if k > 0 {
        lemma_zero_inner_prefix(n, k - 1);
    }
}

/// The cosine between a nonzero vector and itself is at least one, so
/// the reported angle is zero; with a zero vector the norm test already
/// yields the zero angle.
pub proof fn lemma_angle_with_self_cosine(v: Seq<crate::scalar::Comp>)
    requires
        seq_wf(v),
        !rat_is_zero(norm_spec(v)),
    ensures
        rat_le(rat_one(), cosine_spec(v, v)),
{
    crate::vector::lemma_inner_self_real_nonneg(v);
    let ns = comp_re(inner_spec(v, v));
    lemma_sqrt_bounds(ns);
    let r = norm_spec(v);
    let rr = rat_mul(r, r);
    assert(rr.n > 0 && rr.d > 0) by (nonlinear_arith)
        requires
            rr == rat_mul(r, r),
            r.n >= 1,
            r.d > 0,
    ;
    assert(rat_le(rat_one(), rat_div(ns, rr))) by (nonlinear_arith)
        requires
            rat_le(rr, ns),
            rr.n > 0,
            rr.d > 0,
            ns.d > 0,
    ;
}

} // verus!
