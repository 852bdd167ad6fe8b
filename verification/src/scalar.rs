//! The scalar field: exact rational numbers and complex rationals.
//!
//! Every scalar the library computes with is an exact fraction of 64-bit
//! integers, so field arithmetic carries no rounding error at all.  A
//! complex scalar keeps one shared denominator under both components.
//! Arithmetic is exact or reports `Overflow` when a result does not fit;
//! the mathematical model (`Rat`, `Comp`) is over unbounded integers.

use vstd::prelude::*;

use crate::error::AlgebraError;

verus! {

/// Largest magnitude a stored numerator or denominator may have.
pub const SCALAR_BOUND: i64 = 0x7fff_ffff_ffff_ffff;

/// Mathematical model of a real scalar: the fraction `n / d`.
pub ghost struct Rat {
    pub n: int,
    pub d: int,
}

/// Mathematical model of a complex scalar: `(re + im*i) / d`.
pub ghost struct Comp {
    pub re: int,
    pub im: int,
    pub d: int,
}

// ---------------------------------------------------------------------------
// The model: exact arithmetic on unbounded fractions.
// ---------------------------------------------------------------------------

pub open spec fn rat_wf(a: Rat) -> bool {
    a.d > 0
}

pub open spec fn comp_wf(a: Comp) -> bool {
    a.d > 0
}

/// `a` and `b` denote the same rational number (cross multiplication).
pub open spec fn rat_eq(a: Rat, b: Rat) -> bool {
    a.n * b.d == b.n * a.d
}

/// `a` and `b` denote the same complex number.
pub open spec fn comp_eq(a: Comp, b: Comp) -> bool {
    a.re * b.d == b.re * a.d && a.im * b.d == b.im * a.d
}

pub open spec fn rat_zero() -> Rat {
    Rat { n: 0, d: 1 }
}

pub open spec fn rat_one() -> Rat {
    Rat { n: 1, d: 1 }
}

pub open spec fn comp_zero() -> Comp {
    Comp { re: 0, im: 0, d: 1 }
}

pub open spec fn comp_one() -> Comp {
    Comp { re: 1, im: 0, d: 1 }
}

pub open spec fn rat_add(a: Rat, b: Rat) -> Rat {
    Rat { n: a.n * b.d + b.n * a.d, d: a.d * b.d }
}

pub open spec fn rat_sub(a: Rat, b: Rat) -> Rat {
    Rat { n: a.n * b.d - b.n * a.d, d: a.d * b.d }
}

pub open spec fn rat_mul(a: Rat, b: Rat) -> Rat {
    Rat { n: a.n * b.n, d: a.d * b.d }
}

pub open spec fn rat_neg(a: Rat) -> Rat {
    Rat { n: -a.n, d: a.d }
}

pub open spec fn rat_abs(a: Rat) -> Rat {
    if a.n >= 0 {
        a
    } else {
        rat_neg(a)
    }
}

/// Exact quotient `a / b`, for `b != 0`; the denominator keeps its sign
/// positive.
pub open spec fn rat_div(a: Rat, b: Rat) -> Rat {
    if b.n >= 0 {
        Rat { n: a.n * b.d, d: a.d * b.n }
    } else {
        Rat { n: -(a.n * b.d), d: -(a.d * b.n) }
    }
}

pub open spec fn rat_is_zero(a: Rat) -> bool {
    a.n == 0
}

/// Ordering of well-formed fractions (positive denominators).
pub open spec fn rat_le(a: Rat, b: Rat) -> bool {
    a.n * b.d <= b.n * a.d
}

pub open spec fn rat_lt(a: Rat, b: Rat) -> bool {
    a.n * b.d < b.n * a.d
}

pub open spec fn comp_add(a: Comp, b: Comp) -> Comp {
    Comp {
        re: a.re * b.d + b.re * a.d,
        im: a.im * b.d + b.im * a.d,
        d: a.d * b.d,
    }
}

pub open spec fn comp_sub(a: Comp, b: Comp) -> Comp {
    Comp {
        re: a.re * b.d - b.re * a.d,
        im: a.im * b.d - b.im * a.d,
        d: a.d * b.d,
    }
}

pub open spec fn comp_mul(a: Comp, b: Comp) -> Comp {
    Comp {
        re: a.re * b.re - a.im * b.im,
        im: a.re * b.im + a.im * b.re,
        d: a.d * b.d,
    }
}

pub open spec fn comp_neg(a: Comp) -> Comp {
    Comp { re: -a.re, im: -a.im, d: a.d }
}

/// Complex conjugation; the identity on real values.
pub open spec fn comp_conj(a: Comp) -> Comp {
    Comp { re: a.re, im: -a.im, d: a.d }
}

pub open spec fn comp_is_zero(a: Comp) -> bool {
    a.re == 0 && a.im == 0
}

pub open spec fn comp_is_real(a: Comp) -> bool {
    a.im == 0
}

/// The real component of a complex value.
pub open spec fn comp_re(a: Comp) -> Rat {
    Rat { n: a.re, d: a.d }
}

/// Embeds a real value into the complex plane.
pub open spec fn comp_of_rat(a: Rat) -> Comp {
    Comp { re: a.n, im: 0, d: a.d }
}

/// Divides a complex value by a nonzero real scalar.
pub open spec fn comp_unscale(a: Comp, b: Rat) -> Comp {
    if b.n >= 0 {
        Comp { re: a.re * b.d, im: a.im * b.d, d: a.d * b.n }
    } else {
        Comp { re: -(a.re * b.d), im: -(a.im * b.d), d: -(a.d * b.n) }
    }
}

// ---------------------------------------------------------------------------
// Laws of the model arithmetic, for the change-of-basis proofs.
// ---------------------------------------------------------------------------

/// Cancelling a common nonzero factor on both sides of a product
/// equality.
proof fn lemma_cancel_factor(x: int, y: int, t: int)
    requires
        t != 0,
        x * t == y * t,
    ensures
        x == y,
{
    assert(x == y) by (nonlinear_arith)
        requires
            t != 0,
            x * t == y * t,
    ;
}

/// Well-formedness is preserved by the model operations.
pub proof fn lemma_comp_ops_wf(a: Comp, b: Comp)
    requires
        comp_wf(a),
        comp_wf(b),
    ensures
        comp_wf(comp_add(a, b)),
        comp_wf(comp_mul(a, b)),
{
    assert(a.d * b.d > 0) by (nonlinear_arith)
        requires
            a.d > 0,
            b.d > 0,
    ;
}

/// Denotational equality is transitive (through a well-formed middle
/// value).
pub proof fn lemma_comp_eq_trans(a: Comp, b: Comp, c: Comp)
    requires
        comp_wf(a),
        comp_wf(b),
        comp_wf(c),
        comp_eq(a, b),
        comp_eq(b, c),
    ensures
        comp_eq(a, c),
{
    assert((a.re * c.d) * b.d == (c.re * a.d) * b.d) by (nonlinear_arith)
        requires
            a.re * b.d == b.re * a.d,
            b.re * c.d == c.re * b.d,
    ;
    lemma_cancel_factor(a.re * c.d, c.re * a.d, b.d);
    assert((a.im * c.d) * b.d == (c.im * a.d) * b.d) by (nonlinear_arith)
        requires
            a.im * b.d == b.im * a.d,
            b.im * c.d == c.im * b.d,
    ;
    lemma_cancel_factor(a.im * c.d, c.im * a.d, b.d);
}

/// One numerator line of addition congruence: equal fractions stay
/// equal under adding fractions.
proof fn lemma_add_frac_eq(x1: int, d1: int, x2: int, d2: int, y1: int, e1: int, y2: int, e2: int)
    requires
        x1 * d2 == x2 * d1,
        y1 * e2 == y2 * e1,
    ensures
        (x1 * e1 + y1 * d1) * (d2 * e2) == (x2 * e2 + y2 * d2) * (d1 * e1),
{
    assert((x1 * e1 + y1 * d1) * (d2 * e2) == (x1 * e1) * (d2 * e2) + (y1 * d1) * (d2 * e2))
        by (nonlinear_arith);
    assert((x1 * e1) * (d2 * e2) == (x1 * d2) * (e1 * e2)) by (nonlinear_arith);
    assert((y1 * d1) * (d2 * e2) == (y1 * e2) * (d1 * d2)) by (nonlinear_arith);
    assert((x2 * e2 + y2 * d2) * (d1 * e1) == (x2 * e2) * (d1 * e1) + (y2 * d2) * (d1 * e1))
        by (nonlinear_arith);
    assert((x2 * e2) * (d1 * e1) == (x2 * d1) * (e1 * e2)) by (nonlinear_arith);
    assert((y2 * d2) * (d1 * e1) == (y2 * e1) * (d1 * d2)) by (nonlinear_arith);
}

/// Addition respects denotational equality.
pub proof fn lemma_comp_add_congr(a: Comp, a2: Comp, b: Comp, b2: Comp)
    requires
        comp_wf(a),
        comp_wf(a2),
        comp_wf(b),
        comp_wf(b2),
        comp_eq(a, a2),
        comp_eq(b, b2),
    ensures
        comp_eq(comp_add(a, b), comp_add(a2, b2)),
{
    lemma_add_frac_eq(a.re, a.d, a2.re, a2.d, b.re, b.d, b2.re, b2.d);
    lemma_add_frac_eq(a.im, a.d, a2.im, a2.d, b.im, b.d, b2.im, b2.d);
}

/// One product line of multiplication congruence.
proof fn lemma_mul_frac_eq(x1: int, d1: int, x2: int, d2: int, y1: int, e1: int, y2: int, e2: int)
    requires
        x1 * d2 == x2 * d1,
        y1 * e2 == y2 * e1,
    ensures
        (x1 * y1) * (d2 * e2) == (x2 * y2) * (d1 * e1),
{
    assert((x1 * y1) * (d2 * e2) == (x1 * d2) * (y1 * e2)) by (nonlinear_arith);
    assert((x2 * d1) * (y2 * e1) == (x2 * y2) * (d1 * e1)) by (nonlinear_arith);
}

/// Multiplication respects denotational equality.
pub proof fn lemma_comp_mul_congr(a: Comp, a2: Comp, b: Comp, b2: Comp)
    requires
        comp_wf(a),
        comp_wf(a2),
        comp_wf(b),
        comp_wf(b2),
        comp_eq(a, a2),
        comp_eq(b, b2),
    ensures
        comp_eq(comp_mul(a, b), comp_mul(a2, b2)),
{
    lemma_mul_frac_eq(a.re, a.d, a2.re, a2.d, b.re, b.d, b2.re, b2.d);
    lemma_mul_frac_eq(a.im, a.d, a2.im, a2.d, b.im, b.d, b2.im, b2.d);
    lemma_mul_frac_eq(a.re, a.d, a2.re, a2.d, b.im, b.d, b2.im, b2.d);
    lemma_mul_frac_eq(a.im, a.d, a2.im, a2.d, b.re, b.d, b2.re, b2.d);
    assert((a.re * b.re - a.im * b.im) * (a2.d * b2.d) == (a.re * b.re) * (a2.d * b2.d) - (a.im
        * b.im) * (a2.d * b2.d)) by (nonlinear_arith);
    assert((a2.re * b2.re - a2.im * b2.im) * (a.d * b.d) == (a2.re * b2.re) * (a.d * b.d) - (a2.im
        * b2.im) * (a.d * b.d)) by (nonlinear_arith);
    assert((a.re * b.im + a.im * b.re) * (a2.d * b2.d) == (a.re * b.im) * (a2.d * b2.d) + (a.im
        * b.re) * (a2.d * b2.d)) by (nonlinear_arith);
    assert((a2.re * b2.im + a2.im * b2.re) * (a.d * b.d) == (a2.re * b2.im) * (a.d * b.d) + (a2.im
        * b2.re) * (a.d * b.d)) by (nonlinear_arith);
}

/// Addition of representations is commutative, exactly.
pub proof fn lemma_comp_add_comm(a: Comp, b: Comp)
    ensures
        comp_add(a, b) == comp_add(b, a),
{
    assert(a.d * b.d == b.d * a.d) by (nonlinear_arith);
}

/// Addition of representations is associative, exactly.
pub proof fn lemma_comp_add_assoc(a: Comp, b: Comp, c: Comp)
    ensures
        comp_add(comp_add(a, b), c) == comp_add(a, comp_add(b, c)),
{
    assert((a.re * b.d + b.re * a.d) * c.d == (a.re * b.d) * c.d + (b.re * a.d) * c.d)
        by (nonlinear_arith);
    assert((b.re * c.d + c.re * b.d) * a.d == (b.re * c.d) * a.d + (c.re * b.d) * a.d)
        by (nonlinear_arith);
    assert((a.re * b.d) * c.d == a.re * (b.d * c.d)) by (nonlinear_arith);
    assert((b.re * a.d) * c.d == (b.re * c.d) * a.d) by (nonlinear_arith);
    assert(c.re * (a.d * b.d) == (c.re * b.d) * a.d) by (nonlinear_arith);
    assert((a.im * b.d + b.im * a.d) * c.d == (a.im * b.d) * c.d + (b.im * a.d) * c.d)
        by (nonlinear_arith);
    assert((b.im * c.d + c.im * b.d) * a.d == (b.im * c.d) * a.d + (c.im * b.d) * a.d)
        by (nonlinear_arith);
    assert((a.im * b.d) * c.d == a.im * (b.d * c.d)) by (nonlinear_arith);
    assert((b.im * a.d) * c.d == (b.im * c.d) * a.d) by (nonlinear_arith);
    assert(c.im * (a.d * b.d) == (c.im * b.d) * a.d) by (nonlinear_arith);
    assert((a.d * b.d) * c.d == a.d * (b.d * c.d)) by (nonlinear_arith);
}

/// Four summands regroup pairwise: `(a+b)+(x+y) == (a+x)+(b+y)`.
pub proof fn lemma_comp_add_rearrange(a: Comp, b: Comp, x: Comp, y: Comp)
    ensures
        comp_add(comp_add(a, b), comp_add(x, y)) == comp_add(comp_add(a, x), comp_add(b, y)),
{
    lemma_comp_add_assoc(comp_add(a, b), x, y);
    lemma_comp_add_assoc(a, b, x);
    lemma_comp_add_comm(b, x);
    lemma_comp_add_assoc(a, x, b);
    lemma_comp_add_assoc(comp_add(a, x), b, y);
}

/// Multiplication of representations is commutative, exactly.
pub proof fn lemma_comp_mul_comm(a: Comp, b: Comp)
    ensures
        comp_mul(a, b) == comp_mul(b, a),
{
    assert(a.re * b.re - a.im * b.im == b.re * a.re - b.im * a.im) by (nonlinear_arith);
    assert(a.re * b.im + a.im * b.re == b.re * a.im + b.im * a.re) by (nonlinear_arith);
    assert(a.d * b.d == b.d * a.d) by (nonlinear_arith);
}

/// Multiplication of representations is associative, exactly.
pub proof fn lemma_comp_mul_assoc(a: Comp, b: Comp, c: Comp)
    ensures
        comp_mul(comp_mul(a, b), c) == comp_mul(a, comp_mul(b, c)),
{
    assert((a.re * b.re - a.im * b.im) * c.re == (a.re * b.re) * c.re - (a.im * b.im) * c.re)
        by (nonlinear_arith);
    assert((a.re * b.im + a.im * b.re) * c.im == (a.re * b.im) * c.im + (a.im * b.re) * c.im)
        by (nonlinear_arith);
    assert(a.re * (b.re * c.re - b.im * c.im) == a.re * (b.re * c.re) - a.re * (b.im * c.im))
        by (nonlinear_arith);
    assert(a.im * (b.re * c.im + b.im * c.re) == a.im * (b.re * c.im) + a.im * (b.im * c.re))
        by (nonlinear_arith);
    assert((a.re * b.re) * c.re == a.re * (b.re * c.re)) by (nonlinear_arith);
    assert((a.im * b.im) * c.re == a.im * (b.im * c.re)) by (nonlinear_arith);
    assert((a.re * b.im) * c.im == a.re * (b.im * c.im)) by (nonlinear_arith);
    assert((a.im * b.re) * c.im == a.im * (b.re * c.im)) by (nonlinear_arith);
    assert((a.re * b.re - a.im * b.im) * c.im == (a.re * b.re) * c.im - (a.im * b.im) * c.im)
        by (nonlinear_arith);
    assert((a.re * b.im + a.im * b.re) * c.re == (a.re * b.im) * c.re + (a.im * b.re) * c.re)
        by (nonlinear_arith);
    assert(a.re * (b.re * c.im + b.im * c.re) == a.re * (b.re * c.im) + a.re * (b.im * c.re))
        by (nonlinear_arith);
    assert(a.im * (b.re * c.re - b.im * c.im) == a.im * (b.re * c.re) - a.im * (b.im * c.im))
        by (nonlinear_arith);
    assert((a.re * b.re) * c.im == a.re * (b.re * c.im)) by (nonlinear_arith);
    assert((a.im * b.im) * c.im == a.im * (b.im * c.im)) by (nonlinear_arith);
    assert((a.re * b.im) * c.re == a.re * (b.im * c.re)) by (nonlinear_arith);
    assert((a.im * b.re) * c.re == a.im * (b.re * c.re)) by (nonlinear_arith);
    assert((a.d * b.d) * c.d == a.d * (b.d * c.d)) by (nonlinear_arith);
}

/// Multiplication distributes over addition up to denotational
/// equality: the two representations differ exactly by a factor of the
/// multiplier's denominator.
pub proof fn lemma_comp_mul_dist(c: Comp, a: Comp, b: Comp)
    requires
        comp_wf(c),
        comp_wf(a),
        comp_wf(b),
    ensures
        comp_eq(comp_mul(c, comp_add(a, b)), comp_add(comp_mul(c, a), comp_mul(c, b))),
{
    let lhs = comp_mul(c, comp_add(a, b));
    let rhs = comp_add(comp_mul(c, a), comp_mul(c, b));
    let p = c.re * a.re - c.im * a.im;
    let q = c.re * b.re - c.im * b.im;
    assert(p * (c.d * b.d) == (p * b.d) * c.d) by (nonlinear_arith);
    assert(q * (c.d * a.d) == (q * a.d) * c.d) by (nonlinear_arith);
    assert((p * b.d) * c.d + (q * a.d) * c.d == (p * b.d + q * a.d) * c.d) by (nonlinear_arith);
    assert(c.re * (a.re * b.d + b.re * a.d) == c.re * (a.re * b.d) + c.re * (b.re * a.d))
        by (nonlinear_arith);
    assert(c.im * (a.im * b.d + b.im * a.d) == c.im * (a.im * b.d) + c.im * (b.im * a.d))
        by (nonlinear_arith);
    assert(p * b.d == (c.re * a.re) * b.d - (c.im * a.im) * b.d) by (nonlinear_arith)
        requires
            p == c.re * a.re - c.im * a.im,
    ;
    assert(q * a.d == (c.re * b.re) * a.d - (c.im * b.im) * a.d) by (nonlinear_arith)
        requires
            q == c.re * b.re - c.im * b.im,
    ;
    assert(c.re * (a.re * b.d) == (c.re * a.re) * b.d) by (nonlinear_arith);
    assert(c.re * (b.re * a.d) == (c.re * b.re) * a.d) by (nonlinear_arith);
    assert(c.im * (a.im * b.d) == (c.im * a.im) * b.d) by (nonlinear_arith);
    assert(c.im * (b.im * a.d) == (c.im * b.im) * a.d) by (nonlinear_arith);
    assert(lhs.re == p * b.d + q * a.d);
    assert(rhs.re == lhs.re * c.d);
    let pi = c.re * a.im + c.im * a.re;
    let qi = c.re * b.im + c.im * b.re;
    assert(pi * (c.d * b.d) == (pi * b.d) * c.d) by (nonlinear_arith);
    assert(qi * (c.d * a.d) == (qi * a.d) * c.d) by (nonlinear_arith);
    assert((pi * b.d) * c.d + (qi * a.d) * c.d == (pi * b.d + qi * a.d) * c.d)
        by (nonlinear_arith);
    assert(c.re * (a.im * b.d + b.im * a.d) == c.re * (a.im * b.d) + c.re * (b.im * a.d))
        by (nonlinear_arith);
    assert(c.im * (a.re * b.d + b.re * a.d) == c.im * (a.re * b.d) + c.im * (b.re * a.d))
        by (nonlinear_arith);
    assert(pi * b.d == (c.re * a.im) * b.d + (c.im * a.re) * b.d) by (nonlinear_arith)
        requires
            pi == c.re * a.im + c.im * a.re,
    ;
    assert(qi * a.d == (c.re * b.im) * a.d + (c.im * b.re) * a.d) by (nonlinear_arith)
        requires
            qi == c.re * b.im + c.im * b.re,
    ;
    assert(c.re * (a.im * b.d) == (c.re * a.im) * b.d) by (nonlinear_arith);
    assert(c.re * (b.im * a.d) == (c.re * b.im) * a.d) by (nonlinear_arith);
    assert(c.im * (a.re * b.d) == (c.im * a.re) * b.d) by (nonlinear_arith);
    assert(c.im * (b.re * a.d) == (c.im * b.re) * a.d) by (nonlinear_arith);
    assert(lhs.im == pi * b.d + qi * a.d);
    assert(rhs.im == lhs.im * c.d);
    assert(rhs.d == lhs.d * c.d) by (nonlinear_arith)
        requires
            lhs.d == c.d * (a.d * b.d),
            rhs.d == (c.d * a.d) * (c.d * b.d),
    ;
    assert(lhs.d > 0) by (nonlinear_arith)
        requires
            lhs.d == c.d * (a.d * b.d),
            c.d > 0,
            a.d > 0,
            b.d > 0,
    ;
    assert(lhs.re * rhs.d == rhs.re * lhs.d) by (nonlinear_arith)
        requires
            rhs.re == lhs.re * c.d,
            rhs.d == lhs.d * c.d,
    ;
    assert(lhs.im * rhs.d == rhs.im * lhs.d) by (nonlinear_arith)
        requires
            rhs.im == lhs.im * c.d,
            rhs.d == lhs.d * c.d,
    ;
}

// ---------------------------------------------------------------------------
// Representability: what fits in the stored 64-bit fractions.
// ---------------------------------------------------------------------------

pub open spec fn int_fits(x: int) -> bool {
    -(SCALAR_BOUND as int) <= x <= SCALAR_BOUND as int
}

pub open spec fn rat_fits(a: Rat) -> bool {
    int_fits(a.n) && 0 < a.d <= SCALAR_BOUND as int
}

pub open spec fn comp_fits(a: Comp) -> bool {
    int_fits(a.re) && int_fits(a.im) && 0 < a.d <= SCALAR_BOUND as int
}

/// The product of two numbers bounded by `SCALAR_BOUND` stays well inside
/// the 128-bit range the executable arithmetic computes in.
pub proof fn lemma_bounded_product(a: int, b: int) by (nonlinear_arith)
    requires
        -(SCALAR_BOUND as int) <= a <= SCALAR_BOUND as int,
        -(SCALAR_BOUND as int) <= b <= SCALAR_BOUND as int,
    ensures
        -(SCALAR_BOUND as int) * (SCALAR_BOUND as int) <= a * b <= (SCALAR_BOUND as int) * (
        SCALAR_BOUND as int),
        a > 0 && b > 0 ==> a * b > 0,
        a > 0 && b < 0 ==> a * b < 0,
{
}

// ---------------------------------------------------------------------------
// Real scalars.
// ---------------------------------------------------------------------------

/// An exact real scalar: the fraction `n / d` with `d > 0`.  The derived
/// equality is of the stored representation; `equals` compares denoted
/// values.
#[derive(Clone, Copy, Debug, PartialEq, Eq, Structural)]
pub struct Rational {
    pub(crate) n: i64,
    pub(crate) d: i64,
}

impl View for Rational {
    type V = Rat;

    closed spec fn view(&self) -> Rat {
        Rat { n: self.n as int, d: self.d as int }
    }
}

impl Rational {
    /// A stored scalar denotes a fraction with positive denominator whose
    /// parts both fit the 64-bit bound.
    pub open spec fn wf(&self) -> bool {
        rat_fits(self@)
    }

    /// The fraction `n / d`.
    pub fn new(n: i64, d: i64) -> (r: Rational)
        requires
            n > i64::MIN,
            d > 0,
        ensures
            r.wf(),
            r@ == (Rat { n: n as int, d: d as int }),
    {
        Rational { n, d }
    }

    /// The whole number `n`.
    pub fn from_int(n: i64) -> (r: Rational)
        requires
            n > i64::MIN,
        ensures
            r.wf(),
            r@ == (Rat { n: n as int, d: 1 }),
    {
        Rational { n, d: 1 }
    }

    pub fn zero() -> (r: Rational)
        ensures
            r.wf(),
            r@ == rat_zero(),
    {
        Rational { n: 0, d: 1 }
    }

    pub fn one() -> (r: Rational)
        ensures
            r.wf(),
            r@ == rat_one(),
    {
        Rational { n: 1, d: 1 }
    }

    /// Builds a stored scalar from an exact 128-bit fraction, or reports
    /// that it does not fit.
    fn make(n: i128, d: i128) -> (r: Result<Rational, AlgebraError>)
        requires
            d > 0,
        ensures
            r is Ok <==> rat_fits(Rat { n: n as int, d: d as int }),
            r matches Ok(s) ==> s.wf() && s@ == (Rat { n: n as int, d: d as int }),
            r matches Err(e) ==> e == AlgebraError::Overflow,
    {
        let b: i128 = SCALAR_BOUND as i128;
        if -b <= n && n <= b && d <= b {
            Ok(Rational { n: n as i64, d: d as i64 })
        } else {
            Err(AlgebraError::Overflow)
        }
    }

    /// Exact sum; `Overflow` exactly when the unreduced result leaves the
    /// 64-bit fraction range.
    pub fn add(&self, other: &Rational) -> (r: Result<Rational, AlgebraError>)
        requires
            self.wf(),
            other.wf(),
        ensures
            r is Ok <==> rat_fits(rat_add(self@, other@)),
            r matches Ok(s) ==> s.wf() && s@ == rat_add(self@, other@),
            r matches Err(e) ==> e == AlgebraError::Overflow,
    {
        proof {
            lemma_bounded_product(self.n as int, other.d as int);
            lemma_bounded_product(other.n as int, self.d as int);
            lemma_bounded_product(self.d as int, other.d as int);
        }
        let n: i128 = self.n as i128 * other.d as i128 + other.n as i128 * self.d as i128;
        let d: i128 = self.d as i128 * other.d as i128;
        Rational::make(n, d)
    }

    /// Exact difference.
    pub fn sub(&self, other: &Rational) -> (r: Result<Rational, AlgebraError>)
        requires
            self.wf(),
            other.wf(),
        ensures
            r is Ok <==> rat_fits(rat_sub(self@, other@)),
            r matches Ok(s) ==> s.wf() && s@ == rat_sub(self@, other@),
            r matches Err(e) ==> e == AlgebraError::Overflow,
    {
        proof {
            lemma_bounded_product(self.n as int, other.d as int);
            lemma_bounded_product(other.n as int, self.d as int);
            lemma_bounded_product(self.d as int, other.d as int);
        }
        let n: i128 = self.n as i128 * other.d as i128 - other.n as i128 * self.d as i128;
        let d: i128 = self.d as i128 * other.d as i128;
        Rational::make(n, d)
    }

    /// Exact product.
    pub fn mul(&self, other: &Rational) -> (r: Result<Rational, AlgebraError>)
        requires
            self.wf(),
            other.wf(),
        ensures
            r is Ok <==> rat_fits(rat_mul(self@, other@)),
            r matches Ok(s) ==> s.wf() && s@ == rat_mul(self@, other@),
            r matches Err(e) ==> e == AlgebraError::Overflow,
    {
        proof {
            lemma_bounded_product(self.n as int, other.n as int);
            lemma_bounded_product(self.d as int, other.d as int);
        }
        let n: i128 = self.n as i128 * other.n as i128;
        let d: i128 = self.d as i128 * other.d as i128;
        Rational::make(n, d)
    }

    /// Exact quotient; the divisor must be nonzero.
    pub fn div(&self, other: &Rational) -> (r: Result<Rational, AlgebraError>)
        requires
            self.wf(),
            other.wf(),
            !rat_is_zero(other@),
        ensures
            r is Ok <==> rat_fits(rat_div(self@, other@)),
            r matches Ok(s) ==> s.wf() && s@ == rat_div(self@, other@),
            r matches Err(e) ==> e == AlgebraError::Overflow,
    {
        proof {
            lemma_bounded_product(self.n as int, other.d as int);
            lemma_bounded_product(self.d as int, other.n as int);
        }
        let n: i128 = self.n as i128 * other.d as i128;
        let d: i128 = self.d as i128 * other.n as i128;
        if other.n >= 0 {
            Rational::make(n, d)
        } else {
            Rational::make(-n, -d)
        }
    }

    /// Exact negation; always representable.
    pub fn neg(&self) -> (r: Rational)
        requires
            self.wf(),
        ensures
            r.wf(),
            r@ == rat_neg(self@),
    {
        Rational { n: -self.n, d: self.d }
    }

    /// Absolute value.
    pub fn abs(&self) -> (r: Rational)
        requires
            self.wf(),
        ensures
            r.wf(),
            r@ == rat_abs(self@),
    {
        if self.n >= 0 {
            *self
        } else {
            self.neg()
        }
    }

    pub fn is_zero(&self) -> (r: bool)
        requires
            self.wf(),
        ensures
            r == rat_is_zero(self@),
    {
        self.n == 0
    }

    /// Denotational equality: `a/b == c/d` iff `a*d == c*b`.
    pub fn equals(&self, other: &Rational) -> (r: bool)
        requires
            self.wf(),
            other.wf(),
        ensures
            r == rat_eq(self@, other@),
    {
        proof {
            lemma_bounded_product(self.n as int, other.d as int);
            lemma_bounded_product(other.n as int, self.d as int);
        }
        self.n as i128 * other.d as i128 == other.n as i128 * self.d as i128
    }

    /// Denotational ordering.
    pub fn le(&self, other: &Rational) -> (r: bool)
        requires
            self.wf(),
            other.wf(),
        ensures
            r == rat_le(self@, other@),
    {
        proof {
            lemma_bounded_product(self.n as int, other.d as int);
            lemma_bounded_product(other.n as int, self.d as int);
        }
        self.n as i128 * other.d as i128 <= other.n as i128 * self.d as i128
    }

    pub fn lt(&self, other: &Rational) -> (r: bool)
        requires
            self.wf(),
            other.wf(),
        ensures
            r == rat_lt(self@, other@),
    {
        proof {
            lemma_bounded_product(self.n as int, other.d as int);
            lemma_bounded_product(other.n as int, self.d as int);
        }
        (self.n as i128 * other.d as i128) < (other.n as i128 * self.d as i128)
    }

    /// The stored numerator, for callers that render or convert the value.
    pub fn numerator(&self) -> (r: i64)
        ensures
            r as int == self@.n,
    {
        self.n
    }

    /// The stored denominator.
    pub fn denominator(&self) -> (r: i64)
        ensures
            r as int == self@.d,
    {
        self.d
    }
}

// ---------------------------------------------------------------------------
// Field scalars: real or complex, dispatched by a tagged union.
// ---------------------------------------------------------------------------

/// A scalar of the field the vectors are built over.  The two
/// instantiations behave identically under the generic operations; the
/// complex-specific ones (conjugation, real part) act as the identity and
/// the whole value on a real scalar.
#[derive(Clone, Copy, Debug)]
pub enum Scalar {
    Real(Rational),
    Complex { re_n: i64, im_n: i64, d: i64 },
}

impl View for Scalar {
    type V = Comp;

    closed spec fn view(&self) -> Comp {
        match *self {
            Scalar::Real(r) => Comp { re: r.n as int, im: 0, d: r.d as int },
            Scalar::Complex { re_n, im_n, d } => Comp {
                re: re_n as int,
                im: im_n as int,
                d: d as int,
            },
        }
    }
}

/// A scalar in the real representation denotes a value with no imaginary
/// part.
pub proof fn lemma_real_repr_im_zero(s: &Scalar)
    requires
        s.is_real_repr(),
    ensures
        s@.im == 0,
{
}

impl Scalar {
    pub open spec fn wf(&self) -> bool {
        comp_fits(self@)
    }

    /// Whether the value is carried in the real representation.  A complex
    /// scalar whose imaginary part happens to be zero stays complex.
    pub open spec fn is_real_repr(&self) -> bool {
        self is Real
    }

    /// The real scalar `n / d`.
    pub fn real_of(n: i64, d: i64) -> (r: Scalar)
        requires
            n > i64::MIN,
            d > 0,
        ensures
            r.wf(),
            r.is_real_repr(),
            r@ == (Comp { re: n as int, im: 0, d: d as int }),
    {
        Scalar::Real(Rational { n, d })
    }

    /// The complex scalar `(re_n + im_n * i) / d`.
    pub fn complex(re_n: i64, im_n: i64, d: i64) -> (r: Scalar)
        requires
            re_n > i64::MIN,
            im_n > i64::MIN,
            d > 0,
        ensures
            r.wf(),
            !r.is_real_repr(),
            r@ == (Comp { re: re_n as int, im: im_n as int, d: d as int }),
    {
        Scalar::Complex { re_n, im_n, d }
    }

    /// Wraps a real scalar.
    pub fn from_rational(v: &Rational) -> (r: Scalar)
        requires
            v.wf(),
        ensures
            r.wf(),
            r.is_real_repr(),
            r@ == comp_of_rat(v@),
    {
        Scalar::Real(*v)
    }

    pub fn zero() -> (r: Scalar)
        ensures
            r.wf(),
            r.is_real_repr(),
            r@ == comp_zero(),
    {
        Scalar::Real(Rational { n: 0, d: 1 })
    }

    pub fn one() -> (r: Scalar)
        ensures
            r.wf(),
            r.is_real_repr(),
            r@ == comp_one(),
    {
        Scalar::Real(Rational { n: 1, d: 1 })
    }

    /// The stored components `(re_n, im_n, d)`.
    pub(crate) fn unpack(&self) -> (t: (i64, i64, i64))
        ensures
            t.0 as int == self@.re,
            t.1 as int == self@.im,
            t.2 as int == self@.d,
    {
        match *self {
            Scalar::Real(r) => (r.n, 0, r.d),
            Scalar::Complex { re_n, im_n, d } => (re_n, im_n, d),
        }
    }

    /// Builds a scalar from an exact 128-bit representation, or reports
    /// that it does not fit.  `real` selects the real representation and
    /// demands a zero imaginary part.
    pub(crate) fn make(re: i128, im: i128, d: i128, keep_real: bool) -> (r: Result<Scalar, AlgebraError>)
        requires
            d > 0,
            keep_real ==> im == 0,
        ensures
            r is Ok <==> comp_fits(Comp { re: re as int, im: im as int, d: d as int }),
            r matches Ok(s) ==> s.wf() && s@ == (Comp {
                re: re as int,
                im: im as int,
                d: d as int,
            }) && s.is_real_repr() == keep_real,
            r matches Err(e) ==> e == AlgebraError::Overflow,
    {
        let b: i128 = SCALAR_BOUND as i128;
        if -b <= re && re <= b && -b <= im && im <= b && d <= b {
            if keep_real {
                Ok(Scalar::Real(Rational { n: re as i64, d: d as i64 }))
            } else {
                Ok(Scalar::Complex { re_n: re as i64, im_n: im as i64, d: d as i64 })
            }
        } else {
            Err(AlgebraError::Overflow)
        }
    }

    /// Exact sum; real exactly when both operands are real.
    pub fn add(&self, other: &Scalar) -> (r: Result<Scalar, AlgebraError>)
        requires
            self.wf(),
            other.wf(),
        ensures
            r is Ok <==> comp_fits(comp_add(self@, other@)),
            r matches Ok(s) ==> s.wf() && s@ == comp_add(self@, other@) && s.is_real_repr() == (
            self.is_real_repr() && other.is_real_repr()),
            r matches Err(e) ==> e == AlgebraError::Overflow,
    {
        let (ar, ai, ad) = self.unpack();
        let (br, bi, bd) = other.unpack();
        proof {
            lemma_bounded_product(ar as int, bd as int);
            lemma_bounded_product(br as int, ad as int);
            lemma_bounded_product(ai as int, bd as int);
            lemma_bounded_product(bi as int, ad as int);
            lemma_bounded_product(ad as int, bd as int);
        }
        let re: i128 = ar as i128 * bd as i128 + br as i128 * ad as i128;
        let im: i128 = ai as i128 * bd as i128 + bi as i128 * ad as i128;
        let d: i128 = ad as i128 * bd as i128;
        Scalar::make(re, im, d, self.is_real() && other.is_real())
    }

    /// Exact difference; real exactly when both operands are real.
    pub fn sub(&self, other: &Scalar) -> (r: Result<Scalar, AlgebraError>)
        requires
            self.wf(),
            other.wf(),
        ensures
            r is Ok <==> comp_fits(comp_sub(self@, other@)),
            r matches Ok(s) ==> s.wf() && s@ == comp_sub(self@, other@) && s.is_real_repr() == (
            self.is_real_repr() && other.is_real_repr()),
            r matches Err(e) ==> e == AlgebraError::Overflow,
    {
        let (ar, ai, ad) = self.unpack();
        let (br, bi, bd) = other.unpack();
        proof {
            lemma_bounded_product(ar as int, bd as int);
            lemma_bounded_product(br as int, ad as int);
            lemma_bounded_product(ai as int, bd as int);
            lemma_bounded_product(bi as int, ad as int);
            lemma_bounded_product(ad as int, bd as int);
        }
        let re: i128 = ar as i128 * bd as i128 - br as i128 * ad as i128;
        let im: i128 = ai as i128 * bd as i128 - bi as i128 * ad as i128;
        let d: i128 = ad as i128 * bd as i128;
        Scalar::make(re, im, d, self.is_real() && other.is_real())
    }

    /// Exact product; real exactly when both operands are real.
    pub fn mul(&self, other: &Scalar) -> (r: Result<Scalar, AlgebraError>)
        requires
            self.wf(),
            other.wf(),
        ensures
            r is Ok <==> comp_fits(comp_mul(self@, other@)),
            r matches Ok(s) ==> s.wf() && s@ == comp_mul(self@, other@) && s.is_real_repr() == (
            self.is_real_repr() && other.is_real_repr()),
            r matches Err(e) ==> e == AlgebraError::Overflow,
    {
        let (ar, ai, ad) = self.unpack();
        let (br, bi, bd) = other.unpack();
        proof {
            lemma_bounded_product(ar as int, br as int);
            lemma_bounded_product(ai as int, bi as int);
            lemma_bounded_product(ar as int, bi as int);
            lemma_bounded_product(ai as int, br as int);
            lemma_bounded_product(ad as int, bd as int);
        }
        let re: i128 = ar as i128 * br as i128 - ai as i128 * bi as i128;
        let im: i128 = ar as i128 * bi as i128 + ai as i128 * br as i128;
        let d: i128 = ad as i128 * bd as i128;
        Scalar::make(re, im, d, self.is_real() && other.is_real())
    }

    /// Exact negation; always representable.
    pub fn neg(&self) -> (r: Scalar)
        requires
            self.wf(),
        ensures
            r.wf(),
            r@ == comp_neg(self@),
            r.is_real_repr() == self.is_real_repr(),
    {
        match *self {
            Scalar::Real(v) => Scalar::Real(Rational { n: -v.n, d: v.d }),
            Scalar::Complex { re_n, im_n, d } => Scalar::Complex {
                re_n: -re_n,
                im_n: -im_n,
                d,
            },
        }
    }

    /// Complex conjugation; the identity on a real scalar.
    pub fn conjugate(&self) -> (r: Scalar)
        requires
            self.wf(),
        ensures
            r.wf(),
            r@ == comp_conj(self@),
            r.is_real_repr() == self.is_real_repr(),
    {
        match *self {
            Scalar::Real(v) => Scalar::Real(v),
            Scalar::Complex { re_n, im_n, d } => Scalar::Complex {
                re_n,
                im_n: -im_n,
                d,
            },
        }
    }

    /// The real component.
    pub fn real_part(&self) -> (r: Rational)
        requires
            self.wf(),
        ensures
            r.wf(),
            r@ == comp_re(self@),
    {
        match *self {
            Scalar::Real(v) => v,
            Scalar::Complex { re_n, im_n, d } => Rational { n: re_n, d },
        }
    }

    /// Divides by a nonzero real scalar.
    pub fn unscale(&self, by: &Rational) -> (r: Result<Scalar, AlgebraError>)
        requires
            self.wf(),
            by.wf(),
            !rat_is_zero(by@),
        ensures
            r is Ok <==> comp_fits(comp_unscale(self@, by@)),
            r matches Ok(s) ==> s.wf() && s@ == comp_unscale(self@, by@) && s.is_real_repr()
                == self.is_real_repr(),
            r matches Err(e) ==> e == AlgebraError::Overflow,
    {
        let (ar, ai, ad) = self.unpack();
        proof {
            lemma_bounded_product(ar as int, by.d as int);
            lemma_bounded_product(ai as int, by.d as int);
            lemma_bounded_product(ad as int, by.n as int);
        }
        let re: i128 = ar as i128 * by.d as i128;
        let im: i128 = ai as i128 * by.d as i128;
        let d: i128 = ad as i128 * by.n as i128;
        if by.n >= 0 {
            Scalar::make(re, im, d, self.is_real())
        } else {
            Scalar::make(-re, -im, -d, self.is_real())
        }
    }

    /// Whether the value is zero (in either representation).
    pub fn is_zero(&self) -> (r: bool)
        requires
            self.wf(),
        ensures
            r == comp_is_zero(self@),
    {
        let (ar, ai, _) = self.unpack();
        ar == 0 && ai == 0
    }

    /// Whether the value is carried in the real representation.
    pub fn is_real(&self) -> (r: bool)
        ensures
            r == self.is_real_repr(),
    {
        match *self {
            Scalar::Real(_) => true,
            Scalar::Complex { .. } => false,
        }
    }

    /// Denotational equality of the complex values, whatever the
    /// representation.
    pub fn equals(&self, other: &Scalar) -> (r: bool)
        requires
            self.wf(),
            other.wf(),
        ensures
            r == comp_eq(self@, other@),
    {
        let (ar, ai, ad) = self.unpack();
        let (br, bi, bd) = other.unpack();
        proof {
            lemma_bounded_product(ar as int, bd as int);
            lemma_bounded_product(br as int, ad as int);
            lemma_bounded_product(ai as int, bd as int);
            lemma_bounded_product(bi as int, ad as int);
        }
        ar as i128 * bd as i128 == br as i128 * ad as i128 && ai as i128 * bd as i128 == bi as i128
            * ad as i128
    }
}

} // verus!
