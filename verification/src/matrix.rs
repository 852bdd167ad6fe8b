//! Square matrices over the scalar field: the change-of-basis
//! transforms.
//!
//! A matrix is a square array of scalars, stored by rows.  The library
//! needs only what basis changes use: the identity, the transpose,
//! column extraction, the matrix-vector product, equality, and the
//! orthonormality test.

use vstd::prelude::*;

use crate::error::AlgebraError;
use crate::scalar::{
    comp_add, comp_eq, comp_fits, comp_mul, comp_one, comp_wf, comp_zero, Comp, Scalar,
};
use crate::vector::{canonical_spec, seq_wf, Vector};

verus! {

// ---------------------------------------------------------------------------
// The model: square grids of complex values and indexed sums.
// ---------------------------------------------------------------------------

/// An `n` by `n` grid of well-formed values.
pub open spec fn mat_wf_model(m: Seq<Seq<Comp>>, n: int) -> bool {
    m.len() == n && (forall|i: int|
        0 <= i < n ==> (#[trigger] m[i]).len() == n && seq_wf(m[i]))
}

/// The sum `f(0) + f(1) + ... + f(k-1)`, accumulated left to right.
pub open spec fn sum2(f: spec_fn(int) -> Comp, k: int) -> Comp
    decreases k,
{
    if k <= 0 {
        comp_zero()
    } else {
        comp_add(sum2(f, k - 1), f(k - 1))
    }
}

/// The dot product (without conjugation) of the first `k` entries.
pub open spec fn row_dot_prefix(row: Seq<Comp>, v: Seq<Comp>, k: int) -> Comp {
    sum2(|j: int| comp_mul(row[j], v[j]), k)
}

/// `sum_j row[j] * v[j]` over a full row.
pub open spec fn row_dot(row: Seq<Comp>, v: Seq<Comp>) -> Comp {
    row_dot_prefix(row, v, row.len() as int)
}

/// The matrix-vector product `m * v` (no conjugation).
pub open spec fn mat_vec_spec(m: Seq<Seq<Comp>>, v: Seq<Comp>) -> Seq<Comp> {
    Seq::new(m.len(), |i: int| row_dot(m[i], v))
}

pub open spec fn transpose_spec(m: Seq<Seq<Comp>>) -> Seq<Seq<Comp>> {
    Seq::new(m.len(), |i: int| Seq::new(m.len(), |j: int| m[j][i]))
}

pub open spec fn column_spec(m: Seq<Seq<Comp>>, j: int) -> Seq<Comp> {
    Seq::new(m.len(), |i: int| m[i][j])
}

pub open spec fn identity_spec(n: int) -> Seq<Seq<Comp>> {
    Seq::new(n as nat, |i: int| canonical_spec(n, i))
}

/// Elementwise denotational equality of equally sized matrices.
pub open spec fn mat_eq_spec(a: Seq<Seq<Comp>>, b: Seq<Seq<Comp>>) -> bool {
    a.len() == b.len() && (forall|i: int, j: int|
        0 <= i < a.len() && 0 <= j < a.len() ==> comp_eq(
            #[trigger] a[i][j],
            #[trigger] b[i][j],
        ))
}

/// The Gram entry of columns `i` and `j`: `sum_k m[k][i] * m[k][j]`.
pub open spec fn gram_spec(m: Seq<Seq<Comp>>, i: int, j: int) -> Comp {
    row_dot(column_spec(m, i), column_spec(m, j))
}

/// The matrix is orthonormal: its columns have pairwise Gram entries of
/// the identity, so its transpose is its inverse.
pub open spec fn is_orthonormal_spec(m: Seq<Seq<Comp>>) -> bool {
    forall|i: int, j: int|
        0 <= i < m.len() && 0 <= j < m.len() ==> comp_eq(
            #[trigger] gram_spec(m, i, j),
            if i == j {
                comp_one()
            } else {
                comp_zero()
            },
        )
}

/// Whether every intermediate value of a dot-product accumulation fits
/// the stored scalars.
pub open spec fn row_dot_fits(row: Seq<Comp>, v: Seq<Comp>, k: int) -> bool
    decreases k,
{
    k <= 0 || {
        let p = comp_mul(row[k - 1], v[k - 1]);
        row_dot_fits(row, v, k - 1) && comp_fits(p) && comp_fits(
            comp_add(row_dot_prefix(row, v, k - 1), p),
        )
    }
}

/// A fitting accumulation fits at every shorter prefix too.
pub proof fn lemma_row_dot_fits_mono(row: Seq<Comp>, v: Seq<Comp>, m: int, k: int)
    requires
        0 <= k <= m,
        row_dot_fits(row, v, m),
    ensures
        row_dot_fits(row, v, k),
    decreases m,
{
    if k < m {
        lemma_row_dot_fits_mono(row, v, m - 1, k);
    }
}

/// Whether the whole matrix-vector product fits.
pub open spec fn mat_vec_fits(m: Seq<Seq<Comp>>, v: Seq<Comp>) -> bool {
    forall|i: int| 0 <= i < m.len() ==> row_dot_fits(#[trigger] m[i], v, m[i].len() as int)
}

/// Whether every pairwise column Gram sum fits the stored scalars: the
/// condition under which the orthonormality test computes.
pub open spec fn gram_fits(m: Seq<Seq<Comp>>) -> bool {
    forall|i: int, j: int|
        0 <= i < m.len() && 0 <= j < m.len() ==> #[trigger] row_dot_fits(
            column_spec(m, i),
            column_spec(m, j),
            m.len() as int,
        )
}

// ---------------------------------------------------------------------------
// Laws of the indexed sums, for the change-of-basis proofs.
// ---------------------------------------------------------------------------

/// Sums of functions that agree below `k` are equal.
pub proof fn lemma_sum2_ext(f: spec_fn(int) -> Comp, g: spec_fn(int) -> Comp, k: int)
    requires
        forall|j: int| 0 <= j < k ==> #[trigger] f(j) == g(j),
    ensures
        sum2(f, k) == sum2(g, k),
    decreases k,
{
    if k > 0 {
        lemma_sum2_ext(f, g, k - 1);
    }
}

/// A sum of zeros is zero.
pub proof fn lemma_sum2_zero(f: spec_fn(int) -> Comp, k: int)
    requires
        forall|j: int| 0 <= j < k ==> #[trigger] f(j) == comp_zero(),
    ensures
        sum2(f, k) == comp_zero(),
    decreases k,
{
    if k > 0 {
        lemma_sum2_zero(f, k - 1);
    }
}

/// Well-formed summands give a well-formed sum.
pub proof fn lemma_sum2_wf(f: spec_fn(int) -> Comp, k: int)
    requires
        forall|j: int| 0 <= j < k ==> comp_wf(#[trigger] f(j)),
    ensures
        comp_wf(sum2(f, k)),
    decreases k,
{
    if k > 0 {
        lemma_sum2_wf(f, k - 1);
        crate::scalar::lemma_comp_ops_wf(sum2(f, k - 1), f(k - 1));
    }
}

/// Summands that denote the same values give sums that denote the same
/// value.
pub proof fn lemma_sum2_congr(f: spec_fn(int) -> Comp, g: spec_fn(int) -> Comp, k: int)
    requires
        forall|j: int| 0 <= j < k ==> comp_wf(#[trigger] f(j)),
        forall|j: int| 0 <= j < k ==> comp_wf(#[trigger] g(j)),
        forall|j: int| 0 <= j < k ==> comp_eq(#[trigger] f(j), g(j)),
    ensures
        comp_eq(sum2(f, k), sum2(g, k)),
    decreases k,
{
    if k > 0 {
        lemma_sum2_congr(f, g, k - 1);
        lemma_sum2_wf(f, k - 1);
        lemma_sum2_wf(g, k - 1);
        crate::scalar::lemma_comp_add_congr(sum2(f, k - 1), sum2(g, k - 1), f(k - 1), g(k - 1));
    }
}

/// A common left factor pulls out of a sum, up to denotational
/// equality.
pub proof fn lemma_sum2_mul_left(
    c: Comp,
    f: spec_fn(int) -> Comp,
    cf: spec_fn(int) -> Comp,
    k: int,
)
    requires
        comp_wf(c),
        forall|j: int| 0 <= j < k ==> comp_wf(#[trigger] f(j)),
        forall|j: int| 0 <= j < k ==> #[trigger] cf(j) == comp_mul(c, f(j)),
    ensures
        comp_eq(comp_mul(c, sum2(f, k)), sum2(cf, k)),
    decreases k,
{
    if k <= 0 {
        assert(comp_eq(comp_mul(c, comp_zero()), comp_zero())) by (nonlinear_arith)
            requires
                c.d > 0,
        ;
    } else {
        lemma_sum2_mul_left(c, f, cf, k - 1);
        let s = sum2(f, k - 1);
        lemma_sum2_wf(f, k - 1);
        assert forall|j: int| 0 <= j < k implies comp_wf(#[trigger] cf(j)) by {
            crate::scalar::lemma_comp_ops_wf(c, f(j));
        }
        lemma_sum2_wf(cf, k - 1);
        crate::scalar::lemma_comp_mul_dist(c, s, f(k - 1));
        crate::scalar::lemma_comp_ops_wf(c, s);
        crate::scalar::lemma_comp_ops_wf(c, f(k - 1));
        crate::scalar::lemma_comp_add_congr(
            comp_mul(c, s),
            sum2(cf, k - 1),
            comp_mul(c, f(k - 1)),
            cf(k - 1),
        );
        crate::scalar::lemma_comp_ops_wf(comp_mul(c, s), comp_mul(c, f(k - 1)));
        crate::scalar::lemma_comp_ops_wf(sum2(cf, k - 1), cf(k - 1));
        lemma_sum2_wf(f, k);
        crate::scalar::lemma_comp_ops_wf(c, sum2(f, k));
        crate::scalar::lemma_comp_eq_trans(
            comp_mul(c, sum2(f, k)),
            comp_add(comp_mul(c, s), comp_mul(c, f(k - 1))),
            sum2(cf, k),
        );
    }
}

/// Sums add pointwise, exactly.
pub proof fn lemma_sum2_split(
    f: spec_fn(int) -> Comp,
    g: spec_fn(int) -> Comp,
    fg: spec_fn(int) -> Comp,
    k: int,
)
    requires
        forall|j: int| 0 <= j < k ==> #[trigger] fg(j) == comp_add(f(j), g(j)),
    ensures
        sum2(fg, k) == comp_add(sum2(f, k), sum2(g, k)),
    decreases k,
{
    if k > 0 {
        lemma_sum2_split(f, g, fg, k - 1);
        crate::scalar::lemma_comp_add_rearrange(sum2(f, k - 1), sum2(g, k - 1), f(k - 1), g(k - 1));
    }
}

/// A double sum over a rectangle can be exchanged, exactly.
pub proof fn lemma_sum2_swap(g: spec_fn(int, int) -> Comp, rows: int, cols: int)
    ensures
        sum2(|k: int| sum2(|j: int| g(k, j), cols), rows) == sum2(
            |j: int| sum2(|k: int| g(k, j), rows),
            cols,
        ),
    decreases rows,
{
    let rhs_f = |j: int| sum2(|k: int| g(k, j), rows);
    if rows <= 0 {
        let zf = |j: int| comp_zero();
        assert forall|j: int| 0 <= j < cols implies #[trigger] rhs_f(j) == zf(j) by {
            assert(sum2(|k: int| g(k, j), rows) == comp_zero());
        }
        lemma_sum2_ext(rhs_f, zf, cols);
        lemma_sum2_zero(zf, cols);
    } else {
        lemma_sum2_swap(g, rows - 1, cols);
        let prev_f = |j: int| sum2(|k: int| g(k, j), rows - 1);
        let last_f = |j: int| g(rows - 1, j);
        assert forall|j: int| 0 <= j < cols implies #[trigger] rhs_f(j) == comp_add(
            prev_f(j),
            last_f(j),
        ) by {
            assert(sum2(|k: int| g(k, j), rows) == comp_add(
                sum2(|k: int| g(k, j), rows - 1),
                g(rows - 1, j),
            ));
        }
        lemma_sum2_split(prev_f, last_f, rhs_f, cols);
    }
}

/// A sum that is zero except at one index denotes that entry.
pub proof fn lemma_sum2_delta(f: spec_fn(int) -> Comp, x: Comp, i: int, k: int)
    requires
        0 <= i,
        forall|j: int|
            0 <= j < k ==> #[trigger] f(j) == if j == i {
                x
            } else {
                comp_zero()
            },
    ensures
        sum2(f, k) == if i < k {
            x
        } else {
            comp_zero()
        },
    decreases k,
{
    if k > 0 {
        lemma_sum2_delta(f, x, i, k - 1);
    }
}

/// One coordinate of the orthonormal round trip: entry `i` of
/// `transpose(m) * (m * v)` denotes `v[i]`.
proof fn lemma_round_trip_entry(m: Seq<Seq<Comp>>, v: Seq<Comp>, i: int)
    requires
        mat_wf_model(m, m.len() as int),
        crate::vector::seq_wf(v),
        v.len() == m.len(),
        is_orthonormal_spec(m),
        0 <= i < m.len(),
    ensures
        comp_eq(mat_vec_spec(transpose_spec(m), mat_vec_spec(m, v))[i], v[i]),
{
    let n = m.len() as int;
    let w = mat_vec_spec(m, v);
    let t = transpose_spec(m);
    assert forall|k: int, j: int| 0 <= k < n && 0 <= j < n implies comp_wf(#[trigger] m[k][j]) by {
        assert(seq_wf(m[k]));
    }
    assert(mat_vec_spec(t, w)[i] == row_dot(t[i], w));
    assert(t[i].len() == n);
    let g0 = |k: int| comp_mul(m[k][i], w[k]);
    assert forall|k: int| 0 <= k < n implies #[trigger] comp_mul(t[i][k], w[k]) == g0(k) by {
        assert(t[i][k] == m[k][i]);
    }
    lemma_sum2_ext(|kk: int| comp_mul(t[i][kk], w[kk]), g0, n);
    assert(row_dot(t[i], w) == sum2(g0, n));
    // Pull the transposed entry into each row sum.
    let h = |k: int| sum2(|j: int| comp_mul(m[k][i], comp_mul(m[k][j], v[j])), n);
    assert forall|k: int|
        0 <= k < n implies comp_wf(#[trigger] g0(k)) && comp_wf(h(k)) && comp_eq(g0(k), h(k)) by {
        assert(w[k] == row_dot(m[k], v));
        assert(m[k].len() == n);
        let f_in = |j: int| comp_mul(m[k][j], v[j]);
        let cf = |j: int| comp_mul(m[k][i], comp_mul(m[k][j], v[j]));
        assert forall|j: int| 0 <= j < n implies comp_wf(#[trigger] f_in(j)) by {
            crate::scalar::lemma_comp_ops_wf(m[k][j], v[j]);
        }
        lemma_sum2_mul_left(m[k][i], f_in, cf, n);
        assert(sum2(f_in, n) == w[k]);
        lemma_sum2_wf(f_in, n);
        crate::scalar::lemma_comp_ops_wf(m[k][i], w[k]);
        assert forall|j: int| 0 <= j < n implies comp_wf(#[trigger] cf(j)) by {
            crate::scalar::lemma_comp_ops_wf(m[k][j], v[j]);
            crate::scalar::lemma_comp_ops_wf(m[k][i], comp_mul(m[k][j], v[j]));
        }
        lemma_sum2_wf(cf, n);
        assert(h(k) == sum2(cf, n));
    }
    assert forall|k: int| 0 <= k < n implies comp_wf(#[trigger] h(k)) by {
        assert(comp_eq(g0(k), h(k)));
    }
    lemma_sum2_congr(g0, h, n);
    // Exchange the two sums.
    let gg = |k: int, j: int| comp_mul(m[k][i], comp_mul(m[k][j], v[j]));
    lemma_sum2_swap(gg, n, n);
    assert forall|k: int| 0 <= k < n implies #[trigger] h(k) == sum2(|j: int| gg(k, j), n) by {
        lemma_sum2_ext(
            |j: int| comp_mul(m[k][i], comp_mul(m[k][j], v[j])),
            |j: int| gg(k, j),
            n,
        );
    }
    lemma_sum2_ext(h, |k: int| sum2(|j: int| gg(k, j), n), n);
    let swapped = |j: int| sum2(|k: int| gg(k, j), n);
    // Each column sum denotes the Gram entry times the coordinate.
    let tf = |j: int|
        if j == i {
            v[i]
        } else {
            comp_zero()
        };
    assert forall|j: int|
        0 <= j < n implies comp_wf(#[trigger] swapped(j)) && comp_wf(tf(j)) && comp_eq(
        swapped(j),
        tf(j),
    ) by {
        let q = |k: int| comp_mul(m[k][i], m[k][j]);
        let vq = |k: int| comp_mul(v[j], q(k));
        assert forall|k: int| 0 <= k < n implies #[trigger] gg(k, j) == vq(k) by {
            crate::scalar::lemma_comp_mul_assoc(m[k][i], m[k][j], v[j]);
            crate::scalar::lemma_comp_mul_comm(comp_mul(m[k][i], m[k][j]), v[j]);
        }
        lemma_sum2_ext(|k: int| gg(k, j), vq, n);
        assert forall|k: int| 0 <= k < n implies comp_wf(#[trigger] q(k)) by {
            crate::scalar::lemma_comp_ops_wf(m[k][i], m[k][j]);
        }
        lemma_sum2_mul_left(v[j], q, vq, n);
        assert(column_spec(m, i).len() == n);
        assert forall|k: int|
            0 <= k < n implies #[trigger] comp_mul(column_spec(m, i)[k], column_spec(m, j)[k])
            == q(k) by {
            assert(column_spec(m, i)[k] == m[k][i]);
            assert(column_spec(m, j)[k] == m[k][j]);
        }
        lemma_sum2_ext(|kk: int| comp_mul(column_spec(m, i)[kk], column_spec(m, j)[kk]), q, n);
        assert(gram_spec(m, i, j) == sum2(q, n));
        let delta = if i == j {
            comp_one()
        } else {
            comp_zero()
        };
        assert(comp_eq(gram_spec(m, i, j), delta));
        lemma_sum2_wf(q, n);
        crate::scalar::lemma_comp_mul_congr(v[j], v[j], sum2(q, n), delta);
        if j == i {
            assert(comp_eq(comp_mul(v[j], comp_one()), v[i])) by (nonlinear_arith)
                requires
                    v[j] == v[i],
                    v[i].d > 0,
            ;
        } else {
            assert(comp_eq(comp_mul(v[j], comp_zero()), comp_zero())) by (nonlinear_arith)
                requires
                    v[j].d > 0,
            ;
        }
        assert forall|k: int| 0 <= k < n implies comp_wf(#[trigger] vq(k)) by {
            crate::scalar::lemma_comp_ops_wf(m[k][i], m[k][j]);
            crate::scalar::lemma_comp_ops_wf(v[j], q(k));
        }
        lemma_sum2_wf(vq, n);
        crate::scalar::lemma_comp_ops_wf(v[j], sum2(q, n));
        crate::scalar::lemma_comp_ops_wf(v[j], delta);
        crate::scalar::lemma_comp_eq_trans(
            sum2(vq, n),
            comp_mul(v[j], sum2(q, n)),
            comp_mul(v[j], delta),
        );
        crate::scalar::lemma_comp_eq_trans(sum2(vq, n), comp_mul(v[j], delta), tf(j));
    }
    lemma_sum2_congr(swapped, tf, n);
    lemma_sum2_delta(tf, v[i], i, n);
    assert(sum2(tf, n) == v[i]);
    lemma_sum2_wf(g0, n);
    lemma_sum2_wf(h, n);
    crate::scalar::lemma_comp_eq_trans(sum2(g0, n), sum2(h, n), v[i]);
}

/// Changing coordinates to an orthonormal basis and back through the
/// standard basis is the identity: for an orthonormal matrix the
/// transpose undoes the transform, so `transpose(m) * (m * v)` denotes
/// `v` again.
pub proof fn lemma_orthonormal_round_trip(m: Seq<Seq<Comp>>, v: Seq<Comp>)
    requires
        mat_wf_model(m, m.len() as int),
        crate::vector::seq_wf(v),
        v.len() == m.len(),
        is_orthonormal_spec(m),
    ensures
        crate::vector::vec_eq_spec(mat_vec_spec(transpose_spec(m), mat_vec_spec(m, v)), v),
{
    let u = mat_vec_spec(transpose_spec(m), mat_vec_spec(m, v));
    assert(u.len() == v.len());
    assert forall|i: int| 0 <= i < u.len() implies comp_eq(#[trigger] u[i], #[trigger] v[i]) by {
        lemma_round_trip_entry(m, v, i);
    }
}

/// The transpose of a well-formed square model is one.
pub proof fn lemma_transpose_wf_model(m: Seq<Seq<Comp>>, n: int)
    requires
        mat_wf_model(m, n),
    ensures
        mat_wf_model(transpose_spec(m), n),
{
    let t = transpose_spec(m);
    assert forall|i: int| 0 <= i < n implies (#[trigger] t[i]).len() == n && seq_wf(t[i]) by {
        assert forall|j: int| 0 <= j < n implies comp_wf(#[trigger] t[i][j]) by {
            assert(t[i][j] == m[j][i]);
            assert(seq_wf(m[j]));
        }
    }
}

/// Transposing twice gives the matrix back, exactly.
pub proof fn lemma_transpose_involution(m: Seq<Seq<Comp>>, n: int)
    requires
        mat_wf_model(m, n),
    ensures
        transpose_spec(transpose_spec(m)) == m,
{
    let t = transpose_spec(m);
    let tt = transpose_spec(t);
    assert forall|i: int| 0 <= i < n implies #[trigger] tt[i] =~= m[i] by {
        assert(m[i].len() == n);
        assert forall|j: int| 0 <= j < n implies #[trigger] tt[i][j] == m[i][j] by {
            assert(tt[i][j] == t[j][i]);
            assert(t[j][i] == m[i][j]);
        }
    }
    assert(tt =~= m);
}

/// Entries of a matrix-vector product are well formed.
pub proof fn lemma_mat_vec_wf(m: Seq<Seq<Comp>>, v: Seq<Comp>, n: int)
    requires
        mat_wf_model(m, n),
        crate::vector::seq_wf(v),
        v.len() == n,
    ensures
        crate::vector::seq_wf(mat_vec_spec(m, v)),
        mat_vec_spec(m, v).len() == n,
{
    let u = mat_vec_spec(m, v);
    assert forall|i: int| 0 <= i < n implies comp_wf(#[trigger] u[i]) by {
        assert(u[i] == row_dot(m[i], v));
        assert(seq_wf(m[i]) && m[i].len() == n);
        let f = |j: int| comp_mul(m[i][j], v[j]);
        assert forall|j: int| 0 <= j < n implies comp_wf(#[trigger] f(j)) by {
            crate::scalar::lemma_comp_ops_wf(m[i][j], v[j]);
        }
        lemma_sum2_wf(f, n);
        assert(row_dot(m[i], v) == sum2(f, n));
    }
}

/// The matrix-vector product respects denotational equality of the
/// coordinates.
pub proof fn lemma_mat_vec_congr(m: Seq<Seq<Comp>>, x: Seq<Comp>, y: Seq<Comp>, n: int)
    requires
        mat_wf_model(m, n),
        crate::vector::seq_wf(x),
        crate::vector::seq_wf(y),
        x.len() == n,
        y.len() == n,
        forall|j: int| 0 <= j < n ==> comp_eq(#[trigger] x[j], #[trigger] y[j]),
    ensures
        forall|i: int|
            0 <= i < n ==> comp_eq(
                #[trigger] mat_vec_spec(m, x)[i],
                #[trigger] mat_vec_spec(m, y)[i],
            ),
{
    assert forall|i: int|
        0 <= i < n implies comp_eq(
        #[trigger] mat_vec_spec(m, x)[i],
        #[trigger] mat_vec_spec(m, y)[i],
    ) by {
        assert(mat_vec_spec(m, x)[i] == row_dot(m[i], x));
        assert(mat_vec_spec(m, y)[i] == row_dot(m[i], y));
        assert(seq_wf(m[i]) && m[i].len() == n);
        let fx = |j: int| comp_mul(m[i][j], x[j]);
        let fy = |j: int| comp_mul(m[i][j], y[j]);
        assert forall|j: int|
            0 <= j < n implies comp_wf(#[trigger] fx(j)) && comp_wf(fy(j)) && comp_eq(
            fx(j),
            fy(j),
        ) by {
            crate::scalar::lemma_comp_ops_wf(m[i][j], x[j]);
            crate::scalar::lemma_comp_ops_wf(m[i][j], y[j]);
            crate::scalar::lemma_comp_mul_congr(m[i][j], m[i][j], x[j], y[j]);
        }
        assert forall|j: int| 0 <= j < n implies comp_wf(#[trigger] fy(j)) by {
            assert(comp_eq(fx(j), fy(j)));
        }
        lemma_sum2_congr(fx, fy, n);
        assert(row_dot(m[i], x) == sum2(fx, n));
        assert(row_dot(m[i], y) == sum2(fy, n));
    }
}

/// Converting coordinates to another orthonormal basis and back again
/// reproduces them: the full two-basis round trip through the standard
/// basis denotes the identity.  A genuinely orthonormal matrix has
/// orthonormal rows as well as columns; both facts are taken as given
/// here, since the library does not derive one from the other.
pub proof fn lemma_double_change_round_trip(m1: Seq<Seq<Comp>>, m2: Seq<Seq<Comp>>, s: Seq<Comp>)
    requires
        mat_wf_model(m1, m1.len() as int),
        mat_wf_model(m2, m2.len() as int),
        m1.len() == m2.len(),
        crate::vector::seq_wf(s),
        s.len() == m1.len(),
        is_orthonormal_spec(m1),
        is_orthonormal_spec(transpose_spec(m2)),
    ensures
        crate::vector::vec_eq_spec(
            mat_vec_spec(
                transpose_spec(m1),
                mat_vec_spec(m2, mat_vec_spec(transpose_spec(m2), mat_vec_spec(m1, s))),
            ),
            s,
        ),
{
    let n = m1.len() as int;
    let y = mat_vec_spec(m1, s);
    let t2 = transpose_spec(m2);
    let s2 = mat_vec_spec(t2, y);
    let y2 = mat_vec_spec(m2, s2);
    let t1 = transpose_spec(m1);
    let s3 = mat_vec_spec(t1, y2);
    lemma_mat_vec_wf(m1, s, n);
    lemma_transpose_wf_model(m2, n);
    lemma_mat_vec_wf(t2, y, n);
    lemma_mat_vec_wf(m2, s2, n);
    lemma_transpose_wf_model(m1, n);
    lemma_mat_vec_wf(t1, y2, n);
    lemma_mat_vec_wf(t1, y, n);
    lemma_transpose_involution(m2, n);
    lemma_orthonormal_round_trip(t2, y);
    lemma_orthonormal_round_trip(m1, s);
    lemma_mat_vec_congr(t1, y2, y, n);
    assert forall|i: int| 0 <= i < n implies comp_eq(#[trigger] s3[i], #[trigger] s[i]) by {
        assert(comp_eq(s3[i], mat_vec_spec(t1, y)[i]));
        assert(comp_eq(mat_vec_spec(t1, y)[i], s[i]));
        crate::scalar::lemma_comp_eq_trans(s3[i], mat_vec_spec(t1, y)[i], s[i]);
    }
}

// ---------------------------------------------------------------------------
// The executable matrix.
// ---------------------------------------------------------------------------

/// A square matrix of scalars, stored by rows.
#[derive(Debug)]
pub struct Matrix {
    n: usize,
    rows: Vec<Vector>,
}

impl Clone for Matrix {
    fn clone(&self) -> (r: Self)
        ensures
            r@ == self@,
            self.wf() ==> r.wf(),
    {
        let mut rows: Vec<Vector> = Vec::new();
        let n = self.rows.len();
        for i in 0..n
            invariant
                n == self.rows@.len(),
                rows@.len() == i,
                forall|j: int|
                    0 <= j < i ==> (#[trigger] rows@[j])@ == self.rows@[j]@ && (self.rows@[j].wf()
                        ==> rows@[j].wf()),
        {
            rows.push(self.rows[i].clone());
        }
        let r = Matrix { n: self.n, rows };
        proof {
            assert(r@ =~= self@);
        }
        r
    }
}

impl View for Matrix {
    type V = Seq<Seq<Comp>>;

    closed spec fn view(&self) -> Seq<Seq<Comp>> {
        Seq::new(self.rows@.len(), |i: int| self.rows@[i]@)
    }
}

impl Matrix {
    /// Rows and columns both count `n` and every entry is validly
    /// stored.
    pub closed spec fn wf(&self) -> bool {
        self.rows@.len() == self.n && (forall|i: int|
            0 <= i < self.rows@.len() ==> (#[trigger] self.rows@[i]).wf() && self.rows@[i]@.len()
                == self.n)
    }

    /// A well-formed matrix denotes a square grid of well-formed values.
    pub proof fn lemma_wf_model(&self)
        requires
            self.wf(),
        ensures
            mat_wf_model(self@, self@.len() as int),
    {
        assert forall|i: int|
            0 <= i < self@.len() implies (#[trigger] self@[i]).len() == self@.len() && seq_wf(
            self@[i],
        ) by {
            assert(self@[i] == self.rows@[i]@);
            self.rows@[i].lemma_wf_model();
        }
    }

    /// Builds a matrix from its rows; `LengthMismatch` unless every row
    /// is as long as there are rows.
    pub fn from_rows(rows: Vec<Vector>) -> (r: Result<Matrix, AlgebraError>)
        requires
            forall|i: int| 0 <= i < rows@.len() ==> (#[trigger] rows@[i]).wf(),
        ensures
            r is Ok <==> (forall|i: int| 0 <= i < rows@.len() ==> (#[trigger] rows@[i])@.len() == rows@.len()),
            r matches Ok(m) ==> m.wf() && m@.len() == rows@.len() && (forall|i: int|
                0 <= i < rows@.len() ==> m@[i] == (#[trigger] rows@[i])@),
            r matches Err(e) ==> e == AlgebraError::LengthMismatch,
    {
        let n = rows.len();
        for i in 0..n
            invariant
                n == rows@.len(),
                forall|j: int| 0 <= j < n ==> (#[trigger] rows@[j]).wf(),
                forall|j: int| 0 <= j < i ==> (#[trigger] rows@[j])@.len() == n,
        {
            if rows[i].len() != n {
                return Err(AlgebraError::LengthMismatch);
            }
        }
        let m = Matrix { n, rows };
        Ok(m)
    }

    /// The identity transform of dimension `n`.
    pub fn identity(n: usize) -> (r: Matrix)
        ensures
            r.wf(),
            r@ == identity_spec(n as int),
            r@.len() == n,
    {
        let mut rows: Vec<Vector> = Vec::new();
        for i in 0..n
            invariant
                rows@.len() == i,
                forall|j: int|
                    0 <= j < i ==> (#[trigger] rows@[j]).wf() && rows@[j]@ == canonical_spec(
                        n as int,
                        j,
                    ),
        {
            let row = match Vector::canonical_basis_element(n, i) {
                Ok(v) => v,
                Err(_) => Vector::zero(n),
            };
            rows.push(row);
        }
        let m = Matrix { n, rows };
        proof {
            assert(m@ =~= identity_spec(n as int));
        }
        m
    }

    /// The dimension of the transform.
    pub fn dimension(&self) -> (r: usize)
        ensures
            r == self@.len(),
    {
        proof {
            assert(self@.len() == self.rows@.len());
        }
        self.rows.len()
    }

    /// The transpose.
    pub fn transpose(&self) -> (r: Matrix)
        requires
            self.wf(),
        ensures
            r.wf(),
            r@ == transpose_spec(self@),
    {
        let n = self.rows.len();
        let mut rows: Vec<Vector> = Vec::new();
        for i in 0..n
            invariant
                n == self.rows@.len(),
                self.wf(),
                rows@.len() == i,
                forall|j: int|
                    0 <= j < i ==> (#[trigger] rows@[j]).wf() && rows@[j]@ == Seq::new(
                        n as nat,
                        |k: int| self@[k][j],
                    ),
        {
            let mut entries: Vec<Scalar> = Vec::new();
            for j in 0..n
                invariant
                    n == self.rows@.len(),
                    self.wf(),
                    i < n,
                    entries@.len() == j,
                    forall|k: int|
                        0 <= k < j ==> (#[trigger] entries@[k]).wf() && entries@[k]@
                            == self@[k][i as int],
            {
                proof {
                    assert(self@[j as int] == self.rows@[j as int]@);
                }
                entries.push(self.rows[j].at(i));
            }
            let row = Vector::new(entries);
            proof {
                assert forall|k: int| 0 <= k < n implies #[trigger] row@[k] == self@[k][i as int] by {
                    assert(row@[k] == entries@[k]@);
                }
                assert(row@ =~= Seq::new(n as nat, |k: int| self@[k][i as int]));
            }
            rows.push(row);
        }
        let m = Matrix { n, rows };
        proof {
            assert forall|i: int, j: int|
                0 <= i < n && 0 <= j < n implies m@[i][j] == transpose_spec(self@)[i][j] by {
                assert(m@[i] == rows@[i]@);
            }
            assert forall|i: int| 0 <= i < n implies #[trigger] m@[i] =~= transpose_spec(
                self@,
            )[i] by {
                assert(m@[i] == rows@[i]@);
            }
            assert(m@ =~= transpose_spec(self@));
        }
        m
    }

    /// The `index`-th column: the `index`-th basis vector of the
    /// transform, expressed in the standard basis.
    pub fn column(&self, index: usize) -> (r: Result<Vector, AlgebraError>)
        requires
            self.wf(),
        ensures
            r is Ok <==> index < self@.len(),
            r matches Ok(v) ==> v.wf() && v@ == column_spec(self@, index as int),
            r matches Err(e) ==> e == AlgebraError::IndexOutOfRange,
    {
        let n = self.rows.len();
        if index >= n {
            return Err(AlgebraError::IndexOutOfRange);
        }
        let mut entries: Vec<Scalar> = Vec::new();
        for j in 0..n
            invariant
                n == self.rows@.len(),
                self.wf(),
                index < n,
                entries@.len() == j,
                forall|k: int|
                    0 <= k < j ==> (#[trigger] entries@[k]).wf() && entries@[k]@
                        == self@[k][index as int],
        {
            proof {
                assert(self@[j as int] == self.rows@[j as int]@);
            }
            entries.push(self.rows[j].at(index));
        }
        let v = Vector::new(entries);
        proof {
            assert forall|k: int| 0 <= k < n implies #[trigger] v@[k] == self@[k][index as int] by {
                assert(v@[k] == entries@[k]@);
            }
            assert(v@ =~= column_spec(self@, index as int));
        }
        Ok(v)
    }

    /// The dot product of a full row with a vector of the same length,
    /// without conjugation.
    fn row_dot_exec(row: &Vector, v: &Vector) -> (r: Result<Scalar, AlgebraError>)
        requires
            row.wf(),
            v.wf(),
            row@.len() == v@.len(),
        ensures
            r is Ok <==> row_dot_fits(row@, v@, row@.len() as int),
            r matches Ok(s) ==> s.wf() && s@ == row_dot(row@, v@),
            r matches Err(e) ==> e == AlgebraError::Overflow,
    {
        let n = row.len();
        let mut acc = Scalar::zero();
        for j in 0..n
            invariant
                n == row@.len(),
                n == v@.len(),
                row.wf(),
                v.wf(),
                acc.wf(),
                acc@ == row_dot_prefix(row@, v@, j as int),
                row_dot_fits(row@, v@, j as int),
        {
            let p = match row.at(j).mul(&v.at(j)) {
                Ok(p) => p,
                Err(e) => {
                    proof {
                        if row_dot_fits(row@, v@, n as int) {
                            lemma_row_dot_fits_mono(row@, v@, n as int, j as int + 1);
                        }
                    }
                    return Err(e);
                },
            };
            acc = match acc.add(&p) {
                Ok(s) => s,
                Err(e) => {
                    proof {
                        if row_dot_fits(row@, v@, n as int) {
                            lemma_row_dot_fits_mono(row@, v@, n as int, j as int + 1);
                        }
                    }
                    return Err(e);
                },
            };
        }
        Ok(acc)
    }

    /// The matrix-vector product `self * v`; `LengthMismatch` unless the
    /// vector's length is the dimension.
    pub fn mul_vector(&self, v: &Vector) -> (r: Result<Vector, AlgebraError>)
        requires
            self.wf(),
            v.wf(),
        ensures
            r is Ok <==> v@.len() == self@.len() && mat_vec_fits(self@, v@),
            r matches Ok(u) ==> u.wf() && u@ == mat_vec_spec(self@, v@),
            r matches Err(e) ==> (e == AlgebraError::LengthMismatch && v@.len() != self@.len()) || (
            e == AlgebraError::Overflow && v@.len() == self@.len()),
    {
        let n = self.rows.len();
        if v.len() != n {
            return Err(AlgebraError::LengthMismatch);
        }
        let mut entries: Vec<Scalar> = Vec::new();
        for i in 0..n
            invariant
                n == self.rows@.len(),
                self.wf(),
                v.wf(),
                n == v@.len(),
                entries@.len() == i,
                forall|k: int|
                    0 <= k < i ==> (#[trigger] entries@[k]).wf() && entries@[k]@ == row_dot(
                        self@[k],
                        v@,
                    ),
                forall|k: int|
                    0 <= k < i ==> row_dot_fits((#[trigger] self.rows@[k])@, v@, n as int),
        {
            proof {
                assert(self@[i as int] == self.rows@[i as int]@);
            }
            let s = match Matrix::row_dot_exec(&self.rows[i], v) {
                Ok(s) => s,
                Err(e) => {
                    return Err(e);
                },
            };
            entries.push(s);
        }
        let u = Vector::new(entries);
        proof {
            assert forall|i: int|
                0 <= i < n implies row_dot_fits(#[trigger] self@[i], v@, self@[i].len() as int) by {
                assert(self@[i] == self.rows@[i]@);
            }
            assert forall|i: int| 0 <= i < n implies #[trigger] u@[i] == row_dot(self@[i], v@) by {
                assert(u@[i] == entries@[i]@);
            }
            assert(u@ =~= mat_vec_spec(self@, v@));
        }
        Ok(u)
    }

    /// Whether the columns have pairwise Gram entries of the identity,
    /// so that the transpose really is the inverse.  The pairwise sums
    /// are computed exactly; a sum that does not fit the stored scalars
    /// reports `Overflow`.
    pub fn is_orthonormal(&self) -> (r: Result<bool, AlgebraError>)
        requires
            self.wf(),
        ensures
            r is Ok <==> gram_fits(self@),
            r matches Ok(b) ==> b == is_orthonormal_spec(self@),
            r matches Err(e) ==> e == AlgebraError::Overflow,
    {
        let t = self.transpose();
        let n = t.rows.len();
        proof {
            assert(n == t@.len() && t@ == transpose_spec(self@));
            assert(n == self@.len());
            assert forall|i: int| 0 <= i < n implies #[trigger] t.rows@[i]@ == column_spec(
                self@,
                i,
            ) by {
                assert(t@[i] == t.rows@[i]@);
                let ts = transpose_spec(self@);
                assert forall|k: int| 0 <= k < ts[i].len() implies #[trigger] ts[i][k]
                    == column_spec(self@, i)[k] by {
                    assert(ts[i][k] == self@[k][i]);
                }
                assert(ts[i] =~= column_spec(self@, i));
            }
        }
        let mut all_ok = true;
        for i in 0..n
            invariant
                n == t.rows@.len(),
                n == self@.len(),
                t.wf(),
                self.wf(),
                forall|a: int| 0 <= a < n ==> #[trigger] t.rows@[a]@ == column_spec(self@, a),
                all_ok == (forall|a: int, b: int|
                    0 <= a < i && 0 <= b < n ==> comp_eq(
                        #[trigger] gram_spec(self@, a, b),
                        if a == b {
                            comp_one()
                        } else {
                            comp_zero()
                        },
                    )),
                forall|a: int, b: int|
                    0 <= a < i && 0 <= b < n ==> #[trigger] row_dot_fits(
                        column_spec(self@, a),
                        column_spec(self@, b),
                        n as int,
                    ),
        {
            for j in 0..n
                invariant
                    n == t.rows@.len(),
                    n == self@.len(),
                    t.wf(),
                    self.wf(),
                    i < n,
                    forall|a: int| 0 <= a < n ==> #[trigger] t.rows@[a]@ == column_spec(self@, a),
                    all_ok == ((forall|a: int, b: int|
                        0 <= a < i && 0 <= b < n ==> comp_eq(
                            #[trigger] gram_spec(self@, a, b),
                            if a == b {
                                comp_one()
                            } else {
                                comp_zero()
                            },
                        )) && (forall|b: int|
                        0 <= b < j ==> comp_eq(
                            #[trigger] gram_spec(self@, i as int, b),
                            if i as int == b {
                                comp_one()
                            } else {
                                comp_zero()
                            },
                        ))),
                    forall|a: int, b: int|
                        0 <= a < i && 0 <= b < n ==> #[trigger] row_dot_fits(
                            column_spec(self@, a),
                            column_spec(self@, b),
                            n as int,
                        ),
                    forall|b: int|
                        0 <= b < j ==> #[trigger] row_dot_fits(
                            column_spec(self@, i as int),
                            column_spec(self@, b),
                            n as int,
                        ),
            {
                let g = match Matrix::row_dot_exec(&t.rows[i], &t.rows[j]) {
                    Ok(g) => g,
                    Err(e) => {
                        proof {
                            assert(!row_dot_fits(
                                column_spec(self@, i as int),
                                column_spec(self@, j as int),
                                n as int,
                            ));
                        }
                        return Err(e);
                    },
                };
                let expected = if i == j {
                    Scalar::one()
                } else {
                    Scalar::zero()
                };
                let here = g.equals(&expected);
                proof {
                    assert(g@ == gram_spec(self@, i as int, j as int));
                }
                all_ok = all_ok && here;
            }
        }
        Ok(all_ok)
    }

    /// Denotational equality of the stored transforms.
    pub fn equals(&self, other: &Matrix) -> (r: bool)
        requires
            self.wf(),
            other.wf(),
        ensures
            r == mat_eq_spec(self@, other@),
    {
        let n = self.rows.len();
        if other.rows.len() != n {
            return false;
        }
        for i in 0..n
            invariant
                n == self.rows@.len(),
                n == other.rows@.len(),
                self.wf(),
                other.wf(),
                forall|a: int, b: int|
                    0 <= a < i && 0 <= b < n ==> comp_eq(
                        #[trigger] self@[a][b],
                        #[trigger] other@[a][b],
                    ),
        {
            for j in 0..n
                invariant
                    n == self.rows@.len(),
                    n == other.rows@.len(),
                    self.wf(),
                    other.wf(),
                    i < n,
                    forall|a: int, b: int|
                        0 <= a < i && 0 <= b < n ==> comp_eq(
                            #[trigger] self@[a][b],
                            #[trigger] other@[a][b],
                        ),
                    forall|b: int|
                        0 <= b < j ==> comp_eq(
                            #[trigger] self@[i as int][b],
                            #[trigger] other@[i as int][b],
                        ),
            {
                proof {
                    assert(self@[i as int] == self.rows@[i as int]@);
                    assert(other@[i as int] == other.rows@[i as int]@);
                }
                if !self.rows[i].at(j).equals(&other.rows[i].at(j)) {
                    return false;
                }
            }
        }
        true
    }
}

} // verus!
