//! Why a certificate the search returns refutes the hypotheses: the
//! tableau always describes vectors in the null space of `stateLP`, and the
//! success test makes the final one a nonnegative combination of the
//! hypotheses that sums to zero with a positive weight on a strict one.
use crate::rational::{
    lemma_qadd_assoc, lemma_qadd_comm, lemma_qint, lemma_qmul_assoc, lemma_qmul_comm,
    lemma_qmul_distrib, lemma_qmul_left, lemma_qmul_units, lemma_qnorm, lemma_qnorm_eq,
    lemma_qnorm_id, lemma_qsub_neg, lemma_qzero_ops, lemma_nz, qadd, qdiv, qint, qmul, qneg, qnorm,
    qsub, qwf, qzero,
};
use crate::simplex::{
    certificate, extract, lcm_fold, lemma_lcm_fold, lemma_scaled_cert_shape, scaled_cert, state_lp,
    enter_scan, entering, exit_scan, exiting, free_rest, gauss_tableau, run, success, first_nz,
    gauss_loop, gauss_start, pivot, TabView, m_divrow, m_eliminate, m_subrow, m_swap, GaussState,
    QMat,
};
use crate::tiered::{lemma_extract_nonneg, split_ok};
use crate::types::{atoms_within, hyp_model, hyps_model, Hyp, Ineq};
use crate::verify::{form_coeff, form_weighted_sum, refutes};
use vstd::prelude::*;

verus! {

/// Sums, products and negations of reduced fractions are reduced.
pub proof fn lemma_qops_wf(a: (int, int), b: (int, int))
    requires
        qwf(a),
        qwf(b),
    ensures
        qwf(qadd(a, b)),
        qwf(qmul(a, b)),
        qwf(qsub(a, b)),
        qwf(qneg(a)),
{
    assert(a.1 * b.1 != 0) by (nonlinear_arith)
        requires
            a.1 > 0,
            b.1 > 0,
    ;
    lemma_qnorm(a.0 * b.1 + b.0 * a.1, a.1 * b.1);
    lemma_qnorm(a.0 * b.0, a.1 * b.1);
    lemma_qnorm(a.0 * b.1 - b.0 * a.1, a.1 * b.1);
    lemma_qnorm_id(a);
}

/// `a + (b - a) == b`.
pub proof fn lemma_qadd_sub_cancel(a: (int, int), b: (int, int))
    requires
        qwf(a),
        qwf(b),
    ensures
        qadd(a, qsub(b, a)) == b,
        qadd(qsub(b, a), a) == b,
{
    lemma_qsub_neg(b, a);
    lemma_qops_wf(a, b);
    lemma_qadd_comm(a, qadd(b, qneg(a)));
    lemma_qadd_assoc(b, qneg(a), a);
    lemma_qadd_comm(qneg(a), a);
    lemma_qsub_neg(a, a);
    lemma_qnorm_id(b);
    lemma_qadd_comm(qsub(b, a), a);
}

/// Exchanging the middle terms of a sum of four.
pub proof fn lemma_qadd_swap_mid(a: (int, int), b: (int, int), c: (int, int), d: (int, int))
    requires
        qwf(a),
        qwf(b),
        qwf(c),
        qwf(d),
    ensures
        qadd(qadd(a, b), qadd(c, d)) == qadd(qadd(a, c), qadd(b, d)),
{
    lemma_qops_wf(a, b);
    lemma_qops_wf(c, d);
    lemma_qops_wf(a, c);
    lemma_qops_wf(b, d);
    lemma_qops_wf(b, c);
    lemma_qadd_assoc(a, b, qadd(c, d));
    lemma_qadd_assoc(b, c, d);
    lemma_qadd_comm(b, c);
    lemma_qadd_assoc(c, b, d);
    lemma_qadd_assoc(a, c, qadd(b, d));
}

/// The sum of `f(0), .., f(n - 1)`.
pub open spec fn rsum(f: spec_fn(int) -> (int, int), n: int) -> (int, int)
    decreases n,
{
    if n <= 0 {
        qzero()
    } else {
        qadd(rsum(f, n - 1), f(n - 1))
    }
}

/// `f(0), .., f(n - 1)` are reduced.
pub open spec fn wf_upto(f: spec_fn(int) -> (int, int), n: int) -> bool {
    forall|k: int| 0 <= k < n ==> qwf(#[trigger] f(k))
}

pub proof fn lemma_rsum_wf(f: spec_fn(int) -> (int, int), n: int)
    requires
        wf_upto(f, n),
    ensures
        qwf(rsum(f, n)),
    decreases n,
{
    lemma_qzero_ops(qzero());
    if n > 0 {
        lemma_rsum_wf(f, n - 1);
        lemma_qops_wf(rsum(f, n - 1), f(n - 1));
    }
}

/// Sums of equal terms are equal.
pub proof fn lemma_rsum_ext(f: spec_fn(int) -> (int, int), g: spec_fn(int) -> (int, int), n: int)
    requires
        forall|k: int| 0 <= k < n ==> #[trigger] f(k) == g(k),
    ensures
        rsum(f, n) == rsum(g, n),
    decreases n,
{
    if n > 0 {
        lemma_rsum_ext(f, g, n - 1);
    }
}

/// The sum of termwise sums.
pub proof fn lemma_rsum_add(f: spec_fn(int) -> (int, int), g: spec_fn(int) -> (int, int), n: int)
    requires
        wf_upto(f, n),
        wf_upto(g, n),
    ensures
        rsum(|k: int| qadd(f(k), g(k)), n) == qadd(rsum(f, n), rsum(g, n)),
    decreases n,
{
    lemma_qzero_ops(qzero());
    lemma_qnorm_id(qzero());
    if n > 0 {
        lemma_rsum_add(f, g, n - 1);
        lemma_rsum_wf(f, n - 1);
        lemma_rsum_wf(g, n - 1);
        lemma_qadd_swap_mid(rsum(f, n - 1), rsum(g, n - 1), f(n - 1), g(n - 1));
    }
}

/// A common factor comes out of a sum.
pub proof fn lemma_rsum_scale(c: (int, int), f: spec_fn(int) -> (int, int), n: int)
    requires
        qwf(c),
        wf_upto(f, n),
    ensures
        rsum(|k: int| qmul(c, f(k)), n) == qmul(c, rsum(f, n)),
    decreases n,
{
    lemma_qzero_ops(qzero());
    lemma_qnorm_id(c);
    if n > 0 {
        lemma_rsum_scale(c, f, n - 1);
        lemma_rsum_wf(f, n - 1);
        lemma_qmul_distrib(c, rsum(f, n - 1), f(n - 1));
    }
}

/// A sum of zeros is zero.
pub proof fn lemma_rsum_zero(f: spec_fn(int) -> (int, int), n: int)
    requires
        forall|k: int| 0 <= k < n ==> #[trigger] f(k) == qzero(),
    ensures
        rsum(f, n) == qzero(),
    decreases n,
{
    lemma_qzero_ops(qzero());
    lemma_qnorm_id(qzero());
    if n > 0 {
        lemma_rsum_zero(f, n - 1);
    }
}

/// A sum whose terms vanish but at `i` is its term at `i`.
pub proof fn lemma_rsum_point(f: spec_fn(int) -> (int, int), n: int, i: int)
    requires
        0 <= i < n,
        qwf(f(i)),
        forall|k: int| 0 <= k < n && k != i ==> #[trigger] f(k) == qzero(),
    ensures
        rsum(f, n) == f(i),
    decreases n,
{
    lemma_qzero_ops(qzero());
    if n - 1 == i {
        lemma_rsum_zero(f, n - 1);
        lemma_qnorm_id(f(i));
        lemma_qadd_comm(qzero(), f(i));
    } else {
        lemma_rsum_point(f, n - 1, i);
        lemma_qnorm_id(f(i));
    }
}

/// Changing the term at `i` changes the sum by the difference.
pub proof fn lemma_rsum_update(f: spec_fn(int) -> (int, int), g: spec_fn(int) -> (int, int), n: int, i: int)
    requires
        0 <= i < n,
        wf_upto(f, n),
        wf_upto(g, n),
        forall|k: int| 0 <= k < n && k != i ==> #[trigger] f(k) == g(k),
    ensures
        rsum(g, n) == qadd(rsum(f, n), qsub(g(i), f(i))),
{
    let d = |k: int| qsub(g(k), f(k));
    assert forall|k: int| 0 <= k < n implies qwf(#[trigger] d(k)) by {
        lemma_qops_wf(g(k), f(k));
    }
    assert forall|k: int| 0 <= k < n implies #[trigger] g(k) == qadd(f(k), d(k)) by {
        lemma_qadd_sub_cancel(f(k), g(k));
    }
    lemma_rsum_ext(g, |k: int| qadd(f(k), d(k)), n);
    lemma_rsum_add(f, d, n);
    assert forall|k: int| 0 <= k < n && k != i implies #[trigger] d(k) == qzero() by {
        lemma_qsub_neg(f(k), f(k));
    }
    lemma_rsum_point(d, n, i);
}


/// `(a - b) + (c - d) == (a + c) - (b + d)`.
pub proof fn lemma_qsub_add(a: (int, int), b: (int, int), c: (int, int), d: (int, int))
    requires
        qwf(a),
        qwf(b),
        qwf(c),
        qwf(d),
    ensures
        qadd(qsub(a, b), qsub(c, d)) == qsub(qadd(a, c), qadd(b, d)),
{
    lemma_qsub_neg(a, b);
    lemma_qsub_neg(c, d);
    lemma_qops_wf(a, c);
    lemma_qops_wf(b, d);
    lemma_qsub_neg(qadd(a, c), qadd(b, d));
    lemma_qsub_neg(b, d);
    lemma_qops_wf(b, b);
    lemma_qops_wf(d, d);
    lemma_qadd_swap_mid(a, qneg(b), c, qneg(d));
}

/// Changing the terms at `i` and `j` without changing their total keeps
/// the sum.
pub proof fn lemma_rsum_update2(f: spec_fn(int) -> (int, int), g: spec_fn(int) -> (int, int), n: int, i: int, j: int)
    requires
        0 <= i < n,
        0 <= j < n,
        i != j,
        wf_upto(f, n),
        wf_upto(g, n),
        forall|k: int| 0 <= k < n && k != i && k != j ==> #[trigger] f(k) == g(k),
        qadd(g(i), g(j)) == qadd(f(i), f(j)),
    ensures
        rsum(g, n) == rsum(f, n),
{
    let h = |k: int| if k == i { g(i) } else { f(k) };
    assert(wf_upto(h, n));
    lemma_rsum_update(f, h, n, i);
    lemma_rsum_update(h, g, n, j);
    lemma_rsum_wf(f, n);
    lemma_qsub_add(g(i), f(i), g(j), f(j));
    lemma_qops_wf(g(i), f(i));
    lemma_qops_wf(g(j), f(j));
    lemma_qadd_assoc(rsum(f, n), qsub(g(i), f(i)), qsub(g(j), f(j)));
    lemma_qops_wf(f(i), f(j));
    lemma_qsub_neg(qadd(f(i), f(j)), qadd(f(i), f(j)));
    lemma_qnorm_id(rsum(f, n));
}

/// A sum is unchanged by exchanging two of its terms.
pub proof fn lemma_rsum_swap(f: spec_fn(int) -> (int, int), n: int, a: int, b: int)
    requires
        0 <= a < n,
        0 <= b < n,
        wf_upto(f, n),
    ensures
        rsum(|k: int| f(if k == a { b } else if k == b { a } else { k }), n) == rsum(f, n),
{
    let g = |k: int| f(if k == a { b } else if k == b { a } else { k });
    if a != b {
        assert(wf_upto(g, n));
        lemma_qadd_comm(f(a), f(b));
        lemma_rsum_update2(f, g, n, a, b);
    } else {
        lemma_rsum_ext(f, g, n);
    }
}

/// The negated terms sum to the negated sum.
pub proof fn lemma_rsum_neg(f: spec_fn(int) -> (int, int), n: int)
    requires
        wf_upto(f, n),
    ensures
        rsum(|k: int| qneg(f(k)), n) == qneg(rsum(f, n)),
    decreases n,
{
    lemma_qzero_ops(qzero());
    if n > 0 {
        lemma_rsum_neg(f, n - 1);
        lemma_rsum_wf(f, n - 1);
        lemma_qsub_neg(rsum(f, n - 1), f(n - 1));
    }
}

/// Terms beyond `k` that vanish do not count.
pub proof fn lemma_rsum_prefix(f: spec_fn(int) -> (int, int), n: int, k: int)
    requires
        0 <= k <= n,
        wf_upto(f, k),
        forall|i: int| k <= i < n ==> #[trigger] f(i) == qzero(),
    ensures
        rsum(f, n) == rsum(f, k),
    decreases n - k,
{
    if n > k {
        lemma_rsum_prefix(f, n - 1, k);
        lemma_rsum_wf(f, k);
        lemma_qnorm_id(rsum(f, k));
    }
}


/// Every entry is a reduced fraction.
pub open spec fn qmat_wf(m: QMat) -> bool {
    forall|i: int, j: int| qwf(#[trigger] m(i, j))
}

/// Entry `(r, j)` of the product `c * e` over the inner indices `[0, n)`.
pub open spec fn prod_entry(c: QMat, e: QMat, n: int, r: int, j: int) -> (int, int) {
    rsum(|k: int| qmul(c(r, k), e(k, j)), n)
}

/// The first `n` rows of `b` are those of `c * e`.
pub open spec fn factors(b: QMat, c: QMat, e: QMat, n: int) -> bool {
    forall|r: int, j: int| 0 <= r < n ==> #[trigger] b(r, j) == prod_entry(c, e, n, r, j)
}

/// The identity matrix.
pub open spec fn ident() -> QMat {
    |r: int, k: int| if r == k { qint(1) } else { qzero() }
}

pub proof fn lemma_qmul_one_zero(x: (int, int))
    requires
        qwf(x),
    ensures
        qmul(qint(1), x) == x,
        qmul(x, qint(1)) == x,
        qmul(qzero(), x) == qzero(),
        qmul(x, qzero()) == qzero(),
{
    lemma_qint(1, 0);
    lemma_qmul_units(x, qint(1));
    lemma_qmul_comm(qint(1), x);
    lemma_qzero_ops(x);
    lemma_qnorm_id(x);
}

/// `b == ident * b`.
pub proof fn lemma_factor_ident(b: QMat, n: int)
    requires
        qmat_wf(b),
    ensures
        factors(b, ident(), b, n),
        qmat_wf(ident()),
{
    lemma_qint(1, 0);
    lemma_qzero_ops(qzero());
    assert forall|r: int, j: int| 0 <= r < n implies #[trigger] b(r, j) == prod_entry(ident(), b, n, r, j) by {
        let f = |k: int| qmul(ident()(r, k), b(k, j));
        assert forall|k: int| 0 <= k < n && k != r implies #[trigger] f(k) == qzero() by {
            lemma_qmul_one_zero(b(k, j));
        }
        lemma_qmul_one_zero(b(r, j));
        lemma_rsum_point(f, n, r);
    }
}

/// The ring operations keep entries reduced.
pub proof fn lemma_rowops_wf(m: QMat, a: int, b: int, c: (int, int), col: int, n: int)
    requires
        qmat_wf(m),
        qwf(c),
    ensures
        qmat_wf(m_swap(m, a, b)),
        qmat_wf(m_subrow(m, a, b, c)),
        qmat_wf(m_eliminate(m, a, col, n)),
        c.0 != 0 ==> qmat_wf(m_divrow(m, a, c)),
{
    assert forall|i: int, j: int| qwf(#[trigger] m_subrow(m, a, b, c)(i, j)) by {
        lemma_qops_wf(m(a, j), c);
        lemma_qops_wf(m(i, j), qmul(m(a, j), c));
    }
    assert forall|i: int, j: int| qwf(#[trigger] m_eliminate(m, a, col, n)(i, j)) by {
        lemma_qops_wf(m(a, j), m(i, col));
        lemma_qops_wf(m(i, j), qmul(m(a, j), m(i, col)));
    }
    if c.0 != 0 {
        assert forall|i: int, j: int| qwf(#[trigger] m_divrow(m, a, c)(i, j)) by {
            lemma_qmul_units(m(i, j), c);
        }
    }
}

/// Exchanging rows `x` and `y` of `e` exchanges columns `x` and `y` of `c`.
pub proof fn lemma_factor_swap(b: QMat, c: QMat, e: QMat, n: int, x: int, y: int) -> (c2: QMat)
    requires
        factors(b, c, e, n),
        qmat_wf(c),
        qmat_wf(e),
        0 <= x < n,
        0 <= y < n,
    ensures
        factors(b, c2, m_swap(e, x, y), n),
        qmat_wf(c2),
{
    let c2 = |r: int, k: int| c(r, if k == x { y } else if k == y { x } else { k });
    let e2 = m_swap(e, x, y);
    assert forall|r: int, j: int| 0 <= r < n implies #[trigger] b(r, j) == prod_entry(c2, e2, n, r, j) by {
        let f = |k: int| qmul(c(r, k), e(k, j));
        assert(wf_upto(f, n)) by {
            assert forall|k: int| 0 <= k < n implies qwf(#[trigger] f(k)) by {
                lemma_qops_wf(c(r, k), e(k, j));
            }
        }
        lemma_rsum_swap(f, n, x, y);
        lemma_rsum_ext(
            |k: int| f(if k == x { y } else if k == y { x } else { k }),
            |k: int| qmul(c2(r, k), e2(k, j)),
            n,
        );
    }
    c2
}

/// `(x * c) * (y / c) == x * y` for nonzero `c`.
proof fn lemma_qmul_div_cancel(x: (int, int), y: (int, int), c: (int, int))
    requires
        qwf(x),
        qwf(y),
        qwf(c),
        c.0 != 0,
    ensures
        qmul(qmul(x, c), qdiv(y, c)) == qmul(x, y),
{
    lemma_qmul_units(y, c);
    lemma_qmul_assoc(x, c, qdiv(y, c));
    lemma_qmul_comm(c, qdiv(y, c));
}

/// Dividing row `i` of `e` by `a` multiplies column `i` of `c` by `a`.
pub proof fn lemma_factor_divrow(b: QMat, c: QMat, e: QMat, n: int, i: int, a: (int, int)) -> (c2: QMat)
    requires
        factors(b, c, e, n),
        qmat_wf(c),
        qmat_wf(e),
        qwf(a),
        a.0 != 0,
        0 <= i < n,
    ensures
        factors(b, c2, m_divrow(e, i, a), n),
        qmat_wf(c2),
{
    let c2 = |r: int, k: int| if k == i { qmul(c(r, i), a) } else { c(r, k) };
    let e2 = m_divrow(e, i, a);
    assert forall|r: int, k: int| qwf(#[trigger] c2(r, k)) by {
        lemma_qops_wf(c(r, i), a);
    }
    assert forall|r: int, j: int| 0 <= r < n implies #[trigger] b(r, j) == prod_entry(c2, e2, n, r, j) by {
        lemma_qmul_div_cancel(c(r, i), e(i, j), a);
        lemma_rsum_ext(|k: int| qmul(c(r, k), e(k, j)), |k: int| qmul(c2(r, k), e2(k, j)), n);
    }
    c2
}

/// `d * (e - s * a) + (t + d * a) * s == d * e + t * s`.
proof fn lemma_subrow_terms(d: (int, int), e: (int, int), s: (int, int), t: (int, int), a: (int, int))
    requires
        qwf(d),
        qwf(e),
        qwf(s),
        qwf(t),
        qwf(a),
    ensures
        qadd(qmul(d, qsub(e, qmul(s, a))), qmul(qadd(t, qmul(d, a)), s)) == qadd(qmul(d, e), qmul(t, s)),
{
    let sa = qmul(s, a);
    let da = qmul(d, a);
    lemma_qops_wf(s, a);
    lemma_qops_wf(d, a);
    lemma_qops_wf(d, e);
    lemma_qops_wf(t, s);
    lemma_qops_wf(d, sa);
    lemma_qops_wf(da, s);
    lemma_qsub_neg(e, sa);
    lemma_qops_wf(sa, sa);
    lemma_qmul_distrib(d, e, qneg(sa));
    lemma_qsub_neg(d, sa);
    // d * (s * a) == (d * a) * s
    lemma_qmul_assoc(d, s, a);
    lemma_qmul_comm(d, s);
    lemma_qmul_assoc(s, d, a);
    lemma_qmul_comm(s, da);
    assert(qmul(d, sa) == qmul(da, s));
    // (t + d a) s == t s + (d a) s
    lemma_qmul_comm(qadd(t, da), s);
    lemma_qops_wf(t, da);
    lemma_qmul_distrib(s, t, da);
    lemma_qmul_comm(s, t);
    let x = qmul(da, s);
    lemma_qops_wf(x, x);
    lemma_qadd_swap_mid(qmul(d, e), qneg(x), qmul(t, s), x);
    lemma_qadd_comm(qneg(x), x);
    lemma_qsub_neg(x, x);
    lemma_qops_wf(qmul(d, e), qmul(t, s));
    lemma_qnorm_id(qadd(qmul(d, e), qmul(t, s)));
}

/// Subtracting `a` times row `src` from row `dst` of `e` adds `a` times
/// column `dst` to column `src` of `c`.
pub proof fn lemma_factor_subrow(b: QMat, c: QMat, e: QMat, n: int, src: int, dst: int, a: (int, int)) -> (c2: QMat)
    requires
        factors(b, c, e, n),
        qmat_wf(c),
        qmat_wf(e),
        qwf(a),
        0 <= src < n,
        0 <= dst < n,
        src != dst,
    ensures
        factors(b, c2, m_subrow(e, src, dst, a), n),
        qmat_wf(c2),
{
    let c2 = |r: int, k: int| if k == src { qadd(c(r, src), qmul(c(r, dst), a)) } else { c(r, k) };
    let e2 = m_subrow(e, src, dst, a);
    assert forall|r: int, k: int| qwf(#[trigger] c2(r, k)) by {
        lemma_qops_wf(c(r, dst), a);
        lemma_qops_wf(c(r, src), qmul(c(r, dst), a));
    }
    lemma_rowops_wf(e, src, dst, a, 0, 0);
    assert forall|r: int, j: int| 0 <= r < n implies #[trigger] b(r, j) == prod_entry(c2, e2, n, r, j) by {
        let f = |k: int| qmul(c(r, k), e(k, j));
        let g = |k: int| qmul(c2(r, k), e2(k, j));
        assert forall|k: int| 0 <= k < n implies qwf(#[trigger] f(k)) by {
            lemma_qops_wf(c(r, k), e(k, j));
        }
        assert forall|k: int| 0 <= k < n implies qwf(#[trigger] g(k)) by {
            lemma_qops_wf(c2(r, k), e2(k, j));
        }
        lemma_subrow_terms(c(r, dst), e(dst, j), e(src, j), c(r, src), a);
        lemma_rsum_update2(f, g, n, dst, src);
    }
    c2
}

/// The row found by `first_nz` is in range and nonzero.
pub proof fn lemma_first_nz_found(m: QMat, col: int, i: int, n: int)
    ensures
        first_nz(m, col, i, n) matches Some(p) ==> i <= p < n && m(p, col).0 != 0,
        first_nz(m, col, i, n) is None ==> forall|k: int| i <= k < n ==> #[trigger] m(k, col).0 == 0,
    decreases n - i,
{
    if i < n && m(i, col).0 == 0 {
        lemma_first_nz_found(m, col, i + 1, n);
    }
}

/// Eliminating column `col` with row `row` keeps the factorization.
pub proof fn lemma_factor_eliminate(b: QMat, c: QMat, m2: QMat, n: int, row: int, col: int, k: int) -> (c2: QMat)
    requires
        factors(b, c, m2, n),
        qmat_wf(c),
        qmat_wf(m2),
        0 <= row < n,
        0 <= k <= n,
    ensures
        factors(b, c2, m_eliminate(m2, row, col, k), n),
        qmat_wf(c2),
    decreases k,
{
    if k == 0 {
        assert(m_eliminate(m2, row, col, 0) =~= m2);
        c
    } else {
        let c1 = lemma_factor_eliminate(b, c, m2, n, row, col, k - 1);
        let e1 = m_eliminate(m2, row, col, k - 1);
        lemma_qzero_ops(qzero());
        lemma_rowops_wf(m2, row, k - 1, qzero(), col, k - 1);
        if k - 1 != row && m2(k - 1, col).0 != 0 {
            let c2 = lemma_factor_subrow(b, c1, e1, n, row, k - 1, m2(k - 1, col));
            assert(m_subrow(e1, row, k - 1, m2(k - 1, col)) =~= m_eliminate(m2, row, col, k));
            c2
        } else {
            assert(e1 =~= m_eliminate(m2, row, col, k));
            c1
        }
    }
}

/// The Gauss elimination keeps the factorization.
pub proof fn lemma_factor_gauss(b: QMat, c: QMat, g: GaussState, n: int, cols: int) -> (c2: QMat)
    requires
        factors(b, c, g.mat, n),
        qmat_wf(c),
        qmat_wf(g.mat),
        0 <= g.row,
    ensures
        factors(b, c2, gauss_loop(g, n, cols).mat, n),
        qmat_wf(c2),
        qmat_wf(gauss_loop(g, n, cols).mat),
    decreases cols - g.col,
{
    if g.row < n && g.col < cols {
        lemma_qzero_ops(qzero());
        lemma_first_nz_found(g.mat, g.col, g.row, n);
        match first_nz(g.mat, g.col, g.row, n) {
            None => lemma_factor_gauss(
                b,
                c,
                GaussState { mat: g.mat, basic: g.basic, free: g.free.push(g.col as usize), row: g.row, col: g.col + 1 },
                n,
                cols,
            ),
            Some(p) => {
                let m1 = m_swap(g.mat, g.row, p);
                let c1 = lemma_factor_swap(b, c, g.mat, n, g.row, p);
                lemma_rowops_wf(g.mat, g.row, p, qzero(), 0, 0);
                let a = m1(g.row, g.col);
                assert(qwf(a));
                assert(a.0 != 0);
                let m2 = m_divrow(m1, g.row, a);
                let c2 = lemma_factor_divrow(b, c1, m1, n, g.row, a);
                lemma_rowops_wf(m1, g.row, 0, a, 0, 0);
                let c3 = lemma_factor_eliminate(b, c2, m2, n, g.row, g.col, n);
                lemma_rowops_wf(m2, g.row, 0, qzero(), g.col, n);
                lemma_factor_gauss(
                    b,
                    c3,
                    GaussState {
                        mat: m_eliminate(m2, g.row, g.col, n),
                        basic: g.basic.push(g.col as usize),
                        free: g.free,
                        row: g.row + 1,
                        col: g.col + 1,
                    },
                    n,
                    cols,
                )
            },
        }
    } else {
        c
    }
}


/// A reduced fraction with numerator zero is `0 / 1`.
pub proof fn lemma_zero_frac(x: (int, int))
    requires
        qwf(x),
        x.0 == 0,
    ensures
        x == qzero(),
{
    crate::arith::lemma_gcd_zero_left(x.1 as nat);
}

/// `a / a == 1` for nonzero `a`.
pub proof fn lemma_qdiv_self(a: (int, int))
    requires
        qwf(a),
        a.0 != 0,
    ensures
        qdiv(a, a) == qint(1),
{
    assert(a.1 * a.0 != 0 && (a.0 * a.1) * 1 == 1 * (a.1 * a.0)) by (nonlinear_arith)
        requires
            a.1 > 0,
            a.0 != 0,
    ;
    crate::rational::lemma_qnorm_eq(a.0 * a.1, a.1 * a.0, 1, 1);
    lemma_qint(1, 0);
}

/// Structure of a Gauss state over `n` rows: the pivot columns are unit
/// columns, the rows from `row` on vanish in the free columns, and pivot and
/// free columns split `[0, col)`.
pub open spec fn gauss_ok(g: GaussState, n: int) -> bool {
    &&& 0 <= g.row <= n
    &&& 0 <= g.col
    &&& g.basic.len() == g.row
    &&& g.basic.len() + g.free.len() == g.col
    &&& split_ok(g.basic, g.free, g.col)
    &&& forall|i: int, k: int|
        0 <= i < g.row && 0 <= k < n ==> #[trigger] (g.mat)(k, g.basic[i] as int) == if k == i {
            qint(1)
        } else {
            qzero()
        }
    &&& forall|q: int, k: int|
        0 <= q < g.free.len() && g.row <= k < n ==> #[trigger] (g.mat)(k, g.free[q] as int) == qzero()
}

/// The elimination keeps the structure, and stops with every row a pivot
/// row or every column scanned.
pub proof fn lemma_gauss_ok(g: GaussState, n: int, cols: int)
    requires
        gauss_ok(g, n),
        qmat_wf(g.mat),
        g.col <= cols,
        cols <= usize::MAX,
    ensures
        gauss_ok(gauss_loop(g, n, cols), n),
        gauss_loop(g, n, cols).row == n || gauss_loop(g, n, cols).col == cols,
        gauss_loop(g, n, cols).col <= cols,
    decreases cols - g.col,
{
    lemma_qzero_ops(qzero());
    lemma_qint(1, 0);
    if g.row < n && g.col < cols {
        lemma_first_nz_found(g.mat, g.col, g.row, n);
        let m = g.mat;
        let row = g.row;
        let col = g.col;
        match first_nz(m, col, row, n) {
            None => {
                let g2 = GaussState { mat: m, basic: g.basic, free: g.free.push(col as usize), row, col: col + 1 };
                assert(g2.free[g.free.len() as int] as int == col);
                assert forall|q: int, k: int| 0 <= q < g2.free.len() && row <= k < n implies #[trigger] (m)(k, g2.free[q] as int) == qzero() by {
                    if q == g.free.len() {
                        lemma_zero_frac(m(k, col));
                    } else {
                        assert(g2.free[q] == g.free[q]);
                    }
                }
                assert(gauss_ok(g2, n));
                lemma_gauss_ok(g2, n, cols);
            },
            Some(p) => {
                let m1 = m_swap(m, row, p);
                lemma_rowops_wf(m, row, p, qzero(), 0, 0);
                let a = m1(row, col);
                assert(qwf(a) && a.0 != 0);
                let m2 = m_divrow(m1, row, a);
                lemma_rowops_wf(m1, row, 0, a, 0, 0);
                let m3 = m_eliminate(m2, row, col, n);
                lemma_rowops_wf(m2, row, 0, qzero(), col, n);
                let g2 = GaussState { mat: m3, basic: g.basic.push(col as usize), free: g.free, row: row + 1, col: col + 1 };
                lemma_qdiv_self(a);
                lemma_qzero_ops(a);
                // the new pivot column
                assert forall|k: int| 0 <= k < n implies #[trigger] m3(k, col) == if k == row { qint(1) } else { qzero() } by {
                    if k != row && m2(k, col).0 != 0 {
                        let x = m2(k, col);
                        lemma_qmul_one_zero(x);
                        lemma_qsub_neg(x, x);
                    } else if k != row {
                        lemma_zero_frac(m2(k, col));
                    }
                }
                // the old pivot columns
                assert forall|i: int, k: int| 0 <= i < row && 0 <= k < n implies #[trigger] m3(k, g.basic[i] as int) == if k == i { qint(1) } else { qzero() } by {
                    let b = g.basic[i] as int;
                    assert(m(row, b) == qzero());
                    assert(m(p, b) == qzero());
                    assert(m2(row, b) == qzero());
                    lemma_qmul_one_zero(m2(k, col));
                    lemma_qnorm_id(m2(k, b));
                }
                // the free columns
                assert forall|q: int, k: int| 0 <= q < g.free.len() && row + 1 <= k < n implies #[trigger] m3(k, g.free[q] as int) == qzero() by {
                    let f = g.free[q] as int;
                    assert(m(row, f) == qzero());
                    assert(m(p, f) == qzero());
                    assert(m(k, f) == qzero());
                    assert(m2(row, f) == qzero());
                    lemma_qmul_one_zero(m2(k, col));
                }
                assert forall|i: int, k: int| 0 <= i < g2.row && 0 <= k < n implies #[trigger] (g2.mat)(k, g2.basic[i] as int) == if k == i { qint(1) } else { qzero() } by {
                    if i < row {
                        assert(g2.basic[i] == g.basic[i]);
                        assert(m3(k, g.basic[i] as int) == if k == i { qint(1) } else { qzero() });
                    } else {
                        assert(g2.basic[i] == col);
                        assert(m3(k, col) == if k == row { qint(1) } else { qzero() });
                    }
                }
                assert(gauss_ok(g2, n));
                lemma_gauss_ok(g2, n, cols);
            },
        }
    }
}

/// After the elimination every column whose entries vanish from the last
/// pivot row on is a combination of the pivot rows, with the starting matrix's
/// entries in the pivot columns as coefficients.
pub proof fn lemma_gauss_combination(b: QMat, n: int, cols: int, r: int, j: int)
    requires
        qmat_wf(b),
        0 <= r < n,
        0 <= cols <= usize::MAX,
        forall|k: int|
            gauss_loop(gauss_start(b), n, cols).row <= k < n ==> #[trigger] (gauss_loop(gauss_start(b), n, cols).mat)(k, j)
                == qzero(),
    ensures
        b(r, j) == rsum(
            |i: int|
                qmul(
                    b(r, gauss_loop(gauss_start(b), n, cols).basic[i] as int),
                    (gauss_loop(gauss_start(b), n, cols).mat)(i, j),
                ),
            gauss_loop(gauss_start(b), n, cols).row,
        ),
{
    let g0 = gauss_start(b);
    let gf = gauss_loop(g0, n, cols);
    let e = gf.mat;
    let rank = gf.row;
    lemma_factor_ident(b, n);
    let c = lemma_factor_gauss(b, ident(), g0, n, cols);
    assert(split_ok(g0.basic, g0.free, 0));
    assert(gauss_ok(g0, n));
    lemma_gauss_ok(g0, n, cols);
    lemma_qzero_ops(qzero());
    lemma_qint(1, 0);
    // the coefficient of pivot row i is b(r, basic[i])
    assert forall|i: int| 0 <= i < rank implies #[trigger] c(r, i) == b(r, gf.basic[i] as int) by {
        let col = gf.basic[i] as int;
        let f = |k: int| qmul(c(r, k), e(k, col));
        assert forall|k: int| 0 <= k < n && k != i implies #[trigger] f(k) == qzero() by {
            lemma_qmul_one_zero(c(r, k));
        }
        lemma_qmul_one_zero(c(r, i));
        lemma_rsum_point(f, n, i);
        assert(b(r, col) == prod_entry(c, e, n, r, col));
    }
    let f = |k: int| qmul(c(r, k), e(k, j));
    assert forall|k: int| rank <= k < n implies #[trigger] f(k) == qzero() by {
        lemma_qmul_one_zero(c(r, k));
    }
    assert(wf_upto(f, rank)) by {
        assert forall|k: int| 0 <= k < rank implies qwf(#[trigger] f(k)) by {
            lemma_qops_wf(c(r, k), e(k, j));
        }
    }
    lemma_rsum_prefix(f, n, rank);
    lemma_rsum_ext(f, |i: int| qmul(b(r, gf.basic[i] as int), e(i, j)), rank);
}


/// Negating a normal form negates the numerator.
pub proof fn lemma_qneg_norm(n: int, d: int)
    requires
        d != 0,
    ensures
        qneg(qnorm(n, d)) == qnorm(-n, d),
{
    assert(crate::arith::abs(-n) == crate::arith::abs(n));
}

/// The pivot's elimination coefficient: `v * (w / a) == -((v / -a) * w)`.
pub proof fn lemma_pivot_coef(v: (int, int), w: (int, int), a: (int, int))
    requires
        qwf(v),
        qwf(w),
        qwf(a),
        a.0 != 0,
    ensures
        qmul(v, qdiv(w, a)) == qneg(qmul(qdiv(v, qneg(a)), w)),
        qmul(qdiv(v, qneg(a)), a) == qneg(v),
        qdiv(qint(-1), qneg(a)) == qdiv(qint(1), a),
        qwf(qdiv(v, qneg(a))),
        qwf(qneg(a)),
        qneg(a).0 != 0,
{
    let (v0, v1, w0, w1, a0, a1) = (v.0, v.1, w.0, w.1, a.0, a.1);
    lemma_qops_wf(a, a);
    lemma_qmul_units(v, qneg(a));
    lemma_nz(w1, a0);
    lemma_nz(v1, -a0);
    lemma_qnorm(w0 * a1, w1 * a0);
    lemma_qnorm(v0 * a1, v1 * (-a0));
    let q = qdiv(w, a);
    let l = qdiv(v, qneg(a));
    lemma_qmul_comm(v, q);
    lemma_qmul_left(q, v, w0 * a1, w1 * a0);
    lemma_qmul_left(l, w, v0 * a1, v1 * (-a0));
    let pp = w0 * a1 * v0;
    let qq = w1 * a0 * v1;
    assert((w0 * a1) * v0 == pp && (v0 * a1) * w0 == pp) by (nonlinear_arith)
        requires
            pp == w0 * a1 * v0,
    ;
    assert((w1 * a0) * v1 == qq && (v1 * (-a0)) * w1 == -qq) by (nonlinear_arith)
        requires
            qq == w1 * a0 * v1,
    ;
    lemma_nz(w1 * a0, v1);
    lemma_nz(v1 * (-a0), w1);
    lemma_qneg_norm(pp, -qq);
    assert(pp * (-qq) == (-pp) * qq) by (nonlinear_arith);
    lemma_qnorm_eq(pp, qq, -pp, -qq);
    // (v / -a) * a == -v
    lemma_qmul_left(l, a, v0 * a1, v1 * (-a0));
    lemma_nz(v1 * (-a0), a1);
    assert(((v0 * a1) * a0) * v1 == (-v0) * ((v1 * (-a0)) * a1)) by (nonlinear_arith);
    lemma_qnorm_id(qneg(v));
    lemma_qnorm_eq((v0 * a1) * a0, (v1 * (-a0)) * a1, -v0, v1);
    // -1 / -a == 1 / a
    assert(((-1) * a1) * (1 * a0) == (1 * a1) * (1 * (-a0))) by (nonlinear_arith);
    lemma_nz(1, -a0);
    lemma_nz(1, a0);
    lemma_qnorm_eq((-1) * a1, 1 * (-a0), 1 * a1, 1 * a0);
}

/// The tableau describes null vectors of `b`: for every row `r` of `b` and
/// free column `p`, the free column plus the tableau's combination of the
/// basic columns vanishes.
pub open spec fn null_on(b: QMat, t: TabView, r: int, p: int) -> bool {
    qadd(
        b(r, t.free[p] as int),
        rsum(|i: int| qmul((t.mat)(i, p), b(r, t.basic[i] as int)), t.basic.len() as int),
    ) == qzero()
}

pub open spec fn represents(b: QMat, t: TabView, n: int) -> bool {
    forall|r: int, p: int| 0 <= r < n && 0 <= p < t.free.len() ==> #[trigger] null_on(b, t, r, p)
}

/// A pivot keeps the description.
pub proof fn lemma_pivot_represents(b: QMat, t: TabView, n: int, x: int, e: int)
    requires
        represents(b, t, n),
        qmat_wf(b),
        qmat_wf(t.mat),
        0 <= x < t.basic.len(),
        0 <= e < t.free.len(),
        (t.mat)(x, e).0 != 0,
    ensures
        represents(b, pivot(t, x, e), n),
        qmat_wf(pivot(t, x, e).mat),
{
    let t2 = pivot(t, x, e);
    let a = (t.mat)(x, e);
    let len = t.basic.len() as int;
    lemma_qint(-1, 0);
    lemma_qint(1, 0);
    lemma_pivot_coef(qint(-1), qint(-1), a);
    assert forall|i: int, j: int| qwf(#[trigger] (t2.mat)(i, j)) by {
        lemma_pivot_coef((t.mat)(x, j), (t.mat)(i, e), a);
        lemma_qmul_units((t.mat)(i, e), a);
        lemma_qmul_units(qint(-1), qneg(a));
        lemma_qops_wf((t.mat)(x, j), qdiv((t.mat)(i, e), a));
        lemma_qops_wf((t.mat)(i, j), qmul((t.mat)(x, j), qdiv((t.mat)(i, e), a)));
    }
    assert forall|r: int, p: int| 0 <= r < n && 0 <= p < t2.free.len() implies #[trigger] null_on(b, t2, r, p) by {
        lemma_pivot_null(b, t, r, p, x, e);
    }
}

/// One row and one free column of the pivot.
proof fn lemma_pivot_null(b: QMat, t: TabView, r: int, p: int, x: int, e: int)
    requires
        null_on(b, t, r, p),
        null_on(b, t, r, e),
        qmat_wf(b),
        qmat_wf(t.mat),
        0 <= x < t.basic.len(),
        0 <= e < t.free.len(),
        0 <= p < t.free.len(),
        (t.mat)(x, e).0 != 0,
    ensures
        null_on(b, pivot(t, x, e), r, p),
{
    let t2 = pivot(t, x, e);
    let len = t.basic.len() as int;
    let a = (t.mat)(x, e);
    let beta = |i: int| b(r, t.basic[i] as int);
    let mp = |i: int| (t.mat)(i, p);
    let me = |i: int| (t.mat)(i, e);
    let phi = b(r, t.free[e] as int);
    let fp = |i: int| qmul(mp(i), beta(i));
    let fe = |i: int| qmul(me(i), beta(i));
    let sp = rsum(fp, len);
    let se = rsum(fe, len);
    assert(fp =~= (|i: int| qmul((t.mat)(i, p), b(r, t.basic[i] as int))));
    assert(fe =~= (|i: int| qmul((t.mat)(i, e), b(r, t.basic[i] as int))));
    let g = |i: int| qmul((t2.mat)(i, p), b(r, t2.basic[i] as int));
    assert(wf_upto(fp, len)) by {
        assert forall|i: int| 0 <= i < len implies qwf(#[trigger] fp(i)) by {
            lemma_qops_wf(mp(i), beta(i));
        }
    }
    assert(wf_upto(fe, len)) by {
        assert forall|i: int| 0 <= i < len implies qwf(#[trigger] fe(i)) by {
            lemma_qops_wf(me(i), beta(i));
        }
    }
    lemma_rsum_wf(fp, len);
    lemma_rsum_wf(fe, len);
    lemma_qint(1, 0);
    lemma_qint(-1, 0);
    lemma_qzero_ops(qzero());
    assert(qwf(beta(x)) && qwf(phi) && qwf(a));
    lemma_pivot_coef(mp(x), me(x), a);
    lemma_qadd_comm(phi, se);
    lemma_qops_wf(se, phi);
    if p != e {
        let lam = qdiv(mp(x), qneg(a));
        let fl = |i: int| qmul(lam, fe(i));
        let h = |i: int| qadd(fp(i), fl(i));
        assert(wf_upto(fl, len)) by {
            assert forall|i: int| 0 <= i < len implies qwf(#[trigger] fl(i)) by {
                lemma_qops_wf(lam, fe(i));
            }
        }
        assert(wf_upto(h, len)) by {
            assert forall|i: int| 0 <= i < len implies qwf(#[trigger] h(i)) by {
                lemma_qops_wf(lam, fe(i));
                lemma_qops_wf(fp(i), fl(i));
            }
        }
        assert(wf_upto(g, len)) by {
            assert forall|i: int| 0 <= i < len implies qwf(#[trigger] g(i)) by {
                lemma_pivot_coef(mp(x), me(i), a);
                lemma_qmul_units(me(i), a);
                lemma_qops_wf(mp(x), qdiv(me(i), a));
                lemma_qops_wf(mp(i), qmul(mp(x), qdiv(me(i), a)));
                lemma_qops_wf((t2.mat)(i, p), b(r, t2.basic[i] as int));
            }
        }
        assert forall|i: int| 0 <= i < len && i != x implies #[trigger] g(i) == h(i) by {
            let y = qmul(lam, me(i));
            lemma_pivot_coef(mp(x), me(i), a);
            lemma_qops_wf(lam, me(i));
            lemma_qsub_neg(mp(i), qneg(y));
            lemma_qsub_neg(y, y);
            assert((t2.mat)(i, p) == qadd(mp(i), y));
            assert(t2.basic[i] == t.basic[i]);
            lemma_qmul_comm(qadd(mp(i), y), beta(i));
            lemma_qmul_distrib(beta(i), mp(i), y);
            lemma_qmul_comm(beta(i), mp(i));
            lemma_qmul_comm(beta(i), y);
            lemma_qmul_assoc(lam, me(i), beta(i));
        }
        lemma_rsum_add(fp, fl, len);
        lemma_rsum_scale(lam, fe, len);
        lemma_rsum_ext(|i: int| qadd(fp(i), fl(i)), h, len);
        lemma_rsum_ext(|i: int| qmul(lam, fe(i)), fl, len);
        lemma_rsum_update(h, g, len, x);
        // g(x) = lam * phi, h(x) = 0
        assert(t2.basic[x] == t.free[e]);
        assert(g(x) == qmul(lam, phi));
        lemma_qmul_assoc(lam, a, beta(x));
        lemma_qsub_neg(mp(x), beta(x));
        lemma_qops_wf(mp(x), beta(x));
        lemma_qsub_neg(fp(x), fp(x));
        assert(h(x) == qzero());
        lemma_qops_wf(lam, phi);
        lemma_qnorm_id(qmul(lam, phi));
        lemma_qops_wf(lam, se);
        lemma_qadd_assoc(sp, qmul(lam, se), qmul(lam, phi));
        lemma_qmul_distrib(lam, se, phi);
        lemma_qmul_one_zero(lam);
        lemma_qnorm_id(sp);
        assert(rsum(fl, len) == qmul(lam, se));
        assert(rsum(h, len) == qadd(sp, qmul(lam, se)));
        assert(rsum(g, len) == qadd(rsum(h, len), qsub(g(x), h(x))));
        assert(qsub(g(x), h(x)) == qmul(lam, phi));
        assert(qadd(se, phi) == qzero());
        assert(qmul(lam, qadd(se, phi)) == qzero());
        assert(rsum(g, len) == sp);
        assert(t2.free[p] == t.free[p]);
    } else {
        let mu = qdiv(qint(1), a);
        lemma_qmul_units(qint(1), a);
        let h = |i: int| qmul(mu, fe(i));
        assert(wf_upto(h, len)) by {
            assert forall|i: int| 0 <= i < len implies qwf(#[trigger] h(i)) by {
                lemma_qops_wf(mu, fe(i));
            }
        }
        assert(wf_upto(g, len)) by {
            assert forall|i: int| 0 <= i < len implies qwf(#[trigger] g(i)) by {
                lemma_qmul_units(me(i), a);
                lemma_pivot_coef(qint(-1), qint(-1), a);
                lemma_qops_wf((t2.mat)(i, p), b(r, t2.basic[i] as int));
            }
        }
        assert forall|i: int| 0 <= i < len && i != x implies #[trigger] g(i) == h(i) by {
            lemma_qmul_units(me(i), a);
            assert((t2.mat)(i, e) == qmul(me(i), mu));
            assert(t2.basic[i] == t.basic[i]);
            lemma_qmul_comm(me(i), mu);
            lemma_qmul_assoc(mu, me(i), beta(i));
        }
        lemma_rsum_scale(mu, fe, len);
        lemma_rsum_update(h, g, len, x);
        assert(t2.basic[x] == t.free[e]);
        assert((t2.mat)(x, e) == mu);
        assert(g(x) == qmul(mu, phi));
        lemma_qmul_assoc(mu, a, beta(x));
        lemma_qmul_one_zero(beta(x));
        assert(h(x) == beta(x));
        lemma_qops_wf(mu, phi);
        lemma_qops_wf(mu, se);
        lemma_qsub_neg(qmul(mu, phi), beta(x));
        lemma_qops_wf(beta(x), beta(x));
        lemma_qadd_assoc(qmul(mu, se), qmul(mu, phi), qneg(beta(x)));
        lemma_qmul_distrib(mu, se, phi);
        lemma_qmul_one_zero(mu);
        lemma_qadd_comm(qzero(), qneg(beta(x)));
        lemma_qnorm_id(qneg(beta(x)));
        assert(rsum(g, len) == qneg(beta(x)));
        assert(t2.free[e] == t.basic[x]);
        lemma_qsub_neg(beta(x), beta(x));
    }
}


/// `free` followed by `[from, to)`: its length and entries.
pub proof fn lemma_free_rest(free: Seq<usize>, from: int, to: int)
    requires
        0 <= from <= to <= usize::MAX + 1,
    ensures
        free_rest(free, from, to).len() == free.len() + (to - from),
        forall|q: int| 0 <= q < free.len() ==> #[trigger] free_rest(free, from, to)[q] == free[q],
        forall|q: int|
            free.len() <= q < free.len() + (to - from) ==> #[trigger] free_rest(free, from, to)[q] as int == from + (q
                - free.len()),
    decreases to - from,
{
    if from < to {
        lemma_free_rest(free.push(from as usize), from + 1, to);
        let nf = free.push(from as usize);
        assert forall|q: int| 0 <= q < free.len() implies #[trigger] free_rest(free, from, to)[q] == free[q] by {
            assert(nf[q] == free[q]);
        }
        assert forall|q: int| free.len() <= q < free.len() + (to - from) implies #[trigger] free_rest(free, from, to)[q] as int
            == from + (q - free.len()) by {
            if q == free.len() {
                assert(free_rest(free, from, to)[q] == nf[q]);
            }
        }
    }
}

/// Basic and free variables are all distinct.
pub open spec fn distinct_vars(t: TabView) -> bool {
    &&& forall|i: int, j: int| 0 <= i < j < t.basic.len() ==> #[trigger] t.basic[i] != #[trigger] t.basic[j]
    &&& forall|p: int, q: int| 0 <= p < q < t.free.len() ==> #[trigger] t.free[p] != #[trigger] t.free[q]
    &&& forall|i: int, p: int| 0 <= i < t.basic.len() && 0 <= p < t.free.len() ==> #[trigger] t.basic[i] != #[trigger] t.free[p]
}

/// The Gauss tableau describes the null vectors of the matrix.
pub proof fn lemma_tableau_start(b: QMat, n: int, cols: int)
    requires
        qmat_wf(b),
        0 <= n,
        0 <= cols <= usize::MAX,
    ensures
        represents(b, gauss_tableau(b, n, cols), n),
        qmat_wf(gauss_tableau(b, n, cols).mat),
        distinct_vars(gauss_tableau(b, n, cols)),
{
    let g0 = gauss_start(b);
    let gf = gauss_loop(g0, n, cols);
    let e = gf.mat;
    let rank = gf.row;
    let t = gauss_tableau(b, n, cols);
    lemma_factor_ident(b, n);
    let _c = lemma_factor_gauss(b, ident(), g0, n, cols);
    assert(split_ok(g0.basic, g0.free, 0));
    assert(gauss_ok(g0, n));
    lemma_gauss_ok(g0, n, cols);
    lemma_free_rest(gf.free, gf.col, cols);
    lemma_qzero_ops(qzero());
    assert(t.basic == gf.basic);
    assert forall|i: int, j: int| qwf(#[trigger] (t.mat)(i, j)) by {
        lemma_qops_wf(e(i, gf.free[0] as int), e(i, gf.free[0] as int));
        if 0 <= i < t.basic.len() && 0 <= j < t.free.len() {
            lemma_qops_wf(e(i, t.free[j] as int), e(i, t.free[j] as int));
        }
    }
    assert forall|r: int, p: int| 0 <= r < n && 0 <= p < t.free.len() implies #[trigger] null_on(b, t, r, p) by {
        let f = t.free[p] as int;
        assert forall|k: int| rank <= k < n implies #[trigger] e(k, f) == qzero() by {
            if p < gf.free.len() {
                assert(t.free[p] == gf.free[p]);
            }
        }
        lemma_gauss_combination(b, n, cols, r, f);
        let comb = |i: int| qmul(b(r, gf.basic[i] as int), e(i, f));
        assert(wf_upto(comb, rank)) by {
            assert forall|i: int| 0 <= i < rank implies qwf(#[trigger] comb(i)) by {
                lemma_qops_wf(b(r, gf.basic[i] as int), e(i, f));
            }
        }
        lemma_rsum_neg(comb, rank);
        assert forall|i: int| 0 <= i < rank implies #[trigger] qmul((t.mat)(i, p), b(r, t.basic[i] as int)) == qneg(comb(i)) by {
            lemma_qsub_neg(e(i, f), b(r, gf.basic[i] as int));
            lemma_qmul_comm(e(i, f), b(r, gf.basic[i] as int));
        }
        lemma_rsum_ext(|i: int| qmul((t.mat)(i, p), b(r, t.basic[i] as int)), |i: int| qneg(comb(i)), rank);
        lemma_qsub_neg(b(r, f), b(r, f));
    }
    assert forall|p: int, q: int| 0 <= p < q < t.free.len() implies #[trigger] t.free[p] != #[trigger] t.free[q] by {
        if q < gf.free.len() {
            assert(t.free[p] == gf.free[p] && t.free[q] == gf.free[q]);
        } else if p < gf.free.len() {
            assert(t.free[p] == gf.free[p]);
            assert(gf.free[p] < gf.col);
        }
    }
    assert forall|i: int, p: int| 0 <= i < t.basic.len() && 0 <= p < t.free.len() implies #[trigger] t.basic[i] != #[trigger] t.free[p] by {
        if p < gf.free.len() {
            assert(t.free[p] == gf.free[p]);
        } else {
            assert(gf.basic[i] < gf.col);
        }
    }
}

/// A pivot keeps the variables distinct.
pub proof fn lemma_pivot_distinct(t: TabView, x: int, e: int)
    requires
        distinct_vars(t),
        0 <= x < t.basic.len(),
        0 <= e < t.free.len(),
    ensures
        distinct_vars(pivot(t, x, e)),
{
    let t2 = pivot(t, x, e);
    assert forall|i: int, j: int| 0 <= i < j < t2.basic.len() implies #[trigger] t2.basic[i] != #[trigger] t2.basic[j] by {
        if i == x {
            assert(t.basic[j] != t.free[e]);
        } else if j == x {
            assert(t.basic[i] != t.free[e]);
        }
    }
    assert forall|p: int, q: int| 0 <= p < q < t2.free.len() implies #[trigger] t2.free[p] != #[trigger] t2.free[q] by {
        if p == e {
            assert(t.basic[x] != t.free[q]);
        } else if q == e {
            assert(t.basic[x] != t.free[p]);
        }
    }
    assert forall|i: int, p: int| 0 <= i < t2.basic.len() && 0 <= p < t2.free.len() implies #[trigger] t2.basic[i] != #[trigger] t2.free[p] by {
        if i == x && p == e {
            assert(t.free[e] != t.basic[x]);
        } else if i == x {
            assert(t.free[e] != t.free[p]);
        } else if p == e {
            assert(t.basic[i] != t.basic[x]);
        }
    }
}

/// Bland's entering column is a free column other than the last.
pub proof fn lemma_enter_range(t: TabView, i: int, best: Option<int>)
    requires
        0 <= i,
        best matches Some(b) ==> 0 <= b < t.free.len() - 1,
    ensures
        enter_scan(t, i, best) matches Some(e) ==> 0 <= e < t.free.len() - 1,
    decreases t.free.len() - 1 - i,
{
    if 0 <= i < t.free.len() - 1 {
        let take = (t.mat)(0, i).0 > 0 && (best is None || t.free[i] < t.free[best->0]);
        lemma_enter_range(t, i + 1, if take { Some(i) } else { best });
    }
}

/// The exiting row is below the objective row and negative in column `e`.
pub proof fn lemma_exit_range(t: TabView, e: int, i: int, best: Option<int>, mc: (int, int), mi: int)
    requires
        1 <= i,
        best matches Some(b) ==> 1 <= b < t.basic.len() && (t.mat)(b, e).0 < 0,
    ensures
        exit_scan(t, e, i, best, mc, mi) matches Some(x) ==> 1 <= x < t.basic.len() && (t.mat)(x, e).0 < 0,
    decreases t.basic.len() - i,
{
    if 1 <= i < t.basic.len() {
        let a = (t.mat)(i, e);
        if a.0 < 0 {
            let coef = crate::rational::qdiv(qneg((t.mat)(i, t.free.len() - 1)), a);
            let c = crate::simplex::qsign(coef, mc);
            if best is None || c < 0 || (c == 0 && t.basic[i] < mi) {
                lemma_exit_range(t, e, i + 1, Some(i), coef, t.basic[i] as int);
            } else {
                lemma_exit_range(t, e, i + 1, best, mc, mi);
            }
        } else {
            lemma_exit_range(t, e, i + 1, best, mc, mi);
        }
    }
}

/// The tableau invariants the simplex keeps for the certificate search over
/// `m` hypotheses: the description of `b`, reduced entries, distinct
/// variables, the objective `f` basic in row 0 and the unit `y` (column
/// `m + 2`) the last free column.
pub open spec fn search_ok(b: QMat, t: TabView, n: int, m: int) -> bool {
    &&& represents(b, t, n)
    &&& qmat_wf(t.mat)
    &&& distinct_vars(t)
    &&& t.basic.len() >= 1
    &&& t.free.len() >= 1
    &&& t.basic[0] == 0
    &&& t.free[t.free.len() - 1] == m + 2
}

/// The simplex keeps the invariants and ends in a successful tableau.
pub proof fn lemma_run(b: QMat, t: TabView, budget: nat, n: int, m: int)
    requires
        search_ok(b, t, n, m),
        qmat_wf(b),
    ensures
        run(t, budget) matches Some(tf) ==> search_ok(b, tf, n, m) && success(tf),
    decreases budget,
{
    if !success(t) && budget > 0 {
        lemma_enter_range(t, 0, None);
        match entering(t) {
            None => {},
            Some(e) => {
                lemma_exit_range(t, e, 1, None, qzero(), 0);
                match exiting(t, e) {
                    None => {},
                    Some(x) => {
                        lemma_pivot_represents(b, t, n, x, e);
                        lemma_pivot_distinct(t, x, e);
                        let t2 = pivot(t, x, e);
                        assert(t2.basic[0] == t.basic[0]);
                        assert(t2.free[t2.free.len() - 1] == t.free[t.free.len() - 1]);
                        lemma_run(b, t2, (budget - 1) as nat, n, m);
                    },
                }
            },
        }
    }
}


/// The extracted coordinates are reduced, and zero unless a row in `[1, k)`
/// has the coordinate's column as basic variable.
pub proof fn lemma_extract_shape(t: TabView, m: int, k: int)
    requires
        qmat_wf(t.mat),
        0 <= m,
        k <= t.basic.len(),
    ensures
        extract(t, m, k).len() == m,
        forall|j: int| 0 <= j < m ==> qwf(#[trigger] extract(t, m, k)[j]),
        forall|j: int|
            0 <= j < m && (forall|i: int| 1 <= i < k ==> t.basic[i] as int != j + 2) ==> #[trigger] extract(t, m, k)[j]
                == qzero(),
    decreases k,
{
    lemma_qzero_ops(qzero());
    if k > 1 {
        lemma_extract_shape(t, m, k - 1);
        assert forall|j: int|
            0 <= j < m && (forall|i: int| 1 <= i < k ==> t.basic[i] as int != j + 2) implies #[trigger] extract(t, m, k)[j]
                == qzero() by {
            assert(t.basic[k - 1] as int != j + 2);
        }
    }
}

/// Over rows `[0, k)`, the last column weighted by a column function `w`
/// is row 0's term plus the extracted coordinates weighted by `w(j + 2)`,
/// when `w` vanishes on the other basic columns.
pub proof fn lemma_extract_sum(t: TabView, m: int, k: int, w: spec_fn(int) -> (int, int))
    requires
        qmat_wf(t.mat),
        distinct_vars(t),
        1 <= k <= t.basic.len(),
        0 <= m,
        t.free.len() >= 1,
        forall|c: int| qwf(#[trigger] w(c)),
        forall|i: int|
            1 <= i < t.basic.len() && (t.basic[i] < 2 || t.basic[i] >= m + 2) ==> #[trigger] w(t.basic[i] as int)
                == qzero(),
    ensures
        rsum(|i: int| qmul((t.mat)(i, t.free.len() - 1), w(t.basic[i] as int)), k) == qadd(
            qmul((t.mat)(0, t.free.len() - 1), w(t.basic[0] as int)),
            rsum(|j: int| qmul(extract(t, m, k)[j], w(j + 2)), m),
        ),
    decreases k,
{
    let last = t.free.len() - 1;
    let f = |i: int| qmul((t.mat)(i, last), w(t.basic[i] as int));
    let sk = |kk: int| rsum(|j: int| qmul(extract(t, m, kk)[j], w(j + 2)), m);
    lemma_qzero_ops(qzero());
    lemma_extract_shape(t, m, k);
    lemma_qops_wf((t.mat)(0, last), w(t.basic[0] as int));
    let t0 = f(0);
    assert(f =~= (|i: int| qmul((t.mat)(i, t.free.len() - 1), w(t.basic[i] as int))));
    if k == 1 {
        assert forall|j: int| 0 <= j < m implies #[trigger] qmul(extract(t, m, 1)[j], w(j + 2)) == qzero() by {
            lemma_qmul_one_zero(w(j + 2));
        }
        lemma_rsum_zero(|j: int| qmul(extract(t, m, 1)[j], w(j + 2)), m);
        lemma_qnorm_id(t0);
        lemma_qadd_comm(qzero(), t0);
        assert(rsum(f, 0) == qzero());
        assert(rsum(f, 1) == t0);
    } else {
        lemma_extract_sum(t, m, k - 1, w);
        lemma_extract_shape(t, m, k - 1);
        let prev = extract(t, m, k - 1);
        let cur = extract(t, m, k);
        let gp = |j: int| qmul(prev[j], w(j + 2));
        let gc = |j: int| qmul(cur[j], w(j + 2));
        assert(gp =~= (|j: int| qmul(extract(t, m, k - 1)[j], w(j + 2))));
        assert(gc =~= (|j: int| qmul(extract(t, m, k)[j], w(j + 2))));
        assert(wf_upto(gp, m)) by {
            assert forall|j: int| 0 <= j < m implies qwf(#[trigger] gp(j)) by {
                lemma_qops_wf(prev[j], w(j + 2));
            }
        }
        assert(wf_upto(gc, m)) by {
            assert forall|j: int| 0 <= j < m implies qwf(#[trigger] gc(j)) by {
                lemma_qops_wf(cur[j], w(j + 2));
            }
        }
        lemma_rsum_wf(gp, m);
        let c = t.basic[k - 1] as int;
        let fk = f(k - 1);
        lemma_qops_wf((t.mat)(k - 1, last), w(c));
        if 2 <= c < m + 2 {
            assert forall|i: int| 1 <= i < k - 1 implies t.basic[i] as int != (c - 2) + 2 by {
                assert(t.basic[i] != t.basic[k - 1]);
            }
            assert(prev[c - 2] == qzero());
            assert forall|j: int| 0 <= j < m && j != c - 2 implies #[trigger] gp(j) == gc(j) by {}
            lemma_rsum_update(gp, gc, m, c - 2);
            lemma_qmul_one_zero(w(c));
            lemma_qnorm_id(fk);
            assert(gc(c - 2) == fk);
            assert(qsub(gc(c - 2), gp(c - 2)) == fk);
            lemma_qadd_assoc(t0, rsum(gp, m), fk);
            assert(rsum(gc, m) == qadd(rsum(gp, m), fk));
            assert(rsum(f, k) == qadd(rsum(f, k - 1), fk));
            assert(rsum(f, k) == qadd(t0, rsum(gc, m)));
        } else {
            assert(w(c) == qzero());
            lemma_qmul_one_zero((t.mat)(k - 1, last));
            assert(fk == qzero());
            lemma_rsum_ext(gp, gc, m);
            lemma_qops_wf(t0, rsum(gp, m));
            lemma_qnorm_id(qadd(t0, rsum(gp, m)));
            assert(rsum(f, k) == qadd(t0, rsum(gc, m)));
        }
        assert(rsum(f, k - 1) == qadd(t0, rsum(gp, m)));
    }
}


/// Scaling a solution by a common multiple of its denominators: the weighted
/// sum of the resulting integer certificate is the scaled rational sum.
pub proof fn lemma_scaled_sum(hs: Seq<(Ineq, Seq<(usize, int)>)>, s: Seq<(int, int)>, l: int, a: usize)
    requires
        l > 0,
        s.len() <= usize::MAX,
        forall|k: int| 0 <= k < s.len() ==> qwf(#[trigger] s[k]) && l % s[k].1 == 0,
    ensures
        qint(form_weighted_sum(hs, scaled_cert(s, l), a)) == qmul(
            qint(l),
            rsum(|k: int| qmul(s[k], qint(form_coeff(hs[k].1, a))), s.len() as int),
        ),
    decreases s.len(),
{
    let f = |k: int| qmul(s[k], qint(form_coeff(hs[k].1, a)));
    lemma_qint(l, 0);
    lemma_qzero_ops(qzero());
    if s.len() == 0 {
        lemma_qmul_one_zero(qint(l));
    } else {
        let sp = s.drop_last();
        let v = s.last();
        let kk = s.len() - 1;
        assert(v == s[kk]);
        lemma_scaled_sum(hs, sp, l, a);
        let fp = |k: int| qmul(sp[k], qint(form_coeff(hs[k].1, a)));
        lemma_rsum_ext(fp, f, kk);
        let x = rsum(f, kk);
        assert(wf_upto(f, kk + 1)) by {
            assert forall|k: int| 0 <= k < kk + 1 implies qwf(#[trigger] f(k)) by {
                lemma_qint(form_coeff(hs[k].1, a), 0);
                lemma_qops_wf(s[k], qint(form_coeff(hs[k].1, a)));
            }
        }
        lemma_rsum_wf(f, kk);
        let cf = form_coeff(hs[kk].1, a);
        lemma_qint(cf, 0);
        let y = f(kk);
        lemma_qmul_distrib(qint(l), x, y);
        let c0 = scaled_cert(sp, l);
        let w0 = form_weighted_sum(hs, c0, a);
        if v.0 == 0 {
            lemma_zero_frac(v);
            lemma_qmul_one_zero(qint(cf));
            lemma_qmul_one_zero(qint(l));
            lemma_qops_wf(qint(l), x);
            lemma_qnorm_id(qmul(qint(l), x));
        } else {
            let w = v.0 * (l / v.1);
            let c1 = c0.push((kk as usize, w));
            assert(c1.drop_last() =~= c0);
            assert(form_weighted_sum(hs, c1, a) == w0 + w * cf);
            lemma_qint(w0, w * cf);
            // l * (v * cf) == w * cf
            vstd::arithmetic::div_mod::lemma_fundamental_div_mod(l, v.1);
            let q = l / v.1;
            lemma_nz(v.1, 1);
            lemma_qnorm(v.0 * cf, v.1 * 1);
            let z = qmul(v, qint(cf));
            lemma_qops_wf(v, qint(cf));
            lemma_qmul_comm(qint(l), z);
            lemma_qmul_left(z, qint(l), v.0 * cf, v.1 * 1);
            lemma_nz(v.1 * 1, 1);
            assert(((v.0 * cf) * l) * 1 == (w * cf) * ((v.1 * 1) * 1)) by (nonlinear_arith)
                requires
                    l == v.1 * q + 0,
                    w == v.0 * q,
            ;
            lemma_qnorm_eq((v.0 * cf) * l, (v.1 * 1) * 1, w * cf, 1);
            lemma_qint(w * cf, 0);
        }
    }
}

/// A nonzero coordinate gets an entry of the scaled certificate.
pub proof fn lemma_scaled_has(s: Seq<(int, int)>, l: int, k: int)
    requires
        0 <= k < s.len(),
        s[k].0 != 0,
        s.len() <= usize::MAX,
    ensures
        exists|q: int| 0 <= q < scaled_cert(s, l).len() && (#[trigger] scaled_cert(s, l)[q]).0 == k,
    decreases s.len(),
{
    let sp = s.drop_last();
    let v = s.last();
    if k == s.len() - 1 {
        assert(v == s[k]);
        let c0 = scaled_cert(sp, l);
        assert(scaled_cert(s, l)[c0.len() as int].0 == k);
    } else {
        assert(sp[k] == s[k]);
        lemma_scaled_has(sp, l, k);
        let q = choose|q: int| 0 <= q < scaled_cert(sp, l).len() && (#[trigger] scaled_cert(sp, l)[q]).0 == k;
        assert(scaled_cert(s, l)[q] == scaled_cert(sp, l)[q]);
    }
}

/// A linear form names no atom beyond `max_var`.
pub open spec fn form_within(hs: Seq<(Ineq, Seq<(usize, int)>)>, max_var: int) -> bool {
    forall|i: int, k: int| 0 <= i < hs.len() && 0 <= k < hs[i].1.len() ==> (#[trigger] hs[i].1[k]).0 <= max_var
}

proof fn lemma_form_coeff_beyond(cs: Seq<(usize, int)>, a: usize)
    requires
        forall|k: int| 0 <= k < cs.len() ==> (#[trigger] cs[k]).0 != a,
    ensures
        form_coeff(cs, a) == 0,
    decreases cs.len(),
{
    if cs.len() > 0 {
        assert(cs.last() == cs[cs.len() - 1]);
        lemma_form_coeff_beyond(cs.drop_last(), a);
    }
}


/// Hypotheses whose atoms stay within `max_var` have models that do too.
pub proof fn lemma_atoms_within(hyps: Seq<Hyp>, max_var: usize)
    requires
        atoms_within(hyps, max_var),
    ensures
        form_within(hyps_model(hyps), max_var as int),
{
    let hs = hyps_model(hyps);
    assert forall|i: int, k: int| 0 <= i < hs.len() && 0 <= k < hs[i].1.len() implies (#[trigger] hs[i].1[k]).0
        <= max_var by {
        assert(hs[i] == hyp_model(hyps[i]));
        assert(hs[i].1[k].0 == hyps[i].coeffs@[k].0);
    }
}

/// In a successful tableau of the search, some strict hypothesis has a
/// nonzero extracted coordinate: the objective, the sum of the strict
/// coordinates, is positive.
pub proof fn lemma_success_strict(hs: Seq<(Ineq, Seq<(usize, int)>)>, max_var: int, tf: TabView)
    requires
        0 <= max_var,
        hs.len() + 3 <= usize::MAX,
        search_ok(state_lp(hs, max_var), tf, max_var + 3, hs.len() as int),
        success(tf),
    ensures
        exists|k: int|
            0 <= k < hs.len() && hs[k].0 == Ineq::Lt && #[trigger] extract(
                tf,
                hs.len() as int,
                tf.basic.len() as int,
            )[k].0 != 0,
{
    let m = hs.len() as int;
    let b = state_lp(hs, max_var);
    lemma_qint(-1, 0);
    lemma_qint(1, 0);
    lemma_qzero_ops(qzero());
    assert forall|i: int, j: int| qwf(#[trigger] b(i, j)) by {
        if 2 <= i < max_var + 3 && 2 <= j < m + 2 {
            lemma_qint(form_coeff(hs[j - 2].1, (i - 2) as usize), 0);
        }
    }
    let len = tf.basic.len() as int;
    let last = tf.free.len() - 1;
    let v = extract(tf, m, len);
    lemma_extract_shape(tf, m, len);
        // a strict hypothesis carries a positive weight
        let w0 = |col: int| b(0, col);
        assert(null_on(b, tf, 0, last));
        assert forall|col: int| qwf(#[trigger] w0(col)) by {}
        assert forall|i: int| 1 <= i < len && (tf.basic[i] < 2 || tf.basic[i] >= m + 2) implies #[trigger] w0(tf.basic[i] as int) == qzero() by {
            assert(tf.basic[i] != tf.basic[0]);
        }
        lemma_extract_sum(tf, m, len, w0);
        let g0 = |j: int| qmul(v[j], w0(j + 2));
        let obj = (tf.mat)(0, last);
        assert(obj.0 > 0);
        if !(exists|k: int| 0 <= k < m && hs[k].0 == Ineq::Lt && #[trigger] v[k].0 != 0) {
            assert forall|j: int| 0 <= j < m implies #[trigger] g0(j) == qzero() by {
                if hs[j].0 == Ineq::Lt {
                    lemma_zero_frac(v[j]);
                    lemma_qmul_one_zero(w0(j + 2));
                } else {
                    lemma_qmul_one_zero(v[j]);
                }
            }
            lemma_rsum_zero(g0, m);
            let neg = qmul(obj, w0(0));
            assert(w0(0) == qint(-1));
            lemma_nz(obj.1, 1);
            lemma_qnorm(obj.0 * (-1), obj.1 * 1);
            lemma_qops_wf(obj, qint(-1));
            lemma_qnorm_id(neg);
            let g00 = |i: int| qmul((tf.mat)(i, last), b(0, tf.basic[i] as int));
            assert(wf_upto(g00, len)) by {
                assert forall|i: int| 0 <= i < len implies qwf(#[trigger] g00(i)) by {
                    lemma_qops_wf((tf.mat)(i, last), b(0, tf.basic[i] as int));
                }
            }
            lemma_rsum_wf(g00, len);
            let srow = rsum(|i: int| qmul((tf.mat)(i, last), b(0, tf.basic[i] as int)), len);
            lemma_rsum_ext(
                |i: int| qmul((tf.mat)(i, tf.free.len() - 1), w0(tf.basic[i] as int)),
                |i: int| qmul((tf.mat)(i, last), b(0, tf.basic[i] as int)),
                len,
            );
            lemma_rsum_ext(|j: int| qmul(extract(tf, m, len)[j], w0(j + 2)), g0, m);
            lemma_qadd_comm(qzero(), srow);
            lemma_qnorm_id(srow);
            assert(srow == qadd(neg, qzero()));
            assert(neg == qnorm(obj.0 * (-1), obj.1 * 1));
            assert(neg.0 != 0) by (nonlinear_arith)
                requires
                    neg.0 * (obj.1 * 1) == (obj.0 * (-1)) * neg.1,
                    obj.0 > 0,
                    neg.1 > 0,
            ;
            assert(false);
        }
}

/// The certificate search is sound: whatever certificate it returns for
/// hypotheses over the atoms `0..=max_var` refutes them.
#[verifier::spinoff_prover]
#[verifier::rlimit(40)]
pub proof fn lemma_certificate_refutes(hs: Seq<(Ineq, Seq<(usize, int)>)>, max_var: int)
    requires
        0 <= max_var,
        hs.len() + 3 <= usize::MAX,
        form_within(hs, max_var),
    ensures
        certificate(hs, max_var) matches Some(c) ==> refutes(hs, c),
{
    let m = hs.len() as int;
    let b = state_lp(hs, max_var);
    let n = max_var + 3;
    let cols = m + 3;
    lemma_qint(-1, 0);
    lemma_qint(1, 0);
    lemma_qzero_ops(qzero());
    assert forall|i: int, j: int| qwf(#[trigger] b(i, j)) by {
        if 2 <= i < max_var + 3 && 2 <= j < m + 2 {
            lemma_qint(form_coeff(hs[j - 2].1, (i - 2) as usize), 0);
        }
    }
    let t0 = gauss_tableau(b, n, cols);
    if certificate(hs, max_var) is Some {
        let c = certificate(hs, max_var)->0;
        lemma_tableau_start(b, n, cols);
        let budget = 0xffff_ffff_ffff_ffffnat;
        let tf = run(t0, budget)->0;
        assert(search_ok(b, t0, n, m));
        lemma_run(b, t0, budget, n, m);
        let len = tf.basic.len() as int;
        let last = tf.free.len() - 1;
        let v = extract(tf, m, len);
        let l = lcm_fold(v);
        assert(c == scaled_cert(v, l));
        lemma_extract_shape(tf, m, len);
        assert forall|j: int| 0 <= j < m implies (#[trigger] v[j]).0 >= 0 by {
            lemma_extract_nonneg(tf, m, len, j);
        }
        lemma_lcm_fold(v);
        lemma_scaled_cert_shape(v, l);
        // every atom's weighted sum vanishes
        assert forall|a: usize| #[trigger] form_weighted_sum(hs, c, a) == 0 by {
            let fa = |j: int| qmul(v[j], qint(form_coeff(hs[j].1, a)));
            lemma_scaled_sum(hs, v, l, a);
            if a <= max_var {
                let r = a + 2;
                let w = |col: int| b(r, col);
                assert(null_on(b, tf, r, last));
                assert forall|col: int| qwf(#[trigger] w(col)) by {}
                lemma_extract_sum(tf, m, len, w);
                assert(tf.basic[0] == 0);
                assert(w(0) == qzero());
                lemma_qmul_one_zero((tf.mat)(0, last));
                assert(b(r, m + 2) == qzero());
                let srow = rsum(|i: int| qmul((tf.mat)(i, tf.free.len() - 1), w(tf.basic[i] as int)), len);
                lemma_rsum_ext(
                    |i: int| qmul((tf.mat)(i, tf.free.len() - 1), w(tf.basic[i] as int)),
                    |i: int| qmul((tf.mat)(i, last), b(r, tf.basic[i] as int)),
                    len,
                );
                let gw = |j: int| qmul(v[j], w(j + 2));
                assert(wf_upto(gw, m)) by {
                    assert forall|j: int| 0 <= j < m implies qwf(#[trigger] gw(j)) by {
                        lemma_qops_wf(v[j], w(j + 2));
                    }
                }
                lemma_rsum_wf(gw, m);
                lemma_qadd_comm(qzero(), rsum(|j: int| qmul(v[j], w(j + 2)), m));
                lemma_qnorm_id(rsum(|j: int| qmul(v[j], w(j + 2)), m));
                let gr = |i: int| qmul((tf.mat)(i, last), b(r, tf.basic[i] as int));
                assert(wf_upto(gr, len)) by {
                    assert forall|i: int| 0 <= i < len implies qwf(#[trigger] gr(i)) by {
                        lemma_qops_wf((tf.mat)(i, last), b(r, tf.basic[i] as int));
                    }
                }
                lemma_rsum_wf(gr, len);
                lemma_qadd_comm(qzero(), srow);
                lemma_qnorm_id(srow);
                assert(srow == qzero());
                lemma_rsum_ext(|j: int| qmul(v[j], w(j + 2)), fa, m);
                assert(rsum(fa, m) == qzero());
            } else {
                assert forall|j: int| 0 <= j < m implies #[trigger] fa(j) == qzero() by {
                    assert forall|k: int| 0 <= k < hs[j].1.len() implies (#[trigger] hs[j].1[k]).0 != a by {}
                    lemma_form_coeff_beyond(hs[j].1, a);
                    lemma_qmul_one_zero(v[j]);
                }
                lemma_rsum_zero(fa, m);
            }
            lemma_qmul_one_zero(qint(l));
        }
        lemma_success_strict(hs, max_var, tf);
        let k = choose|k: int| 0 <= k < m && hs[k].0 == Ineq::Lt && #[trigger] v[k].0 != 0;
        lemma_scaled_has(v, l, k);
        let q = choose|q: int| 0 <= q < c.len() && (#[trigger] c[q]).0 == k;
        assert(hs[c[q].0 as int].0 == Ineq::Lt);
    }
}

} // verus!
