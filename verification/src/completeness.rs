//! Why the search misses no certificate: a refuting certificate gives a
//! nonnegative null vector of `stateLP` with a positive objective; every
//! row of every tableau the search visits expresses its basic variable
//! through the free ones on that vector, and the search keeps its tableau
//! feasible, so it can stop only at a successful tableau.
use crate::rational::{
    lemma_qadd_assoc, lemma_qadd_comm, lemma_qint, lemma_qmul_assoc, lemma_qmul_comm,
    lemma_qmul_distrib, lemma_qmul_units, lemma_qnorm, lemma_qnorm_id, lemma_qsub_neg, lemma_nz,
    lemma_qzero_ops, qadd, qdiv, qint, qmul, qneg, qnorm, qsub, qwf, qzero,
};
use crate::simplex::{
    enter_scan, entering, exit_scan, exiting, first_nz, free_rest, gauss_loop, gauss_start,
    gauss_tableau, m_divrow, m_eliminate, m_swap, certificate, extract, lcm_fold, pivot, run,
    state_lp, success, GaussState, QMat, TabView,
};
use crate::soundness::{
    gauss_ok, ident, lemma_factor_gauss, lemma_factor_ident, lemma_first_nz_found, lemma_free_rest,
    lemma_enter_range, lemma_exit_range, lemma_gauss_ok, lemma_pivot_coef, lemma_pivot_distinct,
    lemma_extract_shape, lemma_pivot_represents, lemma_run, lemma_scaled_has, lemma_success_strict,
    lemma_tableau_start, null_on, search_ok, lemma_qmul_one_zero, lemma_rowops_wf, lemma_rsum_point,
    lemma_rsum_update, lemma_qops_wf, lemma_rsum_add, lemma_rsum_ext, lemma_rsum_neg,
    lemma_rsum_scale, lemma_rsum_wf, qmat_wf, rsum, wf_upto,
};
use crate::tiered::split_ok;
use crate::types::Ineq;
use crate::verify::{form_coeff, form_weighted_sum, refutes};
use vstd::prelude::*;

verus! {

/// Row `r` of `m` applied to the vector `v` over the columns `[0, cols)`.
pub open spec fn row_dot(m: QMat, r: int, v: spec_fn(int) -> (int, int), cols: int) -> (int, int) {
    rsum(|j: int| qmul(m(r, j), v(j)), cols)
}

/// The first `n` rows of `m` vanish on `v`.
pub open spec fn kills(m: QMat, v: spec_fn(int) -> (int, int), n: int, cols: int) -> bool {
    forall|r: int| 0 <= r < n ==> #[trigger] row_dot(m, r, v, cols) == qzero()
}

/// Every entry of `v` is reduced.
pub open spec fn vec_wf(v: spec_fn(int) -> (int, int)) -> bool {
    forall|j: int| qwf(#[trigger] v(j))
}

/// Exchanging two rows keeps the rows vanishing on `v`.
proof fn lemma_kills_swap(m: QMat, v: spec_fn(int) -> (int, int), n: int, cols: int, a: int, b: int)
    requires
        kills(m, v, n, cols),
        0 <= a < n,
        0 <= b < n,
    ensures
        kills(m_swap(m, a, b), v, n, cols),
{
    let m1 = m_swap(m, a, b);
    assert forall|r: int| 0 <= r < n implies #[trigger] row_dot(m1, r, v, cols) == qzero() by {
        let src = if r == a { b } else if r == b { a } else { r };
        lemma_rsum_ext(|j: int| qmul(m1(r, j), v(j)), |j: int| qmul(m(src, j), v(j)), cols);
        assert(row_dot(m, src, v, cols) == qzero());
    }
}

/// Dividing a row by a nonzero value keeps the rows vanishing on `v`.
proof fn lemma_kills_divrow(m: QMat, v: spec_fn(int) -> (int, int), n: int, cols: int, i: int, c: (int, int))
    requires
        kills(m, v, n, cols),
        qmat_wf(m),
        vec_wf(v),
        qwf(c),
        c.0 != 0,
        0 <= i < n,
    ensures
        kills(m_divrow(m, i, c), v, n, cols),
{
    let m1 = m_divrow(m, i, c);
    let d = qdiv(qint(1), c);
    lemma_qint(1, 0);
    lemma_qmul_units(qint(1), c);
    let f = |j: int| qmul(m(i, j), v(j));
    assert(wf_upto(f, cols)) by {
        assert forall|j: int| 0 <= j < cols implies qwf(#[trigger] f(j)) by {
            lemma_qops_wf(m(i, j), v(j));
        }
    }
    assert forall|j: int| 0 <= j < cols implies #[trigger] qmul(m1(i, j), v(j)) == qmul(d, f(j)) by {
        lemma_qmul_units(m(i, j), c);
        lemma_qmul_assoc(m(i, j), d, v(j));
        lemma_qmul_comm(m(i, j), d);
        lemma_qmul_assoc(d, m(i, j), v(j));
    }
    lemma_rsum_ext(|j: int| qmul(m1(i, j), v(j)), |j: int| qmul(d, f(j)), cols);
    lemma_rsum_scale(d, f, cols);
    lemma_qmul_one_zero(d);
    assert(row_dot(m, i, v, cols) == qzero());
    assert forall|r: int| 0 <= r < n implies #[trigger] row_dot(m1, r, v, cols) == qzero() by {
        if r != i {
            lemma_rsum_ext(|j: int| qmul(m1(r, j), v(j)), |j: int| qmul(m(r, j), v(j)), cols);
            assert(row_dot(m, r, v, cols) == qzero());
        }
    }
}

/// Eliminating a column with a pivot row keeps the rows vanishing on `v`.
proof fn lemma_kills_eliminate(m: QMat, v: spec_fn(int) -> (int, int), n: int, cols: int, row: int, col: int)
    requires
        kills(m, v, n, cols),
        qmat_wf(m),
        vec_wf(v),
        0 <= row < n,
    ensures
        kills(m_eliminate(m, row, col, n), v, n, cols),
{
    let m3 = m_eliminate(m, row, col, n);
    let fy = |j: int| qmul(m(row, j), v(j));
    assert(wf_upto(fy, cols)) by {
        assert forall|j: int| 0 <= j < cols implies qwf(#[trigger] fy(j)) by {
            lemma_qops_wf(m(row, j), v(j));
        }
    }
    assert(row_dot(m, row, v, cols) == qzero());
    assert forall|r: int| 0 <= r < n implies #[trigger] row_dot(m3, r, v, cols) == qzero() by {
        assert(row_dot(m, r, v, cols) == qzero());
        if r != row && m(r, col).0 != 0 {
            let c = m(r, col);
            let fx = |j: int| qmul(m(r, j), v(j));
            let fc = |j: int| qmul(c, fy(j));
            let g = |j: int| qneg(fc(j));
            assert(wf_upto(fx, cols)) by {
                assert forall|j: int| 0 <= j < cols implies qwf(#[trigger] fx(j)) by {
                    lemma_qops_wf(m(r, j), v(j));
                }
            }
            assert(wf_upto(fc, cols)) by {
                assert forall|j: int| 0 <= j < cols implies qwf(#[trigger] fc(j)) by {
                    lemma_qops_wf(c, fy(j));
                }
            }
            assert(wf_upto(g, cols)) by {
                assert forall|j: int| 0 <= j < cols implies qwf(#[trigger] g(j)) by {
                    lemma_qops_wf(fc(j), fc(j));
                }
            }
            assert forall|j: int| 0 <= j < cols implies #[trigger] qmul(m3(r, j), v(j)) == qadd(fx(j), g(j)) by {
                let x = m(r, j);
                let y = m(row, j);
                let yc = qmul(y, c);
                lemma_qops_wf(y, c);
                lemma_qsub_neg(x, yc);
                lemma_qops_wf(yc, yc);
                lemma_qmul_comm(qadd(x, qneg(yc)), v(j));
                lemma_qmul_distrib(v(j), x, qneg(yc));
                lemma_qmul_comm(v(j), x);
                lemma_qmul_comm(v(j), qneg(yc));
                lemma_qsub_neg(yc, v(j));
                lemma_qmul_assoc(y, c, v(j));
                lemma_qmul_comm(c, v(j));
                lemma_qmul_assoc(y, v(j), c);
                lemma_qmul_comm(fy(j), c);
            }
            lemma_rsum_ext(|j: int| qmul(m3(r, j), v(j)), |j: int| qadd(fx(j), g(j)), cols);
            lemma_rsum_add(fx, g, cols);
            lemma_rsum_neg(fc, cols);
            lemma_rsum_ext(|j: int| qneg(fc(j)), g, cols);
            lemma_rsum_scale(c, fy, cols);
            lemma_qmul_one_zero(c);
            lemma_qzero_ops(qzero());
            lemma_qnorm_id(qzero());
        } else {
            lemma_rsum_ext(|j: int| qmul(m3(r, j), v(j)), |j: int| qmul(m(r, j), v(j)), cols);
        }
    }
}

/// The elimination keeps the rows vanishing on `v`.
pub proof fn lemma_gauss_kills(g: GaussState, v: spec_fn(int) -> (int, int), n: int, cols: int)
    requires
        kills(g.mat, v, n, cols),
        qmat_wf(g.mat),
        vec_wf(v),
        0 <= g.row,
    ensures
        kills(gauss_loop(g, n, cols).mat, v, n, cols),
    decreases cols - g.col,
{
    if g.row < n && g.col < cols {
        lemma_first_nz_found(g.mat, g.col, g.row, n);
        match first_nz(g.mat, g.col, g.row, n) {
            None => lemma_gauss_kills(
                GaussState { mat: g.mat, basic: g.basic, free: g.free.push(g.col as usize), row: g.row, col: g.col + 1 },
                v,
                n,
                cols,
            ),
            Some(p) => {
                lemma_qzero_ops(qzero());
                let m1 = m_swap(g.mat, g.row, p);
                lemma_kills_swap(g.mat, v, n, cols, g.row, p);
                lemma_rowops_wf(g.mat, g.row, p, qzero(), 0, 0);
                let a = m1(g.row, g.col);
                let m2 = m_divrow(m1, g.row, a);
                lemma_kills_divrow(m1, v, n, cols, g.row, a);
                lemma_rowops_wf(m1, g.row, 0, a, 0, 0);
                lemma_kills_eliminate(m2, v, n, cols, g.row, g.col);
                lemma_rowops_wf(m2, g.row, 0, qzero(), g.col, n);
                lemma_gauss_kills(
                    GaussState {
                        mat: m_eliminate(m2, g.row, g.col, n),
                        basic: g.basic.push(g.col as usize),
                        free: g.free,
                        row: g.row + 1,
                        col: g.col + 1,
                    },
                    v,
                    n,
                    cols,
                )
            },
        }
    }
}

/// Column `j` is a basic or a free one.
pub open spec fn covered(bs: Seq<usize>, fs: Seq<usize>, j: int) -> bool {
    (exists|k: int| 0 <= k < bs.len() && #[trigger] bs[k] as int == j) || (exists|p: int|
        0 <= p < fs.len() && #[trigger] fs[p] as int == j)
}

/// Every column in `[0, cols)` is a basic or a free one.
pub open spec fn covers(bs: Seq<usize>, fs: Seq<usize>, cols: int) -> bool {
    forall|j: int| 0 <= j < cols ==> #[trigger] covered(bs, fs, j)
}

/// A sum over the columns splits into the basic and the free columns.
pub proof fn lemma_rsum_split(h: spec_fn(int) -> (int, int), bs: Seq<usize>, fs: Seq<usize>, cols: int)
    requires
        split_ok(bs, fs, cols),
        covers(bs, fs, cols),
        wf_upto(h, cols),
    ensures
        rsum(h, cols) == qadd(
            rsum(|k: int| h(bs[k] as int), bs.len() as int),
            rsum(|p: int| h(fs[p] as int), fs.len() as int),
        ),
    decreases cols,
{
    lemma_qzero_ops(qzero());
    lemma_qnorm_id(qzero());
    let hb = |k: int| h(bs[k] as int);
    let hf = |p: int| h(fs[p] as int);
    if cols <= 0 {
        if bs.len() > 0 {
            assert(bs[0] < cols);
        }
        if fs.len() > 0 {
            assert(fs[0] < cols);
        }
    } else {
        let top = cols - 1;
        assert(wf_upto(hb, bs.len() as int)) by {
            assert forall|k: int| 0 <= k < bs.len() implies qwf(#[trigger] hb(k)) by {
                assert(bs[k] < cols);
            }
        }
        assert(wf_upto(hf, fs.len() as int)) by {
            assert forall|p: int| 0 <= p < fs.len() implies qwf(#[trigger] hf(p)) by {
                assert(fs[p] < cols);
            }
        }
        assert(wf_upto(h, top));
        lemma_rsum_wf(h, top);
        assert(covered(bs, fs, top));
        if exists|k: int| 0 <= k < bs.len() && #[trigger] bs[k] as int == top {
            let k = choose|k: int| 0 <= k < bs.len() && #[trigger] bs[k] as int == top;
            let lb = bs.len() - 1;
            if k < lb {
                assert(bs[k] < bs[lb]);
            }
            let b2 = bs.drop_last();
            assert(split_ok(b2, fs, top)) by {
                assert forall|a: int| 0 <= a < fs.len() implies #[trigger] fs[a] < top by {
                    assert(fs[a] != bs[lb]);
                }
                assert forall|a: int| 0 <= a < b2.len() implies #[trigger] b2[a] < top by {
                    assert(bs[a] < bs[lb]);
                }
            }
            assert(covers(b2, fs, top)) by {
                assert forall|j: int| 0 <= j < top implies #[trigger] covered(b2, fs, j) by {
                    assert(covered(bs, fs, j));
                    if exists|q: int| 0 <= q < bs.len() && #[trigger] bs[q] as int == j {
                        let q = choose|q: int| 0 <= q < bs.len() && #[trigger] bs[q] as int == j;
                        assert(b2[q] == bs[q]);
                    }
                }
            }
            lemma_rsum_split(h, b2, fs, top);
            lemma_rsum_ext(|q: int| h(b2[q] as int), hb, lb);
            lemma_rsum_wf(hb, lb);
            lemma_rsum_wf(hf, fs.len() as int);
            lemma_qadd_assoc(rsum(hb, lb), rsum(hf, fs.len() as int), h(top));
            lemma_qadd_comm(rsum(hf, fs.len() as int), h(top));
            lemma_qadd_assoc(rsum(hb, lb), h(top), rsum(hf, fs.len() as int));
        } else {
            assert(exists|p: int| 0 <= p < fs.len() && #[trigger] fs[p] as int == top);
            let k = choose|p: int| 0 <= p < fs.len() && #[trigger] fs[p] as int == top;
            let lf = fs.len() - 1;
            if k < lf {
                assert(fs[k] < fs[lf]);
            }
            let f2 = fs.drop_last();
            assert(split_ok(bs, f2, top)) by {
                assert forall|a: int| 0 <= a < bs.len() implies #[trigger] bs[a] < top by {
                    assert(bs[a] != fs[lf]);
                }
                assert forall|a: int| 0 <= a < f2.len() implies #[trigger] f2[a] < top by {
                    assert(fs[a] < fs[lf]);
                }
            }
            assert(covers(bs, f2, top)) by {
                assert forall|j: int| 0 <= j < top implies #[trigger] covered(bs, f2, j) by {
                    assert(covered(bs, fs, j));
                    if exists|q: int| 0 <= q < fs.len() && #[trigger] fs[q] as int == j {
                        let q = choose|q: int| 0 <= q < fs.len() && #[trigger] fs[q] as int == j;
                        assert(f2[q] == fs[q]);
                    }
                }
            }
            lemma_rsum_split(h, bs, f2, top);
            lemma_rsum_ext(|q: int| h(f2[q] as int), hf, lf);
            lemma_rsum_wf(hf, lf);
            lemma_rsum_wf(hb, bs.len() as int);
            lemma_qadd_assoc(rsum(hb, bs.len() as int), rsum(hf, lf), h(top));
        }
    }
}

/// The elimination scans every column it passes into the basic or the free
/// ones.
proof fn lemma_gauss_covers(g: GaussState, n: int, cols: int)
    requires
        covers(g.basic, g.free, g.col),
        0 <= g.col,
        cols <= usize::MAX,
    ensures
        covers(gauss_loop(g, n, cols).basic, gauss_loop(g, n, cols).free, gauss_loop(g, n, cols).col),
    decreases cols - g.col,
{
    if g.row < n && g.col < cols {
        let c = g.col;
        match first_nz(g.mat, g.col, g.row, n) {
            None => {
                let f2 = g.free.push(c as usize);
                assert(covers(g.basic, f2, c + 1)) by {
                    assert forall|j: int| 0 <= j < c + 1 implies #[trigger] covered(g.basic, f2, j) by {
                        if j == c {
                            assert(f2[g.free.len() as int] as int == j);
                        } else {
                            assert(covered(g.basic, g.free, j));
                            if exists|p: int| 0 <= p < g.free.len() && #[trigger] g.free[p] as int == j {
                                let p = choose|p: int| 0 <= p < g.free.len() && #[trigger] g.free[p] as int == j;
                                assert(f2[p] == g.free[p]);
                            }
                        }
                    }
                }
                lemma_gauss_covers(
                    GaussState { mat: g.mat, basic: g.basic, free: f2, row: g.row, col: c + 1 },
                    n,
                    cols,
                );
            },
            Some(p) => {
                let m1 = m_swap(g.mat, g.row, p);
                let m2 = m_divrow(m1, g.row, m1(g.row, g.col));
                let b2 = g.basic.push(c as usize);
                assert(covers(b2, g.free, c + 1)) by {
                    assert forall|j: int| 0 <= j < c + 1 implies #[trigger] covered(b2, g.free, j) by {
                        if j == c {
                            assert(b2[g.basic.len() as int] as int == j);
                        } else {
                            assert(covered(g.basic, g.free, j));
                            if exists|k: int| 0 <= k < g.basic.len() && #[trigger] g.basic[k] as int == j {
                                let k = choose|k: int| 0 <= k < g.basic.len() && #[trigger] g.basic[k] as int == j;
                                assert(b2[k] == g.basic[k]);
                            }
                        }
                    }
                }
                lemma_gauss_covers(
                    GaussState { mat: m_eliminate(m2, g.row, g.col, n), basic: b2, free: g.free, row: g.row + 1, col: c + 1 },
                    n,
                    cols,
                );
            },
        }
    }
}

/// `a + x == 0` makes `a` the negation of `x`.
proof fn lemma_qadd_zero_neg(a: (int, int), x: (int, int))
    requires
        qwf(a),
        qwf(x),
        qadd(a, x) == qzero(),
    ensures
        a == qneg(x),
{
    lemma_qsub_neg(x, x);
    lemma_qops_wf(x, x);
    lemma_qadd_assoc(a, x, qneg(x));
    lemma_qnorm_id(a);
    lemma_qnorm_id(qneg(x));
    lemma_qadd_comm(qzero(), qneg(x));
}

/// Row `i` of the tableau expresses its basic variable through the free
/// ones on `v`.
pub open spec fn row_holds(t: TabView, v: spec_fn(int) -> (int, int), i: int) -> bool {
    v(t.basic[i] as int) == rsum(|p: int| qmul((t.mat)(i, p), v(t.free[p] as int)), t.free.len() as int)
}

/// Every row of the tableau holds on `v`.
pub open spec fn rows_hold(t: TabView, v: spec_fn(int) -> (int, int)) -> bool {
    forall|i: int| 0 <= i < t.basic.len() ==> #[trigger] row_holds(t, v, i)
}

/// On a vector that the matrix's rows vanish on, every row of its Gauss
/// tableau holds.
pub proof fn lemma_tableau_rows(b: QMat, v: spec_fn(int) -> (int, int), n: int, cols: int)
    requires
        qmat_wf(b),
        vec_wf(v),
        kills(b, v, n, cols),
        0 <= n,
        0 <= cols <= usize::MAX,
    ensures
        rows_hold(gauss_tableau(b, n, cols), v),
        split_ok(gauss_tableau(b, n, cols).basic, gauss_tableau(b, n, cols).free, cols),
{
    let g0 = gauss_start(b);
    let gf = gauss_loop(g0, n, cols);
    let e = gf.mat;
    let t = gauss_tableau(b, n, cols);
    let fs = free_rest(gf.free, gf.col, cols);
    let bs = gf.basic;
    lemma_factor_ident(b, n);
    let _c = lemma_factor_gauss(b, ident(), g0, n, cols);
    assert(split_ok(g0.basic, g0.free, 0));
    assert(gauss_ok(g0, n));
    lemma_gauss_ok(g0, n, cols);
    lemma_gauss_kills(g0, v, n, cols);
    lemma_gauss_covers(g0, n, cols);
    lemma_free_rest(gf.free, gf.col, cols);
    lemma_qzero_ops(qzero());
    lemma_qint(1, 0);
    assert(t.basic == bs && t.free == fs);
    assert(split_ok(bs, fs, cols)) by {
        assert forall|a: int, c: int| 0 <= a < c < fs.len() implies #[trigger] fs[a] < #[trigger] fs[c] by {
            if c < gf.free.len() {
                assert(fs[a] == gf.free[a] && fs[c] == gf.free[c]);
            } else if a < gf.free.len() {
                assert(fs[a] == gf.free[a]);
            }
        }
        assert forall|a: int| 0 <= a < fs.len() implies #[trigger] fs[a] < cols by {
            if a < gf.free.len() {
                assert(fs[a] == gf.free[a]);
            }
        }
        assert forall|a: int, c: int| 0 <= a < bs.len() && 0 <= c < fs.len() implies #[trigger] bs[a] != #[trigger] fs[c] by {
            if c < gf.free.len() {
                assert(fs[c] == gf.free[c]);
            }
        }
    }
    assert(covers(bs, fs, cols)) by {
        assert forall|j: int| 0 <= j < cols implies #[trigger] covered(bs, fs, j) by {
            if j < gf.col {
                assert(covered(bs, gf.free, j));
                if exists|p: int| 0 <= p < gf.free.len() && #[trigger] gf.free[p] as int == j {
                    let p = choose|p: int| 0 <= p < gf.free.len() && #[trigger] gf.free[p] as int == j;
                    assert(fs[p] == gf.free[p]);
                }
            } else {
                let p = gf.free.len() + (j - gf.col);
                assert(fs[p] as int == j);
            }
        }
    }
    assert forall|i: int| 0 <= i < t.basic.len() implies #[trigger] row_holds(t, v, i) by {
        let h = |j: int| qmul(e(i, j), v(j));
        assert(wf_upto(h, cols)) by {
            assert forall|j: int| 0 <= j < cols implies qwf(#[trigger] h(j)) by {
                lemma_qops_wf(e(i, j), v(j));
            }
        }
        assert(row_dot(e, i, v, cols) == qzero());
        lemma_rsum_split(h, bs, fs, cols);
        let hb = |k: int| h(bs[k] as int);
        let hf = |p: int| h(fs[p] as int);
        // the basic columns give v at row i's basic variable
        assert forall|k: int| 0 <= k < bs.len() && k != i implies #[trigger] hb(k) == qzero() by {
            lemma_qmul_one_zero(v(bs[k] as int));
        }
        lemma_qmul_one_zero(v(bs[i] as int));
        lemma_rsum_point(hb, bs.len() as int, i);
        // the free columns give the negated tableau row
        assert(wf_upto(hf, fs.len() as int)) by {
            assert forall|p: int| 0 <= p < fs.len() implies qwf(#[trigger] hf(p)) by {
                lemma_qops_wf(e(i, fs[p] as int), v(fs[p] as int));
            }
        }
        lemma_rsum_wf(hf, fs.len() as int);
        lemma_rsum_neg(hf, fs.len() as int);
        assert forall|p: int| 0 <= p < fs.len() implies #[trigger] qmul((t.mat)(i, p), v(t.free[p] as int)) == qneg(hf(p)) by {
            lemma_qsub_neg(e(i, fs[p] as int), v(fs[p] as int));
        }
        lemma_rsum_ext(|p: int| qmul((t.mat)(i, p), v(t.free[p] as int)), |p: int| qneg(hf(p)), fs.len() as int);
        lemma_qadd_zero_neg(v(bs[i] as int), rsum(hf, fs.len() as int));
    }
}

/// A pivot keeps every row holding on `v`.
pub proof fn lemma_pivot_rows(t: TabView, v: spec_fn(int) -> (int, int), x: int, e: int)
    requires
        rows_hold(t, v),
        qmat_wf(t.mat),
        vec_wf(v),
        0 <= x < t.basic.len(),
        0 <= e < t.free.len(),
        (t.mat)(x, e).0 != 0,
    ensures
        rows_hold(pivot(t, x, e), v),
{
    let t2 = pivot(t, x, e);
    assert forall|i: int| 0 <= i < t2.basic.len() implies #[trigger] row_holds(t2, v, i) by {
        lemma_pivot_row(t, v, x, e, i);
    }
}

/// One row of the pivot.
proof fn lemma_pivot_row(t: TabView, v: spec_fn(int) -> (int, int), x: int, e: int, i: int)
    requires
        rows_hold(t, v),
        qmat_wf(t.mat),
        vec_wf(v),
        0 <= x < t.basic.len(),
        0 <= e < t.free.len(),
        0 <= i < t.basic.len(),
        (t.mat)(x, e).0 != 0,
    ensures
        row_holds(pivot(t, x, e), v, i),
{
    let t2 = pivot(t, x, e);
    let len = t.free.len() as int;
    let a = (t.mat)(x, e);
    let vf = |p: int| v(t.free[p] as int);
    let vbx = v(t.basic[x] as int);
    let vfe = vf(e);
    let tx = |p: int| qmul((t.mat)(x, p), vf(p));
    let g = |p: int| qmul((t2.mat)(i, p), v(t2.free[p] as int));
    assert(row_holds(t, v, x));
    assert(row_holds(t, v, i));
    lemma_rsum_ext(|p: int| qmul((t.mat)(x, p), v(t.free[p] as int)), tx, len);
    assert(wf_upto(tx, len)) by {
        assert forall|p: int| 0 <= p < len implies qwf(#[trigger] tx(p)) by {
            lemma_qops_wf((t.mat)(x, p), vf(p));
        }
    }
    lemma_qint(1, 0);
    lemma_qint(-1, 0);
    lemma_qzero_ops(qzero());
    let mu = qdiv(qint(1), a);
    lemma_qmul_units(qint(1), a);
    lemma_pivot_coef(qint(-1), qint(-1), a);
    assert(t2.free.len() == len);
    if i == x {
        let h = |p: int| qneg(qmul(mu, tx(p)));
        let X = qmul(mu, vbx);
        assert(wf_upto(h, len)) by {
            assert forall|p: int| 0 <= p < len implies qwf(#[trigger] h(p)) by {
                lemma_qops_wf(mu, tx(p));
                lemma_qops_wf(qmul(mu, tx(p)), qmul(mu, tx(p)));
            }
        }
        assert(wf_upto(g, len)) by {
            assert forall|p: int| 0 <= p < len implies qwf(#[trigger] g(p)) by {
                lemma_pivot_coef((t.mat)(x, p), qint(1), a);
                lemma_qops_wf((t2.mat)(i, p), v(t2.free[p] as int));
            }
        }
        assert forall|p: int| 0 <= p < len && p != e implies #[trigger] g(p) == h(p) by {
            let m = (t.mat)(x, p);
            lemma_pivot_coef(m, qint(1), a);
            lemma_qmul_one_zero(qdiv(m, qneg(a)));
            lemma_qops_wf(m, mu);
            lemma_qsub_neg(qmul(m, mu), qmul(m, mu));
            assert((t2.mat)(i, p) == qneg(qmul(m, mu)));
            assert(t2.free[p] == t.free[p]);
            lemma_qsub_neg(qmul(m, mu), vf(p));
            lemma_qmul_comm(m, mu);
            lemma_qmul_assoc(mu, m, vf(p));
        }
        lemma_rsum_update(h, g, len, e);
        let mt = |p: int| qmul(mu, tx(p));
        assert(wf_upto(mt, len)) by {
            assert forall|p: int| 0 <= p < len implies qwf(#[trigger] mt(p)) by {
                lemma_qops_wf(mu, tx(p));
            }
        }
        lemma_rsum_neg(mt, len);
        lemma_rsum_ext(|p: int| qneg(mt(p)), h, len);
        lemma_rsum_scale(mu, tx, len);
        assert(rsum(mt, len) == X);
        assert(rsum(h, len) == qneg(X));
        // the entering column
        assert(t2.free[e] == t.basic[x]);
        assert(g(e) == X);
        lemma_qmul_assoc(mu, a, vfe);
        lemma_qmul_one_zero(vfe);
        assert(h(e) == qneg(vfe));
        lemma_qops_wf(mu, vbx);
        lemma_qsub_neg(X, qneg(vfe));
        lemma_qsub_neg(vfe, vfe);
        lemma_qsub_neg(X, X);
        lemma_qops_wf(X, X);
        lemma_qadd_assoc(qneg(X), X, vfe);
        lemma_qadd_comm(qneg(X), X);
        lemma_qnorm_id(vfe);
        lemma_qadd_comm(qzero(), vfe);
        assert(qsub(g(e), h(e)) == qadd(X, vfe));
        assert(rsum(g, len) == qadd(qneg(X), qadd(X, vfe)));
        assert(rsum(g, len) == vfe);
        assert(t2.basic[x] == t.free[e]);
    } else {
        let ti = |p: int| qmul((t.mat)(i, p), vf(p));
        let c = qdiv((t.mat)(i, e), a);
        lemma_qmul_units((t.mat)(i, e), a);
        let h = |p: int| qadd(ti(p), qneg(qmul(c, tx(p))));
        let Y = qmul(c, vbx);
        lemma_rsum_ext(|p: int| qmul((t.mat)(i, p), v(t.free[p] as int)), ti, len);
        assert(wf_upto(ti, len)) by {
            assert forall|p: int| 0 <= p < len implies qwf(#[trigger] ti(p)) by {
                lemma_qops_wf((t.mat)(i, p), vf(p));
            }
        }
        let nc = |p: int| qneg(qmul(c, tx(p)));
        assert(wf_upto(nc, len)) by {
            assert forall|p: int| 0 <= p < len implies qwf(#[trigger] nc(p)) by {
                lemma_qops_wf(c, tx(p));
                lemma_qops_wf(qmul(c, tx(p)), qmul(c, tx(p)));
            }
        }
        assert(wf_upto(h, len)) by {
            assert forall|p: int| 0 <= p < len implies qwf(#[trigger] h(p)) by {
                lemma_qops_wf(ti(p), nc(p));
            }
        }
        assert(wf_upto(g, len)) by {
            assert forall|p: int| 0 <= p < len implies qwf(#[trigger] g(p)) by {
                lemma_qops_wf((t.mat)(x, p), c);
                lemma_qops_wf((t.mat)(i, p), qmul((t.mat)(x, p), c));
                lemma_qops_wf((t2.mat)(i, p), v(t2.free[p] as int));
            }
        }
        assert forall|p: int| 0 <= p < len && p != e implies #[trigger] g(p) == h(p) by {
            let xx = (t.mat)(i, p);
            let y = (t.mat)(x, p);
            let yc = qmul(y, c);
            let w = vf(p);
            assert(t2.free[p] == t.free[p]);
            assert((t2.mat)(i, p) == qsub(xx, yc));
            lemma_qops_wf(y, c);
            lemma_qsub_neg(xx, yc);
            lemma_qops_wf(yc, yc);
            lemma_qmul_comm(qadd(xx, qneg(yc)), w);
            lemma_qmul_distrib(w, xx, qneg(yc));
            lemma_qmul_comm(w, xx);
            lemma_qmul_comm(w, qneg(yc));
            lemma_qsub_neg(yc, w);
            lemma_qmul_assoc(y, c, w);
            lemma_qmul_comm(c, w);
            lemma_qmul_assoc(y, w, c);
            lemma_qmul_comm(tx(p), c);
        }
        lemma_rsum_update(h, g, len, e);
        lemma_rsum_add(ti, nc, len);
        lemma_rsum_ext(|p: int| qadd(ti(p), nc(p)), h, len);
        let ct = |p: int| qmul(c, tx(p));
        assert(wf_upto(ct, len)) by {
            assert forall|p: int| 0 <= p < len implies qwf(#[trigger] ct(p)) by {
                lemma_qops_wf(c, tx(p));
            }
        }
        lemma_rsum_neg(ct, len);
        lemma_rsum_ext(|p: int| qneg(ct(p)), nc, len);
        lemma_rsum_scale(c, tx, len);
        // the entering column
        assert(t2.free[e] == t.basic[x]);
        assert(g(e) == Y);
        lemma_qmul_assoc(c, a, vfe);
        lemma_qsub_neg(ti(e), ti(e));
        assert(h(e) == qzero());
        lemma_qops_wf(c, vbx);
        lemma_qnorm_id(Y);
        let vbi = v(t.basic[i] as int);
        lemma_qops_wf(Y, Y);
        lemma_qadd_assoc(vbi, qneg(Y), Y);
        lemma_qadd_comm(qneg(Y), Y);
        lemma_qsub_neg(Y, Y);
        lemma_qnorm_id(vbi);
        assert(t2.basic[i] == t.basic[i]);
    }
}

/// `a <= b` for fractions with positive denominators.
pub open spec fn qle(a: (int, int), b: (int, int)) -> bool {
    a.0 * b.1 <= b.0 * a.1
}

/// `<=` on fractions is transitive.
proof fn lemma_qle_trans(a: (int, int), b: (int, int), c: (int, int))
    requires
        a.1 > 0,
        b.1 > 0,
        c.1 > 0,
        qle(a, b),
        qle(b, c),
    ensures
        qle(a, c),
{
    let (a0, a1, b0, b1, c0, c1) = (a.0, a.1, b.0, b.1, c.0, c.1);
    assert(a0 * b1 * c1 <= b0 * a1 * c1) by (nonlinear_arith)
        requires
            a0 * b1 <= b0 * a1,
            c1 > 0,
    ;
    assert(b0 * c1 * a1 <= c0 * b1 * a1) by (nonlinear_arith)
        requires
            b0 * c1 <= c0 * b1,
            a1 > 0,
    ;
    assert(b0 * a1 * c1 == b0 * c1 * a1) by (nonlinear_arith);
    assert(b1 * (a0 * c1) <= b1 * (c0 * a1)) by (nonlinear_arith)
        requires
            a0 * b1 * c1 <= c0 * b1 * a1,
    ;
    assert(a0 * c1 <= c0 * a1) by (nonlinear_arith)
        requires
            b1 * (a0 * c1) <= b1 * (c0 * a1),
            b1 > 0,
    ;
}

/// The sign of a normal form is the sign of `n * d`.
proof fn lemma_qnorm_sign(n: int, d: int)
    requires
        d != 0,
    ensures
        n * d >= 0 ==> qnorm(n, d).0 >= 0,
        n * d <= 0 ==> qnorm(n, d).0 <= 0,
        n * d > 0 ==> qnorm(n, d).0 > 0,
{
    lemma_qnorm(n, d);
    let q = qnorm(n, d);
    assert(q.0 * (d * d) == (n * d) * q.1) by (nonlinear_arith)
        requires
            q.0 * d == n * q.1,
    ;
    assert(d * d > 0) by (nonlinear_arith)
        requires
            d != 0,
    ;
    assert(n * d >= 0 ==> q.0 >= 0) by (nonlinear_arith)
        requires
            q.0 * (d * d) == (n * d) * q.1,
            d * d > 0,
            q.1 > 0,
    ;
    assert(n * d <= 0 ==> q.0 <= 0) by (nonlinear_arith)
        requires
            q.0 * (d * d) == (n * d) * q.1,
            d * d > 0,
            q.1 > 0,
    ;
    assert(n * d > 0 ==> q.0 > 0) by (nonlinear_arith)
        requires
            q.0 * (d * d) == (n * d) * q.1,
            d * d > 0,
            q.1 > 0,
    ;
}

/// The ratio test's quotient of row `i` for entering column `e`.
pub open spec fn ratio(t: TabView, e: int, i: int) -> (int, int) {
    qdiv(qneg((t.mat)(i, t.free.len() - 1)), (t.mat)(i, e))
}

/// The ratio test picks a row with a negative entry and the least ratio.
proof fn lemma_exit_min(t: TabView, e: int, i: int, best: Option<int>, mc: (int, int), mi: int)
    requires
        qmat_wf(t.mat),
        1 <= i,
        best is None ==> forall|k: int| 1 <= k < i && k < t.basic.len() ==> (#[trigger] (t.mat)(k, e)).0 >= 0,
        best matches Some(bx) ==> 1 <= bx < i && bx < t.basic.len() && (t.mat)(bx, e).0 < 0 && mc == ratio(
            t,
            e,
            bx,
        ),
        best is Some ==> forall|k: int|
            1 <= k < i && k < t.basic.len() && (t.mat)(k, e).0 < 0 ==> qle(mc, #[trigger] ratio(t, e, k)),
    ensures
        exit_scan(t, e, i, best, mc, mi) matches Some(x) ==> 1 <= x < t.basic.len() && (t.mat)(x, e).0 < 0
            && forall|k: int|
            1 <= k < t.basic.len() && (t.mat)(k, e).0 < 0 ==> qle(ratio(t, e, x), #[trigger] ratio(t, e, k)),
    decreases t.basic.len() - i,
{
    if 1 <= i < t.basic.len() {
        let a = (t.mat)(i, e);
        if a.0 < 0 {
            let coef = ratio(t, e, i);
            lemma_qops_wf((t.mat)(i, t.free.len() - 1), (t.mat)(i, t.free.len() - 1));
            lemma_qmul_units(qneg((t.mat)(i, t.free.len() - 1)), a);
            assert(coef == qdiv(qneg((t.mat)(i, t.free.len() - 1)), a));
            let c = crate::simplex::qsign(coef, mc);
            if best is None || c < 0 || (c == 0 && t.basic[i] < mi) {
                assert forall|k: int|
                    1 <= k < i + 1 && k < t.basic.len() && (t.mat)(k, e).0 < 0 implies qle(coef, #[trigger] ratio(t, e, k)) by {
                    if k < i {
                        let bx = best->0;
                        lemma_qops_wf((t.mat)(bx, t.free.len() - 1), (t.mat)(bx, t.free.len() - 1));
                        lemma_qmul_units(qneg((t.mat)(bx, t.free.len() - 1)), (t.mat)(bx, e));
                        lemma_qops_wf((t.mat)(k, t.free.len() - 1), (t.mat)(k, t.free.len() - 1));
                        lemma_qmul_units(qneg((t.mat)(k, t.free.len() - 1)), (t.mat)(k, e));
                        assert(qle(mc, ratio(t, e, k)));
                        lemma_qle_trans(coef, mc, ratio(t, e, k));
                    }
                }
                lemma_exit_min(t, e, i + 1, Some(i), coef, t.basic[i] as int);
            } else {
                let bx = best->0;
                lemma_exit_min(t, e, i + 1, best, mc, mi);
            }
        } else {
            lemma_exit_min(t, e, i + 1, best, mc, mi);
        }
    }
}

/// Every basic value but the objective's is nonnegative.
pub open spec fn feasible(t: TabView) -> bool {
    forall|i: int| 1 <= i < t.basic.len() ==> (#[trigger] (t.mat)(i, t.free.len() - 1)).0 >= 0
}

/// `b_r - b_x * (a_r / a) == -a_r * (ratio_r - ratio_x)`: the new value of
/// a row whose entry in the entering column is `a_r`.
proof fn lemma_new_value(br: (int, int), bx: (int, int), ar: (int, int), a: (int, int))
    requires
        qwf(br),
        qwf(bx),
        qwf(ar),
        qwf(a),
        ar.0 != 0,
        a.0 != 0,
    ensures
        qsub(br, qmul(bx, qdiv(ar, a))) == qmul(
            qneg(ar),
            qsub(qdiv(qneg(br), ar), qdiv(qneg(bx), a)),
        ),
{
    lemma_qint(1, 0);
    let ia = qdiv(qint(1), a);
    lemma_qmul_units(qint(1), a);
    lemma_qops_wf(br, br);
    lemma_qops_wf(bx, bx);
    lemma_qops_wf(ar, ar);
    let nbr = qneg(br);
    let nbx = qneg(bx);
    let n = qneg(ar);
    lemma_qmul_units(nbr, ar);
    lemma_qmul_units(nbx, a);
    lemma_qmul_units(ar, a);
    let cr = qdiv(nbr, ar);
    let cx = qdiv(nbx, a);
    let c = qdiv(ar, a);
    // n * cr == br
    lemma_qsub_neg(ar, cr);
    lemma_qmul_comm(ar, cr);
    lemma_qsub_neg(br, br);
    assert(qmul(n, cr) == br);
    // n * cx == bx * c
    lemma_qops_wf(bx, ia);
    lemma_qsub_neg(bx, ia);
    lemma_qops_wf(nbx, ia);
    lemma_qsub_neg(ar, qmul(nbx, ia));
    lemma_qsub_neg(ar, qmul(bx, ia));
    lemma_qops_wf(ar, qmul(bx, ia));
    lemma_qsub_neg(qmul(ar, qmul(bx, ia)), qmul(ar, qmul(bx, ia)));
    assert(qmul(n, cx) == qmul(ar, qmul(bx, ia)));
    lemma_qmul_assoc(bx, ar, ia);
    lemma_qmul_comm(bx, ar);
    lemma_qmul_assoc(ar, bx, ia);
    assert(qmul(bx, c) == qmul(n, cx));
    // n * (cr - cx) == n * cr - n * cx
    lemma_qops_wf(cr, cx);
    lemma_qsub_neg(cr, cx);
    lemma_qops_wf(cx, cx);
    lemma_qmul_distrib(n, cr, qneg(cx));
    lemma_qsub_neg(n, cx);
    lemma_qops_wf(n, cx);
    lemma_qsub_neg(br, qmul(n, cx));
}

/// A pivot on the ratio test's row keeps the tableau feasible.
pub proof fn lemma_pivot_feasible(t: TabView, x: int, e: int)
    requires
        qmat_wf(t.mat),
        feasible(t),
        0 <= e < t.free.len() - 1,
        1 <= x < t.basic.len(),
        (t.mat)(x, e).0 < 0,
        forall|k: int|
            1 <= k < t.basic.len() && (t.mat)(k, e).0 < 0 ==> qle(ratio(t, e, x), #[trigger] ratio(t, e, k)),
    ensures
        feasible(pivot(t, x, e)),
{
    let t2 = pivot(t, x, e);
    let last = t.free.len() - 1;
    let a = (t.mat)(x, e);
    let bx = (t.mat)(x, last);
    assert(t2.free.len() == t.free.len());
    assert forall|r: int| 1 <= r < t2.basic.len() implies (#[trigger] (t2.mat)(r, last)).0 >= 0 by {
        assert(bx.0 >= 0);
        if r == x {
            assert((t2.mat)(r, last) == qdiv(bx, qneg(a)));
            assert((bx.0 * a.1) * (bx.1 * (-a.0)) >= 0) by (nonlinear_arith)
                requires
                    bx.0 >= 0,
                    a.1 > 0,
                    bx.1 > 0,
                    a.0 < 0,
            ;
            lemma_nz(bx.1, -a.0);
            lemma_qnorm_sign(bx.0 * a.1, bx.1 * (-a.0));
        } else {
            let br = (t.mat)(r, last);
            let ar = (t.mat)(r, e);
            assert(br.0 >= 0);
            lemma_qmul_units(ar, a);
            let c = qdiv(ar, a);
            let pp = qmul(bx, c);
            assert((t2.mat)(r, last) == qsub(br, pp));
            lemma_qops_wf(bx, c);
            if ar.0 >= 0 {
                assert((ar.0 * a.1) * (ar.1 * a.0) <= 0) by (nonlinear_arith)
                    requires
                        ar.0 >= 0,
                        a.1 > 0,
                        ar.1 > 0,
                        a.0 < 0,
                ;
                lemma_nz(ar.1, a.0);
                lemma_qnorm_sign(ar.0 * a.1, ar.1 * a.0);
                assert((bx.0 * c.0) * (bx.1 * c.1) <= 0) by (nonlinear_arith)
                    requires
                        bx.0 >= 0,
                        c.0 <= 0,
                        bx.1 > 0,
                        c.1 > 0,
                ;
                lemma_nz(bx.1, c.1);
                lemma_qnorm_sign(bx.0 * c.0, bx.1 * c.1);
                assert((br.0 * pp.1 - pp.0 * br.1) * (br.1 * pp.1) >= 0) by (nonlinear_arith)
                    requires
                        br.0 >= 0,
                        pp.0 <= 0,
                        br.1 > 0,
                        pp.1 > 0,
                ;
                lemma_nz(br.1, pp.1);
                lemma_qnorm_sign(br.0 * pp.1 - pp.0 * br.1, br.1 * pp.1);
            } else {
                lemma_new_value(br, bx, ar, a);
                let cr = ratio(t, e, r);
                let cx = ratio(t, e, x);
                lemma_qops_wf(br, br);
                lemma_qops_wf(bx, bx);
                lemma_qmul_units(qneg(br), ar);
                lemma_qmul_units(qneg(bx), a);
                assert(qle(cx, cr));
                let d = qsub(cr, cx);
                assert((cr.0 * cx.1 - cx.0 * cr.1) * (cr.1 * cx.1) >= 0) by (nonlinear_arith)
                    requires
                        cx.0 * cr.1 <= cr.0 * cx.1,
                        cr.1 > 0,
                        cx.1 > 0,
                ;
                lemma_nz(cr.1, cx.1);
                lemma_qnorm_sign(cr.0 * cx.1 - cx.0 * cr.1, cr.1 * cx.1);
                lemma_qops_wf(cr, cx);
                assert(((-ar.0) * d.0) * (ar.1 * d.1) >= 0) by (nonlinear_arith)
                    requires
                        ar.0 < 0,
                        d.0 >= 0,
                        ar.1 > 0,
                        d.1 > 0,
                ;
                lemma_nz(ar.1, d.1);
                lemma_qnorm_sign((-ar.0) * d.0, ar.1 * d.1);
            }
        }
    }
}

/// The shape of the elimination of `stateLP` once the objective and the
/// slack are pivots: they stay the first two pivots, the unit column `y`
/// keeps its `-1` in the slack row and zeros elsewhere, and once scanned it
/// is the last free column.
pub open spec fn y_ok(g: GaussState, n: int, y: int) -> bool {
    &&& 2 <= g.row
    &&& g.basic.len() >= 2
    &&& g.basic[0] == 0
    &&& g.basic[1] == 1
    &&& forall|k: int| 0 <= k < n ==> #[trigger] (g.mat)(k, y) == if k == 1 {
        qint(-1)
    } else {
        qzero()
    }
    &&& (g.col <= y || (g.free.len() > 0 && g.free[g.free.len() - 1] as int == y))
}

/// The elimination keeps that shape.
proof fn lemma_gauss_y(g: GaussState, n: int, cols: int)
    requires
        y_ok(g, n, cols - 1),
        qmat_wf(g.mat),
        0 <= g.col <= cols,
        cols <= usize::MAX,
    ensures
        y_ok(gauss_loop(g, n, cols), n, cols - 1),
        g.col <= gauss_loop(g, n, cols).col <= cols,
    decreases cols - g.col,
{
    let y = cols - 1;
    if g.row < n && g.col < cols {
        let c = g.col;
        lemma_first_nz_found(g.mat, c, g.row, n);
        lemma_qzero_ops(qzero());
        match first_nz(g.mat, c, g.row, n) {
            None => {
                let g2 = GaussState { mat: g.mat, basic: g.basic, free: g.free.push(c as usize), row: g.row, col: c + 1 };
                assert(g2.free[g2.free.len() - 1] as int == c);
                lemma_gauss_y(g2, n, cols);
            },
            Some(p) => {
                assert((g.mat)(p, c).0 != 0);
                if c == y {
                    assert((g.mat)(p, y) == qzero());
                }
                let m1 = m_swap(g.mat, g.row, p);
                let a = m1(g.row, c);
                let m2 = m_divrow(m1, g.row, a);
                let m3 = m_eliminate(m2, g.row, c, n);
                lemma_qint(-1, 0);
                lemma_rowops_wf(g.mat, g.row, p, qzero(), 0, 0);
                lemma_rowops_wf(m1, g.row, 0, a, 0, 0);
                lemma_rowops_wf(m2, g.row, 0, qzero(), c, n);
                assert forall|k: int| 0 <= k < n implies #[trigger] m3(k, y) == if k == 1 {
                    qint(-1)
                } else {
                    qzero()
                } by {
                    assert(m1(g.row, y) == qzero());
                    lemma_qzero_ops(a);
                    assert(m2(g.row, y) == qzero());
                    lemma_qmul_one_zero(m2(k, c));
                    lemma_qnorm_id(m2(k, y));
                }
                let g2 = GaussState { mat: m3, basic: g.basic.push(c as usize), free: g.free, row: g.row + 1, col: c + 1 };
                assert(g2.basic[0] == 0 && g2.basic[1] == 1);
                lemma_gauss_y(g2, n, cols);
            },
        }
    }
}

/// The Gauss tableau of `stateLP` over at least one hypothesis has the
/// objective as first basic variable, the unit column as last free one, and
/// nonnegative basic values: a feasible start.
pub proof fn lemma_start_shape(hs: Seq<(Ineq, Seq<(usize, int)>)>, max_var: int)
    requires
        0 <= max_var,
        1 <= hs.len(),
        hs.len() + 3 <= usize::MAX,
    ensures
        ({
            let t = gauss_tableau(state_lp(hs, max_var), max_var + 3, hs.len() as int + 3);
            &&& t.basic.len() >= 2
            &&& t.free.len() >= 1
            &&& t.basic[0] == 0
            &&& t.free[t.free.len() - 1] == hs.len() + 2
            &&& feasible(t)
        }),
{
    let m = hs.len() as int;
    let b = state_lp(hs, max_var);
    let n = max_var + 3;
    let cols = m + 3;
    let y = m + 2;
    lemma_qint(-1, 0);
    lemma_qint(1, 0);
    lemma_qzero_ops(qzero());
    assert forall|i: int, j: int| qwf(#[trigger] b(i, j)) by {
        if 2 <= i < max_var + 3 && 2 <= j < m + 2 {
            lemma_qint(form_coeff(hs[j - 2].1, (i - 2) as usize), 0);
        }
    }
    // the objective column
    let g0 = gauss_start(b);
    assert(b(0, 0) == qint(-1));
    assert(first_nz(b, 0, 0, n) == Some(0int));
    let m1 = m_swap(b, 0, 0);
    let a1 = m1(0, 0);
    let m2 = m_divrow(m1, 0, a1);
    let e1 = m_eliminate(m2, 0, 0, n);
    let g1 = GaussState { mat: e1, basic: g0.basic.push(0usize), free: g0.free, row: 1, col: 1 };
    assert(gauss_loop(g0, n, cols) == gauss_loop(g1, n, cols));
    lemma_rowops_wf(b, 0, 0, qzero(), 0, 0);
    lemma_rowops_wf(m1, 0, 0, a1, 0, 0);
    lemma_rowops_wf(m2, 0, 0, qzero(), 0, n);
    assert forall|k: int, j: int| 1 <= k < n implies #[trigger] e1(k, j) == b(k, j) by {
        assert(b(k, 0) == qzero());
    }
    assert(e1(0, y) == qzero());
    // the slack column
    assert(e1(1, 1) == qint(1));
    assert(first_nz(e1, 1, 1, n) == Some(1int));
    let m3 = m_swap(e1, 1, 1);
    let a2 = m3(1, 1);
    let m4 = m_divrow(m3, 1, a2);
    let e2 = m_eliminate(m4, 1, 1, n);
    let g2 = GaussState { mat: e2, basic: g1.basic.push(1usize), free: g1.free, row: 2, col: 2 };
    assert(gauss_loop(g1, n, cols) == gauss_loop(g2, n, cols));
    lemma_rowops_wf(e1, 1, 1, qzero(), 0, 0);
    lemma_rowops_wf(m3, 1, 0, a2, 0, 0);
    lemma_rowops_wf(m4, 1, 0, qzero(), 1, n);
    assert(b(0, 1) == qzero());
    assert forall|k: int| 0 <= k < n implies #[trigger] e2(k, y) == if k == 1 {
        qint(-1)
    } else {
        qzero()
    } by {
        if k != 1 {
            assert(m4(k, 1) == qzero());
        }
    }
    assert(g2.basic[0] == 0 && g2.basic[1] == 1);
    assert(y_ok(g2, n, y));
    lemma_gauss_y(g2, n, cols);
    let gf = gauss_loop(g2, n, cols);
    let t = gauss_tableau(b, n, cols);
    assert(split_ok(g0.basic, g0.free, 0));
    assert(gauss_ok(g0, n));
    lemma_gauss_ok(g0, n, cols);
    lemma_free_rest(gf.free, gf.col, cols);
    assert(t.basic == gf.basic);
    let fs = t.free;
    let last = fs.len() - 1;
    if gf.col <= y {
        assert(fs[last] as int == y);
    } else {
        assert(fs[last] == gf.free[gf.free.len() - 1]);
    }
    assert forall|i: int| 1 <= i < t.basic.len() implies (#[trigger] (t.mat)(i, t.free.len() - 1)).0 >= 0 by {
        assert((gf.mat)(i, y) == if i == 1 { qint(-1) } else { qzero() });
    }
}

/// Integer sum of `f(0), .., f(n - 1)`.
pub open spec fn isum(f: spec_fn(int) -> int, n: int) -> int
    decreases n,
{
    if n <= 0 {
        0
    } else {
        isum(f, n - 1) + f(n - 1)
    }
}

/// A sum of integers is the integer of the sum.
proof fn lemma_rsum_int(f: spec_fn(int) -> int, n: int)
    ensures
        rsum(|j: int| qint(f(j)), n) == qint(isum(f, n)),
    decreases n,
{
    lemma_qint(0, 0);
    if n > 0 {
        lemma_rsum_int(f, n - 1);
        lemma_qint(isum(f, n - 1), f(n - 1));
    }
}

proof fn lemma_isum_ext(f: spec_fn(int) -> int, g: spec_fn(int) -> int, n: int)
    requires
        forall|k: int| 0 <= k < n ==> #[trigger] f(k) == g(k),
    ensures
        isum(f, n) == isum(g, n),
    decreases n,
{
    if n > 0 {
        lemma_isum_ext(f, g, n - 1);
    }
}

/// The first two terms split off, the rest shifted down by two.
proof fn lemma_isum_shift2(h: spec_fn(int) -> int, m: int)
    requires
        0 <= m,
    ensures
        isum(h, m + 2) == h(0) + h(1) + isum(|k: int| h(k + 2), m),
    decreases m,
{
    if m > 0 {
        lemma_isum_shift2(h, m - 1);
    } else {
        assert(isum(h, 0) == 0);
        assert(isum(h, 1) == h(0));
    }
}

proof fn lemma_isum_add(f: spec_fn(int) -> int, g: spec_fn(int) -> int, n: int)
    ensures
        isum(|k: int| f(k) + g(k), n) == isum(f, n) + isum(g, n),
    decreases n,
{
    if n > 0 {
        lemma_isum_add(f, g, n - 1);
    }
}

proof fn lemma_isum_point(f: spec_fn(int) -> int, n: int, i: int)
    requires
        0 <= i < n,
        forall|k: int| 0 <= k < n && k != i ==> #[trigger] f(k) == 0,
    ensures
        isum(f, n) == f(i),
    decreases n,
{
    if n - 1 > i {
        lemma_isum_point(f, n - 1, i);
    } else {
        lemma_isum_zero(f, n - 1);
    }
}

proof fn lemma_isum_zero(f: spec_fn(int) -> int, n: int)
    requires
        forall|k: int| 0 <= k < n ==> #[trigger] f(k) == 0,
    ensures
        isum(f, n) == 0,
    decreases n,
{
    if n > 0 {
        lemma_isum_zero(f, n - 1);
    }
}

/// Nonnegative terms, one of them positive, have a positive sum.
proof fn lemma_isum_pos(f: spec_fn(int) -> int, n: int, i: int)
    requires
        forall|k: int| 0 <= k < n ==> #[trigger] f(k) >= 0,
    ensures
        isum(f, n) >= 0,
        0 <= i < n && f(i) > 0 ==> isum(f, n) > 0,
    decreases n,
{
    if n > 0 {
        lemma_isum_pos(f, n - 1, i);
    }
}

/// Total weight the certificate puts on hypothesis `k`.
pub open spec fn weight(c: Seq<(usize, int)>, k: int) -> int
    decreases c.len(),
{
    if c.len() == 0 {
        0
    } else {
        weight(c.drop_last(), k) + if c.last().0 as int == k {
            c.last().1
        } else {
            0
        }
    }
}

/// Weights of positive coefficients are nonnegative, and at least each
/// coefficient on its hypothesis.
proof fn lemma_weight_pos(c: Seq<(usize, int)>, k: int, q: int)
    requires
        forall|r: int| 0 <= r < c.len() ==> (#[trigger] c[r]).1 > 0,
    ensures
        weight(c, k) >= 0,
        0 <= q < c.len() && c[q].0 as int == k ==> weight(c, k) >= c[q].1,
    decreases c.len(),
{
    if c.len() > 0 {
        let c2 = c.drop_last();
        assert forall|r: int| 0 <= r < c2.len() implies (#[trigger] c2[r]).1 > 0 by {
            assert(c2[r] == c[r]);
        }
        lemma_weight_pos(c2, k, q);
        assert(c.last() == c[c.len() - 1]);
        if 0 <= q < c.len() - 1 {
            assert(c2[q] == c[q]);
        }
    }
}

/// The hypotheses' coefficients of atom `a` weighted by the certificate's
/// weights add up to the certificate's weighted sum at `a`.
proof fn lemma_weighted_weights(hs: Seq<(Ineq, Seq<(usize, int)>)>, c: Seq<(usize, int)>, a: usize)
    requires
        forall|r: int| 0 <= r < c.len() ==> (#[trigger] c[r]).0 < hs.len(),
    ensures
        isum(|k: int| form_coeff(hs[k].1, a) * weight(c, k), hs.len() as int) == form_weighted_sum(hs, c, a),
    decreases c.len(),
{
    let m = hs.len() as int;
    let f = |k: int| form_coeff(hs[k].1, a) * weight(c, k);
    if c.len() == 0 {
        lemma_isum_zero(f, m);
    } else {
        let c2 = c.drop_last();
        assert forall|r: int| 0 <= r < c2.len() implies (#[trigger] c2[r]).0 < hs.len() by {
            assert(c2[r] == c[r]);
        }
        lemma_weighted_weights(hs, c2, a);
        let (i0, w0) = c.last();
        assert(c.last() == c[c.len() - 1]);
        let f2 = |k: int| form_coeff(hs[k].1, a) * weight(c2, k);
        let g = |k: int| if k == i0 as int { form_coeff(hs[k].1, a) * w0 } else { 0 };
        assert forall|k: int| 0 <= k < m implies #[trigger] f(k) == f2(k) + g(k) by {
            let d = if i0 as int == k { w0 } else { 0 };
            assert(weight(c, k) == weight(c2, k) + d);
            assert(form_coeff(hs[k].1, a) * (weight(c2, k) + d) == form_coeff(hs[k].1, a) * weight(c2, k)
                + form_coeff(hs[k].1, a) * d) by (nonlinear_arith);
        }
        lemma_isum_ext(f, |k: int| f2(k) + g(k), m);
        lemma_isum_add(f2, g, m);
        lemma_isum_point(g, m, i0 as int);
        assert(w0 * form_coeff(hs[i0 as int].1, a) == form_coeff(hs[i0 as int].1, a) * w0) by (nonlinear_arith);
    }
}

/// Sum of the weights on strict hypotheses.
pub open spec fn strict_weight(hs: Seq<(Ineq, Seq<(usize, int)>)>, c: Seq<(usize, int)>) -> int {
    isum(|k: int| if hs[k].0 == Ineq::Lt { weight(c, k) } else { 0 }, hs.len() as int)
}

/// Sum of all the weights.
pub open spec fn total_weight(hs: Seq<(Ineq, Seq<(usize, int)>)>, c: Seq<(usize, int)>) -> int {
    isum(|k: int| weight(c, k), hs.len() as int)
}

/// The point of `stateLP`'s columns a certificate gives: the objective is
/// the strict weight, the slack zero, each hypothesis's coordinate its
/// weight and the unit column the total weight.
pub open spec fn cert_point(hs: Seq<(Ineq, Seq<(usize, int)>)>, c: Seq<(usize, int)>, j: int) -> int {
    let m = hs.len() as int;
    if j == 0 {
        strict_weight(hs, c)
    } else if 2 <= j < m + 2 {
        weight(c, j - 2)
    } else if j == m + 2 {
        total_weight(hs, c)
    } else {
        0
    }
}

/// `stateLP` over the integers.
pub open spec fn lp_int(hs: Seq<(Ineq, Seq<(usize, int)>)>, max_var: int, i: int, j: int) -> int {
    let m = hs.len() as int;
    if i == 0 {
        if j == 0 {
            -1
        } else if 2 <= j < m + 2 && hs[j - 2].0 == Ineq::Lt {
            1
        } else {
            0
        }
    } else if i == 1 {
        if j == 1 {
            1
        } else if j == m + 2 {
            -1
        } else if 2 <= j < m + 2 {
            1
        } else {
            0
        }
    } else if 2 <= i < max_var + 3 && 2 <= j < m + 2 {
        form_coeff(hs[j - 2].1, (i - 2) as usize)
    } else {
        0
    }
}

/// A refuting certificate gives a point that `stateLP`'s rows vanish on.
pub proof fn lemma_cert_point(hs: Seq<(Ineq, Seq<(usize, int)>)>, max_var: int, c: Seq<(usize, int)>)
    requires
        0 <= max_var,
        refutes(hs, c),
    ensures
        kills(
            state_lp(hs, max_var),
            |j: int| qint(cert_point(hs, c, j)),
            max_var + 3,
            hs.len() as int + 3,
        ),
        forall|j: int| #[trigger] cert_point(hs, c, j) >= 0,
        cert_point(hs, c, 0) > 0,
{
    let m = hs.len() as int;
    let b = state_lp(hs, max_var);
    let v = |j: int| qint(cert_point(hs, c, j));
    let n = max_var + 3;
    let cols = m + 3;
    lemma_qint(0, 0);
    // the weights
    assert forall|k: int| #[trigger] weight(c, k) >= 0 by {
        lemma_weight_pos(c, k, 0);
    }
    let sw = |k: int| if hs[k].0 == Ineq::Lt { weight(c, k) } else { 0 };
    let tw = |k: int| weight(c, k);
    let q = choose|q: int| 0 <= q < c.len() && #[trigger] hs[c[q].0 as int].0 == Ineq::Lt;
    let k0 = c[q].0 as int;
    lemma_weight_pos(c, k0, q);
    lemma_isum_pos(sw, m, k0);
    lemma_isum_pos(tw, m, 0);
    assert forall|j: int| #[trigger] cert_point(hs, c, j) >= 0 by {}
    // each row
    assert forall|r: int| 0 <= r < n implies #[trigger] row_dot(b, r, v, cols) == qzero() by {
        let h = |j: int| lp_int(hs, max_var, r, j) * cert_point(hs, c, j);
        assert forall|j: int| 0 <= j < cols implies #[trigger] qmul(b(r, j), v(j)) == qint(h(j)) by {
            lemma_qint(lp_int(hs, max_var, r, j) * cert_point(hs, c, j), 0);
            assert(b(r, j) == qint(lp_int(hs, max_var, r, j)));
        }
        lemma_rsum_ext(|j: int| qmul(b(r, j), v(j)), |j: int| qint(h(j)), cols);
        lemma_rsum_int(h, cols);
        lemma_isum_shift2(h, m + 1);
        assert(isum(|k: int| h(k + 2), m + 1) == isum(|k: int| h(k + 2), m) + h(m + 2));
        let hk = |k: int| h(k + 2);
        if r == 0 {
            lemma_isum_ext(hk, sw, m);
        } else if r == 1 {
            lemma_isum_ext(hk, tw, m);
        } else {
            let a = (r - 2) as usize;
            lemma_isum_ext(hk, |k: int| form_coeff(hs[k].1, a) * weight(c, k), m);
            lemma_weighted_weights(hs, c, a);
            assert(form_weighted_sum(hs, c, a) == 0);
        }
        assert(isum(h, cols) == 0);
    }
}

/// Signs of products.
proof fn lemma_qmul_sign(u: (int, int), w: (int, int))
    requires
        qwf(u),
        qwf(w),
    ensures
        u.0 <= 0 && w.0 >= 0 ==> qmul(u, w).0 <= 0,
        u.0 >= 0 && w.0 >= 0 ==> qmul(u, w).0 >= 0,
{
    lemma_nz(u.1, w.1);
    lemma_qnorm_sign(u.0 * w.0, u.1 * w.1);
    assert(u.0 <= 0 && w.0 >= 0 ==> (u.0 * w.0) * (u.1 * w.1) <= 0) by (nonlinear_arith)
        requires
            u.1 > 0,
            w.1 > 0,
    ;
    assert(u.0 >= 0 && w.0 >= 0 ==> (u.0 * w.0) * (u.1 * w.1) >= 0) by (nonlinear_arith)
        requires
            u.1 > 0,
            w.1 > 0,
    ;
}

/// Sums of nonpositive terms are nonpositive, of nonnegative ones
/// nonnegative.
proof fn lemma_rsum_sign(f: spec_fn(int) -> (int, int), n: int)
    requires
        wf_upto(f, n),
    ensures
        (forall|k: int| 0 <= k < n ==> (#[trigger] f(k)).0 <= 0) ==> rsum(f, n).0 <= 0,
        (forall|k: int| 0 <= k < n ==> (#[trigger] f(k)).0 >= 0) ==> rsum(f, n).0 >= 0,
    decreases n,
{
    if n > 0 {
        lemma_rsum_sign(f, n - 1);
        lemma_rsum_wf(f, n - 1);
        let r = rsum(f, n - 1);
        let x = f(n - 1);
        lemma_nz(r.1, x.1);
        lemma_qnorm_sign(r.0 * x.1 + x.0 * r.1, r.1 * x.1);
        assert(r.0 <= 0 && x.0 <= 0 ==> (r.0 * x.1 + x.0 * r.1) * (r.1 * x.1) <= 0) by (nonlinear_arith)
            requires
                r.1 > 0,
                x.1 > 0,
        ;
        assert(r.0 >= 0 && x.0 >= 0 ==> (r.0 * x.1 + x.0 * r.1) * (r.1 * x.1) >= 0) by (nonlinear_arith)
            requires
                r.1 > 0,
                x.1 > 0,
        ;
    }
}

/// No entering column: every objective coefficient but the last is
/// nonpositive.
proof fn lemma_enter_none(t: TabView, i: int, best: Option<int>)
    requires
        0 <= i,
    ensures
        enter_scan(t, i, best) is None ==> best is None && forall|p: int|
            i <= p < t.free.len() - 1 ==> (#[trigger] (t.mat)(0, p)).0 <= 0,
    decreases t.free.len() - 1 - i,
{
    if 0 <= i < t.free.len() - 1 {
        let take = (t.mat)(0, i).0 > 0 && (best is None || t.free[i] < t.free[best->0]);
        lemma_enter_none(t, i + 1, if take { Some(i) } else { best });
    }
}

/// No exiting row: every entry of column `e` below the objective row is
/// nonnegative.
proof fn lemma_exit_none(t: TabView, e: int, i: int, best: Option<int>, mc: (int, int), mi: int)
    requires
        1 <= i,
    ensures
        exit_scan(t, e, i, best, mc, mi) is None ==> best is None && forall|k: int|
            i <= k < t.basic.len() ==> (#[trigger] (t.mat)(k, e)).0 >= 0,
    decreases t.basic.len() - i,
{
    if 1 <= i < t.basic.len() {
        let a = (t.mat)(i, e);
        if a.0 < 0 {
            let coef = qdiv(qneg((t.mat)(i, t.free.len() - 1)), a);
            let c = crate::simplex::qsign(coef, mc);
            if best is None || c < 0 || (c == 0 && t.basic[i] < mi) {
                lemma_exit_none(t, e, i + 1, Some(i), coef, t.basic[i] as int);
            } else {
                lemma_exit_none(t, e, i + 1, best, mc, mi);
            }
        } else {
            lemma_exit_none(t, e, i + 1, best, mc, mi);
        }
    }
}

/// The simplex used up its pivot budget without stopping.
pub open spec fn exhausts(t: TabView, budget: nat) -> bool
    decreases budget,
{
    if success(t) {
        false
    } else if budget == 0 {
        true
    } else {
        match entering(t) {
            None => false,
            Some(e) => match exiting(t, e) {
                None => false,
                Some(x) => exhausts(pivot(t, x, e), (budget - 1) as nat),
            },
        }
    }
}

/// Every variable is a column of `stateLP`.
pub open spec fn vars_below(t: TabView, cols: int) -> bool {
    &&& forall|i: int| 0 <= i < t.basic.len() ==> #[trigger] t.basic[i] < cols
    &&& forall|p: int| 0 <= p < t.free.len() ==> #[trigger] t.free[p] < cols
}

/// Given a nonnegative point with a positive objective on which the
/// tableau's rows hold, the simplex from a feasible tableau stops only at a
/// successful one, unless it runs out of pivots.
pub proof fn lemma_run_complete(
    hs: Seq<(Ineq, Seq<(usize, int)>)>,
    max_var: int,
    t: TabView,
    budget: nat,
    v: spec_fn(int) -> (int, int),
)
    requires
        0 <= max_var,
        search_ok(state_lp(hs, max_var), t, max_var + 3, hs.len() as int),
        qmat_wf(state_lp(hs, max_var)),
        feasible(t),
        rows_hold(t, v),
        vec_wf(v),
        forall|j: int| (#[trigger] v(j)).0 >= 0,
        v(0).0 > 0,
        vars_below(t, hs.len() as int + 3),
        !exhausts(t, budget),
    ensures
        run(t, budget) is Some,
    decreases budget,
{
    let b = state_lp(hs, max_var);
    let n = max_var + 3;
    let m = hs.len() as int;
    let last = t.free.len() - 1;
    lemma_qint(1, 0);
    lemma_qint(-1, 0);
    lemma_qzero_ops(qzero());
    if !success(t) && budget > 0 {
        lemma_enter_range(t, 0, None);
        lemma_enter_none(t, 0, None);
        match entering(t) {
            None => {
                // every term of row 0 is nonpositive, yet it sums to v(0) > 0
                assert((t.mat)(0, last).0 <= 0);
                assert(row_holds(t, v, 0));
                let f = |p: int| qmul((t.mat)(0, p), v(t.free[p] as int));
                assert(wf_upto(f, t.free.len() as int)) by {
                    assert forall|p: int| 0 <= p < t.free.len() implies qwf(#[trigger] f(p)) by {
                        lemma_qops_wf((t.mat)(0, p), v(t.free[p] as int));
                    }
                }
                assert forall|p: int| 0 <= p < t.free.len() implies (#[trigger] f(p)).0 <= 0 by {
                    lemma_qmul_sign((t.mat)(0, p), v(t.free[p] as int));
                }
                lemma_rsum_sign(f, t.free.len() as int);
                assert(false);
            },
            Some(e) => {
                lemma_exit_range(t, e, 1, None, qzero(), 0);
                lemma_exit_none(t, e, 1, None, qzero(), 0);
                match exiting(t, e) {
                    None => {
                        // row 1 of stateLP on column e's null vector is positive
                        assert(null_on(b, t, 1, e));
                        let fe = t.free[e] as int;
                        assert(t.free[e] != t.basic[0]);
                        assert(t.free[e] != t.free[last]);
                        assert(b(1, fe) == qint(1));
                        let g = |i: int| qmul((t.mat)(i, e), b(1, t.basic[i] as int));
                        assert(wf_upto(g, t.basic.len() as int)) by {
                            assert forall|i: int| 0 <= i < t.basic.len() implies qwf(#[trigger] g(i)) by {
                                lemma_qops_wf((t.mat)(i, e), b(1, t.basic[i] as int));
                            }
                        }
                        assert forall|i: int| 0 <= i < t.basic.len() implies (#[trigger] g(i)).0 >= 0 by {
                            assert(t.basic[i] != t.free[last]);
                            if i == 0 {
                                lemma_qmul_one_zero((t.mat)(0, e));
                            } else {
                                lemma_qmul_sign((t.mat)(i, e), b(1, t.basic[i] as int));
                            }
                        }
                        lemma_rsum_sign(g, t.basic.len() as int);
                        let sg = rsum(g, t.basic.len() as int);
                        lemma_rsum_wf(g, t.basic.len() as int);
                        assert(qwf(sg));
                        assert(sg.1 > 0);
                        assert(1 * sg.1 == sg.1 && sg.0 * 1 == sg.0) by (nonlinear_arith);
                        lemma_qnorm_sign(1 * sg.1 + sg.0 * 1, 1 * sg.1);
                        assert((1 * sg.1 + sg.0 * 1) * (1 * sg.1) > 0) by (nonlinear_arith)
                            requires
                                sg.1 > 0,
                                sg.0 >= 0,
                        ;
                        assert(false);
                    },
                    Some(x) => {
                        lemma_exit_min(t, e, 1, None, qzero(), 0);
                        lemma_pivot_feasible(t, x, e);
                        lemma_pivot_rows(t, v, x, e);
                        lemma_pivot_represents(b, t, n, x, e);
                        lemma_pivot_distinct(t, x, e);
                        let t2 = pivot(t, x, e);
                        assert(t2.basic[0] == t.basic[0]);
                        assert(t2.free[t2.free.len() - 1] == t.free[t.free.len() - 1]);
                        assert(vars_below(t2, m + 3));
                        lemma_run_complete(hs, max_var, t2, (budget - 1) as nat, v);
                    },
                }
            },
        }
    }
}

/// The search's pivot budget runs out on the hypotheses `hs`.
pub open spec fn budget_runs_out(hs: Seq<(Ineq, Seq<(usize, int)>)>, max_var: int) -> bool {
    exhausts(
        gauss_tableau(state_lp(hs, max_var), max_var + 3, hs.len() as int + 3),
        0xffff_ffff_ffff_ffffnat,
    )
}

/// The certificate search is complete: when some certificate refutes the
/// hypotheses, the search returns one, unless it runs out of pivots.
pub proof fn lemma_certificate_complete(
    hs: Seq<(Ineq, Seq<(usize, int)>)>,
    max_var: int,
    c: Seq<(usize, int)>,
)
    requires
        0 <= max_var,
        hs.len() + 3 <= usize::MAX,
        refutes(hs, c),
        !budget_runs_out(hs, max_var),
    ensures
        certificate(hs, max_var) is Some,
{
    let m = hs.len() as int;
    let b = state_lp(hs, max_var);
    let n = max_var + 3;
    let cols = m + 3;
    assert(c[0].0 < m);
    lemma_qint(-1, 0);
    lemma_qint(1, 0);
    lemma_qzero_ops(qzero());
    assert forall|i: int, j: int| qwf(#[trigger] b(i, j)) by {
        if 2 <= i < max_var + 3 && 2 <= j < m + 2 {
            lemma_qint(form_coeff(hs[j - 2].1, (i - 2) as usize), 0);
        }
    }
    let v = |j: int| qint(cert_point(hs, c, j));
    lemma_cert_point(hs, max_var, c);
    assert(vec_wf(v)) by {
        assert forall|j: int| qwf(#[trigger] v(j)) by {
            lemma_qint(cert_point(hs, c, j), 0);
        }
    }
    assert forall|j: int| (#[trigger] v(j)).0 >= 0 by {
        assert(cert_point(hs, c, j) >= 0);
    }
    let t0 = gauss_tableau(b, n, cols);
    lemma_tableau_rows(b, v, n, cols);
    lemma_start_shape(hs, max_var);
    lemma_tableau_start(b, n, cols);
    assert(search_ok(b, t0, n, m));
    assert(vars_below(t0, cols));
    let budget = 0xffff_ffff_ffff_ffffnat;
    lemma_run_complete(hs, max_var, t0, budget, v);
    let tf = run(t0, budget)->0;
    lemma_run(b, t0, budget, n, m);
    lemma_success_strict(hs, max_var, tf);
    let len = tf.basic.len() as int;
    let ex = extract(tf, m, len);
    let k = choose|k: int| 0 <= k < hs.len() && hs[k].0 == Ineq::Lt && #[trigger] ex[k].0 != 0;
    lemma_extract_shape(tf, m, len);
    lemma_scaled_has(ex, lcm_fold(ex), k);
}

/// Some certificate refutes the hypotheses.
pub open spec fn refutable(hs: Seq<(Ineq, Seq<(usize, int)>)>) -> bool {
    exists|c: Seq<(usize, int)>| #[trigger] refutes(hs, c)
}

/// "No certificate" from the search means none exists, unless the search
/// ran out of pivots.
pub proof fn lemma_none_means_unrefutable(hs: Seq<(Ineq, Seq<(usize, int)>)>, max_var: int)
    requires
        0 <= max_var,
        hs.len() + 3 <= usize::MAX,
    ensures
        certificate(hs, max_var) is None && !budget_runs_out(hs, max_var) ==> !refutable(hs),
{
    if !budget_runs_out(hs, max_var) && refutable(hs) {
        let c = choose|c: Seq<(usize, int)>| #[trigger] refutes(hs, c);
        lemma_certificate_complete(hs, max_var, c);
    }
}

} // verus!
