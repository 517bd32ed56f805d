//! The certificate search as mathematics: Mathlib's `linarith` oracle
//! (`simplexAlgorithmSparse`) stated over exact values.  Matrices map
//! (row, column) to a reduced fraction; absent entries are zero.  Both exact
//! engines are proved to compute exactly what these functions describe.
use crate::arith::{lcm, lemma_divides_trans, lemma_lcm};
use crate::rational::{qdiv, qint, qmul, qneg, qsub, qwf, qzero};
use crate::types::Ineq;
use crate::verify::form_coeff;
use vstd::prelude::*;

verus! {

/// A matrix of exact values: (row, column) to a reduced fraction.
pub type QMat = spec_fn(int, int) -> (int, int);

/// Rows `a` and `b` exchanged.
pub open spec fn m_swap(m: QMat, a: int, b: int) -> QMat {
    |r: int, j: int|
        if r == a {
            m(b, j)
        } else if r == b {
            m(a, j)
        } else {
            m(r, j)
        }
}

/// Row `i` divided by `c`.
pub open spec fn m_divrow(m: QMat, i: int, c: (int, int)) -> QMat {
    |r: int, j: int|
        if r == i {
            qdiv(m(r, j), c)
        } else {
            m(r, j)
        }
}

/// Row `dst` minus `c` times row `src`.
pub open spec fn m_subrow(m: QMat, src: int, dst: int, c: (int, int)) -> QMat {
    |r: int, j: int|
        if r == dst {
            qsub(m(r, j), qmul(m(src, j), c))
        } else {
            m(r, j)
        }
}

/// Entry `(i, j)` replaced by `v`.
pub open spec fn m_set(m: QMat, i: int, j: int, v: (int, int)) -> QMat {
    |r: int, c: int|
        if r == i && c == j {
            v
        } else {
            m(r, c)
        }
}

/// Entry `(i, j)` of `stateLP`: a `(maxVar + 3) x (m + 3)` matrix.  Column 0
/// is the objective, 1 the slack, `2..m+2` the certificate coordinates,
/// `m + 2` the unit column.  Row 0: `-f + sum_{strict} x`; row 1:
/// `z - y + sum x`; row `v + 2`: the coefficient of atom `v` in each
/// hypothesis (repeated atoms add up).
pub open spec fn lp_entry(hs: Seq<(Ineq, Seq<(usize, int)>)>, max_var: int, i: int, j: int) -> (
    int,
    int,
) {
    let m = hs.len() as int;
    if i == 0 {
        if j == 0 {
            qint(-1)
        } else if 2 <= j < m + 2 && hs[j - 2].0 == Ineq::Lt {
            qint(1)
        } else {
            qzero()
        }
    } else if i == 1 {
        if j == 1 {
            qint(1)
        } else if j == m + 2 {
            qint(-1)
        } else if 2 <= j < m + 2 {
            qint(1)
        } else {
            qzero()
        }
    } else if 2 <= i < max_var + 3 && 2 <= j < m + 2 {
        qint(form_coeff(hs[j - 2].1, (i - 2) as usize))
    } else {
        qzero()
    }
}

/// `stateLP` as a matrix.
pub open spec fn state_lp(hs: Seq<(Ineq, Seq<(usize, int)>)>, max_var: int) -> QMat {
    |i: int, j: int| lp_entry(hs, max_var, i, j)
}

/// First row in `[i, n)` whose entry in column `col` is nonzero.
pub open spec fn first_nz(m: QMat, col: int, i: int, n: int) -> Option<int>
    decreases n - i,
{
    if i >= n {
        None
    } else if m(i, col).0 != 0 {
        Some(i)
    } else {
        first_nz(m, col, i + 1, n)
    }
}

/// Column `col` eliminated from every row in `[0, n)` but `row`, using the
/// (normalised) pivot row `row`.
pub open spec fn m_eliminate(m: QMat, row: int, col: int, n: int) -> QMat {
    |r: int, j: int|
        if 0 <= r < n && r != row && m(r, col).0 != 0 {
            qsub(m(r, j), qmul(m(row, j), m(r, col)))
        } else {
            m(r, j)
        }
}

/// State of the Gauss elimination: matrix, pivot columns, free columns,
/// next row and next column.
#[verifier::ext_equal]
pub struct GaussState {
    pub mat: QMat,
    pub basic: Seq<usize>,
    pub free: Seq<usize>,
    pub row: int,
    pub col: int,
}

/// `Gauss.getTableau`'s elimination: scan columns left to right; a column
/// with a nonzero entry at or below the next row becomes basic (swap that
/// row up, normalise it, eliminate the column elsewhere), otherwise free.
pub open spec fn gauss_loop(g: GaussState, n: int, cols: int) -> GaussState
    decreases cols - g.col,
{
    if g.row < n && g.col < cols {
        match first_nz(g.mat, g.col, g.row, n) {
            None => gauss_loop(
                GaussState {
                    mat: g.mat,
                    basic: g.basic,
                    free: g.free.push(g.col as usize),
                    row: g.row,
                    col: g.col + 1,
                },
                n,
                cols,
            ),
            Some(p) => {
                let m1 = m_swap(g.mat, g.row, p);
                let m2 = m_divrow(m1, g.row, m1(g.row, g.col));
                gauss_loop(
                    GaussState {
                        mat: m_eliminate(m2, g.row, g.col, n),
                        basic: g.basic.push(g.col as usize),
                        free: g.free,
                        row: g.row + 1,
                        col: g.col + 1,
                    },
                    n,
                    cols,
                )
            },
        }
    } else {
        g
    }
}

/// `free` followed by the columns `[from, to)`.
pub open spec fn free_rest(free: Seq<usize>, from: int, to: int) -> Seq<usize>
    decreases to - from,
{
    if from < to {
        free_rest(free.push(from as usize), from + 1, to)
    } else {
        free
    }
}

/// A simplex tableau: basic variables (one per row), free variables, and the
/// matrix expressing each basic variable through the free ones.
#[verifier::ext_equal]
pub struct TabView {
    pub basic: Seq<usize>,
    pub free: Seq<usize>,
    pub mat: QMat,
}

/// The tableau read off the eliminated matrix: row `i` of basic variable
/// `basic[i]`, entry `p` the negated coefficient of free column `free[p]`.
pub open spec fn read_tableau(mat: QMat, basic: Seq<usize>, free: Seq<usize>) -> TabView {
    TabView {
        basic,
        free,
        mat: |i: int, p: int|
            if 0 <= i < basic.len() && 0 <= p < free.len() {
                qneg(mat(i, free[p] as int))
            } else {
                qzero()
            },
    }
}

/// The initial gaussState elimination of an `n`-row matrix over `cols` columns.
pub open spec fn gauss_start(m: QMat) -> GaussState {
    GaussState { mat: m, basic: Seq::empty(), free: Seq::empty(), row: 0, col: 0 }
}

/// `Gauss.getTableau` of an `n x cols` matrix.
pub open spec fn gauss_tableau(m: QMat, n: int, cols: int) -> TabView {
    let g = gauss_loop(gauss_start(m), n, cols);
    read_tableau(g.mat, g.basic, free_rest(g.free, g.col, cols))
}

/// `doPivotOperation`: exchange basic variable `x` and free variable `e`.
pub open spec fn pivot(t: TabView, x: int, e: int) -> TabView {
    let a = (t.mat)(x, e);
    TabView {
        basic: t.basic.update(x, t.free[e]),
        free: t.free.update(e, t.basic[x]),
        mat: |r: int, j: int|
            if r == x {
                if j == e {
                    qdiv(qint(-1), qneg(a))
                } else {
                    qdiv((t.mat)(x, j), qneg(a))
                }
            } else if 0 <= r < t.basic.len() {
                if j == e {
                    qdiv((t.mat)(r, e), a)
                } else {
                    qsub((t.mat)(r, j), qmul((t.mat)(x, j), qdiv((t.mat)(r, e), a)))
                }
            } else {
                (t.mat)(r, j)
            },
    }
}

/// `checkSuccess`: positive objective value and every basic value (the
/// coefficient of the unit column, the last free one) nonnegative.
pub open spec fn success(t: TabView) -> bool {
    let last = t.free.len() - 1;
    &&& (t.mat)(0, last).0 > 0
    &&& forall|i: int| 0 <= i < t.basic.len() ==> #[trigger] (t.mat)(i, last).0 >= 0
}

/// Bland's entering rule, scanning free columns `[i, |free| - 1)`.
pub open spec fn enter_scan(t: TabView, i: int, best: Option<int>) -> Option<int>
    decreases t.free.len() - 1 - i,
{
    if 0 <= i < t.free.len() - 1 {
        let take = (t.mat)(0, i).0 > 0 && (best is None || t.free[i] < t.free[best->0]);
        enter_scan(
            t,
            i + 1,
            if take {
                Some(i)
            } else {
                best
            },
        )
    } else {
        best
    }
}

/// `chooseEnteringVar`: the free column (not the unit one) with a positive
/// objective coefficient and the smallest variable index.
pub open spec fn entering(t: TabView) -> Option<int> {
    enter_scan(t, 0, None)
}

/// Sign of `a - b` for reduced fractions.
pub open spec fn qsign(a: (int, int), b: (int, int)) -> int {
    if a.0 * b.1 < b.0 * a.1 {
        -1
    } else if a.0 * b.1 == b.0 * a.1 {
        0
    } else {
        1
    }
}

/// The ratio test's exiting row, scanning rows `[i, |basic|)`.
pub open spec fn exit_scan(
    t: TabView,
    e: int,
    i: int,
    best: Option<int>,
    min_coef: (int, int),
    min_idx: int,
) -> Option<int>
    decreases t.basic.len() - i,
{
    if 1 <= i < t.basic.len() {
        let a = (t.mat)(i, e);
        if a.0 < 0 {
            let coef = qdiv(qneg((t.mat)(i, t.free.len() - 1)), a);
            let c = qsign(coef, min_coef);
            if best is None || c < 0 || (c == 0 && t.basic[i] < min_idx) {
                exit_scan(t, e, i + 1, Some(i), coef, t.basic[i] as int)
            } else {
                exit_scan(t, e, i + 1, best, min_coef, min_idx)
            }
        } else {
            exit_scan(t, e, i + 1, best, min_coef, min_idx)
        }
    } else {
        best
    }
}

/// `chooseExitingVar`: among rows 1.. with a negative entry in column `e`,
/// the smallest ratio, ties broken by the smallest basic variable.
pub open spec fn exiting(t: TabView, e: int) -> Option<int> {
    exit_scan(t, e, 1, None, qzero(), 0)
}

/// The simplex iterations, at most `budget` pivots.
pub open spec fn run(t: TabView, budget: nat) -> Option<TabView>
    decreases budget,
{
    if success(t) {
        Some(t)
    } else if budget == 0 {
        None
    } else {
        match entering(t) {
            None => None,
            Some(e) => match exiting(t, e) {
                None => None,
                Some(x) => run(pivot(t, x, e), (budget - 1) as nat),
            },
        }
    }
}

/// The values of the certificate coordinates in the final tableau: rows
/// `1..k` of basic variables `2..m+2` give their unit-column entry.
pub open spec fn extract(t: TabView, m: int, k: int) -> Seq<(int, int)>
    decreases k,
{
    if k <= 1 {
        Seq::new(m as nat, |i: int| qzero())
    } else {
        let prev = extract(t, m, k - 1);
        let c = t.basic[k - 1] as int;
        if 2 <= c < m + 2 {
            prev.update(c - 2, (t.mat)(k - 1, t.free.len() - 1))
        } else {
            prev
        }
    }
}

/// Lcm of the denominators of `s` (1 for the empty sequence).
pub open spec fn lcm_fold(s: Seq<(int, int)>) -> int
    decreases s.len(),
{
    if s.len() == 0 {
        1
    } else {
        lcm(lcm_fold(s.drop_last()), s.last().1)
    }
}

/// The certificate that `s` scaled by `l` gives: for each nonzero entry, its
/// index and `num * (l / den)`, in index order.
pub open spec fn scaled_cert(s: Seq<(int, int)>, l: int) -> Seq<(usize, int)>
    decreases s.len(),
{
    if s.len() == 0 {
        Seq::empty()
    } else {
        let prev = scaled_cert(s.drop_last(), l);
        let v = s.last();
        if v.0 == 0 {
            prev
        } else {
            prev.push(((s.len() - 1) as usize, v.0 * (l / v.1)))
        }
    }
}

/// Every value is a reduced fraction.
pub open spec fn all_qwf(s: Seq<(int, int)>) -> bool {
    forall|i: int| 0 <= i < s.len() ==> qwf(#[trigger] s[i])
}

/// The lcm of positive denominators is positive and a multiple of each.
pub proof fn lemma_lcm_fold(s: Seq<(int, int)>)
    requires
        all_qwf(s),
    ensures
        lcm_fold(s) > 0,
        forall|i: int| 0 <= i < s.len() ==> lcm_fold(s) % (#[trigger] s[i]).1 == 0,
    decreases s.len(),
{
    if s.len() > 0 {
        let p = s.drop_last();
        assert(all_qwf(p)) by {
            assert forall|i: int| 0 <= i < p.len() implies qwf(#[trigger] p[i]) by {
                assert(p[i] == s[i]);
            }
        }
        lemma_lcm_fold(p);
        assert(qwf(s[s.len() - 1]));
        lemma_lcm(lcm_fold(p), s.last().1);
        assert forall|i: int| 0 <= i < s.len() implies lcm_fold(s) % (#[trigger] s[i]).1 == 0 by {
            if i < s.len() - 1 {
                assert(s[i] == p[i]);
                assert(qwf(s[i]));
                lemma_divides_trans(s[i].1, lcm_fold(p), lcm_fold(s));
            }
        }
    }
}

pub open spec fn all_nonneg(s: Seq<(int, int)>) -> bool {
    forall|i: int| 0 <= i < s.len() ==> (#[trigger] s[i]).0 >= 0
}

/// Scaling nonnegative values by a positive common multiple of their
/// denominators gives positive coefficients at increasing indices.
pub proof fn lemma_scaled_cert_shape(s: Seq<(int, int)>, l: int)
    requires
        all_qwf(s),
        all_nonneg(s),
        l > 0,
        s.len() <= usize::MAX,
        forall|i: int| 0 <= i < s.len() ==> l % (#[trigger] s[i]).1 == 0,
    ensures
        forall|k: int|
            0 <= k < scaled_cert(s, l).len() ==> (#[trigger] scaled_cert(s, l)[k]).0 < s.len()
                && scaled_cert(s, l)[k].1 > 0,
        forall|k: int, j: int|
            0 <= k < j < scaled_cert(s, l).len() ==> (#[trigger] scaled_cert(s, l)[k]).0
                < (#[trigger] scaled_cert(s, l)[j]).0,
    decreases s.len(),
{
    if s.len() > 0 {
        let p = s.drop_last();
        assert forall|i: int| 0 <= i < p.len() implies qwf(#[trigger] p[i]) && p[i].0 >= 0
            && l % p[i].1 == 0 by {
            assert(p[i] == s[i]);
        }
        lemma_scaled_cert_shape(p, l);
        let v = s.last();
        assert(v == s[s.len() - 1]);
        let prev = scaled_cert(p, l);
        let cur = scaled_cert(s, l);
        if v.0 != 0 {
            crate::arith::lemma_exact_quotient(l as nat, v.1 as nat);
            assert(v.0 * (l / v.1) > 0) by (nonlinear_arith)
                requires
                    v.0 > 0,
                    l / v.1 > 0,
            ;
            assert(cur == prev.push(((s.len() - 1) as usize, v.0 * (l / v.1))));
        } else {
            assert(cur == prev);
        }
        assert forall|k: int| 0 <= k < cur.len() implies (#[trigger] cur[k]).0 < s.len() && cur[k].1 > 0 by {
            if k < prev.len() {
                assert(cur[k] == prev[k]);
            }
        }
        assert forall|k: int, j: int| 0 <= k < j < cur.len() implies (#[trigger] cur[k]).0 < (#[trigger] cur[j]).0 by {
            assert(cur[k] == prev[k]);
            if j < prev.len() {
                assert(cur[j] == prev[j]);
            }
        }
    }
}

/// The certificate the oracle returns for hypotheses `hs` over atoms
/// `0..=max_var`: simplex from the Gauss tableau of `stateLP`, then the
/// certificate coordinates scaled by the lcm of their denominators, zeros
/// dropped.  `None` when the search fails.
pub open spec fn certificate(hs: Seq<(Ineq, Seq<(usize, int)>)>, max_var: int) -> Option<
    Seq<(usize, int)>,
> {
    let m = hs.len() as int;
    let t0 = gauss_tableau(state_lp(hs, max_var), max_var + 3, m + 3);
    if m == 0 || t0.basic.len() == 0 || t0.free.len() == 0 || t0.basic[0] != 0
        || t0.free[t0.free.len() - 1] != m + 2 {
        None
    } else {
        match run(t0, 0xffff_ffff_ffff_ffffnat) {
            None => None,
            Some(t) => {
                let v = extract(t, m, t.basic.len() as int);
                let c = scaled_cert(v, lcm_fold(v));
                if c.len() == 0 {
                    None
                } else {
                    Some(c)
                }
            },
        }
    }
}

} // verus!
