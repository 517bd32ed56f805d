//! Engine "hybrid": floating-point basis identification followed by exact
//! repair, falling back to the exact tiered engine.
//!
//! The floating-point phase (column-scaled LP, FP64 phase-1 simplex, support
//! selection) produces candidate supports; everything exact lives here: the
//! Gauss-Jordan repair of a support in tiered rationals, the exact verifier
//! gate, and the routing decisions.  A certificate is only returned after it
//! passes `verify_cert`, and "no certificate" only ever comes from the exact
//! tiered engine.
use crate::bignum::{BigNum, BigRat};
use crate::counters::{advanced, lemma_advanced_refl, lemma_advanced_trans, CounterState};
use crate::rat::TRat;
use crate::rational::{
    lemma_qint, lemma_qmul_comm, lemma_qnorm_id, lemma_qzero_ops, qdiv, qint, qmul, qsub, qwf,
    qzero,
};
use crate::simplex::{
    certificate, gauss_loop, gauss_start, lcm_fold, lemma_lcm_fold, lemma_scaled_cert_shape,
    m_divrow, m_eliminate, m_subrow, m_swap, scaled_cert, GaussState, QMat,
};
use crate::tiered::{
    all_wf, cert_shape, lemma_first_nz, opt_cert_view, produce_certificate_tiered, qs,
    rationals_to_cert,
};
use crate::types::{atoms_within, form_model, hyps_model, Hyp, Ineq};
use crate::verify::{
    form_coeff, lemma_refutes_permutation, lemma_valid_iff_refutes, refutes, valid_certificate,
    verify_cert,
};
use std::collections::HashMap;
use crate::completeness::{
    budget_runs_out, lemma_certificate_complete, lemma_none_means_unrefutable, refutable,
};
use vstd::prelude::*;

verus! {

broadcast use {vstd::std_specs::hash::group_hash_axioms, lemma_advanced_trans};

/// How the hybrid engine answered one instance.
#[derive(Clone, Copy, Debug, PartialEq, Eq, Structural)]
pub enum Route {
    /// Certificate found via FP support + exact repair (attempt 1..=3).
    Fp { attempts: u32 },
    /// Scaled LP not representable in finite nonzero f64 (or no strict hyp):
    /// routed directly to the exact tiered engine.
    TieredDirect,
    /// FP found a point but all support attempts failed exact repair; the
    /// exact tiered engine produced the answer.
    TieredRepairFail { attempts: u32 },
    /// FP phase-1 reported infeasible — a hint only; the exact tiered engine
    /// produced the answer.
    TieredFpInfeasible,
    /// FP simplex hit the iteration cap / numeric trouble; the exact tiered
    /// engine produced the answer.
    TieredFpStalled,
}

impl Route {
    /// The FP phase produced a point (or gave up) and the exact engine had to
    /// take over.
    pub fn is_fallback(&self) -> (r: bool)
        ensures
            r == (*self is TieredRepairFail || *self is TieredFpStalled),
    {
        match self {
            Route::TieredRepairFail { .. } => true,
            Route::TieredFpStalled => true,
            _ => false,
        }
    }
}

/// Every support column names a hypothesis.
pub open spec fn support_in_range(hyps: Seq<Hyp>, support: Seq<usize>) -> bool {
    forall|k: int| 0 <= k < support.len() ==> #[trigger] support[k] < hyps.len()
}

/// A dense row of well-formed values of the given width.
pub open spec fn dense_row_ok(row: Seq<TRat>, width: int) -> bool {
    row.len() == width && forall|c: int| 0 <= c < width ==> (#[trigger] row[c]).wf()
}

pub open spec fn dense_ok(mat: Seq<Vec<TRat>>, width: int) -> bool {
    forall|r: int| 0 <= r < mat.len() ==> #[trigger] dense_row_ok(mat[r]@, width)
}

/// A dense matrix of `width` columns as exact values; zero outside it.
pub open spec fn dense_model(mat: Seq<Vec<TRat>>, width: int) -> QMat {
    |r: int, c: int|
        if 0 <= r < mat.len() && 0 <= c < width {
            mat[r]@[c]@
        } else {
            qzero()
        }
}

/// The values of a row.
pub open spec fn row_values(row: Seq<TRat>) -> Seq<(int, int)> {
    row.map_values(|v: TRat| v@)
}

fn zero_row(width: usize) -> (r: Vec<TRat>)
    ensures
        dense_row_ok(r@, width as int),
        forall|c: int| 0 <= c < width ==> (#[trigger] r@[c])@ == qzero(),
{
    let mut row: Vec<TRat> = Vec::new();
    let mut c: usize = 0;
    while c < width
        invariant
            c <= width,
            row@.len() == c,
            forall|k: int| 0 <= k < c ==> (#[trigger] row@[k]).wf() && row@[k]@ == qzero(),
        decreases width - c,
    {
        row.push(TRat::zero());
        c = c + 1;
    }
    row
}

/// Well-formedness depends only on the value and the tier.
proof fn lemma_wf_transfer(a: TRat, b: TRat)
    requires
        a.wf(),
        a@ == b@,
        a.tier_spec() == b.tier_spec(),
    ensures
        b.wf(),
{
}

/// Every entry of a well-formed dense matrix is a reduced fraction.
proof fn lemma_dense_model_wf(mat: Seq<Vec<TRat>>, width: int)
    requires
        dense_ok(mat, width),
    ensures
        forall|r: int, c: int| qwf(#[trigger] dense_model(mat, width)(r, c)),
{
    assert forall|r: int, c: int| qwf(#[trigger] dense_model(mat, width)(r, c)) by {
        lemma_qzero_ops(qzero());
        if 0 <= r < mat.len() && 0 <= c < width {
            assert(dense_row_ok(mat[r]@, width));
            assert(mat[r]@[c].wf());
        }
    }
}

/// Exchange rows `a` and `b`.
fn dense_swap(mat: &mut Vec<Vec<TRat>>, a: usize, b: usize, width: usize)
    requires
        dense_ok(old(mat)@, width as int),
        a < old(mat)@.len(),
        b < old(mat)@.len(),
    ensures
        dense_ok(final(mat)@, width as int),
        final(mat)@.len() == old(mat)@.len(),
        dense_model(final(mat)@, width as int) == m_swap(dense_model(old(mat)@, width as int), a as int, b as int),
{
    let ghost m0 = mat@;
    if a != b {
        let mut tmp: Vec<TRat> = Vec::new();
        std::mem::swap(&mut tmp, &mut mat[a]);
        std::mem::swap(&mut tmp, &mut mat[b]);
        std::mem::swap(&mut tmp, &mut mat[a]);
        assert(mat@ =~= m0.update(a as int, m0[b as int]).update(b as int, m0[a as int]));
    }
    assert forall|r: int| 0 <= r < mat@.len() implies #[trigger] dense_row_ok(mat@[r]@, width as int) by {
        assert(dense_row_ok(m0[r]@, width as int));
        assert(dense_row_ok(m0[a as int]@, width as int));
        assert(dense_row_ok(m0[b as int]@, width as int));
    }
    assert(dense_model(mat@, width as int) =~= m_swap(dense_model(m0, width as int), a as int, b as int));
}

/// Divide row `row` by the nonzero `pv` (zero entries are left as they are).
fn dense_divide_row(mat: &mut Vec<Vec<TRat>>, row: usize, pv: &TRat, width: usize, ctr: &mut CounterState)
    requires
        dense_ok(old(mat)@, width as int),
        row < old(mat)@.len(),
        pv.wf(),
        pv.num() != 0,
    ensures
        advanced(*old(ctr), *final(ctr)),
        dense_ok(final(mat)@, width as int),
        final(mat)@.len() == old(mat)@.len(),
        dense_model(final(mat)@, width as int) == m_divrow(dense_model(old(mat)@, width as int), row as int, pv@),
{
    proof {
        lemma_advanced_refl(*ctr);
    }
    let ghost m0 = dense_model(mat@, width as int);
    proof {
        lemma_qzero_ops(pv@);
    }
    let mut c: usize = 0;
    while c < width
        invariant
            advanced(*old(ctr), *ctr),
            dense_ok(mat@, width as int),
            mat@.len() == old(mat)@.len(),
            row < mat@.len(),
            pv.wf(),
            pv.num() != 0,
            c <= width,
            m0 == dense_model(old(mat)@, width as int),
            qdiv(qzero(), pv@) == qzero(),
            forall|r: int, j: int|
                #[trigger] dense_model(mat@, width as int)(r, j) == if r == row && 0 <= j < c {
                    qdiv(m0(r, j), pv@)
                } else {
                    m0(r, j)
                },
        decreases width - c,
    {
        assert(dense_row_ok(mat@[row as int]@, width as int));
        let ghost before = mat@;
        if !mat[row][c].is_zero() {
            let nv = mat[row][c].div(pv, ctr);
            mat[row].set(c, nv);
            assert forall|r: int| 0 <= r < mat@.len() implies #[trigger] dense_row_ok(mat@[r]@, width as int) by {
                assert(dense_row_ok(before[r]@, width as int));
            }
        } else {
            proof {
                crate::rat::lemma_zero_is_canonical(before[row as int]@[c as int]);
            }
        }
        assert forall|r: int, j: int|
            #[trigger] dense_model(mat@, width as int)(r, j) == if r == row && 0 <= j < c + 1 {
                qdiv(m0(r, j), pv@)
            } else {
                m0(r, j)
            } by {
            assert(dense_model(before, width as int)(r, j) == if r == row && 0 <= j < c {
                qdiv(m0(r, j), pv@)
            } else {
                m0(r, j)
            });
        }
        c = c + 1;
    }
    assert(dense_model(mat@, width as int) =~= m_divrow(m0, row as int, pv@));
}

/// Row `dst` minus `f` times row `src` (columns where row `src` is zero are
/// left as they are).
fn dense_subtract_row(mat: &mut Vec<Vec<TRat>>, src: usize, dst: usize, f: &TRat, width: usize, ctr: &mut CounterState)
    requires
        dense_ok(old(mat)@, width as int),
        src < old(mat)@.len(),
        dst < old(mat)@.len(),
        src != dst,
        f.wf(),
    ensures
        advanced(*old(ctr), *final(ctr)),
        dense_ok(final(mat)@, width as int),
        final(mat)@.len() == old(mat)@.len(),
        dense_model(final(mat)@, width as int) == m_subrow(dense_model(old(mat)@, width as int), src as int, dst as int, f@),
{
    proof {
        lemma_advanced_refl(*ctr);
    }
    let ghost m0 = dense_model(mat@, width as int);
    proof {
        lemma_qzero_ops(f@);
        lemma_dense_model_wf(mat@, width as int);
    }
    let mut c: usize = 0;
    while c < width
        invariant
            advanced(*old(ctr), *ctr),
            dense_ok(mat@, width as int),
            mat@.len() == old(mat)@.len(),
            src < mat@.len(),
            dst < mat@.len(),
            src != dst,
            f.wf(),
            c <= width,
            m0 == dense_model(old(mat)@, width as int),
            qmul(qzero(), f@) == qzero(),
            qsub(qzero(), qzero()) == qzero(),
            forall|r: int, j: int| qwf(#[trigger] m0(r, j)),
            forall|r: int, j: int|
                #[trigger] dense_model(mat@, width as int)(r, j) == if r == dst && 0 <= j < c {
                    qsub(m0(r, j), qmul(m0(src as int, j), f@))
                } else {
                    m0(r, j)
                },
        decreases width - c,
    {
        assert(dense_row_ok(mat@[src as int]@, width as int));
        assert(dense_row_ok(mat@[dst as int]@, width as int));
        let ghost before = mat@;
        assert(dense_model(before, width as int)(src as int, c as int) == m0(src as int, c as int));
        assert(dense_model(before, width as int)(dst as int, c as int) == m0(dst as int, c as int));
        if !mat[src][c].is_zero() {
            let delta = f.mul(&mat[src][c], ctr);
            let nv = mat[dst][c].sub(&delta, ctr);
            proof {
                lemma_qmul_comm(f@, m0(src as int, c as int));
            }
            mat[dst].set(c, nv);
            assert forall|r: int| 0 <= r < mat@.len() implies #[trigger] dense_row_ok(mat@[r]@, width as int) by {
                assert(dense_row_ok(before[r]@, width as int));
            }
        } else {
            proof {
                crate::rat::lemma_zero_is_canonical(before[src as int]@[c as int]);
                lemma_qnorm_id(m0(dst as int, c as int));
            }
        }
        assert forall|r: int, j: int|
            #[trigger] dense_model(mat@, width as int)(r, j) == if r == dst && 0 <= j < c + 1 {
                qsub(m0(r, j), qmul(m0(src as int, j), f@))
            } else {
                m0(r, j)
            } by {
            assert(dense_model(before, width as int)(r, j) == if r == dst && 0 <= j < c {
                qsub(m0(r, j), qmul(m0(src as int, j), f@))
            } else {
                m0(r, j)
            });
        }
        c = c + 1;
    }
    assert(dense_model(mat@, width as int) =~= m_subrow(m0, src as int, dst as int, f@));
}

/// Gauss-Jordan elimination of the first `cols` columns (all `width` columns
/// take part in the row operations); returns the pivot column of each pivot
/// row, in row order.
fn dense_gauss(mat: &mut Vec<Vec<TRat>>, cols: usize, width: usize, ctr: &mut CounterState) -> (basic: Vec<usize>)
    requires
        dense_ok(old(mat)@, width as int),
        cols <= width,
    ensures
        advanced(*old(ctr), *final(ctr)),
        dense_ok(final(mat)@, width as int),
        final(mat)@.len() == old(mat)@.len(),
        dense_model(final(mat)@, width as int) == gauss_loop(
            gauss_start(dense_model(old(mat)@, width as int)),
            old(mat)@.len() as int,
            cols as int,
        ).mat,
        basic@ == gauss_loop(
            gauss_start(dense_model(old(mat)@, width as int)),
            old(mat)@.len() as int,
            cols as int,
        ).basic,
        basic@.len() <= old(mat)@.len(),
        forall|p: int| 0 <= p < basic@.len() ==> #[trigger] basic@[p] < cols,
{
    proof {
        lemma_advanced_refl(*ctr);
    }
    let ghost g0 = gauss_loop(gauss_start(dense_model(mat@, width as int)), mat@.len() as int, cols as int);
    let n = mat.len();
    let mut basic: Vec<usize> = Vec::new();
    let ghost mut free: Seq<usize> = Seq::empty();
    let mut row: usize = 0;
    let mut col: usize = 0;
    proof {
        assert(GaussState { mat: dense_model(mat@, width as int), basic: basic@, free, row: 0, col: 0 }
            =~= gauss_start(dense_model(mat@, width as int)));
    }
    while row < n && col < cols
        invariant
            advanced(*old(ctr), *ctr),
            dense_ok(mat@, width as int),
            mat@.len() == n,
            n == old(mat)@.len(),
            cols <= width,
            row <= n,
            col <= cols,
            basic@.len() == row,
            forall|p: int| 0 <= p < basic@.len() ==> #[trigger] basic@[p] < col,
            gauss_loop(
                GaussState { mat: dense_model(mat@, width as int), basic: basic@, free, row: row as int, col: col as int },
                n as int,
                cols as int,
            ) == g0,
        decreases cols - col,
    {
        let ghost cur = GaussState {
            mat: dense_model(mat@, width as int),
            basic: basic@,
            free,
            row: row as int,
            col: col as int,
        };
        let mut found: Option<usize> = None;
        let mut i: usize = row;
        while i < n
            invariant
                advanced(*old(ctr), *ctr),
                row <= i <= n,
                dense_ok(mat@, width as int),
                mat@.len() == n,
                cur.mat == dense_model(mat@, width as int),
                col < cols <= width,
                forall|k: int| row <= k < i ==> #[trigger] (cur.mat)(k, col as int).0 == 0,
                match found {
                    Some(r) => row <= r < n && (cur.mat)(r as int, col as int).0 != 0 && forall|k: int|
                        row <= k < r ==> #[trigger] (cur.mat)(k, col as int).0 == 0,
                    None => true,
                },
            ensures
                match found {
                    Some(r) => row <= r < n && (cur.mat)(r as int, col as int).0 != 0 && forall|k: int|
                        row <= k < r ==> #[trigger] (cur.mat)(k, col as int).0 == 0,
                    None => forall|k: int| row <= k < n ==> #[trigger] (cur.mat)(k, col as int).0 == 0,
                },
            decreases n - i,
        {
            assert(dense_row_ok(mat@[i as int]@, width as int));
            if !mat[i][col].is_zero() {
                found = Some(i);
                break;
            }
            i = i + 1;
        }
        match found {
            None => {
                proof {
                    lemma_first_nz(cur.mat, col as int, row as int, n as int, n as int);
                    free = free.push(col as usize);
                }
                col = col + 1;
                proof {
                    assert(GaussState { mat: dense_model(mat@, width as int), basic: basic@, free, row: row as int, col: col as int }
                        =~= GaussState { mat: cur.mat, basic: cur.basic, free: cur.free.push((col - 1) as usize), row: cur.row, col: cur.col + 1 });
                }
            },
            Some(pr) => {
                proof {
                    lemma_first_nz(cur.mat, col as int, row as int, pr as int, n as int);
                }
                dense_swap(mat, row, pr, width);
                let ghost m1 = dense_model(mat@, width as int);
                assert(dense_row_ok(mat@[row as int]@, width as int));
                let pv = mat[row][col].clone();
                proof {
                    lemma_wf_transfer(mat@[row as int]@[col as int], pv);
                }
                assert(pv@ == m1(row as int, col as int));
                dense_divide_row(mat, row, &pv, width, ctr);
                let ghost m2 = dense_model(mat@, width as int);
                let mut i: usize = 0;
                while i < n
                    invariant
                        advanced(*old(ctr), *ctr),
                        dense_ok(mat@, width as int),
                        mat@.len() == n,
                        row < n,
                        i <= n,
                        col < cols <= width,
                        dense_model(mat@, width as int) == m_eliminate(m2, row as int, col as int, i as int),
                    decreases n - i,
                {
                    assert(dense_row_ok(mat@[i as int]@, width as int));
                    assert(dense_model(mat@, width as int)(i as int, col as int) == m2(i as int, col as int));
                    if i != row && !mat[i][col].is_zero() {
                        let f = mat[i][col].clone();
                        proof {
                            lemma_wf_transfer(mat@[i as int]@[col as int], f);
                        }
                        assert(dense_model(mat@, width as int)(i as int, col as int) == m2(i as int, col as int));
                        assert(f@ == m2(i as int, col as int));
                        dense_subtract_row(mat, row, i, &f, width, ctr);
                        proof {
                            assert(dense_model(mat@, width as int) =~= m_eliminate(m2, row as int, col as int, i + 1));
                        }
                    } else {
                        proof {
                            if i != row {
                                crate::rat::lemma_zero_is_canonical(mat@[i as int]@[col as int]);
                                assert(m2(i as int, col as int).0 == 0);
                            }
                            assert(dense_model(mat@, width as int) =~= m_eliminate(m2, row as int, col as int, i + 1));
                        }
                    }
                    i = i + 1;
                }
                basic.push(col);
                row = row + 1;
                col = col + 1;
                proof {
                    assert(GaussState { mat: dense_model(mat@, width as int), basic: basic@, free, row: row as int, col: col as int }
                        =~= GaussState { mat: m_eliminate(m2, cur.row, cur.col, n as int), basic: cur.basic.push(cur.col as usize), free: cur.free, row: cur.row + 1, col: cur.col + 1 });
                }
            },
        }
    }
    basic
}

/// The terms `(atom, coefficient)` of the support's hypotheses, in support
/// order.
pub open spec fn support_terms(hs: Seq<(Ineq, Seq<(usize, int)>)>, support: Seq<usize>) -> Seq<(usize, int)>
    decreases support.len(),
{
    if support.len() == 0 {
        Seq::empty()
    } else {
        support_terms(hs, support.drop_last()) + hs[support.last() as int].1
    }
}

/// The atoms with a nonzero coefficient among `terms`, each once, in order of
/// first appearance.
pub open spec fn first_seen(terms: Seq<(usize, int)>) -> Seq<usize>
    decreases terms.len(),
{
    if terms.len() == 0 {
        Seq::empty()
    } else {
        let prev = first_seen(terms.drop_last());
        let t = terms.last();
        if t.1 != 0 && !prev.contains(t.0) {
            prev.push(t.0)
        } else {
            prev
        }
    }
}

/// The atoms that get a row of the restricted system.
pub open spec fn repair_atoms(hs: Seq<(Ineq, Seq<(usize, int)>)>, support: Seq<usize>) -> Seq<usize> {
    first_seen(support_terms(hs, support))
}

/// The system restricted to the support columns (column `|support|` is the
/// right-hand side): for each touched atom, its coefficient in every support
/// hypothesis with right-hand side 0; then the normalization row
/// `sum_{strict in support} lambda = 1`.
pub open spec fn repair_system(hs: Seq<(Ineq, Seq<(usize, int)>)>, support: Seq<usize>) -> QMat {
    let atoms = repair_atoms(hs, support);
    let m = support.len() as int;
    |r: int, c: int|
        if 0 <= r < atoms.len() && 0 <= c < m {
            qint(form_coeff(hs[support[c] as int].1, atoms[r]))
        } else if r == atoms.len() && 0 <= c < m && hs[support[c] as int].0 == Ineq::Lt {
            qint(1)
        } else if r == atoms.len() && c == m {
            qint(1)
        } else {
            qzero()
        }
}

/// The solution read off the eliminated system: pivot column `basic[p]`
/// takes row `p`'s right-hand side (column `m`), the other columns are 0.
pub open spec fn pivot_solution(mat: QMat, basic: Seq<usize>, m: int, k: int) -> Seq<(int, int)>
    decreases k,
{
    if k <= 0 {
        Seq::new(m as nat, |i: int| qzero())
    } else {
        pivot_solution(mat, basic, m, k - 1).update(basic[k - 1] as int, mat(k - 1, m))
    }
}

/// The certificate a solution of the restricted system gives: `None` when a
/// coordinate is negative or every coordinate is zero; otherwise the
/// positive coordinates scaled by the lcm of their denominators, as
/// (hypothesis index, coefficient) in support order.
pub open spec fn scaled_solution(sol: Seq<(int, int)>, support: Seq<usize>) -> Option<Seq<(usize, int)>> {
    let cert = scaled_cert(sol, lcm_fold(sol));
    if exists|k: int| 0 <= k < sol.len() && (#[trigger] sol[k]).0 < 0 {
        None
    } else if cert.len() == 0 {
        None
    } else {
        Some(cert.map_values(|p: (usize, int)| (support[p.0 as int], p.1)))
    }
}

/// What the exact repair of `support` yields: `None` when no support
/// hypothesis is strict or the eliminated system is inconsistent; otherwise
/// the certificate its solution gives.
pub open spec fn repair(hs: Seq<(Ineq, Seq<(usize, int)>)>, support: Seq<usize>) -> Option<Seq<(usize, int)>> {
    let m = support.len() as int;
    let n = repair_atoms(hs, support).len() + 1int;
    let g = gauss_loop(gauss_start(repair_system(hs, support)), n, m);
    if !(exists|k: int| 0 <= k < m && #[trigger] hs[support[k] as int].0 == Ineq::Lt) {
        None
    } else if exists|r: int| g.basic.len() <= r < n && (#[trigger] (g.mat)(r, m)).0 != 0 {
        None
    } else {
        scaled_solution(pivot_solution(g.mat, g.basic, m, g.basic.len() as int), support)
    }
}

/// Exact Gauss-Jordan (tiered rationals) on the equality system restricted to
/// the `support` columns, in unscaled space, free columns pinned to 0: one
/// row per atom touched by the support (in order of first appearance) plus
/// the normalization row `sum_{strict in support} lambda = 1`.  Returns a
/// certificate candidate iff the restricted system is consistent and its
/// solution with the free columns at zero is nonnegative and nonzero: the
/// entries of `repair`, sorted by hypothesis index.
pub fn exact_repair(hyps: &[Hyp], support: &[usize], ctr: &mut CounterState) -> (r: Option<
    Vec<(usize, BigNum)>,
>)
    requires
        support_in_range(hyps@, support@),
        support@.len() + 2 <= usize::MAX,
    ensures
        advanced(*old(ctr), *final(ctr)),
        match repair(hyps_model(hyps@), support@) {
            None => r is None,
            Some(u) => r matches Some(c) && form_model(c@).to_multiset() == u.to_multiset() && forall|
                k: int,
                l: int,
            | 0 <= k < l < c@.len() ==> (#[trigger] c@[k]).0 <= (#[trigger] c@[l]).0,
        },
{
    proof {
        lemma_advanced_refl(*ctr);
    }
    let ghost hs = hyps_model(hyps@);
    let m = support.len();
    let mut any_strict = false;
    let mut k: usize = 0;
    while k < m
        invariant
            advanced(*old(ctr), *ctr),
            k <= m,
            m == support@.len(),
            support_in_range(hyps@, support@),
            hs == hyps_model(hyps@),
            any_strict == exists|q: int| 0 <= q < k && #[trigger] hs[support@[q] as int].0 == Ineq::Lt,
        decreases m - k,
    {
        assert(hs[support@[k as int] as int].0 == hyps@[support@[k as int] as int].ineq);
        if hyps[support[k]].ineq == Ineq::Lt {
            any_strict = true;
        }
        k = k + 1;
    }
    if !any_strict {
        return None;
    }
    // Rows: one per atom touched by the support (in order of first
    // appearance) plus the normalization row.  Width m+1 (last = rhs).
    let mut atom_row: HashMap<usize, usize> = HashMap::new();
    let mut mat: Vec<Vec<TRat>> = Vec::new();
    let ghost mut atoms: Seq<usize> = Seq::empty();
    proof {
        assert(support@.take(0) =~= Seq::<usize>::empty());
        lemma_qint(0, 0);
    }
    let mut k: usize = 0;
    while k < m
        invariant
            advanced(*old(ctr), *ctr),
            k <= m,
            m == support@.len(),
            m + 2 <= usize::MAX,
            support_in_range(hyps@, support@),
            hs == hyps_model(hyps@),
            dense_ok(mat@, m + 1),
            mat@.len() == atoms.len(),
            atoms == first_seen(support_terms(hs, support@.take(k as int))),
            atoms.no_duplicates(),
            qint(0) == qzero(),
            forall|a: usize| #[trigger] atom_row@.contains_key(a) <==> atoms.contains(a),
            forall|a: usize|
                #[trigger] atom_row@.contains_key(a) ==> atom_row@[a] < atoms.len() && atoms[atom_row@[a] as int] == a,
            forall|r: int, c: int|
                0 <= r < atoms.len() && 0 <= c <= m ==> (#[trigger] mat@[r]@[c])@ == if c < k {
                    qint(form_coeff(hs[support@[c] as int].1, atoms[r]))
                } else {
                    qzero()
                },
            forall|a: usize, c: int|
                0 <= c < k && !atoms.contains(a) ==> #[trigger] form_coeff(hs[support@[c] as int].1, a) == 0,
        decreases m - k,
    {
        let h = &hyps[support[k]];
        let ghost form = hs[support@[k as int] as int].1;
        let ghost base = support_terms(hs, support@.take(k as int));
        assert(form == form_model(h.coeffs@));
        proof {
            assert(form.take(0) =~= Seq::<(usize, int)>::empty());
            assert(base + form.take(0) =~= base);
        }
        let mut j: usize = 0;
        while j < h.coeffs.len()
            invariant
                advanced(*old(ctr), *ctr),
                k < m,
                m == support@.len(),
                m + 2 <= usize::MAX,
                support_in_range(hyps@, support@),
                hs == hyps_model(hyps@),
                *h == hyps@[support@[k as int] as int],
                form == hs[support@[k as int] as int].1,
                form == form_model(h.coeffs@),
                base == support_terms(hs, support@.take(k as int)),
                j <= h.coeffs@.len(),
                dense_ok(mat@, m + 1),
                mat@.len() == atoms.len(),
                atoms == first_seen(base + form.take(j as int)),
                atoms.no_duplicates(),
                qint(0) == qzero(),
                forall|a: usize| #[trigger] atom_row@.contains_key(a) <==> atoms.contains(a),
                forall|a: usize|
                    #[trigger] atom_row@.contains_key(a) ==> atom_row@[a] < atoms.len() && atoms[atom_row@[a] as int] == a,
                forall|r: int, c: int|
                    0 <= r < atoms.len() && 0 <= c <= m ==> (#[trigger] mat@[r]@[c])@ == if c < k {
                        qint(form_coeff(hs[support@[c] as int].1, atoms[r]))
                    } else if c == k {
                        qint(form_coeff(form.take(j as int), atoms[r]))
                    } else {
                        qzero()
                    },
                forall|a: usize, c: int|
                    0 <= c < k && !atoms.contains(a) ==> #[trigger] form_coeff(hs[support@[c] as int].1, a) == 0,
                forall|a: usize| !atoms.contains(a) ==> #[trigger] form_coeff(form.take(j as int), a) == 0,
            decreases h.coeffs@.len() - j,
        {
            let (var, c) = &h.coeffs[j];
            let ghost old_atoms = atoms;
            proof {
                assert(form[j as int] == (*var, c@));
                assert(form.take(j + 1).drop_last() =~= form.take(j as int));
                assert(form.take(j + 1).last() == (*var, c@));
                assert((base + form.take(j + 1)).drop_last() =~= base + form.take(j as int));
                assert((base + form.take(j + 1)).last() == (*var, c@));
                assert forall|v: usize| #[trigger] form_coeff(form.take(j + 1), v) == form_coeff(form.take(j as int), v) + if v == *var { c@ } else { 0 } by {}
            }
            if !c.is_zero() {
                let ri = match atom_row.get(var) {
                    Some(ri) => *ri,
                    None => {
                        let ri = mat.len();
                        let ghost before = mat@;
                        mat.push(zero_row(m + 1));
                        atom_row.insert(*var, ri);
                        proof {
                            atoms = atoms.push(*var);
                            assert forall|r: int| 0 <= r < mat@.len() implies #[trigger] dense_row_ok(mat@[r]@, m + 1) by {
                                if r < before.len() {
                                    assert(mat@[r] == before[r]);
                                }
                            }
                            assert forall|a: usize| #[trigger] atom_row@.contains_key(a) <==> atoms.contains(a) by {
                                if atoms.contains(a) && a != *var {
                                    let w = choose|w: int| 0 <= w < atoms.len() && atoms[w] == a;
                                    assert(old_atoms[w] == a);
                                }
                                if old_atoms.contains(a) {
                                    let w = choose|w: int| 0 <= w < old_atoms.len() && old_atoms[w] == a;
                                    assert(atoms[w] == a);
                                }
                                assert(atoms[atoms.len() - 1] == *var);
                            }
                        }
                        ri
                    },
                };
                assert(atoms[ri as int] == *var);
                assert(dense_row_ok(mat@[ri as int]@, m + 1));
                let cv = TRat::from_bigint(c);
                let ghost before = mat@;
                let ghost old_v = form_coeff(form.take(j as int), *var);
                assert(before[ri as int]@[k as int]@ == qint(old_v));
                let nv = mat[ri][k].add(&cv, ctr);
                proof {
                    lemma_qint(old_v, c@);
                }
                mat[ri].set(k, nv);
                proof {
                    assert forall|r: int| 0 <= r < mat@.len() implies #[trigger] dense_row_ok(mat@[r]@, m + 1) by {
                        assert(dense_row_ok(before[r]@, m + 1));
                    }
                }
            }
            j = j + 1;
            proof {
                assert forall|a: usize| !atoms.contains(a) implies #[trigger] form_coeff(form.take(j as int), a) == 0 by {
                    if a != *var {
                        if old_atoms.contains(a) {
                            let w = choose|w: int| 0 <= w < old_atoms.len() && old_atoms[w] == a;
                            assert(atoms[w] == a);
                        }
                    }
                }
                assert forall|a: usize, cc: int| 0 <= cc < k && !atoms.contains(a) implies #[trigger] form_coeff(hs[support@[cc] as int].1, a) == 0 by {
                    if old_atoms.contains(a) {
                        let w = choose|w: int| 0 <= w < old_atoms.len() && old_atoms[w] == a;
                        assert(atoms[w] == a);
                    }
                }
            }
        }
        proof {
            assert(form.take(j as int) =~= form);
            assert(support@.take(k + 1).drop_last() =~= support@.take(k as int));
            assert(support@.take(k + 1).last() == support@[k as int]);
        }
        k = k + 1;
    }
    proof {
        assert(support@.take(m as int) =~= support@);
    }
    let mut norm = zero_row(m + 1);
    let mut k: usize = 0;
    while k < m
        invariant
            advanced(*old(ctr), *ctr),
            k <= m,
            m == support@.len(),
            m + 2 <= usize::MAX,
            support_in_range(hyps@, support@),
            hs == hyps_model(hyps@),
            dense_row_ok(norm@, m + 1),
            forall|c: int|
                0 <= c <= m ==> (#[trigger] norm@[c])@ == if c < k && hs[support@[c] as int].0 == Ineq::Lt {
                    qint(1)
                } else {
                    qzero()
                },
        decreases m - k,
    {
        assert(hs[support@[k as int] as int].0 == hyps@[support@[k as int] as int].ineq);
        if hyps[support[k]].ineq == Ineq::Lt {
            norm.set(k, TRat::one());
        }
        k = k + 1;
    }
    norm.set(m, TRat::one());
    let ghost before = mat@;
    mat.push(norm);
    proof {
        assert forall|r: int| 0 <= r < mat@.len() implies #[trigger] dense_row_ok(mat@[r]@, m + 1) by {
            if r < before.len() {
                assert(mat@[r] == before[r]);
            }
        }
        assert forall|r: int, c: int| #[trigger] dense_model(mat@, m + 1)(r, c) == repair_system(hs, support@)(r, c) by {
            if 0 <= r < before.len() && 0 <= c <= m {
                assert(mat@[r] == before[r]);
            }
        }
        assert(dense_model(mat@, m + 1) =~= repair_system(hs, support@));
    }
    let nrows = mat.len();
    let ghost g = gauss_loop(gauss_start(repair_system(hs, support@)), nrows as int, m as int);
    let basic = dense_gauss(&mut mat, m, m + 1, ctr);
    let ghost sv = pivot_solution(g.mat, g.basic, m as int, g.basic.len() as int);
    // Inconsistent restricted system -> reject.
    let prow = basic.len();
    let mut r: usize = prow;
    while r < nrows
        invariant
            advanced(*old(ctr), *ctr),
            prow <= r <= nrows,
            prow == g.basic.len(),
            nrows == mat@.len(),
            nrows == repair_atoms(hs, support@).len() + 1,
            m == support@.len(),
            hs == hyps_model(hyps@),
            g == gauss_loop(gauss_start(repair_system(hs, support@)), nrows as int, m as int),
            exists|q: int| 0 <= q < m && #[trigger] hs[support@[q] as int].0 == Ineq::Lt,
            dense_ok(mat@, m + 1),
            dense_model(mat@, m + 1) == g.mat,
            forall|q: int| prow <= q < r ==> (#[trigger] (g.mat)(q, m as int)).0 == 0,
        decreases nrows - r,
    {
        assert(dense_row_ok(mat@[r as int]@, m + 1));
        assert((g.mat)(r as int, m as int) == mat@[r as int]@[m as int]@);
        if !mat[r][m].is_zero() {
            return None;
        }
        r = r + 1;
    }
    assert(repair(hs, support@) == scaled_solution(sv, support@));
    let mut sol = zero_row(m);
    let mut p: usize = 0;
    proof {
        assert(row_values(sol@) =~= pivot_solution(g.mat, g.basic, m as int, 0));
    }
    while p < basic.len()
        invariant
            advanced(*old(ctr), *ctr),
            p <= basic@.len(),
            basic@ == g.basic,
            basic@.len() <= nrows,
            nrows == mat@.len(),
            dense_ok(mat@, m + 1),
            dense_model(mat@, m + 1) == g.mat,
            forall|q: int| 0 <= q < basic@.len() ==> #[trigger] basic@[q] < m,
            dense_row_ok(sol@, m as int),
            row_values(sol@) == pivot_solution(g.mat, g.basic, m as int, p as int),
        decreases basic@.len() - p,
    {
        let pc = basic[p];
        assert(basic@[p as int] < m);
        assert(dense_row_ok(mat@[p as int]@, m + 1));
        let v = mat[p][m].clone();
        proof {
            lemma_wf_transfer(mat@[p as int]@[m as int], v);
        }
        assert(v@ == (g.mat)(p as int, m as int));
        let ghost before = sol@;
        sol.set(pc, v);
        proof {
            assert(row_values(sol@) =~= row_values(before).update(pc as int, v@));
        }
        p = p + 1;
    }
    let mut k: usize = 0;
    while k < m
        invariant
            advanced(*old(ctr), *ctr),
            k <= m,
            m == support@.len(),
            dense_row_ok(sol@, m as int),
            row_values(sol@) == sv,
            hs == hyps_model(hyps@),
            repair(hs, support@) == scaled_solution(sv, support@),
            forall|c: int| 0 <= c < k ==> (#[trigger] sv[c]).0 >= 0,
        decreases m - k,
    {
        assert(sv[k as int] == sol@[k as int]@);
        if sol[k].is_negative() {
            return None;
        }
        k = k + 1;
    }
    // Clear denominators; keep the positive entries mapped back to hypothesis
    // indices.
    let mut vals: Vec<BigRat> = Vec::new();
    let mut k: usize = 0;
    while k < m
        invariant
            advanced(*old(ctr), *ctr),
            k <= m,
            dense_row_ok(sol@, m as int),
            row_values(sol@) == sv,
            vals@.len() == k,
            all_wf(vals@),
            forall|c: int| 0 <= c < k ==> (#[trigger] vals@[c]).q() == sv[c],
        decreases m - k,
    {
        assert(sol@[k as int].wf());
        let v = sol[k].to_bigrational();
        vals.push(v);
        k = k + 1;
    }
    proof {
        assert(qs(vals@) =~= sv);
        assert forall|i: int| 0 <= i < sv.len() implies qwf(#[trigger] sv[i]) && sv[i].0 >= 0 by {
            assert(sv[i] == vals@[i].q());
            assert(vals@[i].wf());
        }
        lemma_lcm_fold(sv);
        lemma_scaled_cert_shape(sv, lcm_fold(sv));
    }
    let cert = match rationals_to_cert(vals) {
        Some(c) => c,
        None => {
            return None;
        },
    };
    let ghost sc = scaled_cert(sv, lcm_fold(sv));
    let mut mapped: Vec<(usize, BigNum)> = Vec::new();
    let mut q: usize = 0;
    while q < cert.len()
        invariant
            advanced(*old(ctr), *ctr),
            q <= cert@.len(),
            m == support@.len(),
            form_model(cert@) == sc,
            forall|t: int| 0 <= t < sc.len() ==> (#[trigger] sc[t]).0 < m,
            form_model(mapped@) == sc.take(q as int).map_values(|p: (usize, int)| (support@[p.0 as int], p.1)),
        decreases cert@.len() - q,
    {
        assert(sc[q as int] == (cert@[q as int].0, cert@[q as int].1@));
        let idx = support[cert[q].0];
        let w = cert[q].1.clone();
        let ghost before = mapped@;
        mapped.push((idx, w));
        proof {
            assert(mapped@ == before.push((idx, w)));
            assert(form_model(mapped@) =~= form_model(before).push((idx, w@)));
            assert(sc.take(q + 1) =~= sc.take(q as int).push(sc[q as int]));
            assert(sc.take(q + 1).map_values(|p: (usize, int)| (support@[p.0 as int], p.1)) =~= sc.take(
                q as int,
            ).map_values(|p: (usize, int)| (support@[p.0 as int], p.1)).push((support@[sc[q as int].0 as int], sc[q as int].1)));
            assert(form_model(mapped@) =~= sc.take(q + 1).map_values(|p: (usize, int)| (support@[p.0 as int], p.1)));
        }
        q = q + 1;
    }
    proof {
        assert(sc.take(q as int) =~= sc);
    }
    let sorted = sort_by_index(mapped);
    Some(sorted)
}

/// Exchanging two positions keeps the multiset of elements.
proof fn lemma_swap_multiset<A>(s: Seq<A>, i: int, j: int)
    requires
        0 <= i < s.len(),
        0 <= j < s.len(),
    ensures
        s.update(i, s[j]).update(j, s[i]).to_multiset() == s.to_multiset(),
{
    broadcast use vstd::multiset::group_multiset_axioms;

    let s1 = s.update(i, s[j]);
    vstd::seq_lib::to_multiset_update(s, i, s[j]);
    vstd::seq_lib::to_multiset_update(s1, j, s[i]);
    vstd::seq_lib::to_multiset_contains(s, s[i]);
    vstd::seq_lib::to_multiset_contains(s, s[j]);
    if i == j {
        assert(s.update(i, s[j]).update(j, s[i]) =~= s);
    } else {
        assert(s1[j] == s[j]);
        let m = s.to_multiset();
        assert(m.insert(s[j]).remove(s[i]).insert(s[i]).remove(s[j]) =~= m);
    }
}

/// Sort certificate entries by hypothesis index (insertion sort).
pub fn sort_by_index(v: Vec<(usize, BigNum)>) -> (r: Vec<(usize, BigNum)>)
    ensures
        r@.to_multiset() == v@.to_multiset(),
        form_model(r@).to_multiset() == form_model(v@).to_multiset(),
        forall|k: int, l: int| 0 <= k < l < r@.len() ==> (#[trigger] r@[k]).0 <= (#[trigger] r@[l]).0,
{
    let mut v = v;
    let ghost orig = v@;
    let n = v.len();
    let mut i: usize = 1;
    while i < n
        invariant
            n == v@.len(),
            1 <= i || n == 0,
            v@.to_multiset() == orig.to_multiset(),
            form_model(v@).to_multiset() == form_model(orig).to_multiset(),
            forall|k: int, l: int| 0 <= k < l < i && l < n ==> (#[trigger] v@[k]).0 <= (#[trigger] v@[l]).0,
        decreases n - i,
    {
        let mut j: usize = i;
        while j > 0 && v[j - 1].0 > v[j].0
            invariant
                n == v@.len(),
                i < n,
                j <= i,
                v@.to_multiset() == orig.to_multiset(),
                form_model(v@).to_multiset() == form_model(orig).to_multiset(),
                forall|k: int, l: int|
                    0 <= k < l <= i && l != j && k != j ==> (#[trigger] v@[k]).0 <= (#[trigger] v@[l]).0,
                forall|k: int, l: int| j <= k < l <= i ==> (#[trigger] v@[k]).0 <= (#[trigger] v@[l]).0,
            decreases j,
        {
            let ghost before = v@;
            let a = v.remove(j - 1);
            v.insert(j, a);
            proof {
                assert(v@ =~= before.update(j - 1, before[j as int]).update(j as int, before[j - 1]));
                lemma_swap_multiset(before, j - 1, j as int);
                let fb = form_model(before);
                assert(form_model(v@) =~= fb.update(j - 1, fb[j as int]).update(j as int, fb[j - 1]));
                lemma_swap_multiset(fb, j - 1, j as int);
            }
            j = j - 1;
        }
        i = i + 1;
    }
    v
}

/// What the floating-point phase of the hybrid engine found.
pub enum FpOutcome {
    /// The scaled LP has no strict hypothesis or a coefficient that is not a
    /// finite nonzero f64.
    Unrepresentable,
    /// A feasible FP point; its candidate supports, one per attempt, each
    /// ordered by descending FP magnitude.
    Feasible(Vec<Vec<usize>>),
    /// Phase 1 left an artificial residual (a hint only).
    Infeasible,
    /// Iteration cap or numeric breakdown.
    Stalled,
}

fn same_support(a: &Vec<usize>, b: &Vec<usize>) -> (r: bool)
    ensures
        r == (a@ == b@),
{
    if a.len() != b.len() {
        return false;
    }
    let mut i: usize = 0;
    while i < a.len()
        invariant
            a@.len() == b@.len(),
            i <= a@.len(),
            forall|k: int| 0 <= k < i ==> a@[k] == b@[k],
        decreases a@.len() - i,
    {
        if a[i] != b[i] {
            return false;
        }
        i = i + 1;
    }
    assert(a@ =~= b@);
    true
}

fn copy_support(a: &Vec<usize>) -> (r: Vec<usize>)
    ensures
        r@ == a@,
{
    let mut out: Vec<usize> = Vec::new();
    let mut i: usize = 0;
    while i < a.len()
        invariant
            i <= a@.len(),
            out@ == a@.take(i as int),
        decreases a@.len() - i,
    {
        out.push(a[i]);
        i = i + 1;
        assert(out@ =~= a@.take(i as int));
    }
    assert(a@.take(i as int) =~= a@);
    out
}

/// Whether `sup` equals one of the supports already tried.
fn already_tried(tried: &Vec<Vec<usize>>, sup: &Vec<usize>) -> (r: bool)
    ensures
        r == exists|k: int| 0 <= k < tried@.len() && #[trigger] tried@[k]@ == sup@,
{
    let mut q: usize = 0;
    while q < tried.len()
        invariant
            q <= tried@.len(),
            forall|k: int| 0 <= k < q ==> #[trigger] tried@[k]@ != sup@,
        decreases tried@.len() - q,
    {
        if same_support(&tried[q], sup) {
            return true;
        }
        q = q + 1;
    }
    false
}

/// Every candidate support names hypotheses.
pub open spec fn supports_in_range(hyps: Seq<Hyp>, sups: Seq<Vec<usize>>) -> bool {
    forall|a: int|
        0 <= a < sups.len() ==> support_in_range(hyps, (#[trigger] sups[a])@) && sups[a]@.len() + 2
            <= usize::MAX
}

/// The candidate supports as sequences.
pub open spec fn support_views(sups: Seq<Vec<usize>>) -> Seq<Seq<usize>> {
    sups.map_values(|s: Vec<usize>| s@)
}

/// The floating-point route's search over the candidate supports from
/// position `i` on: every nonempty support not tried before is an attempt;
/// the first whose exact repair gives a refuting certificate wins.  Returns
/// the winning position, if any, and the number of attempts made.
pub open spec fn fp_search(
    hs: Seq<(Ineq, Seq<(usize, int)>)>,
    sups: Seq<Seq<usize>>,
    i: int,
    tried: Seq<Seq<usize>>,
    attempts: int,
) -> (Option<int>, int)
    decreases sups.len() - i,
{
    if i < 0 || i >= sups.len() {
        (None, attempts)
    } else if sups[i].len() == 0 || tried.contains(sups[i]) {
        fp_search(hs, sups, i + 1, tried, attempts)
    } else if repair(hs, sups[i]) is Some && refutes(hs, repair(hs, sups[i])->0) {
        (Some(i), attempts + 1)
    } else {
        fp_search(hs, sups, i + 1, tried.push(sups[i]), attempts + 1)
    }
}

/// Support `i` is an attempt: nonempty and unlike every earlier support.
pub open spec fn fresh_support(sups: Seq<Seq<usize>>, i: int) -> bool {
    sups[i].len() > 0 && forall|j: int| 0 <= j < i ==> #[trigger] sups[j] != sups[i]
}

/// Support `i` repairs to a refuting certificate.
pub open spec fn repairs_to_refutation(hs: Seq<(Ineq, Seq<(usize, int)>)>, sups: Seq<Seq<usize>>, i: int) -> bool {
    repair(hs, sups[i]) is Some && refutes(hs, repair(hs, sups[i])->0)
}

/// The number of attempts among the first `n` supports.
pub open spec fn attempts_before(sups: Seq<Seq<usize>>, n: int) -> int
    decreases n,
{
    if n <= 0 {
        0
    } else {
        attempts_before(sups, n - 1) + if fresh_support(sups, n - 1) {
            1int
        } else {
            0int
        }
    }
}

proof fn lemma_fp_search_from(
    hs: Seq<(Ineq, Seq<(usize, int)>)>,
    sups: Seq<Seq<usize>>,
    i: int,
    tried: Seq<Seq<usize>>,
    attempts: int,
)
    requires
        0 <= i <= sups.len(),
        forall|s: Seq<usize>|
            #[trigger] tried.contains(s) <==> exists|j: int| 0 <= j < i && sups[j].len() > 0 && #[trigger] sups[j] == s,
        forall|k: int| 0 <= k < i && fresh_support(sups, k) ==> !#[trigger] repairs_to_refutation(hs, sups, k),
        attempts == attempts_before(sups, i),
    ensures
        ({
            let res = fp_search(hs, sups, i, tried, attempts);
            &&& res.0 matches Some(w) ==> i <= w < sups.len() && fresh_support(sups, w) && repairs_to_refutation(
                hs,
                sups,
                w,
            ) && (forall|k: int| 0 <= k < w && fresh_support(sups, k) ==> !#[trigger] repairs_to_refutation(hs, sups, k))
                && res.1 == attempts_before(sups, w + 1)
            &&& res.0 is None ==> (forall|k: int|
                0 <= k < sups.len() && fresh_support(sups, k) ==> !#[trigger] repairs_to_refutation(hs, sups, k))
                && res.1 == attempts_before(sups, sups.len() as int)
        }),
    decreases sups.len() - i,
{
    if i < sups.len() {
        let s = sups[i];
        let seen = s.len() == 0 || tried.contains(s);
        assert(seen == !fresh_support(sups, i)) by {
            if s.len() > 0 && tried.contains(s) {
                let j = choose|j: int| 0 <= j < i && sups[j].len() > 0 && #[trigger] sups[j] == s;
                assert(sups[j] == sups[i]);
            }
            if s.len() > 0 && !fresh_support(sups, i) {
                let j = choose|j: int| 0 <= j < i && !(#[trigger] sups[j] != sups[i]);
                assert(tried.contains(s));
            }
        }
        if seen {
            assert forall|t: Seq<usize>|
                #[trigger] tried.contains(t) <==> exists|j: int| 0 <= j < i + 1 && sups[j].len() > 0 && #[trigger] sups[j] == t by {
                if exists|j: int| 0 <= j < i + 1 && sups[j].len() > 0 && #[trigger] sups[j] == t {
                    let j = choose|j: int| 0 <= j < i + 1 && sups[j].len() > 0 && #[trigger] sups[j] == t;
                    if j == i {
                        assert(tried.contains(s));
                    }
                }
            }
            lemma_fp_search_from(hs, sups, i + 1, tried, attempts);
        } else if repairs_to_refutation(hs, sups, i) {
        } else {
            let t2 = tried.push(s);
            assert forall|t: Seq<usize>|
                #[trigger] t2.contains(t) <==> exists|j: int| 0 <= j < i + 1 && sups[j].len() > 0 && #[trigger] sups[j] == t by {
                if t2.contains(t) && t != s {
                    let q = choose|q: int| 0 <= q < t2.len() && t2[q] == t;
                    assert(tried[q] == t);
                    assert(tried.contains(t));
                }
                if t == s {
                    assert(t2[tried.len() as int] == s);
                    assert(sups[i] == t);
                }
                if exists|j: int| 0 <= j < i + 1 && sups[j].len() > 0 && #[trigger] sups[j] == t {
                    let j = choose|j: int| 0 <= j < i + 1 && sups[j].len() > 0 && #[trigger] sups[j] == t;
                    if j < i {
                        assert(tried.contains(t));
                        let q = choose|q: int| 0 <= q < tried.len() && tried[q] == t;
                        assert(t2[q] == t);
                    } else {
                        assert(t2[tried.len() as int] == t);
                    }
                }
            }
            lemma_fp_search_from(hs, sups, i + 1, t2, attempts + 1);
        }
    }
}

/// The floating-point route's search tries the candidate supports in order:
/// it wins at a support exactly when that support is the first attempt (a
/// nonempty support unlike every earlier one) that repairs to a refuting
/// certificate, counting the attempts up to it; it gives up only when every
/// attempt failed, counting them all.
pub proof fn lemma_fp_search_law(hs: Seq<(Ineq, Seq<(usize, int)>)>, sups: Seq<Seq<usize>>)
    ensures
        ({
            let res = fp_search(hs, sups, 0, Seq::empty(), 0);
            &&& res.0 matches Some(w) ==> 0 <= w < sups.len() && fresh_support(sups, w) && repairs_to_refutation(
                hs,
                sups,
                w,
            ) && (forall|k: int| 0 <= k < w && fresh_support(sups, k) ==> !#[trigger] repairs_to_refutation(hs, sups, k))
                && res.1 == attempts_before(sups, w + 1)
            &&& res.0 is None ==> (forall|k: int|
                0 <= k < sups.len() && fresh_support(sups, k) ==> !#[trigger] repairs_to_refutation(hs, sups, k))
                && res.1 == attempts_before(sups, sups.len() as int)
        }),
{
    assert(attempts_before(sups, 0) == 0);
    lemma_fp_search_from(hs, sups, 0, Seq::empty(), 0);
}

/// The hybrid engine's answer when its floating-point phase found a point
/// with candidate supports `sups`: the exact repair of the winning support
/// (as a multiset of entries, sorted by hypothesis index) on the
/// floating-point route, else the fallback route; either way with the number
/// of attempts.
pub open spec fn feasible_answer(
    hs: Seq<(Ineq, Seq<(usize, int)>)>,
    sups: Seq<Vec<usize>>,
    cert: Option<Vec<(usize, BigNum)>>,
    route: Route,
) -> bool {
    let res = fp_search(hs, support_views(sups), 0, Seq::empty(), 0);
    match res.0 {
        Some(i) => {
            &&& route matches Route::Fp { attempts } && attempts == res.1
            &&& cert matches Some(c) && form_model(c@).to_multiset() == repair(hs, sups[i]@)->0.to_multiset()
                && forall|k: int, l: int| 0 <= k < l < c@.len() ==> (#[trigger] c@[k]).0 <= (#[trigger] c@[l]).0
        },
        None => route matches Route::TieredRepairFail { attempts } && attempts == res.1,
    }
}

/// The hybrid engine's answer after a feasible floating-point phase: it is
/// on the floating-point route, with the exact repair of support `w` and the
/// attempts up to `w`, exactly when `w` is the first attempted support whose
/// repair refutes; a failed repair never ends the search, so the fallback
/// route is taken only when every attempted support failed, and it reports
/// all the attempts.
pub proof fn lemma_hybrid_route_law(
    hs: Seq<(Ineq, Seq<(usize, int)>)>,
    sups: Seq<Vec<usize>>,
    cert: Option<Vec<(usize, BigNum)>>,
    route: Route,
    w: int,
)
    requires
        feasible_answer(hs, sups, cert, route),
    ensures
        (0 <= w < sups.len() && fresh_support(support_views(sups), w) && repairs_to_refutation(
            hs,
            support_views(sups),
            w,
        ) && (forall|k: int|
            0 <= k < w && fresh_support(support_views(sups), k) ==> !#[trigger] repairs_to_refutation(
                hs,
                support_views(sups),
                k,
            ))) ==> ((route matches Route::Fp { attempts } && attempts == attempts_before(
            support_views(sups),
            w + 1,
        )) && (cert matches Some(c) && form_model(c@).to_multiset() == repair(hs, sups[w]@)->0.to_multiset())),
        route matches Route::TieredRepairFail { attempts } ==> (forall|k: int|
            0 <= k < sups.len() && fresh_support(support_views(sups), k) ==> !#[trigger] repairs_to_refutation(
                hs,
                support_views(sups),
                k,
            )) && attempts == attempts_before(support_views(sups), sups.len() as int),
        route is Fp || route is TieredRepairFail,
{
    let v = support_views(sups);
    lemma_fp_search_law(hs, v);
    let res = fp_search(hs, v, 0, Seq::empty(), 0);
    if 0 <= w < sups.len() && fresh_support(v, w) && repairs_to_refutation(hs, v, w) && (forall|k: int|
        0 <= k < w && fresh_support(v, k) ==> !#[trigger] repairs_to_refutation(hs, v, k)) {
        match res.0 {
            Some(u) => {
                if u < w {
                    assert(!repairs_to_refutation(hs, v, u));
                } else if w < u {
                    assert(!repairs_to_refutation(hs, v, w));
                }
                assert(v[w] == sups[w]@);
            },
            None => {
                assert(!repairs_to_refutation(hs, v, w));
            },
        }
    }
}

/// Some hypothesis is strict.
pub open spec fn some_strict(hyps: Seq<Hyp>) -> bool {
    exists|i: int| 0 <= i < hyps.len() && #[trigger] hyps[i].ineq == Ineq::Lt
}

/// Whether some hypothesis is strict.
fn any_strict(hyps: &[Hyp]) -> (r: bool)
    ensures
        r == some_strict(hyps@),
{
    let mut i: usize = 0;
    while i < hyps.len()
        invariant
            i <= hyps@.len(),
            forall|k: int| 0 <= k < i ==> hyps@[k].ineq != Ineq::Lt,
        decreases hyps@.len() - i,
    {
        if matches!(hyps[i].ineq, Ineq::Lt) {
            assert(hyps@[i as int].ineq == Ineq::Lt);
            return true;
        }
        i = i + 1;
    }
    false
}

/// The hybrid engine, given what its floating-point phase found: try each
/// distinct nonempty candidate support (exact repair, then the exact verifier
/// as soundness gate), otherwise ask the exact tiered engine.  Flushes the
/// tier counters once.
pub fn produce_certificate_hybrid(hyps: &[Hyp], max_var: usize, fp: FpOutcome, ctr: &mut CounterState) -> (r: (
    Option<Vec<(usize, BigNum)>>,
    Route,
))
    requires
        atoms_within(hyps@, max_var),
        max_var + 3 <= usize::MAX,
        hyps@.len() + 3 <= usize::MAX,
        fp matches FpOutcome::Feasible(sups) ==> supports_in_range(hyps@, sups@) && sups@.len()
            <= u32::MAX,
    ensures
        advanced(*old(ctr), *final(ctr)),
        r.1 is Fp ==> r.0 is Some && valid_certificate(hyps@, r.0->0@),
        r.0 is None ==> !(r.1 is Fp),
        r.0 matches Some(c) ==> (r.1 is Fp || cert_shape(hyps@.len() as int, c@)),
        !some_strict(hyps@) ==> r.1 == Route::TieredDirect,
        fp is Unrepresentable ==> r.1 == Route::TieredDirect,
        some_strict(hyps@) && fp is Infeasible ==> r.1 == Route::TieredFpInfeasible,
        some_strict(hyps@) && fp is Stalled ==> r.1 == Route::TieredFpStalled,
        some_strict(hyps@) && fp is Feasible ==> (r.1 is Fp || r.1 is TieredRepairFail),
        some_strict(hyps@) ==> (fp matches FpOutcome::Feasible(sups) ==> feasible_answer(
            hyps_model(hyps@),
            sups@,
            r.0,
            r.1,
        )),
        r.1 matches Route::Fp { attempts } ==> attempts >= 1,
        !(r.1 is Fp) ==> opt_cert_view(r.0) == certificate(hyps_model(hyps@), max_var as int),
        r.0 matches Some(c) ==> valid_certificate(hyps@, c@),
        r.0 is None && !budget_runs_out(hyps_model(hyps@), max_var as int) ==> !refutable(
            hyps_model(hyps@),
        ),
        !budget_runs_out(hyps_model(hyps@), max_var as int) ==> (r.0 is Some <==> certificate(
            hyps_model(hyps@),
            max_var as int,
        ) is Some),
        final(ctr).flushed.same_as(final(ctr).tls),
{
    proof {
        lemma_advanced_refl(*ctr);
    }
    let strict = any_strict(hyps);
    let result = if !strict {
        // no strict hypothesis: no floating-point phase, the exact engine answers
        (produce_certificate_tiered(hyps, max_var, ctr), Route::TieredDirect)
    } else {
        match fp {
        FpOutcome::Unrepresentable => (produce_certificate_tiered(hyps, max_var, ctr), Route::TieredDirect),
        FpOutcome::Feasible(sups) => {
            let ghost hs = hyps_model(hyps@);
            let ghost sv = support_views(sups@);
            let ghost res = fp_search(hs, sv, 0, Seq::empty(), 0);
            let mut tried: Vec<Vec<usize>> = Vec::new();
            let mut attempts: u32 = 0;
            let mut att: usize = 0;
            let mut found: Option<Vec<(usize, BigNum)>> = None;
            proof {
                assert(support_views(tried@) =~= Seq::<Seq<usize>>::empty());
            }
            while att < sups.len()
                invariant_except_break
                    found is None,
                    attempts <= att,
                    fp_search(hs, sv, att as int, support_views(tried@), attempts as int) == res,
                invariant
                    advanced(*old(ctr), *ctr),
                    supports_in_range(hyps@, sups@),
                    sups@.len() <= u32::MAX,
                    att <= sups@.len(),
                    attempts <= sups@.len(),
                    hs == hyps_model(hyps@),
                    sv == support_views(sups@),
                    res == fp_search(hs, sv, 0, Seq::empty(), 0),
                ensures
                    found matches Some(c) ==> (res.0 matches Some(i) && res.1 == attempts && attempts >= 1
                        && valid_certificate(hyps@, c@) && form_model(c@).to_multiset() == repair(
                        hs,
                        sups@[i]@,
                    )->0.to_multiset() && forall|k: int, l: int|
                        0 <= k < l < c@.len() ==> (#[trigger] c@[k]).0 <= (#[trigger] c@[l]).0),
                    found is None ==> res.0 is None && res.1 == attempts,
                decreases sups@.len() - att,
            {
                let sup = &sups[att];
                assert(support_in_range(hyps@, sup@));
                assert(sv[att as int] == sup@);
                let ghost tv = support_views(tried@);
                let fresh = sup.len() != 0 && !already_tried(&tried, sup);
                proof {
                    if sup@.len() != 0 {
                        if tv.contains(sup@) {
                            let k = choose|k: int| 0 <= k < tv.len() && tv[k] == sup@;
                            assert(tried@[k]@ == sup@);
                        }
                        if exists|k: int| 0 <= k < tried@.len() && #[trigger] tried@[k]@ == sup@ {
                            let k = choose|k: int| 0 <= k < tried@.len() && #[trigger] tried@[k]@ == sup@;
                            assert(tv[k] == sup@);
                        }
                    }
                }
                if fresh {
                    attempts = attempts + 1;
                    if let Some(cert) = exact_repair(hyps, sup, ctr) {
                        proof {
                            lemma_valid_iff_refutes(hyps@, cert@);
                            lemma_refutes_permutation(hs, form_model(cert@), repair(hs, sup@)->0);
                        }
                        if verify_cert(hyps, &cert) {
                            found = Some(cert);
                            break;
                        }
                    }
                    let ghost before = tried@;
                    tried.push(copy_support(sup));
                    proof {
                        assert(support_views(tried@) =~= support_views(before).push(sup@));
                    }
                }
                att = att + 1;
            }
            match found {
                Some(cert) => (Some(cert), Route::Fp { attempts }),
                None => (produce_certificate_tiered(hyps, max_var, ctr), Route::TieredRepairFail { attempts }),
            }
        },
        FpOutcome::Infeasible => (produce_certificate_tiered(hyps, max_var, ctr), Route::TieredFpInfeasible),
        FpOutcome::Stalled => (produce_certificate_tiered(hyps, max_var, ctr), Route::TieredFpStalled),
        }
    };
    proof {
        if result.0 is Some {
            lemma_valid_iff_refutes(hyps@, result.0->0@);
            if !budget_runs_out(hyps_model(hyps@), max_var as int) {
                lemma_certificate_complete(hyps_model(hyps@), max_var as int, form_model(result.0->0@));
            }
        }
        lemma_none_means_unrefutable(hyps_model(hyps@), max_var as int);
    }
    ctr.flush_tls();
    result
}

} // verus!
