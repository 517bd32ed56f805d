//! Engine "tiered": Gauss-seeded simplex with Bland's rule over tiered exact
//! rationals.  Pivot rules, tie-breaks, extraction and postprocessing follow
//! Mathlib's `linarith` oracle (`simplexAlgorithmSparse`), so this engine
//! makes the same pivot decisions as the faithful engine; only the cost of
//! each exact ring op changes.
use crate::arith::{lcm, lemma_gcd_one, lemma_lcm, lemma_reduced_unique, reduced};
use crate::bignum::{lcm_of, rat_mul, rat_to_integer, BigNum, BigRat};
use crate::counters::{advanced, lemma_advanced_refl, lemma_advanced_trans, CounterState};
use crate::rat::TRat;
use crate::rational::{
    lemma_qint, lemma_qnorm_id, lemma_qzero_ops, qdiv, qint, qmul, qneg, qsub, qwf, qzero,
};
use crate::simplex::{
    first_nz, free_rest, gauss_loop, gauss_start, lp_entry, m_divrow, m_eliminate, m_set, m_subrow,
    m_swap, pivot, read_tableau, GaussState, QMat, TabView, enter_scan, entering, exit_scan,
    exiting, certificate, extract, lcm_fold, lemma_lcm_fold, lemma_scaled_cert_shape, run,
    scaled_cert, success,
};
use crate::types::{form_model, hyps_model};
use crate::verify::{form_coeff, refutes};
use crate::completeness::{budget_runs_out, lemma_none_means_unrefutable, refutable};
use crate::soundness::{lemma_atoms_within, lemma_certificate_refutes};
use crate::types::{atoms_within, Hyp, Ineq};
use std::collections::HashMap;
use vstd::prelude::*;

verus! {

broadcast use {vstd::std_specs::hash::group_hash_axioms, lemma_advanced_trans};

/// Every stored entry is a well-formed nonzero value.
pub open spec fn row_wf(r: Map<usize, TRat>) -> bool {
    forall|j: usize| #[trigger] r.contains_key(j) ==> r[j].wf() && r[j].num() != 0
}

/// The keys of a map, each exactly once.
pub fn row_keys<V>(m: &HashMap<usize, V>) -> (r: Vec<usize>)
    ensures
        r@.no_duplicates(),
        forall|j: usize| #[trigger] m@.contains_key(j) <==> r@.contains(j),
{
    let mut out: Vec<usize> = Vec::new();
    for (j, v) in it: m.iter()
        invariant
            out@.len() == it.index(),
            it.index() <= it.seq().len(),
            forall|k: int| 0 <= k < it.index() ==> out@[k] == *it.seq()[k].0,
            it.seq().no_duplicates(),
            forall|k: int|
                0 <= k < it.seq().len() ==> #[trigger] m@.contains_key(*it.seq()[k].0) && m@[*it.seq()[k].0]
                    == *it.seq()[k].1,
            forall|j: usize|
                #[trigger] m@.contains_key(j) ==> exists|k: int|
                    0 <= k < it.seq().len() && *it.seq()[k].0 == j,
            out@.no_duplicates(),
            forall|j: usize| #[trigger] out@.contains(j) ==> m@.contains_key(j),
            forall|j: usize|
                #[trigger] m@.contains_key(j) ==> out@.contains(j) || exists|k: int|
                    it.index() <= k < it.seq().len() && *it.seq()[k].0 == j,
        ensures
            out@.no_duplicates(),
            forall|j: usize| #[trigger] m@.contains_key(j) <==> out@.contains(j),
    {
        let ghost idx = it.index();
        let ghost s = it.seq();
        proof {
            assert(s[idx].0 == j);
            assert forall|t: int| 0 <= t < out@.len() implies out@[t] != *j by {
                if out@[t] == *j {
                    assert(*s[t].0 == *s[idx].0);
                    assert(*s[t].1 == m@[*j]);
                    assert(*s[idx].1 == m@[*j]);
                    assert(s[t] == s[idx]);
                }
            }
        }
        let ghost old_out = out@;
        out.push(*j);
        proof {
            assert forall|jj: usize| #[trigger] m@.contains_key(jj) implies out@.contains(jj)
                || exists|k: int| idx + 1 <= k < s.len() && *s[k].0 == jj by {
                if !out@.contains(jj) {
                    assert forall|t: int| 0 <= t < old_out.len() implies old_out[t] != jj by {
                        assert(out@[t] == old_out[t]);
                    }
                    let k = choose|k: int| idx <= k < s.len() && *s[k].0 == jj;
                    if k == idx {
                        assert(*s[idx].0 == *j);
                        assert(out@[out@.len() - 1] == jj);
                    }
                }
            }
        }
    }
    out
}

/// Sparse row-major matrix over `TRat` (absent entry = 0; entries nonzero).
pub struct SparseMat {
    pub rows: Vec<HashMap<usize, TRat>>,
}

impl SparseMat {
    pub open spec fn wf(&self) -> bool {
        forall|i: int| 0 <= i < self.rows@.len() ==> #[trigger] row_wf(self.rows@[i]@)
    }

    /// The matrix as exact values; zero outside its rows.
    pub open spec fn model(&self) -> QMat {
        |i: int, j: int|
            if 0 <= i < self.rows@.len() && 0 <= j <= usize::MAX {
                self.entry(i, j as usize)
            } else {
                qzero()
            }
    }

    /// Value of entry `(i, j)` as a fraction; absent entries are `0 / 1`.
    pub open spec fn entry(&self, i: int, j: usize) -> (int, int) {
        if self.rows@[i]@.contains_key(j) {
            self.rows@[i]@[j]@
        } else {
            (0, 1)
        }
    }

    pub fn new(n_rows: usize) -> (r: SparseMat)
        ensures
            r.wf(),
            r.rows@.len() == n_rows,
            forall|i: int| 0 <= i < n_rows ==> (#[trigger] r.rows@[i])@ == Map::<usize, TRat>::empty(),
    {
        let mut rows: Vec<HashMap<usize, TRat>> = Vec::new();
        let mut k: usize = 0;
        while k < n_rows
            invariant
                k <= n_rows,
                rows@.len() == k,
                forall|i: int| 0 <= i < k ==> (#[trigger] rows@[i])@ == Map::<usize, TRat>::empty(),
            decreases n_rows - k,
        {
            rows.push(HashMap::new());
            k = k + 1;
        }
        SparseMat { rows }
    }

    pub fn get(&self, i: usize, j: usize) -> (r: TRat)
        requires
            self.wf(),
            i < self.rows@.len(),
        ensures
            r.wf(),
            r@ == self.entry(i as int, j),
    {
        assert(row_wf(self.rows@[i as int]@));
        match self.rows[i].get(&j) {
            Some(v) => v.clone(),
            None => TRat::zero(),
        }
    }

    pub fn is_zero_at(&self, i: usize, j: usize) -> (r: bool)
        requires
            i < self.rows@.len(),
        ensures
            r == !self.rows@[i as int]@.contains_key(j),
    {
        !self.rows[i].contains_key(&j)
    }

    /// Store `v` at `(i, j)` (removing the entry when `v` is zero).
    pub fn set(&mut self, i: usize, j: usize, v: TRat)
        requires
            old(self).wf(),
            i < old(self).rows@.len(),
            v.wf(),
        ensures
            final(self).wf(),
            final(self).rows@.len() == old(self).rows@.len(),
            final(self).entry(i as int, j) == v@,
            forall|k: int, c: usize|
                0 <= k < old(self).rows@.len() && (k != i || c != j) ==> #[trigger] final(self).entry(k, c)
                    == old(self).entry(k, c),
            final(self).model() == m_set(old(self).model(), i as int, j as int, v@),
    {
        proof {
            crate::rat::lemma_zero_is_canonical(v);
        }
        let ghost v0 = v@;
        if v.is_zero() {
            self.rows[i].remove(&j);
        } else {
            self.rows[i].insert(j, v);
        }
        assert forall|k: int| 0 <= k < self.rows@.len() implies #[trigger] row_wf(self.rows@[k]@) by {
            if k != i {
                assert(self.rows@[k] == old(self).rows@[k]);
            } else {
                assert(row_wf(old(self).rows@[k]@));
            }
        }
        proof {
            assert forall|k: int, c: usize| 0 <= k < old(self).rows@.len() && (k != i || c != j) implies #[trigger] self.entry(k, c)
                == old(self).entry(k, c) by {
                if k != i {
                    assert(self.rows@[k] == old(self).rows@[k]);
                }
            }
            assert(self.model() =~= m_set(old(self).model(), i as int, j as int, v0));
        }
    }

    pub fn swap_rows(&mut self, i: usize, j: usize)
        requires
            old(self).wf(),
            i < old(self).rows@.len(),
            j < old(self).rows@.len(),
        ensures
            final(self).wf(),
            final(self).rows@.len() == old(self).rows@.len(),
            final(self).rows@[i as int]@ == old(self).rows@[j as int]@,
            final(self).rows@[j as int]@ == old(self).rows@[i as int]@,
            final(self).model() == m_swap(old(self).model(), i as int, j as int),
    {
        if i == j {
            assert(self.model() =~= m_swap(old(self).model(), i as int, j as int));
        }
        if i != j {
            let mut tmp: HashMap<usize, TRat> = HashMap::new();
            std::mem::swap(&mut tmp, &mut self.rows[i]);
            std::mem::swap(&mut tmp, &mut self.rows[j]);
            std::mem::swap(&mut tmp, &mut self.rows[i]);
            assert(self.rows@ =~= old(self).rows@.update(i as int, old(self).rows@[j as int]).update(
                j as int,
                old(self).rows@[i as int],
            ));
            assert forall|k: int| 0 <= k < self.rows@.len() implies #[trigger] row_wf(self.rows@[k]@) by {
                assert(row_wf(old(self).rows@[k]@));
                assert(row_wf(old(self).rows@[i as int]@));
                assert(row_wf(old(self).rows@[j as int]@));
            }
            assert(self.model() =~= m_swap(old(self).model(), i as int, j as int));
        }
    }

    /// row[i] /= coef  (coef != 0)
    pub fn divide_row(&mut self, i: usize, coef: &TRat, ctr: &mut CounterState)
        requires
            old(self).wf(),
            i < old(self).rows@.len(),
            coef.wf(),
            coef.num() != 0,
        ensures
            advanced(*old(ctr), *final(ctr)),
            final(self).wf(),
            final(self).rows@.len() == old(self).rows@.len(),
            forall|k: int, c: usize|
                0 <= k < old(self).rows@.len() ==> #[trigger] final(self).entry(k, c) == if k == i {
                    qdiv(old(self).entry(k, c), coef@)
                } else {
                    old(self).entry(k, c)
                },
            final(self).model() == m_divrow(old(self).model(), i as int, coef@),
    {
        proof {
            lemma_advanced_refl(*ctr);
        }
        proof {
            lemma_qzero_ops(coef@);
        }
        let keys = row_keys(&self.rows[i]);
        let ghost m0 = *self;
        let mut t: usize = 0;
        while t < keys.len()
            invariant
                advanced(*old(ctr), *ctr),
                self.wf(),
                self.rows@.len() == m0.rows@.len(),
                i < self.rows@.len(),
                coef.wf(),
                coef.num() != 0,
                t <= keys@.len(),
                keys@.no_duplicates(),
                forall|j: usize| #[trigger] m0.rows@[i as int]@.contains_key(j) <==> keys@.contains(j),
                forall|k: int, c: usize|
                    0 <= k < m0.rows@.len() ==> #[trigger] self.entry(k, c) == if k == i && seen(
                        keys@,
                        t as int,
                        c,
                    ) {
                        qdiv(m0.entry(k, c), coef@)
                    } else {
                        m0.entry(k, c)
                    },
            decreases keys@.len() - t,
        {
            let j = keys[t];
            assert(!seen(keys@, t as int, j));
            let v = self.get(i, j);
            let q = v.div(coef, ctr);
            self.set(i, j, q);
            assert(forall|c: usize| seen(keys@, t + 1, c) <==> (seen(keys@, t as int, c) || c == j));
            t = t + 1;
        }
        proof {
            assert forall|c: usize| #[trigger] keys@.contains(c) implies seen(keys@, t as int, c) by {
                let w = choose|w: int| 0 <= w < keys@.len() && keys@[w] == c;
                assert(keys@[w] == c);
            }
            assert forall|c: usize| !m0.rows@[i as int]@.contains_key(c) implies qdiv(m0.entry(i as int, c), coef@) == m0.entry(i as int, c) by {
                assert(0 * coef.den() == 0);
            }
            assert(self.model() =~= m_divrow(m0.model(), i as int, coef@));
        }
    }
}

/// `c` occurs among the first `t` keys.
pub open spec fn seen(keys: Seq<usize>, t: int, c: usize) -> bool {
    exists|w: int| 0 <= w < t && #[trigger] keys[w] == c
}

impl SparseMat {
    /// row[dst] -= coef * row[src]
    pub fn subtract_row(&mut self, src: usize, dst: usize, coef: &TRat, ctr: &mut CounterState)
        requires
            old(self).wf(),
            src < old(self).rows@.len(),
            dst < old(self).rows@.len(),
            src != dst,
            coef.wf(),
        ensures
            advanced(*old(ctr), *final(ctr)),
            final(self).wf(),
            final(self).rows@.len() == old(self).rows@.len(),
            forall|k: int, c: usize|
                0 <= k < old(self).rows@.len() ==> #[trigger] final(self).entry(k, c) == if k == dst {
                    qsub(old(self).entry(k, c), qmul(old(self).entry(src as int, c), coef@))
                } else {
                    old(self).entry(k, c)
                },
            final(self).model() == m_subrow(old(self).model(), src as int, dst as int, coef@),
    {
        proof {
            lemma_advanced_refl(*ctr);
        }
        proof {
            lemma_qzero_ops(coef@);
        }
        proof {
            assert forall|k: int, c: usize| 0 <= k < self.rows@.len() implies qwf(#[trigger] self.entry(k, c)) by {
                assert(row_wf(self.rows@[k]@));
                if !self.rows@[k]@.contains_key(c) {
                    crate::arith::lemma_gcd_one(0);
                }
            }
            crate::rat::lemma_zero_is_canonical(*coef);
        }
        if coef.is_zero() {
            proof {
                assert forall|k: int, c: usize| 0 <= k < self.rows@.len() && k == dst implies #[trigger] self.entry(k, c)
                    == qsub(self.entry(k, c), qmul(self.entry(src as int, c), coef@)) by {
                    lemma_qnorm_id(self.entry(src as int, c));
                    lemma_qnorm_id(self.entry(k, c));
                }
                assert(self.model() =~= m_subrow(self.model(), src as int, dst as int, coef@));
            }
            return;
        }
        let keys = row_keys(&self.rows[src]);
        let ghost m0 = *self;
        let mut t: usize = 0;
        while t < keys.len()
            invariant
                advanced(*old(ctr), *ctr),
                self.wf(),
                self.rows@.len() == m0.rows@.len(),
                src < self.rows@.len(),
                dst < self.rows@.len(),
                src != dst,
                coef.wf(),
                coef.num() != 0,
                t <= keys@.len(),
                keys@.no_duplicates(),
                forall|j: usize| #[trigger] m0.rows@[src as int]@.contains_key(j) <==> keys@.contains(j),
                forall|k: int, c: usize| 0 <= k < m0.rows@.len() ==> qwf(#[trigger] m0.entry(k, c)),
                forall|k: int, c: usize|
                    0 <= k < m0.rows@.len() ==> #[trigger] self.entry(k, c) == if k == dst && seen(
                        keys@,
                        t as int,
                        c,
                    ) {
                        qsub(m0.entry(k, c), qmul(m0.entry(src as int, c), coef@))
                    } else {
                        m0.entry(k, c)
                    },
            decreases keys@.len() - t,
        {
            let j = keys[t];
            assert(!seen(keys@, t as int, j));
            let v = self.get(src, j);
            let delta = v.mul(coef, ctr);
            let nv = if self.rows[dst].contains_key(&j) {
                let e = self.get(dst, j);
                e.sub(&delta, ctr)
            } else {
                proof {
                    lemma_qnorm_id(delta@);
                }
                delta.neg()
            };
            self.set(dst, j, nv);
            assert(forall|c: usize| seen(keys@, t + 1, c) <==> (seen(keys@, t as int, c) || c == j));
            t = t + 1;
        }
        proof {
            assert forall|c: usize| #[trigger] keys@.contains(c) implies seen(keys@, t as int, c) by {
                let w = choose|w: int| 0 <= w < keys@.len() && keys@[w] == c;
                assert(keys@[w] == c);
            }
            assert forall|c: usize| !m0.rows@[src as int]@.contains_key(c) implies qsub(m0.entry(dst as int, c), qmul(m0.entry(src as int, c), coef@)) == m0.entry(dst as int, c) by {
                lemma_qnorm_id(coef@);
                lemma_qnorm_id(m0.entry(dst as int, c));
                assert(0 * coef.num() == 0);
            }
            assert(self.model() =~= m_subrow(m0.model(), src as int, dst as int, coef@));
        }
    }
}

/// Mathlib's `Tableau`: basic variables (one per row), free variables, and
/// `mat` with `basic[i] = sum_j mat[i][j] * free[j]`.
pub struct Tableau {
    pub basic: Vec<usize>,
    pub free: Vec<usize>,
    pub mat: SparseMat,
}

impl Tableau {
    /// The tableau as exact values.
    pub open spec fn view(&self) -> TabView {
        TabView { basic: self.basic@, free: self.free@, mat: self.mat.model() }
    }

    pub open spec fn wf(&self) -> bool {
        self.mat.wf() && self.mat.rows@.len() == self.basic@.len()
    }
}

/// `stateLP`: (maxVar+3) x (m+3) matrix.  Columns: 0 = objective `f`,
/// 1 = slack `z`, 2..m+2 = certificate coordinates, m+2 = unit `y`.
/// Row 0: -f + sum_{strict} x = 0.  Row 1: z - y + sum x = 0.  Rows 2..:
/// the hypotheses' linear forms (repeated atoms add up).
pub fn state_lp(hyps: &[Hyp], max_var: usize, ctr: &mut CounterState) -> (b: SparseMat)
    requires
        atoms_within(hyps@, max_var),
        max_var + 3 <= usize::MAX,
        hyps@.len() + 3 <= usize::MAX,
    ensures
        advanced(*old(ctr), *final(ctr)),
        b.wf(),
        b.rows@.len() == max_var + 3,
        b.model() == crate::simplex::state_lp(hyps_model(hyps@), max_var as int),
{
    proof {
        lemma_advanced_refl(*ctr);
    }
    let ghost hs = hyps_model(hyps@);
    let ghost mv = max_var as int;
    let m = hyps.len();
    let mut b = SparseMat::new(max_var + 3);
    proof {
        lemma_qint(-1, 0);
        lemma_qint(1, 0);
        lemma_qzero_ops(qzero());
    }
    b.set(0, 0, TRat::one().neg());
    let mut idx: usize = 0;
    while idx < m
        invariant
            advanced(*old(ctr), *ctr),
            m == hyps@.len(),
            hs == hyps_model(hyps@),
            mv == max_var,
            idx <= m,
            m + 3 <= usize::MAX,
            b.wf(),
            b.rows@.len() == max_var + 3,
            forall|i: int, c: usize|
                0 <= i < max_var + 3 ==> #[trigger] b.entry(i, c) == if i == 0 && c < idx + 2 {
                    lp_entry(hs, mv, i, c as int)
                } else {
                    qzero()
                },
        decreases m - idx,
    {
        assert(hs[idx as int].0 == hyps@[idx as int].ineq);
        if hyps[idx].ineq == Ineq::Lt {
            b.set(0, idx + 2, TRat::one());
        }
        idx = idx + 1;
    }
    b.set(1, 1, TRat::one());
    b.set(1, m + 2, TRat::one().neg());
    let mut i: usize = 0;
    while i < m
        invariant
            advanced(*old(ctr), *ctr),
            m == hyps@.len(),
            hs == hyps_model(hyps@),
            mv == max_var,
            i <= m,
            m + 3 <= usize::MAX,
            b.wf(),
            b.rows@.len() == max_var + 3,
            forall|r: int, c: usize|
                0 <= r < max_var + 3 ==> #[trigger] b.entry(r, c) == if r == 0 || (r == 1 && (c < i + 2
                    || c == m + 2)) {
                    lp_entry(hs, mv, r, c as int)
                } else {
                    qzero()
                },
        decreases m - i,
    {
        b.set(1, i + 2, TRat::one());
        i = i + 1;
    }
    let mut idx: usize = 0;
    while idx < m
        invariant
            advanced(*old(ctr), *ctr),
            m == hyps@.len(),
            hs == hyps_model(hyps@),
            mv == max_var,
            idx <= m,
            m + 3 <= usize::MAX,
            max_var + 3 <= usize::MAX,
            atoms_within(hyps@, max_var),
            b.wf(),
            b.rows@.len() == max_var + 3,
            forall|r: int, c: usize|
                0 <= r < max_var + 3 ==> #[trigger] b.entry(r, c) == if r < 2 || (2 <= c < idx + 2) {
                    lp_entry(hs, mv, r, c as int)
                } else {
                    qzero()
                },
        decreases m - idx,
    {
        let h = &hyps[idx];
        let ghost form = hs[idx as int].1;
        assert(form == form_model(h.coeffs@));
        let mut j: usize = 0;
        while j < h.coeffs.len()
            invariant
                advanced(*old(ctr), *ctr),
                idx < m,
                m == hyps@.len(),
                hs == hyps_model(hyps@),
                mv == max_var,
                m + 3 <= usize::MAX,
                max_var + 3 <= usize::MAX,
                *h == hyps@[idx as int],
                form == hs[idx as int].1,
                form == form_model(h.coeffs@),
                atoms_within(hyps@, max_var),
                j <= h.coeffs@.len(),
                b.wf(),
                b.rows@.len() == max_var + 3,
                forall|r: int, c: usize|
                    0 <= r < max_var + 3 ==> #[trigger] b.entry(r, c) == if r < 2 || (2 <= c < idx + 2) {
                        lp_entry(hs, mv, r, c as int)
                    } else if 2 <= r && c == idx + 2 {
                        qint(form_coeff(form.take(j as int), (r - 2) as usize))
                    } else {
                        qzero()
                    },
            decreases h.coeffs@.len() - j,
        {
            let (var, c) = &h.coeffs[j];
            assert(hyps@[idx as int].coeffs@[j as int].0 <= max_var);
            proof {
                assert(form.take(j + 1).drop_last() =~= form.take(j as int));
                assert(form.take(j + 1).last() == (*var, c@));
                assert forall|v: usize| #[trigger] form_coeff(form.take(j + 1), v) == form_coeff(form.take(j as int), v) + if v == *var { c@ } else { 0 } by {}
            }
            if !c.is_zero() {
                let cur = b.get(*var + 2, idx + 2);
                let add = TRat::from_bigint(c);
                proof {
                    lemma_qint(form_coeff(form.take(j as int), *var), c@);
                }
                b.set(*var + 2, idx + 2, cur.add(&add, ctr));
            }
            j = j + 1;
        }
        proof {
            assert(form.take(j as int) =~= form);
        }
        idx = idx + 1;
    }
    proof {
        assert forall|r: int, c: int| #[trigger] b.model()(r, c) == lp_entry(hs, mv, r, c) by {
            if 0 <= r < max_var + 3 && 0 <= c <= usize::MAX {
                assert(b.entry(r, c as usize) == lp_entry(hs, mv, r, c));
            }
        }
        assert(b.model() =~= crate::simplex::state_lp(hs, mv));
    }
    b
}

/// The first nonzero row of a column, from the row on which the scan stops.
pub proof fn lemma_first_nz(m: QMat, col: int, from: int, at: int, n: int)
    requires
        from <= at,
        forall|k: int| from <= k < at ==> #[trigger] m(k, col).0 == 0,
    ensures
        at < n && m(at, col).0 != 0 ==> first_nz(m, col, from, n) == Some(at),
        at >= n ==> first_nz(m, col, from, n) is None,
    decreases at - from,
{
    if from < at {
        assert(m(from, col).0 == 0);
        lemma_first_nz(m, col, from + 1, at, n);
    }
}

/// Sorted, distinct pivot and free columns below `bound`, never shared.
pub open spec fn split_ok(basic: Seq<usize>, free: Seq<usize>, bound: int) -> bool {
    &&& forall|a: int, b: int| 0 <= a < b < basic.len() ==> #[trigger] basic[a] < #[trigger] basic[b]
    &&& forall|a: int, b: int| 0 <= a < b < free.len() ==> #[trigger] free[a] < #[trigger] free[b]
    &&& forall|a: int| 0 <= a < basic.len() ==> #[trigger] basic[a] < bound
    &&& forall|a: int| 0 <= a < free.len() ==> #[trigger] free[a] < bound
    &&& forall|a: int, b: int| 0 <= a < basic.len() && 0 <= b < free.len() ==> #[trigger] basic[a] != #[trigger] free[b]
}

/// `Gauss.getTableau`: greedy left-to-right elimination splitting the `m`
/// columns into basic and free ones; returns the tableau expressing the
/// basic variables through the free ones (entries negated, pivot columns
/// dropped).
pub fn gauss_tableau(mat: SparseMat, n: usize, m: usize, ctr: &mut CounterState) -> (t: Tableau)
    requires
        mat.wf(),
        mat.rows@.len() == n,
    ensures
        advanced(*old(ctr), *final(ctr)),
        t.wf(),
        t.basic@.len() + t.free@.len() == m,
        t.basic@.len() <= n,
        forall|k: int| 0 <= k < t.free@.len() ==> #[trigger] t.free@[k] < m,
        forall|k: int| 0 <= k < t.basic@.len() ==> #[trigger] t.basic@[k] < m,
        t.view() == crate::simplex::gauss_tableau(mat.model(), n as int, m as int),
        split_ok(t.basic@, t.free@, m as int),
{
    proof {
        lemma_advanced_refl(*ctr);
    }
    let ghost g0 = gauss_loop(gauss_start(mat.model()), n as int, m as int);
    let mut mat = mat;
    let mut free: Vec<usize> = Vec::new();
    let mut basic: Vec<usize> = Vec::new();
    let mut row: usize = 0;
    let mut col: usize = 0;
    proof {
        assert(GaussState { mat: mat.model(), basic: basic@, free: free@, row: 0, col: 0 } =~= gauss_start(mat.model()));
    }
    while row < n && col < m
        invariant
            advanced(*old(ctr), *ctr),
            mat.wf(),
            mat.rows@.len() == n,
            row <= n,
            col <= m,
            basic@.len() == row,
            basic@.len() + free@.len() == col,
            split_ok(basic@, free@, col as int),
            gauss_loop(
                GaussState { mat: mat.model(), basic: basic@, free: free@, row: row as int, col: col as int },
                n as int,
                m as int,
            ) == g0,
        decreases m - col,
    {
        let ghost cur = GaussState { mat: mat.model(), basic: basic@, free: free@, row: row as int, col: col as int };
        let mut found: Option<usize> = None;
        let mut i: usize = row;
        while i < n
            invariant
                advanced(*old(ctr), *ctr),
                row <= i <= n,
                mat.wf(),
                mat.rows@.len() == n,
                cur.mat == mat.model(),
                col <= usize::MAX,
                forall|k: int| row <= k < i ==> #[trigger] mat.model()(k, col as int).0 == 0,
                match found {
                    Some(r) => row <= r < n && mat.model()(r as int, col as int).0 != 0 && forall|k: int|
                        row <= k < r ==> #[trigger] mat.model()(k, col as int).0 == 0,
                    None => true,
                },
            ensures
                match found {
                    Some(r) => row <= r < n && mat.model()(r as int, col as int).0 != 0 && forall|k: int|
                        row <= k < r ==> #[trigger] mat.model()(k, col as int).0 == 0,
                    None => forall|k: int| row <= k < n ==> #[trigger] mat.model()(k, col as int).0 == 0,
                },
            decreases n - i,
        {
            assert(row_wf(mat.rows@[i as int]@));
            if !mat.is_zero_at(i, col) {
                found = Some(i);
                break;
            }
            i = i + 1;
        }
        match found {
            None => {
                proof {
                    lemma_first_nz(cur.mat, col as int, row as int, n as int, n as int);
                }
                free.push(col);
                col = col + 1;
                proof {
                    assert(GaussState { mat: mat.model(), basic: basic@, free: free@, row: row as int, col: col as int }
                        =~= GaussState { mat: cur.mat, basic: cur.basic, free: cur.free.push((col - 1) as usize), row: cur.row, col: cur.col + 1 });
                }
            },
            Some(row_to_swap) => {
                proof {
                    lemma_first_nz(cur.mat, col as int, row as int, row_to_swap as int, n as int);
                }
                mat.swap_rows(row, row_to_swap);
                let ghost m1 = mat.model();
                let d = mat.get(row, col);
                assert(row_wf(mat.rows@[row as int]@));
                assert(d@ == m1(row as int, col as int));
                mat.divide_row(row, &d, ctr);
                let ghost m2 = mat.model();
                let mut i: usize = 0;
                while i < n
                    invariant
                        advanced(*old(ctr), *ctr),
                        mat.wf(),
                        mat.rows@.len() == n,
                        row < n,
                        i <= n,
                        col <= usize::MAX,
                        mat.model() == m_eliminate(m2, row as int, col as int, i as int),
                    decreases n - i,
                {
                    if i != row {
                        let coef = mat.get(i, col);
                        assert(mat.model()(i as int, col as int) == mat.entry(i as int, col));
                        assert(m_eliminate(m2, row as int, col as int, i as int)(i as int, col as int) == m2(i as int, col as int));
                        assert(coef@ == m2(i as int, col as int));
                        let ghost before = mat.model();
                        if !coef.is_zero() {
                            mat.subtract_row(row, i, &coef, ctr);
                        }
                        proof {
                            assert(mat.model() =~= m_eliminate(m2, row as int, col as int, i + 1));
                        }
                    } else {
                        proof {
                            assert(mat.model() =~= m_eliminate(m2, row as int, col as int, i + 1));
                        }
                    }
                    i = i + 1;
                }
                proof {
                    assert(m_eliminate(m2, row as int, col as int, n as int) =~= m_eliminate(m2, row as int, col as int, n as int));
                }
                basic.push(col);
                row = row + 1;
                col = col + 1;
                proof {
                    assert(GaussState { mat: mat.model(), basic: basic@, free: free@, row: row as int, col: col as int }
                        =~= GaussState { mat: m_eliminate(m2, cur.row, cur.col, n as int), basic: cur.basic.push(cur.col as usize), free: cur.free, row: cur.row + 1, col: cur.col + 1 });
                }
            },
        }
    }
    let ghost gend = GaussState { mat: mat.model(), basic: basic@, free: free@, row: row as int, col: col as int };
    assert(gend == g0);
    let ghost col0 = col;
    let mut j: usize = col;
    while j < m
        invariant
            advanced(*old(ctr), *ctr),
            col0 <= j <= m,
            basic@.len() + free@.len() == j,
            basic@.len() == row,
            row <= n,
            split_ok(basic@, free@, j as int),
            free_rest(free@, j as int, m as int) == free_rest(gend.free, col0 as int, m as int),
        decreases m - j,
    {
        free.push(j);
        j = j + 1;
    }
    let ghost ffinal = free@;
    assert(ffinal == free_rest(gend.free, col0 as int, m as int));
    let mut free_idx: HashMap<usize, usize> = HashMap::new();
    let mut k: usize = 0;
    while k < free.len()
        invariant
            advanced(*old(ctr), *ctr),
            k <= free@.len(),
            split_ok(basic@, free@, m as int),
            forall|c: usize| #[trigger] free_idx@.contains_key(c) ==> free_idx@[c] < k && free@[free_idx@[c] as int] == c,
            forall|q: int| 0 <= q < k ==> #[trigger] free_idx@.contains_key(free@[q]) && free_idx@[free@[q]] == q,
        decreases free@.len() - k,
    {
        free_idx.insert(free[k], k);
        k = k + 1;
    }
    let mut ans = SparseMat::new(basic.len());
    let mut i: usize = 0;
    while i < basic.len()
        invariant
            advanced(*old(ctr), *ctr),
            basic@.len() <= n,
            mat.wf(),
            mat.rows@.len() == n,
            ans.wf(),
            ans.rows@.len() == basic@.len(),
            i <= basic@.len(),
            free@ == ffinal,
            split_ok(basic@, free@, m as int),
            forall|c: usize| #[trigger] free_idx@.contains_key(c) ==> free_idx@[c] < free@.len() && free@[free_idx@[c] as int] == c,
            forall|q: int| 0 <= q < free@.len() ==> #[trigger] free_idx@.contains_key(free@[q]) && free_idx@[free@[q]] == q,
            forall|r: int, p: usize|
                0 <= r < basic@.len() ==> #[trigger] ans.entry(r, p) == if r < i && p < free@.len() {
                    crate::rational::qneg(mat.model()(r, free@[p as int] as int))
                } else {
                    qzero()
                },
        decreases basic@.len() - i,
    {
        let keys = row_keys(&mat.rows[i]);
        assert(row_wf(mat.rows@[i as int]@));
        let mut t: usize = 0;
        while t < keys.len()
            invariant
                advanced(*old(ctr), *ctr),
                basic@.len() <= n,
                i < basic@.len(),
                mat.wf(),
                mat.rows@.len() == n,
                ans.wf(),
                ans.rows@.len() == basic@.len(),
                free@ == ffinal,
                split_ok(basic@, free@, m as int),
                t <= keys@.len(),
                keys@.no_duplicates(),
                forall|j: usize| #[trigger] mat.rows@[i as int]@.contains_key(j) <==> keys@.contains(j),
                forall|c: usize| #[trigger] free_idx@.contains_key(c) ==> free_idx@[c] < free@.len() && free@[free_idx@[c] as int] == c,
                forall|q: int| 0 <= q < free@.len() ==> #[trigger] free_idx@.contains_key(free@[q]) && free_idx@[free@[q]] == q,
                forall|r: int, p: usize|
                    0 <= r < basic@.len() ==> #[trigger] ans.entry(r, p) == if (r < i || (r == i && seen(keys@, t as int, free@[p as int]))) && p < free@.len() {
                        crate::rational::qneg(mat.model()(r, free@[p as int] as int))
                    } else {
                        qzero()
                    },
            decreases keys@.len() - t,
        {
            let j = keys[t];
            assert(!seen(keys@, t as int, j));
            if j != basic[i] {
                match free_idx.get(&j) {
                    Some(pos) => {
                        let v = mat.get(i, j);
                        let pos = *pos;
                        ans.set(i, pos, v.neg());
                    },
                    None => {},
                }
            }
            proof {
                assert forall|r: int, p: usize| 0 <= r < basic@.len() implies #[trigger] ans.entry(r, p) == if (r < i || (r == i && seen(keys@, t + 1, free@[p as int]))) && p < free@.len() {
                    crate::rational::qneg(mat.model()(r, free@[p as int] as int))
                } else {
                    qzero()
                } by {
                    if r == i && p < free@.len() && free@[p as int] == j {
                        assert(seen(keys@, t + 1, j));
                        assert(free_idx@.contains_key(j));
                        assert(free_idx@[j] == p);
                        if j == basic@[i as int] {
                            assert(false);
                        }
                    }
                    if r == i && p < free@.len() && free@[p as int] != j {
                        assert(seen(keys@, t + 1, free@[p as int]) == seen(keys@, t as int, free@[p as int]));
                    }
                }
            }
            t = t + 1;
        }
        proof {
            assert forall|p: usize| p < free@.len() && !seen(keys@, t as int, free@[p as int]) implies mat.model()(i as int, free@[p as int] as int) == qzero() by {
                if mat.rows@[i as int]@.contains_key(free@[p as int]) {
                    assert(keys@.contains(free@[p as int]));
                    let w = choose|w: int| 0 <= w < keys@.len() && keys@[w] == free@[p as int];
                    assert(seen(keys@, t as int, free@[p as int]));
                }
            }
            lemma_qzero_ops(qzero());
        }
        i = i + 1;
    }
    let t = Tableau { basic, free, mat: ans };
    proof {
        assert(t.mat.model() =~= read_tableau(gend.mat, gend.basic, ffinal).mat);
        assert(t.view() =~= read_tableau(gend.mat, gend.basic, ffinal));
    }
    t
}

/// Rows `[0, k)` other than `x` after the pivot's elimination step.
pub open spec fn pivot_rows(m: QMat, x: int, e: int, a: (int, int), k: int) -> QMat {
    |r: int, j: int|
        if 0 <= r < k && r != x {
            if j == e {
                qdiv(m(r, e), a)
            } else {
                qsub(m(r, j), qmul(m(x, j), qdiv(m(r, e), a)))
            }
        } else {
            m(r, j)
        }
}

impl SparseMat {
    /// Every entry of the model is a reduced fraction.
    pub proof fn lemma_model_wf(&self)
        requires
            self.wf(),
        ensures
            forall|i: int, j: int| qwf(#[trigger] self.model()(i, j)),
    {
        assert forall|i: int, j: int| qwf(#[trigger] self.model()(i, j)) by {
            crate::arith::lemma_gcd_one(0);
            if 0 <= i < self.rows@.len() && 0 <= j <= usize::MAX {
                assert(row_wf(self.rows@[i]@));
            }
        }
    }
}

/// `doPivotOperation`: exchange `basic[exit_idx]` and `free[enter_idx]`.
pub fn do_pivot(t: &mut Tableau, exit_idx: usize, enter_idx: usize, ctr: &mut CounterState)
    requires
        old(t).wf(),
        exit_idx < old(t).basic@.len(),
        enter_idx < old(t).free@.len(),
        old(t).mat.entry(exit_idx as int, enter_idx).0 != 0,
    ensures
        advanced(*old(ctr), *final(ctr)),
        final(t).wf(),
        final(t).basic@.len() == old(t).basic@.len(),
        final(t).free@.len() == old(t).free@.len(),
        final(t).basic@ == old(t).basic@.update(exit_idx as int, old(t).free@[enter_idx as int]),
        final(t).free@ == old(t).free@.update(enter_idx as int, old(t).basic@[exit_idx as int]),
        final(t).view() == pivot(old(t).view(), exit_idx as int, enter_idx as int),
{
    proof {
        lemma_advanced_refl(*ctr);
    }
    let ghost m0 = t.mat.model();
    let intersect = t.mat.get(exit_idx, enter_idx);
    let ghost a = intersect@;
    assert(a == m0(exit_idx as int, enter_idx as int));
    proof {
        t.mat.lemma_model_wf();
    }
    let n = t.basic.len();
    let mut i: usize = 0;
    while i < n
        invariant
            advanced(*old(ctr), *ctr),
            n == t.basic@.len(),
            t.basic@ == old(t).basic@,
            t.free@ == old(t).free@,
            t.wf(),
            exit_idx < n,
            intersect.wf(),
            intersect.num() != 0,
            a == intersect@,
            i <= n,
            forall|r: int, j: int| qwf(#[trigger] m0(r, j)),
            t.mat.model() == pivot_rows(m0, exit_idx as int, enter_idx as int, a, i as int),
        decreases n - i,
    {
        if i != exit_idx {
            let g = t.mat.get(i, enter_idx);
            assert(t.mat.model()(i as int, enter_idx as int) == t.mat.entry(i as int, enter_idx));
            assert(pivot_rows(m0, exit_idx as int, enter_idx as int, a, i as int)(i as int, enter_idx as int) == m0(i as int, enter_idx as int));
            assert(g@ == m0(i as int, enter_idx as int));
            let coef = g.div(&intersect, ctr);
            let ghost before = t.mat.model();
            if !coef.is_zero() {
                t.mat.subtract_row(exit_idx, i, &coef, ctr);
            } else {
                proof {
                    crate::rat::lemma_zero_is_canonical(coef);
                    assert forall|j: int| j != enter_idx as int implies #[trigger] m0(i as int, j)
                        == qsub(m0(i as int, j), qmul(m0(exit_idx as int, j), coef@)) by {
                        lemma_qnorm_id(m0(exit_idx as int, j));
                        lemma_qnorm_id(m0(i as int, j));
                    }
                }
            }
            t.mat.set(i, enter_idx, coef);
            proof {
                assert(t.mat.model() =~= pivot_rows(m0, exit_idx as int, enter_idx as int, a, i + 1));
            }
        } else {
            proof {
                assert(t.mat.model() =~= pivot_rows(m0, exit_idx as int, enter_idx as int, a, i + 1));
            }
        }
        i = i + 1;
    }
    let m1 = TRat::one().neg();
    proof {
        crate::rational::lemma_qint(-1, 0);
    }
    t.mat.set(exit_idx, enter_idx, m1);
    let neg_intersect = intersect.neg();
    t.mat.divide_row(exit_idx, &neg_intersect, ctr);
    let b = t.basic[exit_idx];
    let f = t.free[enter_idx];
    t.basic.set(exit_idx, f);
    t.free.set(enter_idx, b);
    proof {
        assert(t.mat.model() =~= pivot(old(t).view(), exit_idx as int, enter_idx as int).mat);
        assert(t.view() =~= pivot(old(t).view(), exit_idx as int, enter_idx as int));
    }
}

/// `checkSuccess`: objective positive and every basic value (the last
/// column, the coefficient of the unit `y`) nonnegative.
pub fn check_success(t: &Tableau) -> (r: bool)
    requires
        t.wf(),
        t.free@.len() >= 1,
        t.basic@.len() >= 1,
    ensures
        r == (t.mat.entry(0, (t.free@.len() - 1) as usize).0 > 0 && forall|i: int|
            0 <= i < t.basic@.len() ==> #[trigger] t.mat.entry(i, (t.free@.len() - 1) as usize).0 >= 0),
        r == success(t.view()),
{
    let last = t.free.len() - 1;
    proof {
        let v = t.view();
        assert((v.mat)(0, last as int) == t.mat.entry(0, last));
        assert forall|i: int| 0 <= i < t.basic@.len() implies (#[trigger] (v.mat)(i, last as int)) == t.mat.entry(i, last) by {}
        assert(success(v) == (t.mat.entry(0, last).0 > 0 && forall|i: int|
            0 <= i < t.basic@.len() ==> #[trigger] t.mat.entry(i, last).0 >= 0)) by {
            if success(v) {
                assert forall|i: int| 0 <= i < t.basic@.len() implies #[trigger] t.mat.entry(i, last).0 >= 0 by {
                    assert((v.mat)(i, last as int).0 >= 0);
                }
            }
            if forall|i: int| 0 <= i < t.basic@.len() ==> #[trigger] t.mat.entry(i, last).0 >= 0 {
                assert forall|i: int| 0 <= i < v.basic.len() implies #[trigger] (v.mat)(i, last as int).0 >= 0 by {
                    assert(t.mat.entry(i, last).0 >= 0);
                }
            }
        }
    }
    if !t.mat.get(0, last).is_positive() {
        return false;
    }
    let mut i: usize = 0;
    while i < t.basic.len()
        invariant
            t.wf(),
            last == t.free@.len() - 1,
            forall|k: int| 0 <= k < i ==> #[trigger] t.mat.entry(k, last).0 >= 0,
            success(t.view()) == (t.mat.entry(0, last).0 > 0 && forall|k: int|
                0 <= k < t.basic@.len() ==> #[trigger] t.mat.entry(k, last).0 >= 0),
        decreases t.basic@.len() - i,
    {
        if t.mat.get(i, last).is_negative() {
            assert(t.mat.entry(i as int, (t.free@.len() - 1) as usize).0 < 0);
            return false;
        }
        i = i + 1;
    }
    true
}

/// `chooseEnteringVar` (Bland): among the free columns other than the last
/// (`y`) with a positive objective coefficient, the one with the smallest
/// variable index.  `None` means the LP is infeasible.
pub fn choose_entering(t: &Tableau) -> (r: Option<usize>)
    requires
        t.wf(),
        t.free@.len() >= 1,
        t.basic@.len() >= 1,
    ensures
        match r {
            Some(e) => {
                &&& e < t.free@.len() - 1
                &&& t.mat.entry(0, e).0 > 0
                &&& forall|i: int|
                    0 <= i < t.free@.len() - 1 && #[trigger] t.mat.entry(0, i as usize).0 > 0
                        ==> t.free@[e as int] <= t.free@[i]
                &&& entering(t.view()) == Some(e as int)
            },
            None => {
                &&& forall|i: int|
                    0 <= i < t.free@.len() - 1 ==> #[trigger] t.mat.entry(0, i as usize).0 <= 0
                &&& entering(t.view()) is None
            },
        },
{
    let mut enter: Option<usize> = None;
    let mut min_idx: usize = 0;
    let mut i: usize = 0;
    while i < t.free.len() - 1
        invariant
            t.wf(),
            t.free@.len() >= 1,
            t.basic@.len() >= 1,
            i <= t.free@.len() - 1,
            match enter {
                Some(e) => {
                    &&& e < i
                    &&& t.mat.entry(0, e).0 > 0
                    &&& min_idx == t.free@[e as int]
                    &&& forall|k: int|
                        0 <= k < i && #[trigger] t.mat.entry(0, k as usize).0 > 0 ==> min_idx
                            <= t.free@[k]
                },
                None => forall|k: int| 0 <= k < i ==> #[trigger] t.mat.entry(0, k as usize).0 <= 0,
            },
            enter_scan(t.view(), i as int, match enter { Some(e) => Some(e as int), None => None }) == entering(t.view()),
        decreases t.free@.len() - 1 - i,
    {
        let pos = t.mat.get(0, i).is_positive();
        assert((t.view().mat)(0, i as int) == t.mat.entry(0, i));
        if pos && (enter.is_none() || t.free[i] < min_idx) {
            enter = Some(i);
            min_idx = t.free[i];
        }
        i = i + 1;
    }
    enter
}

/// `chooseExitingVar`: among rows 1.. with a negative entry in the entering
/// column, the one with the smallest ratio, ties broken by the smallest basic
/// index (row 0, the objective, never exits).
pub fn choose_exiting(t: &Tableau, enter_idx: usize, ctr: &mut CounterState) -> (r: Option<usize>)
    requires
        t.wf(),
        t.free@.len() >= 1,
    ensures
        advanced(*old(ctr), *final(ctr)),
        match r {
            Some(x) => 1 <= x < t.basic@.len() && t.mat.entry(x as int, enter_idx).0 < 0 && exiting(
                t.view(),
                enter_idx as int,
            ) == Some(x as int),
            None => (forall|i: int|
                1 <= i < t.basic@.len() ==> #[trigger] t.mat.entry(i, enter_idx).0 >= 0) && exiting(
                t.view(),
                enter_idx as int,
            ) is None,
        },
{
    proof {
        lemma_advanced_refl(*ctr);
    }
    let last = t.free.len() - 1;
    let mut exit: Option<usize> = None;
    let mut min_coef = TRat::zero();
    let mut min_idx: usize = 0;
    let mut i: usize = 1;
    proof {
        crate::rational::lemma_qint(0, 0);
    }
    while i < t.basic.len()
        invariant
            advanced(*old(ctr), *ctr),
            t.wf(),
            last == t.free@.len() - 1,
            1 <= i,
            min_coef.wf(),
            match exit {
                Some(x) => 1 <= x < i && x < t.basic@.len() && t.mat.entry(x as int, enter_idx).0 < 0,
                None => forall|k: int| 1 <= k < i && k < t.basic@.len() ==> #[trigger] t.mat.entry(k, enter_idx).0 >= 0,
            },
            exit_scan(
                t.view(),
                enter_idx as int,
                i as int,
                match exit { Some(x) => Some(x as int), None => None },
                min_coef@,
                min_idx as int,
            ) == exiting(t.view(), enter_idx as int),
        decreases t.basic@.len() - i,
    {
        let a = t.mat.get(i, enter_idx);
        assert((t.view().mat)(i as int, enter_idx as int) == t.mat.entry(i as int, enter_idx));
        assert((t.view().mat)(i as int, last as int) == t.mat.entry(i as int, last));
        if a.is_negative() {
            let l = t.mat.get(i, last);
            let coef = l.neg().div(&a, ctr);
            let c = coef.compare(&min_coef);
            if exit.is_none() || c < 0 || (c == 0 && t.basic[i] < min_idx) {
                exit = Some(i);
                min_coef = coef;
                min_idx = t.basic[i];
            }
        }
        i = i + 1;
    }
    exit
}

/// The values of a sequence of big rationals.
pub open spec fn qs(s: Seq<BigRat>) -> Seq<(int, int)> {
    s.map_values(|v: BigRat| v.q())
}

pub open spec fn all_wf(s: Seq<BigRat>) -> bool {
    forall|i: int| 0 <= i < s.len() ==> (#[trigger] s[i]).wf()
}

/// Clear denominators with the lcm and keep the nonzero entries.
pub fn rationals_to_cert(vec: Vec<BigRat>) -> (r: Option<Vec<(usize, BigNum)>>)
    requires
        all_wf(vec@),
    ensures
        match r {
            None => scaled_cert(qs(vec@), lcm_fold(qs(vec@))).len() == 0,
            Some(c) => c@.len() > 0 && form_model(c@) == scaled_cert(qs(vec@), lcm_fold(qs(vec@))),
        },
{
    let ghost q = qs(vec@);
    proof {
        assert forall|i: int| 0 <= i < q.len() implies qwf(#[trigger] q[i]) by {
            assert(q[i] == vec@[i].q());
            assert(vec@[i].wf());
        }
        lemma_lcm_fold(q);
    }
    let mut den = BigNum::from_i64(1);
    let mut i: usize = 0;
    while i < vec.len()
        invariant
            all_wf(vec@),
            i <= vec@.len(),
            q == qs(vec@),
            den@ == lcm_fold(q.take(i as int)),
            den@ > 0,
        decreases vec@.len() - i,
    {
        let d = BigNum { neg: false, mag: vec[i].den.clone() };
        assert(d.mag@ =~= vec@[i as int].den@);
        assert(vec@[i as int].wf());
        proof {
            lemma_lcm(den@, d@);
            assert(q.take(i + 1).drop_last() =~= q.take(i as int));
            assert(q[i as int] == vec@[i as int].q());
        }
        den = lcm_of(&den, &d);
        i = i + 1;
    }
    assert(q.take(i as int) =~= q);
    let l = BigRat::from_integer(den);
    let ghost lv = lcm_fold(q);
    let mut cert: Vec<(usize, BigNum)> = Vec::new();
    let mut idx: usize = 0;
    while idx < vec.len()
        invariant
            all_wf(vec@),
            idx <= vec@.len(),
            l.num_v() == lv,
            l.den_v() == 1,
            q == qs(vec@),
            lv == lcm_fold(q),
            lv > 0,
            forall|i: int| 0 <= i < q.len() ==> lv % (#[trigger] q[i]).1 == 0,
            form_model(cert@) == scaled_cert(q.take(idx as int), lv),
        decreases vec@.len() - idx,
    {
        let v = &vec[idx];
        assert(v.wf());
        assert(q[idx as int] == v.q());
        let scaled = rat_mul(v, &l);
        let n = rat_to_integer(&scaled);
        proof {
            let d = v.den_v();
            let qt = lv / d;
            vstd::arithmetic::div_mod::lemma_fundamental_div_mod(lv, d);
            let x = v.num_v() * qt;
            assert(x * d == v.num_v() * lv) by (nonlinear_arith)
                requires
                    lv == d * qt,
                    x == v.num_v() * qt,
            ;
            assert(scaled.num_v() * d == x * d * scaled.den_v()) by (nonlinear_arith)
                requires
                    scaled.num_v() * (d * 1) == (v.num_v() * lv) * scaled.den_v(),
                    x * d == v.num_v() * lv,
            ;
            assert(scaled.num_v() == x * scaled.den_v()) by (nonlinear_arith)
                requires
                    scaled.num_v() * d == x * d * scaled.den_v(),
                    d > 0,
            ;
            crate::arith::lemma_exact_quotient(lv as nat, d as nat);
            assert(qt > 0);
            lemma_gcd_one(crate::arith::abs(x));
            lemma_reduced_unique(scaled.num_v(), scaled.den_v(), x, 1);
            assert(n@ == x);
            assert(q.take(idx + 1).drop_last() =~= q.take(idx as int));
            assert(q.take(idx + 1).last() == q[idx as int]);
        }
        if !n.is_zero() {
            proof {
                assert(v.num_v() != 0) by (nonlinear_arith)
                    requires
                        n@ == v.num_v() * (lv / v.den_v()),
                        n@ != 0,
                ;
            }
            let ghost prev = cert@;
            cert.push((idx, n));
            assert(cert@ == prev.push((idx, n)));
            assert(form_model(cert@) =~= form_model(prev).push((idx, n@)));
        } else {
            proof {
                assert(v.num_v() == 0) by (nonlinear_arith)
                    requires
                        n@ == v.num_v() * (lv / v.den_v()),
                        n@ == 0,
                        lv / v.den_v() > 0,
                ;
            }
        }
        idx = idx + 1;
    }
    assert(q.take(idx as int) =~= q);
    if cert.len() == 0 {
        None
    } else {
        Some(cert)
    }
}

/// Shape of a certificate over `m` hypotheses: nonempty, hypothesis indices
/// strictly increasing and in range, coefficients positive.
pub open spec fn cert_shape(m: int, c: Seq<(usize, BigNum)>) -> bool {
    &&& c.len() > 0
    &&& forall|k: int| 0 <= k < c.len() ==> (#[trigger] c[k]).0 < m && c[k].1@ > 0
    &&& forall|k: int, l: int| 0 <= k < l < c.len() ==> (#[trigger] c[k]).0 < (#[trigger] c[l]).0
}

pub fn zero_rat() -> (r: BigRat)
    ensures
        r.wf(),
        r.num_v() == 0,
{
    proof {
        crate::arith::lemma_gcd_zero_left(1);
    }
    BigRat::from_integer(BigNum::zero())
}

/// The certificate's model: index and integer value of each entry.
pub open spec fn opt_cert_view(r: Option<Vec<(usize, BigNum)>>) -> Option<Seq<(usize, int)>> {
    match r {
        Some(c) => Some(form_model(c@)),
        None => None,
    }
}

/// Run the simplex from the Gauss tableau; extract and postprocess.
fn produce_inner(hyps: &[Hyp], max_var: usize, ctr: &mut CounterState) -> (r: Option<
    Vec<(usize, BigNum)>,
>)
    requires
        atoms_within(hyps@, max_var),
        max_var + 3 <= usize::MAX,
        hyps@.len() + 3 <= usize::MAX,
    ensures
        advanced(*old(ctr), *final(ctr)),
        match r {
            Some(c) => cert_shape(hyps@.len() as int, c@),
            None => true,
        },
        opt_cert_view(r) == certificate(hyps_model(hyps@), max_var as int),
{
    proof {
        lemma_advanced_refl(*ctr);
    }
    let ghost hs = hyps_model(hyps@);
    let ghost mv = max_var as int;
    let m = hyps.len();
    if m == 0 {
        return None;
    }
    let b = state_lp(hyps, max_var, ctr);
    let mut t = gauss_tableau(b, max_var + 3, m + 3, ctr);
    let ghost t0 = t.view();
    assert(t0 == crate::simplex::gauss_tableau(crate::simplex::state_lp(hs, mv), mv + 3, m + 3));
    if t.basic.len() == 0 || t.free.len() == 0 {
        return None;
    }
    if t.basic[0] != 0 || t.free[t.free.len() - 1] != m + 2 {
        return None;
    }
    let ghost res = run(t0, 0xffff_ffff_ffff_ffffnat);
    // Bland's rule terminates; the budget only makes that bound explicit.
    let mut budget: u64 = 18446744073709551615;
    loop
        invariant
            advanced(*old(ctr), *ctr),
            t.wf(),
            t.free@.len() >= 1,
            t.basic@.len() >= 1,
            run(t.view(), budget as nat) == res,
            res is None ==> certificate(hyps_model(hyps@), max_var as int) is None,
        ensures
            t.wf(),
            t.free@.len() >= 1,
            t.basic@.len() >= 1,
            forall|i: int|
                0 <= i < t.basic@.len() ==> #[trigger] t.mat.entry(i, (t.free@.len() - 1) as usize).0
                    >= 0,
            res == Some(t.view()),
        decreases budget,
    {
        if check_success(&t) {
            break;
        }
        if budget == 0 {
            return None;
        }
        let ghost before = t.view();
        let ghost b0 = budget as nat;
        budget = budget - 1;
        let enter = match choose_entering(&t) {
            Some(e) => e,
            None => {
                assert(run(before, b0) is None);
                return None;
            },
        };
        let exit = match choose_exiting(&t, enter, ctr) {
            Some(x) => x,
            None => {
                assert(run(before, b0) is None);
                return None;
            },
        };
        do_pivot(&mut t, exit, enter, ctr);
        assert(t.view() == pivot(before, exit as int, enter as int));
    }
    let ghost tf = t.view();
    let last = t.free.len() - 1;
    let mut vec: Vec<BigRat> = Vec::new();
    let mut k: usize = 0;
    while k < m
        invariant
            advanced(*old(ctr), *ctr),
            k <= m,
            vec@.len() == k,
            all_wf(vec@),
            forall|j: int| 0 <= j < k ==> (#[trigger] vec@[j]).q() == qzero(),
        decreases m - k,
    {
        let z = zero_rat();
        proof {
            crate::bignum::lemma_bigrat_zero_canonical(z);
        }
        vec.push(z);
        k = k + 1;
    }
    proof {
        assert(qs(vec@) =~= extract(tf, m as int, 1));
    }
    let mut i: usize = 1;
    while i < t.basic.len()
        invariant
            advanced(*old(ctr), *ctr),
            t.wf(),
            tf == t.view(),
            last == t.free@.len() - 1,
            m == hyps@.len(),
            m + 3 <= usize::MAX,
            vec@.len() == m,
            all_wf(vec@),
            1 <= i <= t.basic@.len(),
            qs(vec@) == extract(tf, m as int, i as int),
            forall|i: int| 0 <= i < t.basic@.len() ==> #[trigger] t.mat.entry(i, last).0 >= 0,
        decreases t.basic@.len() - i,
    {
        let c = t.basic[i];
        let ghost prev = vec@;
        if 2 <= c && c < m + 2 {
            let v = t.mat.get(i, last);
            let q = v.to_bigrational();
            assert((tf.mat)(i as int, last as int) == t.mat.entry(i as int, last));
            vec.set(c - 2, q);
            assert forall|j: int| 0 <= j < vec@.len() implies (#[trigger] vec@[j]).wf() by {
                if j != c - 2 {
                    assert(vec@[j] == prev[j]);
                }
            }
            assert(qs(vec@) =~= qs(prev).update(c - 2, (tf.mat)(i as int, last as int)));
        }
        i = i + 1;
    }
    let ghost q = qs(vec@);
    proof {
        assert(q == extract(tf, m as int, tf.basic.len() as int));
        assert forall|j: int| 0 <= j < q.len() implies qwf(#[trigger] q[j]) && q[j].0 >= 0 by {
            assert(q[j] == vec@[j].q());
            assert(vec@[j].wf());
            lemma_extract_nonneg(tf, m as int, tf.basic.len() as int, j);
        }
        lemma_lcm_fold(q);
        lemma_scaled_cert_shape(q, lcm_fold(q));
    }
    let r = rationals_to_cert(vec);
    proof {
        if r is Some {
            let c = r->0;
            let sc = scaled_cert(q, lcm_fold(q));
            assert forall|k: int| 0 <= k < c@.len() implies (#[trigger] c@[k]).0 < m && c@[k].1@ > 0 by {
                assert(form_model(c@)[k] == sc[k]);
            }
            assert forall|k: int, l: int| 0 <= k < l < c@.len() implies (#[trigger] c@[k]).0 < (#[trigger] c@[l]).0 by {
                assert(form_model(c@)[k] == sc[k]);
                assert(form_model(c@)[l] == sc[l]);
            }
        }
    }
    r
}

/// The extracted coordinates are entries of the unit column of basic rows
/// (nonnegative in a successful tableau) or zero.
pub proof fn lemma_extract_nonneg(t: TabView, m: int, k: int, j: int)
    requires
        0 <= j < m,
        k <= t.basic.len(),
        forall|i: int| 0 <= i < t.basic.len() ==> (#[trigger] (t.mat)(i, t.free.len() - 1)).0 >= 0,
    ensures
        extract(t, m, k).len() == m,
        extract(t, m, k)[j].0 >= 0,
    decreases k,
{
    if k > 1 {
        lemma_extract_nonneg(t, m, k - 1, j);
        assert(((t.mat)(k - 1, t.free.len() - 1)).0 >= 0);
    }
}

/// Tiered-exact certificate search; folds the tier counters once per
/// instance.
pub fn produce_certificate_tiered(hyps: &[Hyp], max_var: usize, ctr: &mut CounterState) -> (r: Option<
    Vec<(usize, BigNum)>,
>)
    requires
        atoms_within(hyps@, max_var),
        max_var + 3 <= usize::MAX,
        hyps@.len() + 3 <= usize::MAX,
    ensures
        advanced(*old(ctr), *final(ctr)),
        match r {
            Some(c) => cert_shape(hyps@.len() as int, c@),
            None => true,
        },
        opt_cert_view(r) == certificate(hyps_model(hyps@), max_var as int),
        r matches Some(c) ==> refutes(hyps_model(hyps@), form_model(c@)),
        r is None && !budget_runs_out(hyps_model(hyps@), max_var as int) ==> !refutable(hyps_model(hyps@)),
        final(ctr).flushed.same_as(final(ctr).tls),
{
    proof {
        lemma_advanced_refl(*ctr);
    }
    proof {
        lemma_atoms_within(hyps@, max_var);
        lemma_certificate_refutes(hyps_model(hyps@), max_var as int);
        lemma_none_means_unrefutable(hyps_model(hyps@), max_var as int);
    }
    let r = produce_inner(hyps, max_var, ctr);
    ctr.flush_tls();
    r
}

} // verus!
