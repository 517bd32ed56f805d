//! Engine selection and per-row bookkeeping of the corpus benchmark.
use crate::bignum::{big_compare, BigNum};
use crate::counters::{advanced, lemma_advanced_refl, lemma_advanced_trans, CounterState};
use crate::hybrid::{
    some_strict, feasible_answer, produce_certificate_hybrid, supports_in_range, FpOutcome, Route,
};
use crate::oracle::produce_certificate;
use crate::simplex::certificate;
use crate::tiered::{cert_shape, opt_cert_view, produce_certificate_tiered};
use crate::types::{atoms_within, form_model, hyp_model, hyps_model, Hyp, Ineq, Instance};
use crate::verify::{lemma_valid_iff_refutes, valid_certificate, verify_cert};
use crate::completeness::{
    budget_runs_out, lemma_certificate_complete, lemma_none_means_unrefutable, refutable,
};
use vstd::prelude::*;

verus! {

broadcast use lemma_advanced_trans;

/// The exact oracle engines.
#[derive(Clone, Copy, PartialEq, Eq, Debug, Structural)]
pub enum Engine {
    /// BigRational simplex, the unchanged baseline.
    Faithful,
    /// The same algorithm over tiered i64/i128/BigRational rationals.
    Tiered,
    /// FP64 basis identification + exact repair, falling back to `Tiered`.
    Hybrid,
}

/// The engine's name on the command line and in reports.
pub open spec fn engine_name(e: Engine) -> Seq<char> {
    match e {
        Engine::Faithful => "faithful"@,
        Engine::Tiered => "tiered"@,
        Engine::Hybrid => "hybrid"@,
    }
}

impl Engine {
    /// The engine's name on the command line and in reports.
    pub fn name(self) -> (r: &'static str)
        ensures
            r@ == engine_name(self),
    {
        match self {
            Engine::Faithful => "faithful",
            Engine::Tiered => "tiered",
            Engine::Hybrid => "hybrid",
        }
    }
}

/// Size bucket of a row by its number of nonzeros.
pub open spec fn bucket_text(nnz: usize) -> Seq<char> {
    if nnz < 100 {
        "nnz < 100"@
    } else if nnz <= 1000 {
        "nnz 100-1k"@
    } else {
        "nnz > 1k"@
    }
}

/// Size bucket of a row by its number of nonzeros.
pub fn bucket_name(nnz: usize) -> (r: &'static str)
    ensures
        r@ == bucket_text(nnz),
{
    if nnz < 100 {
        "nnz < 100"
    } else if nnz <= 1000 {
        "nnz 100-1k"
    } else {
        "nnz > 1k"
    }
}

/// Run one engine on one instance; `fp` is what the hybrid engine's
/// floating-point phase found for it (unused by the other engines).
pub fn solve(engine: Engine, inst: &Instance, fp: FpOutcome, ctr: &mut CounterState) -> (r: (
    Option<Vec<(usize, BigNum)>>,
    Option<Route>,
))
    requires
        atoms_within(inst.hyps@, inst.max_var),
        inst.max_var + 3 <= usize::MAX,
        inst.hyps@.len() + 3 <= usize::MAX,
        fp matches FpOutcome::Feasible(sups) ==> supports_in_range(inst.hyps@, sups@)
            && sups@.len() <= u32::MAX,
    ensures
        advanced(*old(ctr), *final(ctr)),
        (engine is Hybrid) == (r.1 is Some),
        r.1 matches Some(Route::Fp { .. }) ==> r.0 is Some && valid_certificate(
            inst.hyps@,
            r.0->0@,
        ),
        r.0 matches Some(c) ==> (r.1 matches Some(Route::Fp { .. }) || cert_shape(
            inst.hyps@.len() as int,
            c@,
        )),
        !(r.1 matches Some(Route::Fp { .. })) ==> opt_cert_view(r.0) == certificate(
            hyps_model(inst.hyps@),
            inst.max_var as int,
        ),
        r.1 matches Some(route) ==> !some_strict(inst.hyps@) ==> route == Route::TieredDirect,
        r.1 matches Some(route) ==> some_strict(inst.hyps@) ==> match fp {
            FpOutcome::Unrepresentable => route == Route::TieredDirect,
            FpOutcome::Infeasible => route == Route::TieredFpInfeasible,
            FpOutcome::Stalled => route == Route::TieredFpStalled,
            FpOutcome::Feasible(sups) => feasible_answer(hyps_model(inst.hyps@), sups@, r.0, route),
        },
        r.0 matches Some(c) ==> valid_certificate(inst.hyps@, c@),
        r.0 is None && !budget_runs_out(hyps_model(inst.hyps@), inst.max_var as int) ==> !refutable(
            hyps_model(inst.hyps@),
        ),
{
    proof {
        lemma_advanced_refl(*ctr);
    }
    let res = match engine {
        Engine::Faithful => (produce_certificate(inst.hyps.as_slice(), inst.max_var), None),
        Engine::Tiered => (
            produce_certificate_tiered(inst.hyps.as_slice(), inst.max_var, ctr),
            None,
        ),
        Engine::Hybrid => {
            let (c, route) = produce_certificate_hybrid(inst.hyps.as_slice(), inst.max_var, fp, ctr);
            (c, Some(route))
        },
    };
    proof {
        if res.0 is Some {
            lemma_valid_iff_refutes(inst.hyps@, res.0->0@);
        }
        lemma_none_means_unrefutable(hyps_model(inst.hyps@), inst.max_var as int);
    }
    res
}

/// The engines agree: whatever `solve` returns for an instance with the
/// faithful engine, with the tiered engine, and with the hybrid engine on
/// any route but the floating-point one, is the same certificate (or the
/// same "none"); and short of running out of pivots, every engine, the
/// hybrid one on any route included, finds a certificate exactly when the
/// faithful one does, so "none" never comes from floating-point evidence.
pub proof fn lemma_engines_agree(
    inst: Instance,
    faithful: Option<Vec<(usize, BigNum)>>,
    other: Option<Vec<(usize, BigNum)>>,
    route: Option<Route>,
)
    requires
        inst.hyps@.len() + 3 <= usize::MAX,
        opt_cert_view(faithful) == certificate(hyps_model(inst.hyps@), inst.max_var as int),
        !(route matches Some(Route::Fp { .. })) ==> opt_cert_view(other) == certificate(
            hyps_model(inst.hyps@),
            inst.max_var as int,
        ),
        route matches Some(Route::Fp { .. }) ==> other is Some,
        other matches Some(c) ==> valid_certificate(inst.hyps@, c@),
    ensures
        !(route matches Some(Route::Fp { .. })) ==> opt_cert_view(faithful) == opt_cert_view(other),
        !budget_runs_out(hyps_model(inst.hyps@), inst.max_var as int) ==> (faithful is Some <==> other is Some),
{
    let hs = hyps_model(inst.hyps@);
    let mv = inst.max_var as int;
    if other is Some && !budget_runs_out(hs, mv) {
        let c = other->0;
        lemma_valid_iff_refutes(inst.hyps@, c@);
        lemma_certificate_complete(hs, mv, form_model(c@));
    }
}

/// Whether an engine produced a certificate, and whether its answer passes
/// the self-check (no certificate, or one the exact verifier accepts).
pub fn self_check(hyps: &[Hyp], cert: &Option<Vec<(usize, BigNum)>>) -> (r: (bool, bool))
    ensures
        r == (match cert {
            Some(c) => (valid_certificate(hyps@, c@), valid_certificate(hyps@, c@)),
            None => (false, true),
        }),
{
    match cert {
        Some(c) => {
            let v = verify_cert(hyps, c.as_slice());
            (v, v)
        },
        None => (false, true),
    }
}

/// The problem a row poses: `maxVar` and the hypotheses.
pub open spec fn problem_key(i: Instance) -> (usize, Seq<(Ineq, Seq<(usize, int)>)>) {
    (i.max_var, hyps_model(i.hyps@))
}

/// The distinct problems among rows whose corpus label has no certificate.
pub open spec fn infeasible_keys(insts: Seq<Instance>) -> Set<
    (usize, Seq<(Ineq, Seq<(usize, int)>)>),
> {
    Set::new(
        |k: (usize, Seq<(Ineq, Seq<(usize, int)>)>)|
            exists|i: int| 0 <= i < insts.len() && !insts[i].ok && #[trigger] problem_key(insts[i]) == k,
    )
}

fn same_form(a: &Vec<(usize, BigNum)>, b: &Vec<(usize, BigNum)>) -> (r: bool)
    ensures
        r == (form_model(a@) == form_model(b@)),
{
    if a.len() != b.len() {
        assert(form_model(a@).len() != form_model(b@).len());
        return false;
    }
    let mut k: usize = 0;
    while k < a.len()
        invariant
            a@.len() == b@.len(),
            k <= a@.len(),
            forall|t: int| 0 <= t < k ==> #[trigger] form_model(a@)[t] == form_model(b@)[t],
        decreases a@.len() - k,
    {
        assert(form_model(a@)[k as int] == (a@[k as int].0, a@[k as int].1@));
        assert(form_model(b@)[k as int] == (b@[k as int].0, b@[k as int].1@));
        if a[k].0 != b[k].0 || big_compare(&a[k].1, &b[k].1) != 0 {
            return false;
        }
        k = k + 1;
    }
    assert(form_model(a@) =~= form_model(b@));
    true
}

/// Whether two rows pose the same problem.
fn same_problem(a: &Instance, b: &Instance) -> (r: bool)
    ensures
        r == (problem_key(*a) == problem_key(*b)),
{
    if a.max_var != b.max_var {
        return false;
    }
    if a.hyps.len() != b.hyps.len() {
        assert(hyps_model(a.hyps@).len() != hyps_model(b.hyps@).len());
        return false;
    }
    let mut k: usize = 0;
    while k < a.hyps.len()
        invariant
            a.hyps@.len() == b.hyps@.len(),
            k <= a.hyps@.len(),
            forall|t: int|
                0 <= t < k ==> #[trigger] hyps_model(a.hyps@)[t] == hyps_model(b.hyps@)[t],
        decreases a.hyps@.len() - k,
    {
        assert(hyps_model(a.hyps@)[k as int] == hyp_model(a.hyps@[k as int]));
        assert(hyps_model(b.hyps@)[k as int] == hyp_model(b.hyps@[k as int]));
        if a.hyps[k].ineq != b.hyps[k].ineq || !same_form(&a.hyps[k].coeffs, &b.hyps[k].coeffs) {
            return false;
        }
        k = k + 1;
    }
    assert(hyps_model(a.hyps@) =~= hyps_model(b.hyps@));
    true
}

/// Number of distinct problems (`maxVar` and hypotheses) among the rows
/// whose corpus label has no certificate.
pub fn unique_infeasible(insts: &[Instance]) -> (r: usize)
    ensures
        r == infeasible_keys(insts@).len(),
{
    let mut reps: Vec<usize> = Vec::new();
    let ghost mut keys: Seq<(usize, Seq<(Ineq, Seq<(usize, int)>)>)> = Seq::empty();
    let mut i: usize = 0;
    while i < insts.len()
        invariant
            i <= insts@.len(),
            keys.len() == reps@.len(),
            forall|t: int| 0 <= t < reps@.len() ==> #[trigger] reps@[t] < insts@.len(),
            forall|t: int| 0 <= t < reps@.len() ==> #[trigger] keys[t] == problem_key(insts@[reps@[t] as int]),
            keys.no_duplicates(),
            keys.to_set() =~= infeasible_keys(insts@.take(i as int)),
        decreases insts@.len() - i,
    {
        let ghost before = insts@.take(i as int);
        assert(insts@.take(i + 1) =~= before.push(insts@[i as int]));
        if !insts[i].ok {
            let mut found = false;
            let mut j: usize = 0;
            while j < reps.len()
                invariant
                    i < insts@.len(),
                    j <= reps@.len(),
                    keys.len() == reps@.len(),
                    forall|t: int| 0 <= t < reps@.len() ==> #[trigger] reps@[t] < insts@.len(),
                    forall|t: int|
                        0 <= t < reps@.len() ==> #[trigger] keys[t] == problem_key(insts@[reps@[t] as int]),
                    found == (exists|t: int| 0 <= t < j && #[trigger] keys[t] == problem_key(insts@[i as int])),
                decreases reps@.len() - j,
            {
                let same = same_problem(&insts[reps[j]], &insts[i]);
                assert(keys[j as int] == problem_key(insts@[reps@[j as int] as int]));
                if same {
                    found = true;
                }
                j = j + 1;
            }
            if found {
                proof {
                let t = choose|t: int| 0 <= t < keys.len() && #[trigger] keys[t] == problem_key(insts@[i as int]);
                assert forall|k| infeasible_keys(insts@.take(i + 1)).contains(k) implies #[trigger] keys.to_set().contains(k) by {
                    if k == problem_key(insts@[i as int]) {
                        assert(keys.contains(k));
                    } else {
                        let w = choose|w: int| 0 <= w < insts@.take(i + 1).len() && !insts@.take(i + 1)[w].ok && #[trigger] problem_key(insts@.take(i + 1)[w]) == k;
                        assert(before[w] == insts@.take(i + 1)[w]);
                        assert(infeasible_keys(before).contains(k));
                    }
                }
                assert forall|k| #[trigger] keys.to_set().contains(k) implies infeasible_keys(insts@.take(i + 1)).contains(k) by {
                    assert(infeasible_keys(before).contains(k));
                    let w = choose|w: int| 0 <= w < before.len() && !before[w].ok && #[trigger] problem_key(before[w]) == k;
                    assert(insts@.take(i + 1)[w] == before[w]);
                }
                }
            } else {
                let ghost newk = problem_key(insts@[i as int]);
                reps.push(i);
                proof {
                    let old_keys = keys;
                    keys = keys.push(newk);
                    assert forall|a: int, b: int| 0 <= a < keys.len() && 0 <= b < keys.len() && a != b implies keys[a] != keys[b] by {
                        if a == keys.len() - 1 {
                            assert(keys[b] == old_keys[b]);
                        } else if b == keys.len() - 1 {
                            assert(keys[a] == old_keys[a]);
                        }
                    }
                    assert forall|k| infeasible_keys(insts@.take(i + 1)).contains(k) implies #[trigger] keys.to_set().contains(k) by {
                        if k == newk {
                            assert(keys[keys.len() - 1] == k);
                        } else {
                            let w = choose|w: int| 0 <= w < insts@.take(i + 1).len() && !insts@.take(i + 1)[w].ok && #[trigger] problem_key(insts@.take(i + 1)[w]) == k;
                            assert(before[w] == insts@.take(i + 1)[w]);
                            assert(infeasible_keys(before).contains(k));
                            assert(old_keys.contains(k));
                            let q = choose|q: int| 0 <= q < old_keys.len() && old_keys[q] == k;
                            assert(keys[q] == k);
                        }
                    }
                    assert forall|k| #[trigger] keys.to_set().contains(k) implies infeasible_keys(insts@.take(i + 1)).contains(k) by {
                        let q = choose|q: int| 0 <= q < keys.len() && keys[q] == k;
                        if q == keys.len() - 1 {
                            assert(insts@.take(i + 1)[i as int] == insts@[i as int]);
                        } else {
                            assert(old_keys[q] == k);
                            assert(old_keys.to_set().contains(k));
                            let w = choose|w: int| 0 <= w < before.len() && !before[w].ok && #[trigger] problem_key(before[w]) == k;
                            assert(insts@.take(i + 1)[w] == before[w]);
                        }
                    }
                }
            }
        } else {
            assert forall|k| infeasible_keys(insts@.take(i + 1)).contains(k) implies #[trigger] infeasible_keys(before).contains(k) by {
                let w = choose|w: int| 0 <= w < insts@.take(i + 1).len() && !insts@.take(i + 1)[w].ok && #[trigger] problem_key(insts@.take(i + 1)[w]) == k;
                assert(w < i);
                assert(before[w] == insts@.take(i + 1)[w]);
            }
            assert forall|k| #[trigger] infeasible_keys(before).contains(k) implies infeasible_keys(insts@.take(i + 1)).contains(k) by {
                let w = choose|w: int| 0 <= w < before.len() && !before[w].ok && #[trigger] problem_key(before[w]) == k;
                assert(insts@.take(i + 1)[w] == before[w]);
            }
        }
        i = i + 1;
    }
    assert(insts@.take(i as int) =~= insts@);
    proof {
        keys.unique_seq_to_set();
    }
    reps.len()
}


/// One corpus row's outcome under one engine: the row's source and call,
/// its size, the recorded and measured times, the corpus label, whether the
/// engine produced a certificate, the self-check, and the hybrid route.
pub struct RowResult {
    pub src: String,
    pub call: u64,
    pub nnz: usize,
    pub corpus_ns: u128,
    pub native_ns: u128,
    pub corpus_ok: bool,
    pub native_ok: bool,
    pub self_check_ok: bool,
    pub route: Option<Route>,
}

/// Number of rows satisfying `p`.
pub open spec fn count_where(rows: Seq<RowResult>, p: spec_fn(RowResult) -> bool) -> nat
    decreases rows.len(),
{
    if rows.len() == 0 {
        0
    } else {
        count_where(rows.drop_last(), p) + if p(rows.last()) {
            1nat
        } else {
            0nat
        }
    }
}

/// The engine's answer matches the corpus label.
pub open spec fn agrees(r: RowResult) -> bool {
    r.corpus_ok == r.native_ok
}

/// Rows whose engine answer matches the corpus label.
pub fn label_agreement(rows: &[RowResult]) -> (r: usize)
    ensures
        r == count_where(rows@, |x: RowResult| agrees(x)),
{
    let mut k: usize = 0;
    let mut i: usize = 0;
    while i < rows.len()
        invariant
            i <= rows@.len(),
            k <= i,
            k == count_where(rows@.take(i as int), |x: RowResult| agrees(x)),
        decreases rows@.len() - i,
    {
        assert(rows@.take(i + 1).drop_last() =~= rows@.take(i as int));
        if rows[i].corpus_ok == rows[i].native_ok {
            k = k + 1;
        }
        i = i + 1;
    }
    assert(rows@.take(i as int) =~= rows@);
    k
}

/// Rows for which the engine produced a certificate.
pub fn native_certs(rows: &[RowResult]) -> (r: usize)
    ensures
        r == count_where(rows@, |x: RowResult| x.native_ok),
{
    let mut k: usize = 0;
    let mut i: usize = 0;
    while i < rows.len()
        invariant
            i <= rows@.len(),
            k <= i,
            k == count_where(rows@.take(i as int), |x: RowResult| x.native_ok),
        decreases rows@.len() - i,
    {
        assert(rows@.take(i + 1).drop_last() =~= rows@.take(i as int));
        if rows[i].native_ok {
            k = k + 1;
        }
        i = i + 1;
    }
    assert(rows@.take(i as int) =~= rows@);
    k
}

/// Rows whose corpus label records a certificate.
pub fn corpus_certs(rows: &[RowResult]) -> (r: usize)
    ensures
        r == count_where(rows@, |x: RowResult| x.corpus_ok),
{
    let mut k: usize = 0;
    let mut i: usize = 0;
    while i < rows.len()
        invariant
            i <= rows@.len(),
            k <= i,
            k == count_where(rows@.take(i as int), |x: RowResult| x.corpus_ok),
        decreases rows@.len() - i,
    {
        assert(rows@.take(i + 1).drop_last() =~= rows@.take(i as int));
        if rows[i].corpus_ok {
            k = k + 1;
        }
        i = i + 1;
    }
    assert(rows@.take(i as int) =~= rows@);
    k
}

/// Every certificate the engine produced passed the exact verifier.
pub fn certs_verified(rows: &[RowResult]) -> (r: bool)
    ensures
        r == forall|i: int| 0 <= i < rows@.len() && #[trigger] rows@[i].native_ok ==> rows@[i].self_check_ok,
{
    let mut i: usize = 0;
    while i < rows.len()
        invariant
            i <= rows@.len(),
            forall|j: int| 0 <= j < i && #[trigger] rows@[j].native_ok ==> rows@[j].self_check_ok,
        decreases rows@.len() - i,
    {
        if rows[i].native_ok && !rows[i].self_check_ok {
            return false;
        }
        i = i + 1;
    }
    true
}

/// Size bucket of a row: 0 below 100 nonzeros, 1 up to 1000, 2 above.
pub open spec fn bucket_of(nnz: usize) -> int {
    if nnz < 100 {
        0
    } else if nnz <= 1000 {
        1
    } else {
        2
    }
}

/// The positions of the rows in size bucket `b`, in order.
pub fn bucket_rows(rows: &[RowResult], b: usize) -> (r: Vec<usize>)
    ensures
        forall|k: int| 0 <= k < r@.len() ==> #[trigger] r@[k] < rows@.len() && bucket_of(rows@[r@[k] as int].nnz) == b,
        forall|k: int, l: int| 0 <= k < l < r@.len() ==> #[trigger] r@[k] < #[trigger] r@[l],
        forall|i: int| 0 <= i < rows@.len() && bucket_of(#[trigger] rows@[i].nnz) == b ==> r@.contains(i as usize),
{
    let mut out: Vec<usize> = Vec::new();
    let mut i: usize = 0;
    while i < rows.len()
        invariant
            i <= rows@.len(),
            forall|k: int| 0 <= k < out@.len() ==> #[trigger] out@[k] < i && bucket_of(rows@[out@[k] as int].nnz) == b,
            forall|k: int, l: int| 0 <= k < l < out@.len() ==> #[trigger] out@[k] < #[trigger] out@[l],
            forall|j: int| 0 <= j < i && bucket_of(#[trigger] rows@[j].nnz) == b ==> out@.contains(j as usize),
        decreases rows@.len() - i,
    {
        let nnz = rows[i].nnz;
        let bi: usize = if nnz < 100 {
            0
        } else if nnz <= 1000 {
            1
        } else {
            2
        };
        if bi == b {
            let ghost before = out@;
            out.push(i);
            proof {
                assert forall|j: int| 0 <= j < i + 1 && bucket_of(#[trigger] rows@[j].nnz) == b implies out@.contains(j as usize) by {
                    if j < i {
                        let w = choose|w: int| 0 <= w < before.len() && before[w] == j as usize;
                        assert(out@[w] == j as usize);
                    } else {
                        assert(out@[out@.len() - 1] == i);
                    }
                }
            }
        }
        i = i + 1;
    }
    out
}

/// A row the hybrid engine answered by falling back to the exact engine
/// after its floating-point phase produced a point or gave up.
pub open spec fn is_fallback_row(r: RowResult) -> bool {
    r.route matches Some(route) && (route is TieredRepairFail || route is TieredFpStalled)
}

/// How the hybrid engine answered the rows: floating-point certificates (and
/// among them how many needed 1, 2, 3 or more support attempts), direct
/// fallbacks, repair failures, stalls and infeasibility hints.
pub struct RouteTally {
    pub fp: usize,
    pub retries: [usize; 3],
    pub direct: usize,
    pub repair_fail: usize,
    pub stalled: usize,
    pub fp_infeasible: usize,
}

/// The attempt class of a floating-point certificate: 1, 2, or 3 and more
/// (an attempt count of 0 is counted with 1).
pub open spec fn attempt_class(attempts: u32) -> int {
    if attempts <= 1 {
        0
    } else if attempts == 2 {
        1
    } else {
        2
    }
}

/// Tally the routes of the hybrid engine's rows.
pub fn route_tally(rows: &[RowResult]) -> (t: RouteTally)
    requires
        forall|i: int| 0 <= i < rows@.len() ==> (#[trigger] rows@[i]).route is Some,
    ensures
        t.fp == count_where(rows@, |x: RowResult| x.route matches Some(Route::Fp { .. })),
        forall|c: int| 0 <= c < 3 ==> #[trigger] t.retries[c] == count_where(
            rows@,
            |x: RowResult| x.route matches Some(Route::Fp { attempts }) && attempt_class(attempts) == c,
        ),
        t.direct == count_where(rows@, |x: RowResult| x.route == Some(Route::TieredDirect)),
        t.repair_fail == count_where(rows@, |x: RowResult| x.route matches Some(Route::TieredRepairFail { .. })),
        t.stalled == count_where(rows@, |x: RowResult| x.route == Some(Route::TieredFpStalled)),
        t.fp_infeasible == count_where(rows@, |x: RowResult| x.route == Some(Route::TieredFpInfeasible)),
{
    let mut t = RouteTally { fp: 0, retries: [0, 0, 0], direct: 0, repair_fail: 0, stalled: 0, fp_infeasible: 0 };
    let mut i: usize = 0;
    while i < rows.len()
        invariant
            i <= rows@.len(),
            forall|j: int| 0 <= j < rows@.len() ==> (#[trigger] rows@[j]).route is Some,
            t.fp <= i,
            t.direct <= i,
            t.repair_fail <= i,
            t.stalled <= i,
            t.fp_infeasible <= i,
            forall|c: int| 0 <= c < 3 ==> #[trigger] t.retries[c] <= i,
            t.fp == count_where(rows@.take(i as int), |x: RowResult| x.route matches Some(Route::Fp { .. })),
            forall|c: int| 0 <= c < 3 ==> #[trigger] t.retries[c] == count_where(
                rows@.take(i as int),
                |x: RowResult| x.route matches Some(Route::Fp { attempts }) && attempt_class(attempts) == c,
            ),
            t.direct == count_where(rows@.take(i as int), |x: RowResult| x.route == Some(Route::TieredDirect)),
            t.repair_fail == count_where(
                rows@.take(i as int),
                |x: RowResult| x.route matches Some(Route::TieredRepairFail { .. }),
            ),
            t.stalled == count_where(rows@.take(i as int), |x: RowResult| x.route == Some(Route::TieredFpStalled)),
            t.fp_infeasible == count_where(
                rows@.take(i as int),
                |x: RowResult| x.route == Some(Route::TieredFpInfeasible),
            ),
        decreases rows@.len() - i,
    {
        assert(rows@.take(i + 1).drop_last() =~= rows@.take(i as int));
        assert(rows@.take(i + 1).last() == rows@[i as int]);
        assert(rows@[i as int].route is Some);
        match rows[i].route {
            Some(Route::Fp { attempts }) => {
                t.fp = t.fp + 1;
                let c: usize = if attempts <= 1 {
                    0
                } else if attempts == 2 {
                    1
                } else {
                    2
                };
                let mut r = t.retries;
                r[c] = r[c] + 1;
                t.retries = r;
            },
            Some(Route::TieredDirect) => {
                t.direct = t.direct + 1;
            },
            Some(Route::TieredRepairFail { .. }) => {
                t.repair_fail = t.repair_fail + 1;
            },
            Some(Route::TieredFpStalled) => {
                t.stalled = t.stalled + 1;
            },
            Some(Route::TieredFpInfeasible) => {
                t.fp_infeasible = t.fp_infeasible + 1;
            },
            None => {},
        }
        i = i + 1;
    }
    assert(rows@.take(i as int) =~= rows@);
    t
}

/// Fallback rows per size bucket.
pub fn fallback_buckets(rows: &[RowResult]) -> (r: [usize; 3])
    ensures
        forall|b: int| 0 <= b < 3 ==> #[trigger] r[b] == count_where(
            rows@,
            |x: RowResult| is_fallback_row(x) && bucket_of(x.nnz) == b,
        ),
{
    let mut r: [usize; 3] = [0, 0, 0];
    let mut i: usize = 0;
    while i < rows.len()
        invariant
            i <= rows@.len(),
            forall|b: int| 0 <= b < 3 ==> #[trigger] r[b] <= i,
            forall|b: int| 0 <= b < 3 ==> #[trigger] r[b] == count_where(
                rows@.take(i as int),
                |x: RowResult| is_fallback_row(x) && bucket_of(x.nnz) == b,
            ),
        decreases rows@.len() - i,
    {
        assert(rows@.take(i + 1).drop_last() =~= rows@.take(i as int));
        assert(rows@.take(i + 1).last() == rows@[i as int]);
        let fallback = match rows[i].route {
            Some(route) => route.is_fallback(),
            None => false,
        };
        if fallback {
            let nnz = rows[i].nnz;
            let b: usize = if nnz < 100 {
                0
            } else if nnz <= 1000 {
                1
            } else {
                2
            };
            r[b] = r[b] + 1;
        }
        i = i + 1;
    }
    assert(rows@.take(i as int) =~= rows@);
    r
}


/// `a` sorts before `b` in lexicographic order of characters.
pub open spec fn text_lt(a: Seq<char>, b: Seq<char>) -> bool
    decreases a.len(),
{
    if a.len() == 0 {
        b.len() > 0
    } else if b.len() == 0 {
        false
    } else if a[0] != b[0] {
        (a[0] as int) < (b[0] as int)
    } else {
        text_lt(a.drop_first(), b.drop_first())
    }
}

/// The order is strict and total on distinct texts.
pub proof fn lemma_text_order(a: Seq<char>, b: Seq<char>, c: Seq<char>)
    ensures
        !text_lt(a, a),
        a != b ==> text_lt(a, b) || text_lt(b, a),
        !(text_lt(a, b) && text_lt(b, a)),
        text_lt(a, b) && text_lt(b, c) ==> text_lt(a, c),
    decreases a.len(),
{
    if a.len() > 0 && b.len() > 0 && c.len() > 0 {
        lemma_text_order(a.drop_first(), b.drop_first(), c.drop_first());
        if a[0] == b[0] && a.drop_first() == b.drop_first() {
            assert(a =~= seq![a[0]] + a.drop_first());
            assert(b =~= seq![b[0]] + b.drop_first());
        }
    } else if a.len() > 0 && b.len() > 0 {
        lemma_text_order(a.drop_first(), b.drop_first(), b.drop_first());
        if a[0] == b[0] && a.drop_first() == b.drop_first() {
            assert(a =~= seq![a[0]] + a.drop_first());
            assert(b =~= seq![b[0]] + b.drop_first());
        }
    } else if a.len() > 0 {
        lemma_text_order(a.drop_first(), a.drop_first(), a.drop_first());
    } else if b.len() == 0 {
        assert(a =~= b);
    }
}

/// Skipping an equal prefix keeps the order.
proof fn lemma_text_lt_skip(a: Seq<char>, b: Seq<char>, i: int)
    requires
        0 <= i <= a.len(),
        i <= b.len(),
        a.take(i) == b.take(i),
    ensures
        text_lt(a, b) == text_lt(a.skip(i), b.skip(i)),
    decreases i,
{
    if i > 0 {
        assert(a[0] == a.take(i)[0]);
        assert(b[0] == b.take(i)[0]);
        assert(a.drop_first().take(i - 1) =~= a.take(i).drop_first());
        assert(b.drop_first().take(i - 1) =~= b.take(i).drop_first());
        lemma_text_lt_skip(a.drop_first(), b.drop_first(), i - 1);
        assert(a.drop_first().skip(i - 1) =~= a.skip(i));
        assert(b.drop_first().skip(i - 1) =~= b.skip(i));
    } else {
        assert(a.skip(0) =~= a);
        assert(b.skip(0) =~= b);
    }
}

/// Whether `a` sorts before `b`.
pub fn text_before(a: &str, b: &str) -> (r: bool)
    ensures
        r == text_lt(a@, b@),
{
    let la = a.unicode_len();
    let lb = b.unicode_len();
    let mut i: usize = 0;
    while i < la && i < lb
        invariant
            la == a@.len(),
            lb == b@.len(),
            i <= la,
            i <= lb,
            a@.take(i as int) == b@.take(i as int),
        decreases la - i,
    {
        let ca = a.get_char(i);
        let cb = b.get_char(i);
        if ca != cb {
            proof {
                lemma_text_lt_skip(a@, b@, i as int);
                assert(a@.skip(i as int)[0] == ca);
                assert(b@.skip(i as int)[0] == cb);
            }
            return (ca as u32) < (cb as u32);
        }
        assert(a@.take(i + 1) =~= a@.take(i as int).push(ca));
        assert(b@.take(i + 1) =~= b@.take(i as int).push(cb));
        i = i + 1;
    }
    proof {
        lemma_text_lt_skip(a@, b@, i as int);
    }
    la == i && lb > i
}

/// Whether two texts are equal.
pub fn same_text(a: &str, b: &str) -> (r: bool)
    ensures
        r == (a@ == b@),
{
    let la = a.unicode_len();
    let lb = b.unicode_len();
    if la != lb {
        return false;
    }
    let mut i: usize = 0;
    while i < la
        invariant
            la == a@.len(),
            lb == b@.len(),
            la == lb,
            i <= la,
            forall|k: int| 0 <= k < i ==> a@[k] == b@[k],
        decreases la - i,
    {
        if a.get_char(i) != b.get_char(i) {
            return false;
        }
        i = i + 1;
    }
    assert(a@ =~= b@);
    true
}

/// Ranking of (source, count) entries: more fallbacks first, ties by name.
pub open spec fn ranks_before(a: (Seq<char>, nat), b: (Seq<char>, nat)) -> bool {
    a.1 > b.1 || (a.1 == b.1 && text_lt(a.0, b.0))
}

/// The ranking is a strict order, total on distinct names.
pub proof fn lemma_rank_order(a: (Seq<char>, nat), b: (Seq<char>, nat), c: (Seq<char>, nat))
    ensures
        !ranks_before(a, a),
        a.0 != b.0 ==> ranks_before(a, b) || ranks_before(b, a),
        !(ranks_before(a, b) && ranks_before(b, a)),
        ranks_before(a, b) && ranks_before(b, c) ==> ranks_before(a, c),
{
    lemma_text_order(a.0, b.0, c.0);
    lemma_text_order(b.0, a.0, c.0);
}

/// Entry `q` of parallel name and count lists.
pub open spec fn entry_of(names: Seq<String>, counts: Seq<usize>, q: int) -> (Seq<char>, nat) {
    (names[q]@, counts[q] as nat)
}

/// The fallback rows from source `src`.
pub open spec fn fallbacks_from(rows: Seq<RowResult>, src: Seq<char>) -> nat {
    count_where(rows, |x: RowResult| is_fallback_row(x) && x.src@ == src)
}

/// Fallback rows per source file: each source with a fallback row once,
/// with its number of fallback rows, most first and ties by name.
pub fn fallback_sources(rows: &[RowResult]) -> (r: Vec<(String, usize)>)
    ensures
        forall|k: int|
            0 <= k < r@.len() ==> (#[trigger] r@[k]).1 == fallbacks_from(rows@, r@[k].0@) && r@[k].1 > 0,
        forall|i: int|
            0 <= i < rows@.len() && is_fallback_row(#[trigger] rows@[i]) ==> exists|k: int|
                0 <= k < r@.len() && (#[trigger] r@[k]).0@ == rows@[i].src@,
        forall|k: int, l: int|
            0 <= k < l < r@.len() ==> ranks_before(
                ((#[trigger] r@[k]).0@, r@[k].1 as nat),
                ((#[trigger] r@[l]).0@, r@[l].1 as nat),
            ),
{
    // Tally per source, in order of first appearance.
    let mut names: Vec<String> = Vec::new();
    let mut counts: Vec<usize> = Vec::new();
    let mut i: usize = 0;
    while i < rows.len()
        invariant
            i <= rows@.len(),
            names@.len() == counts@.len(),
            forall|k: int| 0 <= k < counts@.len() ==> #[trigger] counts@[k] <= i,
            forall|k: int|
                0 <= k < counts@.len() ==> #[trigger] counts@[k] == fallbacks_from(rows@.take(i as int), names@[k]@)
                    && counts@[k] > 0,
            forall|k: int, l: int| 0 <= k < l < names@.len() ==> (#[trigger] names@[k])@ != (#[trigger] names@[l])@,
            forall|j: int|
                0 <= j < i && is_fallback_row(#[trigger] rows@[j]) ==> exists|k: int|
                    0 <= k < names@.len() && (#[trigger] names@[k])@ == rows@[j].src@,
            forall|s: Seq<char>|
                (forall|k: int| 0 <= k < names@.len() ==> (#[trigger] names@[k])@ != s) ==> #[trigger] fallbacks_from(
                    rows@.take(i as int),
                    s,
                ) == 0,
        decreases rows@.len() - i,
    {
        let ghost pre = rows@.take(i as int);
        let ghost row = rows@[i as int];
        assert(rows@.take(i + 1).drop_last() =~= pre);
        assert(rows@.take(i + 1).last() == row);
        let ghost old_names = names@;
        let ghost old_counts = counts@;
        let fallback = match rows[i].route {
            Some(route) => route.is_fallback(),
            None => false,
        };
        assert(fallback == is_fallback_row(row));
        proof {
            assert forall|t: Seq<char>| #[trigger] fallbacks_from(rows@.take(i + 1), t) == fallbacks_from(pre, t) + (
            if is_fallback_row(row) && row.src@ == t {
                1nat
            } else {
                0nat
            }) by {}
        }
        if fallback {
            let mut found: Option<usize> = None;
            let mut k: usize = 0;
            while k < names.len()
                invariant
                    i < rows@.len(),
                    row == rows@[i as int],
                    k <= names@.len(),
                    match found {
                        Some(f) => f < names@.len() && names@[f as int]@ == row.src@,
                        None => forall|q: int| 0 <= q < k ==> (#[trigger] names@[q])@ != row.src@,
                    },
                ensures
                    match found {
                        Some(f) => f < names@.len() && names@[f as int]@ == row.src@,
                        None => forall|q: int| 0 <= q < names@.len() ==> (#[trigger] names@[q])@ != row.src@,
                    },
                decreases names@.len() - k,
            {
                if same_text(names[k].as_str(), rows[i].src.as_str()) {
                    found = Some(k);
                    break;
                }
                k = k + 1;
            }
            match found {
                Some(f) => {
                    let c = counts[f];
                    counts.set(f, c + 1);
                    proof {
                        assert forall|q: int| 0 <= q < counts@.len() && q != f implies (#[trigger] names@[q])@ != row.src@ by {
                            if q < f {
                                assert(names@[q]@ != names@[f as int]@);
                            } else {
                                assert(names@[f as int]@ != names@[q]@);
                            }
                        }
                    }
                },
                None => {
                    let name = rows[i].src.clone();
                    names.push(name);
                    counts.push(1);
                    proof {
                        assert(names@[names@.len() - 1]@ == row.src@);
                        assert forall|q: int| 0 <= q < old_names.len() implies (#[trigger] old_names[q])@ != row.src@ by {
                            assert(names@[q] == old_names[q]);
                        }
                        assert(fallbacks_from(pre, row.src@) == 0);
                    }
                },
            }
        }
        proof {
            assert forall|q: int| 0 <= q < old_names.len() implies names@[q] == #[trigger] old_names[q] by {}
        }
        i = i + 1;
    }
    assert(rows@.take(i as int) =~= rows@);
    // Rank by selection: repeatedly take the best remaining entry.
    let n = names.len();
    let mut rest: Vec<usize> = Vec::new();
    let mut q: usize = 0;
    while q < n
        invariant
            q <= n,
            rest@.len() == q,
            forall|p: int| 0 <= p < q ==> #[trigger] rest@[p] == p,
        decreases n - q,
    {
        rest.push(q);
        q = q + 1;
    }
    let mut out: Vec<(String, usize)> = Vec::new();
    proof {
        assert forall|a: int| 0 <= a < n implies #[trigger] rest@.contains(a as usize) by {
            assert(rest@[a] == a);
        }
        assert forall|a: int, b: int| 0 <= a < rest@.len() && 0 <= b < rest@.len() && a != b implies rest@[a] != rest@[b] by {
            assert(rest@[a] == a && rest@[b] == b);
        }
    }
    while rest.len() > 0
        invariant
            n == names@.len(),
            n == counts@.len(),
            forall|k: int| 0 <= k < n ==> #[trigger] counts@[k] == fallbacks_from(rows@, names@[k]@) && counts@[k] > 0,
            forall|k: int, l: int| 0 <= k < l < n ==> (#[trigger] names@[k])@ != (#[trigger] names@[l])@,
            forall|p: int| 0 <= p < rest@.len() ==> #[trigger] rest@[p] < n,
            rest@.no_duplicates(),
            forall|k: int|
                0 <= k < out@.len() ==> (#[trigger] out@[k]).1 == fallbacks_from(rows@, out@[k].0@) && out@[k].1 > 0,
            forall|a: int|
                0 <= a < n ==> rest@.contains(a as usize) || exists|k: int|
                    0 <= k < out@.len() && (#[trigger] out@[k]).0@ == (#[trigger] names@[a])@,
            forall|k: int, l: int|
                0 <= k < l < out@.len() ==> ranks_before(
                    ((#[trigger] out@[k]).0@, out@[k].1 as nat),
                    ((#[trigger] out@[l]).0@, out@[l].1 as nat),
                ),
            forall|k: int, p: int|
                0 <= k < out@.len() && 0 <= p < rest@.len() ==> ranks_before(
                    ((#[trigger] out@[k]).0@, out@[k].1 as nat),
                    entry_of(names@, counts@, #[trigger] rest@[p] as int),
                ),
        decreases rest@.len(),
    {
        let mut b: usize = 0;
        let mut j: usize = 1;
        while j < rest.len()
            invariant
                n == names@.len(),
                n == counts@.len(),
                forall|k: int, l: int| 0 <= k < l < n ==> (#[trigger] names@[k])@ != (#[trigger] names@[l])@,
                forall|p: int| 0 <= p < rest@.len() ==> #[trigger] rest@[p] < n,
                rest@.no_duplicates(),
                b < j <= rest@.len(),
                forall|p: int|
                    0 <= p < j && p != b ==> ranks_before(
                        entry_of(names@, counts@, rest@[b as int] as int),
                        entry_of(names@, counts@, #[trigger] rest@[p] as int),
                    ),
            decreases rest@.len() - j,
        {
            let c = rest[j];
            let cb = rest[b];
            let better = counts[c] > counts[cb] || (counts[c] == counts[cb] && text_before(
                names[c].as_str(),
                names[cb].as_str(),
            ));
            proof {
                let ec = entry_of(names@, counts@, c as int);
                let eb = entry_of(names@, counts@, cb as int);
                assert(better == ranks_before(ec, eb));
                assert(c != cb);
                if c < cb {
                    assert(names@[c as int]@ != names@[cb as int]@);
                } else {
                    assert(names@[cb as int]@ != names@[c as int]@);
                }
                lemma_rank_order(ec, eb, eb);
                assert forall|p: int|
                    0 <= p < j + 1 && p != (if better { j as int } else { b as int }) implies ranks_before(
                    entry_of(names@, counts@, rest@[if better { j as int } else { b as int }] as int),
                    entry_of(names@, counts@, #[trigger] rest@[p] as int),
                ) by {
                    let ep = entry_of(names@, counts@, rest@[p] as int);
                    lemma_rank_order(ec, eb, ep);
                }
            }
            if better {
                b = j;
            }
            j = j + 1;
        }
        let pick = rest[b];
        let ghost pe = entry_of(names@, counts@, pick as int);
        let ghost old_rest = rest@;
        let ghost old_out = out@;
        out.push((names[pick].clone(), counts[pick]));
        rest.remove(b);
        proof {
            assert(out@[out@.len() - 1].0@ == names@[pick as int]@);
            assert(out@[out@.len() - 1].1 == counts@[pick as int]);
            assert forall|k: int| 0 <= k < out@.len() implies (#[trigger] out@[k]).1 == fallbacks_from(rows@, out@[k].0@)
                && out@[k].1 > 0 by {
                if k < old_out.len() {
                    assert(out@[k] == old_out[k]);
                }
            }
            assert forall|p: int| 0 <= p < rest@.len() implies #[trigger] rest@[p] < n by {
                if p < b {
                    assert(rest@[p] == old_rest[p]);
                } else {
                    assert(rest@[p] == old_rest[p + 1]);
                }
            }
            assert forall|a: int| 0 <= a < n implies rest@.contains(a as usize) || exists|k: int|
                0 <= k < out@.len() && (#[trigger] out@[k]).0@ == (#[trigger] names@[a])@ by {
                if a as usize == pick {
                    assert(out@[out@.len() - 1].0@ == names@[a]@);
                } else if old_rest.contains(a as usize) {
                    let w = choose|w: int| 0 <= w < old_rest.len() && old_rest[w] == a as usize;
                    assert(w != b);
                    if w < b {
                        assert(rest@[w] == a as usize);
                    } else {
                        assert(rest@[w - 1] == a as usize);
                    }
                } else {
                    let k = choose|k: int| 0 <= k < old_out.len() && (#[trigger] old_out[k]).0@ == names@[a]@;
                    assert(out@[k] == old_out[k]);
                }
            }
            assert forall|k: int, l: int| 0 <= k < l < out@.len() implies ranks_before(
                ((#[trigger] out@[k]).0@, out@[k].1 as nat),
                ((#[trigger] out@[l]).0@, out@[l].1 as nat),
            ) by {
                assert(out@[k] == old_out[k]);
                if l < old_out.len() {
                    assert(out@[l] == old_out[l]);
                } else {
                    assert(old_rest[b as int] == pick);
                }
            }
            assert forall|k: int, p: int| 0 <= k < out@.len() && 0 <= p < rest@.len() implies ranks_before(
                ((#[trigger] out@[k]).0@, out@[k].1 as nat),
                entry_of(names@, counts@, #[trigger] rest@[p] as int),
            ) by {
                let w = if p < b { p } else { p + 1 };
                assert(rest@[p] == old_rest[w]);
                assert(w != b);
                if k < old_out.len() {
                    assert(out@[k] == old_out[k]);
                }
            }
        }
    }
    proof {
        assert forall|i: int|
            0 <= i < rows@.len() && is_fallback_row(#[trigger] rows@[i]) implies exists|k: int|
                0 <= k < out@.len() && (#[trigger] out@[k]).0@ == rows@[i].src@ by {
            let q = choose|q: int| 0 <= q < names@.len() && (#[trigger] names@[q])@ == rows@[i].src@;
            assert(!rest@.contains(q as usize));
        }
    }
    out
}

} // verus!
