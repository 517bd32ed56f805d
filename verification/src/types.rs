//! Problem types: a hypothesis is a comparison `t R 0` where `t` is a sparse
//! linear form over atom indices `0..=maxVar`; atom 0 is the constant term.
use crate::bignum::BigNum;
use crate::json::{
    as_bignum, as_bool, as_str, as_u64, as_usize, get_member, index, json_get, json_index, json_int,
    json_parse, json_str, json_bool, json_u64, json_usize, read_json, trim_text, trimmed, ends_with,
    has_prefix, has_suffix, starts_with, JsonNode, JsonView,
};
use vstd::prelude::*;

verus! {

/// Relation of a hypothesis `t R 0`.
#[derive(Clone, Copy, PartialEq, Eq, Debug, Structural)]
pub enum Ineq {
    Eq,
    Le,
    Lt,
}

/// One hypothesis: relation and sparse linear form (atom index, coefficient).
#[derive(Debug)]
pub struct Hyp {
    pub ineq: Ineq,
    pub coeffs: Vec<(usize, BigNum)>,
}

impl Clone for Hyp {
    fn clone(&self) -> (r: Hyp)
        ensures
            r.ineq == self.ineq,
            r.coeffs@.len() == self.coeffs@.len(),
            forall|i: int|
                0 <= i < self.coeffs@.len() ==> (#[trigger] r.coeffs@[i]).0 == self.coeffs@[i].0
                    && r.coeffs@[i].1@ == self.coeffs@[i].1@,
    {
        let mut cs: Vec<(usize, BigNum)> = Vec::new();
        let mut i: usize = 0;
        while i < self.coeffs.len()
            invariant
                i <= self.coeffs@.len(),
                cs@.len() == i,
                forall|j: int|
                    0 <= j < i ==> (#[trigger] cs@[j]).0 == self.coeffs@[j].0 && cs@[j].1@
                        == self.coeffs@[j].1@,
            decreases self.coeffs@.len() - i,
        {
            let (v, c) = &self.coeffs[i];
            cs.push((*v, c.clone()));
            i = i + 1;
        }
        Hyp { ineq: self.ineq, coeffs: cs }
    }
}

/// Total coefficient of atom `v` in a sparse form (repeated atoms add up).
pub open spec fn coeff_of(cs: Seq<(usize, BigNum)>, v: usize) -> int
    decreases cs.len(),
{
    if cs.len() == 0 {
        0
    } else {
        coeff_of(cs.drop_last(), v) + if cs.last().0 == v {
            cs.last().1@
        } else {
            0
        }
    }
}

/// Number of nonzeros over all hypotheses' linear forms.
pub open spec fn nnz_of(hyps: Seq<Hyp>) -> nat
    decreases hyps.len(),
{
    if hyps.len() == 0 {
        0
    } else {
        nnz_of(hyps.drop_last()) + hyps.last().coeffs@.len()
    }
}

/// Largest atom index mentioned in a sparse form is at most `max_var`.
pub open spec fn atoms_within(hyps: Seq<Hyp>, max_var: usize) -> bool {
    forall|i: int, k: int|
        0 <= i < hyps.len() && 0 <= k < hyps[i].coeffs@.len() ==> (#[trigger] hyps[i].coeffs@[k]).0
            <= max_var
}

/// One corpus oracle row.
#[derive(Debug)]
pub struct Instance {
    pub src: String,
    pub call: u64,
    pub max_var: usize,
    pub hyps: Vec<Hyp>,
    /// Mathlib (Lean interpreter) oracle time in nanoseconds.
    pub ns: u128,
    /// Did Mathlib's oracle find a certificate?
    pub ok: bool,
    /// Mathlib's certificate, if any: hypIdx -> positive coefficient.
    pub cert: Option<Vec<(usize, BigNum)>>,
}

impl Instance {
    /// Total number of nonzeros across all hypotheses' linear forms.
    pub fn nnz(&self) -> (r: usize)
        requires
            nnz_of(self.hyps@) <= usize::MAX,
        ensures
            r == nnz_of(self.hyps@),
    {
        let mut total: usize = 0;
        let mut i: usize = 0;
        while i < self.hyps.len()
            invariant
                i <= self.hyps@.len(),
                total == nnz_of(self.hyps@.take(i as int)),
                nnz_of(self.hyps@) <= usize::MAX,
            decreases self.hyps@.len() - i,
        {
            proof {
                lemma_nnz_prefix(self.hyps@, (i + 1) as int);
                assert(self.hyps@.take(i + 1).drop_last() =~= self.hyps@.take(i as int));
            }
            total = total + self.hyps[i].coeffs.len();
            i = i + 1;
        }
        assert(self.hyps@.take(i as int) =~= self.hyps@);
        total
    }
}

/// The nonzeros of hypotheses are the number of their (atom, coefficient)
/// pairs: a single hypothesis has as many as it has pairs, and the count of
/// two lists put together is the sum of their counts.
pub proof fn lemma_nnz_counts_pairs(a: Seq<Hyp>, b: Seq<Hyp>, h: Hyp)
    ensures
        nnz_of(seq![h]) == h.coeffs@.len(),
        nnz_of(a + b) == nnz_of(a) + nnz_of(b),
    decreases b.len(),
{
    assert(seq![h].drop_last() =~= Seq::<Hyp>::empty());
    assert(nnz_of(Seq::<Hyp>::empty()) == 0);
    assert(seq![h].last() == h);
    if b.len() == 0 {
        assert(a + b =~= a);
    } else {
        lemma_nnz_counts_pairs(a, b.drop_last(), h);
        assert((a + b).drop_last() =~= a + b.drop_last());
        assert((a + b).last() == b.last());
    }
}

/// A prefix has no more nonzeros than the whole.
pub proof fn lemma_nnz_prefix(hyps: Seq<Hyp>, k: int)
    requires
        0 <= k <= hyps.len(),
    ensures
        nnz_of(hyps.take(k)) <= nnz_of(hyps),
    decreases hyps.len(),
{
    if k < hyps.len() {
        assert(hyps.drop_last().take(k) =~= hyps.take(k));
        lemma_nnz_prefix(hyps.drop_last(), k);
    } else {
        assert(hyps.take(k) =~= hyps);
    }
}

/// Model of a sparse linear form: (atom index, integer coefficient).
pub open spec fn form_model(cs: Seq<(usize, BigNum)>) -> Seq<(usize, int)> {
    cs.map_values(|p: (usize, BigNum)| (p.0, p.1@))
}

/// Model of a hypothesis: relation and linear form.
pub open spec fn hyp_model(h: Hyp) -> (Ineq, Seq<(usize, int)>) {
    (h.ineq, form_model(h.coeffs@))
}

/// Model of a list of hypotheses.
pub open spec fn hyps_model(hs: Seq<Hyp>) -> Seq<(Ineq, Seq<(usize, int)>)> {
    hs.map_values(|h: Hyp| hyp_model(h))
}

/// One `[atomIdx, coeff]` pair; extra elements are ignored.
pub open spec fn spec_pair(t: Seq<char>) -> Option<(usize, int)> {
    match json_parse(t) {
        JsonView::Array(a) => if a.len() >= 2 {
            match (json_usize(json_parse(a[0])), json_int(json_parse(a[1]))) {
                (Some(i), Some(c)) => Some((i, c)),
                _ => None,
            }
        } else {
            None
        },
        _ => None,
    }
}

/// All pairs of a list, `None` as soon as one is malformed.
pub open spec fn spec_pairs(items: Seq<Seq<char>>) -> Option<Seq<(usize, int)>>
    decreases items.len(),
{
    if items.len() == 0 {
        Some(Seq::empty())
    } else {
        match (spec_pairs(items.drop_last()), spec_pair(items.last())) {
            (Some(ps), Some(p)) => Some(ps.push(p)),
            _ => None,
        }
    }
}

/// The relation named by a JSON string.
pub open spec fn spec_ineq(v: JsonView) -> Option<Ineq> {
    match v {
        JsonView::Str(s) => if s == "eq"@ {
            Some(Ineq::Eq)
        } else if s == "le"@ {
            Some(Ineq::Le)
        } else if s == "lt"@ {
            Some(Ineq::Lt)
        } else {
            None
        },
        _ => None,
    }
}

/// One hypothesis `[REL, [[atomIdx, coeff], ...]]`; extra elements are ignored.
pub open spec fn spec_hyp(t: Seq<char>) -> Option<(Ineq, Seq<(usize, int)>)> {
    match json_parse(t) {
        JsonView::Array(a) => if a.len() >= 2 {
            match (spec_ineq(json_parse(a[0])), json_parse(a[1])) {
                (Some(q), JsonView::Array(cs)) => match spec_pairs(cs) {
                    Some(ps) => Some((q, ps)),
                    None => None,
                },
                _ => None,
            }
        } else {
            None
        },
        _ => None,
    }
}

/// All hypotheses of a list, `None` as soon as one is malformed.
pub open spec fn spec_hyp_list(items: Seq<Seq<char>>) -> Option<Seq<(Ineq, Seq<(usize, int)>)>>
    decreases items.len(),
{
    if items.len() == 0 {
        Some(Seq::empty())
    } else {
        match (spec_hyp_list(items.drop_last()), spec_hyp(items.last())) {
            (Some(hs), Some(h)) => Some(hs.push(h)),
            _ => None,
        }
    }
}

/// The `hyps` array.
pub open spec fn spec_hyps(v: JsonView) -> Option<Seq<(Ineq, Seq<(usize, int)>)>> {
    match v {
        JsonView::Array(items) => spec_hyp_list(items),
        _ => None,
    }
}

/// A serve-mode request `{"maxVar":M,"hyps":[...]}` (surrounding whitespace ignored).
pub open spec fn spec_request(line: Seq<char>) -> Option<(usize, Seq<(Ineq, Seq<(usize, int)>)>)> {
    spec_request_json(json_parse(trimmed(line)))
}

/// A request read from its top-level JSON value.
pub open spec fn spec_request_json(v: JsonView) -> Option<(usize, Seq<(Ineq, Seq<(usize, int)>)>)> {
    match (json_get(v, "maxVar"@), json_get(v, "hyps"@)) {
        (Some(m), Some(h)) => match (json_usize(json_parse(m)), spec_hyps(json_parse(h))) {
            (Some(mv), Some(hs)) => Some((mv, hs)),
            _ => None,
        },
        _ => None,
    }
}

/// A parsed hypothesis list holds, at each position, the hypothesis written
/// at that position.
pub proof fn lemma_hyp_list_positions(items: Seq<Seq<char>>)
    requires
        spec_hyp_list(items) is Some,
    ensures
        spec_hyp_list(items)->0.len() == items.len(),
        forall|i: int| 0 <= i < items.len() ==> spec_hyp(#[trigger] items[i]) == Some(spec_hyp_list(items)->0[i]),
    decreases items.len(),
{
    if items.len() > 0 {
        let p = items.drop_last();
        lemma_hyp_list_positions(p);
        assert forall|i: int| 0 <= i < items.len() implies spec_hyp(#[trigger] items[i]) == Some(
            spec_hyp_list(items)->0[i],
        ) by {
            if i < items.len() - 1 {
                assert(items[i] == p[i]);
            }
        }
    }
}

/// The i-th hypothesis of a parsed request is the one written at position i
/// of the request's `hyps` array (so a certificate's `hypIdx` names it), and
/// `maxVar` is the request's `maxVar` member.
pub proof fn lemma_request_positions(v: JsonView)
    requires
        spec_request_json(v) is Some,
    ensures
        json_get(v, "maxVar"@) is Some,
        json_usize(json_parse(json_get(v, "maxVar"@)->0)) == Some((spec_request_json(v)->0).0),
        json_get(v, "hyps"@) is Some,
        json_parse(json_get(v, "hyps"@)->0) is Array,
        ({
            let items = json_parse(json_get(v, "hyps"@)->0)->Array_0;
            let hs = (spec_request_json(v)->0).1;
            &&& hs.len() == items.len()
            &&& forall|i: int| 0 <= i < items.len() ==> spec_hyp(#[trigger] items[i]) == Some(hs[i])
        }),
{
    let items = json_parse(json_get(v, "hyps"@)->0)->Array_0;
    lemma_hyp_list_positions(items);
}

/// The same for a request line: the hypotheses of `spec_request(line)` are
/// those of the line's `hyps` array, in their order.
pub proof fn lemma_request_line_positions(line: Seq<char>)
    requires
        spec_request(line) is Some,
    ensures
        ({
            let v = json_parse(trimmed(line));
            let items = json_parse(json_get(v, "hyps"@)->0)->Array_0;
            let hs = (spec_request(line)->0).1;
            &&& json_get(v, "hyps"@) is Some
            &&& json_parse(json_get(v, "hyps"@)->0) is Array
            &&& json_usize(json_parse(json_get(v, "maxVar"@)->0)) == Some((spec_request(line)->0).0)
            &&& hs.len() == items.len()
            &&& forall|i: int| 0 <= i < items.len() ==> spec_hyp(#[trigger] items[i]) == Some(hs[i])
        }),
{
    let v = json_parse(trimmed(line));
    let items = json_parse(json_get(v, "hyps"@)->0)->Array_0;
    assert(json_get(v, "hyps"@) is Some);
    lemma_hyp_list_positions(items);
}

/// Model of an optional parse result of pairs.
pub open spec fn opt_form_model(r: Option<Vec<(usize, BigNum)>>) -> Option<Seq<(usize, int)>> {
    match r {
        Some(v) => Some(form_model(v@)),
        None => None,
    }
}

/// Model of an optional parse result of hypotheses.
pub open spec fn opt_hyps_model(r: Option<Vec<Hyp>>) -> Option<Seq<(Ineq, Seq<(usize, int)>)>> {
    match r {
        Some(v) => Some(hyps_model(v@)),
        None => None,
    }
}

fn parse_pair(t: &String) -> (r: Option<(usize, BigNum)>)
    ensures
        match r {
            Some(p) => spec_pair(t@) == Some((p.0, p.1@)),
            None => spec_pair(t@) is None,
        },
{
    let node = read_json(t.as_str());
    match node {
        JsonNode::Array(a) => {
            if a.len() < 2 {
                return None;
            }
            assert(node@ == JsonView::Array(a@.map_values(|s: String| s@)));
            assert(a@.map_values(|s: String| s@)[0] == a@[0]@);
            assert(a@.map_values(|s: String| s@)[1] == a@[1]@);
            let i = as_usize(&read_json(a[0].as_str()));
            let c = as_bignum(&read_json(a[1].as_str()));
            match (i, c) {
                (Some(i), Some(c)) => Some((i, c)),
                _ => None,
            }
        },
        _ => None,
    }
}

/// Parse a list of `[atomIdx, coeff]` texts.
fn parse_pairs(items: &Vec<String>) -> (r: Option<Vec<(usize, BigNum)>>)
    ensures
        opt_form_model(r) == spec_pairs(items@.map_values(|s: String| s@)),
{
    let ghost iv = items@.map_values(|s: String| s@);
    let mut out: Vec<(usize, BigNum)> = Vec::new();
    let mut i: usize = 0;
    while i < items.len()
        invariant
            i <= items@.len(),
            iv == items@.map_values(|s: String| s@),
            spec_pairs(iv.take(i as int)) == Some(form_model(out@)),
        decreases items@.len() - i,
    {
        assert(iv.take(i + 1).drop_last() =~= iv.take(i as int));
        assert(iv.take(i + 1).last() == items@[i as int]@);
        match parse_pair(&items[i]) {
            Some(p) => {
                let ghost before = out@;
                out.push(p);
                assert(form_model(out@) =~= form_model(before).push((p.0, p.1@)));
            },
            None => {
                proof {
                    lemma_pairs_none(iv, (i + 1) as int);
                }
                return None;
            },
        }
        i = i + 1;
    }
    assert(iv.take(i as int) =~= iv);
    Some(out)
}

proof fn lemma_pairs_none(items: Seq<Seq<char>>, k: int)
    requires
        0 <= k <= items.len(),
        spec_pairs(items.take(k)) is None,
    ensures
        spec_pairs(items) is None,
    decreases items.len() - k,
{
    if k < items.len() {
        assert(items.take(k + 1).drop_last() =~= items.take(k));
        lemma_pairs_none(items, k + 1);
    } else {
        assert(items.take(k) =~= items);
    }
}

proof fn lemma_hyp_list_none(items: Seq<Seq<char>>, k: int)
    requires
        0 <= k <= items.len(),
        spec_hyp_list(items.take(k)) is None,
    ensures
        spec_hyp_list(items) is None,
    decreases items.len() - k,
{
    if k < items.len() {
        assert(items.take(k + 1).drop_last() =~= items.take(k));
        lemma_hyp_list_none(items, k + 1);
    } else {
        assert(items.take(k) =~= items);
    }
}

fn parse_ineq(node: &JsonNode) -> (r: Option<Ineq>)
    ensures
        r == spec_ineq(node@),
{
    match node {
        JsonNode::Str(s) => {
            let eq = String::from_str("eq");
            let le = String::from_str("le");
            let lt = String::from_str("lt");
            if *s == eq {
                Some(Ineq::Eq)
            } else if *s == le {
                Some(Ineq::Le)
            } else if *s == lt {
                Some(Ineq::Lt)
            } else {
                None
            }
        },
        _ => None,
    }
}

fn parse_hyp(t: &String) -> (r: Option<Hyp>)
    ensures
        match r {
            Some(h) => spec_hyp(t@) == Some(hyp_model(h)),
            None => spec_hyp(t@) is None,
        },
{
    let node = read_json(t.as_str());
    match node {
        JsonNode::Array(a) => {
            if a.len() < 2 {
                return None;
            }
            assert(node@ == JsonView::Array(a@.map_values(|s: String| s@)));
            assert(a@.map_values(|s: String| s@)[0] == a@[0]@);
            assert(a@.map_values(|s: String| s@)[1] == a@[1]@);
            let ineq = match parse_ineq(&read_json(a[0].as_str())) {
                Some(q) => q,
                None => return None,
            };
            let inner = read_json(a[1].as_str());
            match inner {
                JsonNode::Array(cs) => {
                    assert(inner@ == JsonView::Array(cs@.map_values(|s: String| s@)));
                    match parse_pairs(&cs) {
                        Some(coeffs) => Some(Hyp { ineq, coeffs }),
                        None => None,
                    }
                },
                _ => None,
            }
        },
        _ => None,
    }
}

/// Parse the `hyps` array shared by corpus rows and serve-mode requests.
/// Total on any malformed shape: `None` unless every entry is
/// `[REL, [[atomIdx, intCoeff], ...]]`.
pub fn parse_hyps(v: &JsonNode) -> (r: Option<Vec<Hyp>>)
    ensures
        opt_hyps_model(r) == spec_hyps(v@),
{
    match v {
        JsonNode::Array(items) => {
            let ghost iv = items@.map_values(|s: String| s@);
            assert(v@ == JsonView::Array(iv));
            let mut out: Vec<Hyp> = Vec::new();
            let mut i: usize = 0;
            while i < items.len()
                invariant
                    i <= items@.len(),
                    iv == items@.map_values(|s: String| s@),
                    spec_hyps(v@) == spec_hyp_list(iv),
                    spec_hyp_list(iv.take(i as int)) == Some(hyps_model(out@)),
                decreases items@.len() - i,
            {
                assert(iv.take(i + 1).drop_last() =~= iv.take(i as int));
                assert(iv.take(i + 1).last() == items@[i as int]@);
                match parse_hyp(&items[i]) {
                    Some(h) => {
                        let ghost before = out@;
                        out.push(h);
                        assert(hyps_model(out@) =~= hyps_model(before).push(hyp_model(h)));
                    },
                    None => {
                        proof {
                            lemma_hyp_list_none(iv, (i + 1) as int);
                        }
                        return None;
                    },
                }
                i = i + 1;
            }
            assert(iv.take(i as int) =~= iv);
            Some(out)
        },
        _ => None,
    }
}

/// Parse a serve-mode request line: `{"maxVar":M,"hyps":[...]}`.
pub fn parse_request(line: &str) -> (r: Option<(usize, Vec<Hyp>)>)
    ensures
        match r {
            Some(p) => spec_request(line@) == Some((p.0, hyps_model(p.1@))),
            None => spec_request(line@) is None,
        },
{
    let v = read_json(trim_text(line));
    request_from_json(&v)
}

/// A serve-mode request from the line's top-level JSON value.
pub fn request_from_json(v: &JsonNode) -> (r: Option<(usize, Vec<Hyp>)>)
    ensures
        match r {
            Some(p) => spec_request_json(v@) == Some((p.0, hyps_model(p.1@))),
            None => spec_request_json(v@) is None,
        },
{
    let m = get_member(v, "maxVar");
    let h = get_member(&v, "hyps");
    match (m, h) {
        (Some(m), Some(h)) => {
            let mv = as_usize(&read_json(m.as_str()));
            let hs = parse_hyps(&read_json(h.as_str()));
            match (mv, hs) {
                (Some(mv), Some(hs)) => Some((mv, hs)),
                _ => None,
            }
        },
        _ => None,
    }
}

/// Model of a corpus row.
pub struct InstanceView {
    pub src: Seq<char>,
    pub call: u64,
    pub max_var: usize,
    pub hyps: Seq<(Ineq, Seq<(usize, int)>)>,
    pub ns: u128,
    pub ok: bool,
    pub cert: Option<Seq<(usize, int)>>,
}

/// Model of an `Instance`.
pub open spec fn instance_model(i: Instance) -> InstanceView {
    InstanceView {
        src: i.src@,
        call: i.call,
        max_var: i.max_var,
        hyps: hyps_model(i.hyps@),
        ns: i.ns,
        ok: i.ok,
        cert: opt_form_model(i.cert),
    }
}

/// The `cert` field of a row: `null` or absent gives no certificate, an
/// array gives its pairs; anything else rejects the row (outer `None`).
pub open spec fn spec_row_cert(v: JsonView) -> Option<Option<Seq<(usize, int)>>> {
    match v {
        JsonView::Null => Some(None),
        JsonView::Array(es) => match spec_pairs(es) {
            Some(ps) => Some(Some(ps)),
            None => None,
        },
        _ => None,
    }
}

/// One JSONL corpus row; `None` for blank lines, non-JSON, rows whose `ty`
/// is not `"oracle"`, and malformed oracle rows.  Missing `src`, `call`,
/// `ns` and `ok` default to `""`, 0, 0 and `false`.
pub open spec fn spec_line(line: Seq<char>) -> Option<InstanceView> {
    let t = trimmed(line);
    if t.len() == 0 {
        None
    } else {
        spec_row_json(json_parse(t))
    }
}

/// A corpus row read from its top-level JSON value: `None` unless it is an
/// oracle row with well-formed hypotheses, certificate and `maxVar`.
pub open spec fn spec_row_json(v: JsonView) -> Option<InstanceView> {
    {
        match json_get(v, "ty"@) {
            Some(ty) => match json_str(json_parse(ty)) {
                Some(tys) => if tys != "oracle"@ {
                    None
                } else {
                    match (
                        spec_hyps(json_index(v, "hyps"@)),
                        spec_row_cert(json_index(v, "cert"@)),
                        json_usize(json_index(v, "maxVar"@)),
                    ) {
                        (Some(hs), Some(c), Some(mv)) => Some(
                            InstanceView {
                                src: match json_str(json_index(v, "src"@)) {
                                    Some(x) => x,
                                    None => Seq::empty(),
                                },
                                call: match json_u64(json_index(v, "call"@)) {
                                    Some(x) => x,
                                    None => 0,
                                },
                                max_var: mv,
                                hyps: hs,
                                ns: match json_u64(json_index(v, "ns"@)) {
                                    Some(x) => x as u128,
                                    None => 0,
                                },
                                ok: match json_bool(json_index(v, "ok"@)) {
                                    Some(x) => x,
                                    None => false,
                                },
                                cert: c,
                            },
                        ),
                        _ => None,
                    }
                },
                None => None,
            },
            None => None,
        }
    }
}

/// A row whose `cert` member is JSON null reads exactly as the same row
/// without a `cert` member, and a row read so has no certificate.
pub proof fn lemma_null_cert_is_absent(v1: JsonView, v2: JsonView)
    requires
        forall|k: Seq<char>| k != "cert"@ ==> #[trigger] json_get(v1, k) == json_get(v2, k),
        json_get(v1, "cert"@) matches Some(t) && json_parse(t) == JsonView::Null,
        json_get(v2, "cert"@) is None,
    ensures
        spec_row_json(v1) == spec_row_json(v2),
        spec_row_json(v1) matches Some(r) ==> r.cert is None,
{
    reveal_strlit("cert");
    reveal_strlit("ty");
    reveal_strlit("hyps");
    reveal_strlit("maxVar");
    reveal_strlit("src");
    reveal_strlit("call");
    reveal_strlit("ns");
    reveal_strlit("ok");
    let c = "cert"@;
    assert(c.len() == 4 && c[1] == 'e');
    assert("ty"@.len() != c.len());
    assert("hyps"@[1] != c[1]);
    assert("maxVar"@.len() != c.len());
    assert("src"@.len() != c.len());
    assert("call"@[1] != c[1]);
    assert("ns"@.len() != c.len());
    assert("ok"@.len() != c.len());
    assert(json_get(v1, "ty"@) == json_get(v2, "ty"@));
    assert(json_get(v1, "hyps"@) == json_get(v2, "hyps"@));
    assert(json_get(v1, "maxVar"@) == json_get(v2, "maxVar"@));
    assert(json_get(v1, "src"@) == json_get(v2, "src"@));
    assert(json_get(v1, "call"@) == json_get(v2, "call"@));
    assert(json_get(v1, "ns"@) == json_get(v2, "ns"@));
    assert(json_get(v1, "ok"@) == json_get(v2, "ok"@));
    assert(json_index(v1, "cert"@) == json_index(v2, "cert"@));
}

/// An oracle row with well-formed hypotheses and `maxVar` and a null (or
/// missing) `cert` is read, with those hypotheses and `maxVar` and no
/// certificate.
pub proof fn lemma_null_cert_row(v: JsonView)
    requires
        json_get(v, "ty"@) matches Some(t) && json_str(json_parse(t)) == Some("oracle"@),
        spec_hyps(json_index(v, "hyps"@)) is Some,
        json_usize(json_index(v, "maxVar"@)) is Some,
        json_index(v, "cert"@) == JsonView::Null,
    ensures
        spec_row_json(v) is Some,
        (spec_row_json(v)->0).cert is None,
        (spec_row_json(v)->0).hyps == spec_hyps(json_index(v, "hyps"@))->0,
        (spec_row_json(v)->0).max_var == json_usize(json_index(v, "maxVar"@))->0,
{
}

/// Parse one JSONL line; `None` for non-oracle rows (e.g. `ty:"tactic"`).
pub fn parse_line(line: &str) -> (r: Option<Instance>)
    ensures
        match r {
            Some(i) => spec_line(line@) == Some(instance_model(i)),
            None => spec_line(line@) is None,
        },
{
    let t = trim_text(line);
    if t.unicode_len() == 0 {
        return None;
    }
    let v = read_json(t);
    row_from_json(&v)
}

/// A corpus row from its top-level JSON value.
pub fn row_from_json(v: &JsonNode) -> (r: Option<Instance>)
    ensures
        match r {
            Some(i) => spec_row_json(v@) == Some(instance_model(i)),
            None => spec_row_json(v@) is None,
        },
{
    let ty = match get_member(v, "ty") {
        Some(x) => x,
        None => return None,
    };
    let tyv = read_json(ty.as_str());
    let tys = match as_str(&tyv) {
        Some(x) => x,
        None => return None,
    };
    let oracle = String::from_str("oracle");
    if !(*tys == oracle) {
        return None;
    }
    let hyps = match parse_hyps(&index(v, "hyps")) {
        Some(h) => h,
        None => return None,
    };
    let cv = index(v, "cert");
    let cert = match cv {
        JsonNode::Null => None,
        JsonNode::Array(es) => {
            assert(cv@ == JsonView::Array(es@.map_values(|s: String| s@)));
            match parse_pairs(&es) {
                Some(ps) => Some(ps),
                None => return None,
            }
        },
        _ => return None,
    };
    let max_var = match as_usize(&index(v, "maxVar")) {
        Some(m) => m,
        None => return None,
    };
    let srcv = index(v, "src");
    let src = match as_str(&srcv) {
        Some(x) => x.clone(),
        None => String::new(),
    };
    let call = match as_u64(&index(v, "call")) {
        Some(x) => x,
        None => 0,
    };
    let ns: u128 = match as_u64(&index(v, "ns")) {
        Some(x) => x as u128,
        None => 0,
    };
    let ok = match as_bool(&index(v, "ok")) {
        Some(x) => x,
        None => false,
    };
    let inst = Instance { src, call, max_var, hyps, ns, ok, cert };
    assert(instance_model(inst).cert == spec_row_cert(json_index(v@, "cert"@))->0);
    Some(inst)
}

/// A corpus file: `oracle.*.jsonl`.
pub open spec fn corpus_file_name(name: Seq<char>) -> bool {
    starts_with(name, "oracle."@) && ends_with(name, ".jsonl"@)
}

/// Whether a directory entry's file name is a corpus file (`oracle.*.jsonl`).
pub fn is_corpus_file(name: &str) -> (r: bool)
    ensures
        r == corpus_file_name(name@),
{
    has_prefix(name, "oracle.") && has_suffix(name, ".jsonl")
}

} // verus!
