//! The certificate daemon's answers: one JSON line per request line.
//!
//!   handshake: `{"hello":true}`
//!           -> `{"farkas_protocol":1,"version":"<crate>","engine":"tiered"}`
//!   request:   `{"maxVar":M,"hyps":[[<"lt"|"le"|"eq">,[[atomIdx,intCoeff],...]],...]}`
//!   response:  `{"cert":[[hypIdx,"natCoeff"],...]}` (coefficients as strings)
//!            | `{"cert":null}` (no certificate)
//!            | `{"error":"..."}`
//!
//! Every reported certificate has passed the exact verifier.
use crate::bignum::{big_to_decimal, int_decimal, nat_decimal, digit_char, BigNum};
use crate::counters::CounterState;
use crate::json::{get_member, json_get, json_parse, read_json, JsonNode, JsonView};
use crate::simplex::certificate;
use crate::completeness::{budget_runs_out, lemma_none_means_unrefutable, refutable};
use crate::soundness::lemma_certificate_refutes;
use crate::tiered::produce_certificate_tiered;
use crate::types::{form_model, hyps_model, parse_request, spec_request, Hyp, Ineq};
use crate::verify::{lemma_valid_iff_refutes, refutes, verify_cert};
use vstd::prelude::*;

verus! {

/// Protocol version reported by the handshake.
pub const PROTOCOL_VERSION: u32 = 1;

/// Version of this library, reported by the handshake.
pub const CRATE_VERSION: &'static str = "0.1.0";

/// The engines allocate `O(maxVar)` tableau rows up front, so an absurd
/// `maxVar` is refused rather than attempted.
pub const MAX_VAR_CAP: usize = 1_000_000;

/// Text of the handshake answer.
pub open spec fn handshake_text() -> Seq<char> {
    "{\"farkas_protocol\":"@ + nat_decimal(PROTOCOL_VERSION as nat) + ",\"version\":\""@
        + CRATE_VERSION@ + "\",\"engine\":\"tiered\"}"@
}

/// Answer to a line that is not a well-formed request.
pub open spec fn bad_request_text() -> Seq<char> {
    "{\"error\":\"bad request\"}"@
}

/// Answer to a request whose `maxVar` exceeds the cap.
pub open spec fn too_large_text() -> Seq<char> {
    "{\"error\":\"maxVar too large\"}"@
}

/// Answer to a request that names an atom beyond `maxVar`.
pub open spec fn atom_range_text() -> Seq<char> {
    "{\"error\":\"atom index exceeds maxVar\"}"@
}

/// Answer when there is no certificate.
pub open spec fn no_cert_text() -> Seq<char> {
    "{\"cert\":null}"@
}

/// One certificate entry `[hypIdx,"coeff"]`.
pub open spec fn entry_text(p: (usize, int)) -> Seq<char> {
    "["@ + nat_decimal(p.0 as nat) + ",\""@ + int_decimal(p.1) + "\"]"@
}

/// Certificate entries separated by commas.
pub open spec fn entries_text(c: Seq<(usize, int)>) -> Seq<char>
    decreases c.len(),
{
    if c.len() == 0 {
        Seq::empty()
    } else if c.len() == 1 {
        entry_text(c[0])
    } else {
        entries_text(c.drop_last()) + ","@ + entry_text(c.last())
    }
}

/// Text of a certificate answer.
pub open spec fn cert_text(c: Seq<(usize, int)>) -> Seq<char> {
    "{\"cert\":["@ + entries_text(c) + "]}"@
}

/// The line is a JSON object whose `hello` member is `true`.
pub open spec fn is_hello(line: Seq<char>) -> bool {
    match json_get(json_parse(line), "hello"@) {
        Some(t) => json_parse(t) == JsonView::Bool(true),
        None => false,
    }
}

/// Some hypothesis names an atom beyond `max_var`.
pub open spec fn atom_beyond(hs: Seq<(Ineq, Seq<(usize, int)>)>, max_var: usize) -> bool {
    exists|i: int, k: int|
        0 <= i < hs.len() && 0 <= k < hs[i].1.len() && (#[trigger] hs[i].1[k]).0 > max_var
}

/// What the daemon answers to `line`.  A request is answered with the tiered
/// engine's certificate, which the exact verifier has accepted (it refutes
/// the request's hypotheses); "no certificate" is the engine's own answer.
pub open spec fn answers(line: Seq<char>, r: Seq<char>) -> bool {
    if is_hello(line) {
        r == handshake_text()
    } else {
        answers_request(spec_request(line), r)
    }
}

/// What the daemon answers to a parsed request (`None`: not a request).
pub open spec fn answers_request(req: Option<(usize, Seq<(Ineq, Seq<(usize, int)>)>)>, r: Seq<char>) -> bool {
    match req {
        None => r == bad_request_text(),
        Some((m, hs)) => if m > MAX_VAR_CAP {
            r == too_large_text()
        } else if atom_beyond(hs, m) {
            r == atom_range_text()
        } else if hs.len() + 3 > usize::MAX {
            r == bad_request_text()
        } else {
            match certificate(hs, m as int) {
                None => r == no_cert_text(),
                Some(c) => r == cert_text(c),
            }
        },
    }
}

/// Every certificate the daemon reports for a request refutes the request's
/// hypotheses.
pub proof fn lemma_reported_cert_refutes(line: Seq<char>)
    requires
        spec_request(line) is Some,
    ensures
        ({
            let (m, hs) = spec_request(line)->0;
            !atom_beyond(hs, m) && hs.len() + 3 <= usize::MAX ==> (certificate(
                hs,
                m as int,
            ) matches Some(c) ==> refutes(hs, c))
        }),
{
    let (m, hs) = spec_request(line)->0;
    if !atom_beyond(hs, m) && hs.len() + 3 <= usize::MAX {
        lemma_certificate_refutes(hs, m as int);
    }
}

/// The daemon answers "no certificate" only to a request that no
/// certificate refutes, unless the search ran out of pivots.
pub proof fn lemma_null_answer_exact(line: Seq<char>)
    requires
        answers(line, no_cert_text()),
    ensures
        spec_request(line) is Some,
        ({
            let (m, hs) = spec_request(line)->0;
            !budget_runs_out(hs, m as int) ==> !refutable(hs)
        }),
{
    reveal_strlit("{\"cert\":null}");
    reveal_strlit("{\"farkas_protocol\":");
    reveal_strlit("{\"error\":\"bad request\"}");
    reveal_strlit("{\"error\":\"maxVar too large\"}");
    reveal_strlit("{\"error\":\"atom index exceeds maxVar\"}");
    reveal_strlit("{\"cert\":[");
    let nc = no_cert_text();
    assert(nc[2] == 'c' && nc[8] == 'n');
    let hz = "{\"farkas_protocol\":"@ + nat_decimal(PROTOCOL_VERSION as nat);
    assert(handshake_text()[2] == hz[2]);
    assert(handshake_text() != nc);
    assert(bad_request_text()[2] != nc[2]);
    assert(too_large_text()[2] != nc[2]);
    assert(atom_range_text()[2] != nc[2]);
    assert forall|c: Seq<(usize, int)>| #[trigger] cert_text(c) != nc by {
        let pre = "{\"cert\":["@ + entries_text(c);
        assert(cert_text(c)[8] == pre[8]);
        assert(pre[8] == '[');
    }
    let (m, hs) = spec_request(line)->0;
    if !atom_beyond(hs, m) && hs.len() + 3 <= usize::MAX {
        lemma_none_means_unrefutable(hs, m as int);
    }
}

/// The text holds no line break.
pub open spec fn single_line(s: Seq<char>) -> bool {
    forall|i: int| 0 <= i < s.len() ==> s[i] != '\n'
}

proof fn lemma_concat_line(a: Seq<char>, b: Seq<char>)
    requires
        single_line(a),
        single_line(b),
    ensures
        single_line(a + b),
{
    assert forall|i: int| 0 <= i < (a + b).len() implies (a + b)[i] != '\n' by {
        if i < a.len() {
            assert((a + b)[i] == a[i]);
        } else {
            assert((a + b)[i] == b[i - a.len()]);
        }
    }
}

proof fn lemma_nat_decimal_line(n: nat)
    ensures
        single_line(nat_decimal(n)),
    decreases n,
{
    if n >= 10 {
        lemma_nat_decimal_line(n / 10);
        lemma_concat_line(nat_decimal(n / 10), seq![digit_char(n % 10)]);
        assert(nat_decimal(n) =~= nat_decimal(n / 10) + seq![digit_char(n % 10)]);
    }
}

proof fn lemma_int_decimal_line(v: int)
    ensures
        single_line(int_decimal(v)),
{
    if v < 0 {
        lemma_nat_decimal_line((-v) as nat);
        lemma_concat_line(seq!['-'], nat_decimal((-v) as nat));
    } else {
        lemma_nat_decimal_line(v as nat);
    }
}

proof fn lemma_entries_line(c: Seq<(usize, int)>)
    ensures
        single_line(entries_text(c)),
    decreases c.len(),
{
    reveal_strlit("[");
    reveal_strlit(",\"");
    reveal_strlit("\"]");
    reveal_strlit(",");
    if c.len() > 0 {
        let p = c.last();
        lemma_nat_decimal_line(p.0 as nat);
        lemma_int_decimal_line(p.1);
        lemma_concat_line("["@, nat_decimal(p.0 as nat));
        lemma_concat_line("["@ + nat_decimal(p.0 as nat), ",\""@);
        lemma_concat_line("["@ + nat_decimal(p.0 as nat) + ",\""@, int_decimal(p.1));
        lemma_concat_line("["@ + nat_decimal(p.0 as nat) + ",\""@ + int_decimal(p.1), "\"]"@);
        if c.len() > 1 {
            lemma_entries_line(c.drop_last());
            lemma_concat_line(entries_text(c.drop_last()), ","@);
            lemma_concat_line(entries_text(c.drop_last()) + ","@, entry_text(p));
        } else {
            assert(c[0] == p);
        }
    }
}

/// Every answer is a single line: the daemon writes exactly one line per
/// request line.
pub proof fn lemma_answer_single_line(line: Seq<char>, r: Seq<char>)
    requires
        answers(line, r),
    ensures
        single_line(r),
{
    reveal_strlit("{\"farkas_protocol\":");
    reveal_strlit(",\"version\":\"");
    reveal_strlit("0.1.0");
    reveal_strlit("\",\"engine\":\"tiered\"}");
    reveal_strlit("{\"error\":\"bad request\"}");
    reveal_strlit("{\"error\":\"maxVar too large\"}");
    reveal_strlit("{\"error\":\"atom index exceeds maxVar\"}");
    reveal_strlit("{\"cert\":null}");
    reveal_strlit("{\"cert\":[");
    reveal_strlit("]}");
    let a = "{\"farkas_protocol\":"@;
    let b = nat_decimal(PROTOCOL_VERSION as nat);
    lemma_nat_decimal_line(PROTOCOL_VERSION as nat);
    lemma_concat_line(a, b);
    lemma_concat_line(a + b, ",\"version\":\""@);
    lemma_concat_line(a + b + ",\"version\":\""@, CRATE_VERSION@);
    lemma_concat_line(a + b + ",\"version\":\""@ + CRATE_VERSION@, "\",\"engine\":\"tiered\"}"@);
    if r == bad_request_text() || r == too_large_text() || r == atom_range_text() || r
        == no_cert_text() || r == handshake_text() {
    } else {
        let c = choose|c: Seq<(usize, int)>| r == cert_text(c);
        assert(exists|c: Seq<(usize, int)>| r == cert_text(c)) by {
            let req = spec_request(line)->0;
            let hs = req.1;
            let m = req.0;
            assert(r == cert_text(certificate(hs, m as int)->0));
        }
        lemma_entries_line(c);
        lemma_concat_line("{\"cert\":["@, entries_text(c));
        lemma_concat_line("{\"cert\":["@ + entries_text(c), "]}"@);
    }
}

fn digit_str(d: usize) -> (r: &'static str)
    requires
        d < 10,
    ensures
        r@ == seq![digit_char(d as nat)],
{
    if d == 0 {
        proof { reveal_strlit("0"); }
        "0"
    } else if d == 1 {
        proof { reveal_strlit("1"); }
        "1"
    } else if d == 2 {
        proof { reveal_strlit("2"); }
        "2"
    } else if d == 3 {
        proof { reveal_strlit("3"); }
        "3"
    } else if d == 4 {
        proof { reveal_strlit("4"); }
        "4"
    } else if d == 5 {
        proof { reveal_strlit("5"); }
        "5"
    } else if d == 6 {
        proof { reveal_strlit("6"); }
        "6"
    } else if d == 7 {
        proof { reveal_strlit("7"); }
        "7"
    } else if d == 8 {
        proof { reveal_strlit("8"); }
        "8"
    } else {
        proof { reveal_strlit("9"); }
        "9"
    }
}

/// Append the decimal digits of `n`.
fn push_decimal(out: &mut String, n: usize)
    ensures
        final(out)@ == old(out)@ + nat_decimal(n as nat),
    decreases n,
{
    if n >= 10 {
        push_decimal(out, n / 10);
        out.append(digit_str(n % 10));
        assert(old(out)@ + nat_decimal((n / 10) as nat) + seq![digit_char((n % 10) as nat)]
            =~= old(out)@ + nat_decimal(n as nat));
    } else {
        out.append(digit_str(n));
    }
}

/// The handshake answer.
pub fn handshake() -> (r: String)
    ensures
        r@ == handshake_text(),
{
    let mut s = String::from_str("{\"farkas_protocol\":");
    push_decimal(&mut s, PROTOCOL_VERSION as usize);
    s.append(",\"version\":\"");
    s.append(CRATE_VERSION);
    s.append("\",\"engine\":\"tiered\"}");
    s
}

/// The certificate answer for `cert`.
fn render_cert(cert: &Vec<(usize, BigNum)>) -> (r: String)
    ensures
        r@ == cert_text(form_model(cert@)),
{
    let ghost cm = form_model(cert@);
    let mut s = String::from_str("{\"cert\":[");
    let mut i: usize = 0;
    while i < cert.len()
        invariant
            i <= cert@.len(),
            cm == form_model(cert@),
            s@ == "{\"cert\":["@ + entries_text(cm.take(i as int)),
        decreases cert@.len() - i,
    {
        let ghost before = s@;
        if i > 0 {
            s.append(",");
        }
        s.append("[");
        push_decimal(&mut s, cert[i].0);
        s.append(",\"");
        let digits = big_to_decimal(&cert[i].1);
        s.append(digits.as_str());
        s.append("\"]");
        proof {
            assert(cm[i as int] == (cert@[i as int].0, cert@[i as int].1@));
            assert(cm.take(i + 1).drop_last() =~= cm.take(i as int));
            assert(cm.take(i + 1).last() == cm[i as int]);
            if i == 0 {
                assert(entries_text(cm.take(0)) =~= Seq::<char>::empty());
                assert(s@ =~= "{\"cert\":["@ + entries_text(cm.take(1)));
            } else {
                assert(s@ =~= "{\"cert\":["@ + entries_text(cm.take(i + 1)));
            }
        }
        i = i + 1;
    }
    s.append("]}");
    assert(cm.take(i as int) =~= cm);
    s
}

/// Whether the line is a JSON object whose `hello` member is `true`.
fn hello_line(line: &str) -> (r: bool)
    ensures
        r == is_hello(line@),
{
    let v = read_json(line);
    match get_member(&v, "hello") {
        Some(t) => {
            let h = read_json(t.as_str());
            match h {
                JsonNode::Bool(b) => b,
                _ => false,
            }
        },
        None => false,
    }
}

/// Whether some hypothesis names an atom beyond `max_var`.
fn any_atom_beyond(hyps: &Vec<Hyp>, max_var: usize) -> (r: bool)
    ensures
        r == atom_beyond(hyps_model(hyps@), max_var),
{
    let ghost hm = hyps_model(hyps@);
    let mut i: usize = 0;
    while i < hyps.len()
        invariant
            i <= hyps@.len(),
            hm == hyps_model(hyps@),
            forall|a: int, k: int|
                0 <= a < i && 0 <= k < hm[a].1.len() ==> (#[trigger] hm[a].1[k]).0 <= max_var,
        decreases hyps@.len() - i,
    {
        let cs = &hyps[i].coeffs;
        let mut j: usize = 0;
        while j < cs.len()
            invariant
                i < hyps@.len(),
                j <= cs@.len(),
                *cs == hyps@[i as int].coeffs,
                hm == hyps_model(hyps@),
                forall|a: int, k: int|
                    0 <= a < i && 0 <= k < hm[a].1.len() ==> (#[trigger] hm[a].1[k]).0 <= max_var,
                forall|k: int| 0 <= k < j ==> (#[trigger] hm[i as int].1[k]).0 <= max_var,
            decreases cs@.len() - j,
        {
            assert(hm[i as int].1[j as int] == (cs@[j as int].0, cs@[j as int].1@));
            if cs[j].0 > max_var {
                assert(hm[i as int].1[j as int].0 > max_var);
                return true;
            }
            j = j + 1;
        }
        i = i + 1;
    }
    false
}

/// The answer to one request line.
pub fn respond(line: &str) -> (r: String)
    ensures
        answers(line@, r@),
{
    if hello_line(line) {
        return handshake();
    }
    answer_request(parse_request(line))
}

/// The answer to a parsed request (`None`: the line is not a request).
pub fn answer_request(req: Option<(usize, Vec<Hyp>)>) -> (r: String)
    ensures
        answers_request(
            match req {
                Some(p) => Some((p.0, hyps_model(p.1@))),
                None => None,
            },
            r@,
        ),
{
    match req {
        None => String::from_str("{\"error\":\"bad request\"}"),
        Some((max_var, hyps)) => {
            if max_var > MAX_VAR_CAP {
                String::from_str("{\"error\":\"maxVar too large\"}")
            } else if any_atom_beyond(&hyps, max_var) {
                String::from_str("{\"error\":\"atom index exceeds maxVar\"}")
            } else if hyps.len() > usize::MAX - 3 {
                String::from_str("{\"error\":\"bad request\"}")
            } else {
                proof {
                    assert forall|i: int, k: int|
                        0 <= i < hyps@.len() && 0 <= k < hyps@[i].coeffs@.len() implies (
                        #[trigger] hyps@[i].coeffs@[k]).0 <= max_var by {
                        assert(hyps_model(hyps@)[i].1[k] == (
                            hyps@[i].coeffs@[k].0,
                            hyps@[i].coeffs@[k].1@,
                        ));
                    }
                }
                let mut ctr = CounterState::new();
                match produce_certificate_tiered(hyps.as_slice(), max_var, &mut ctr) {
                    Some(cert) => {
                        proof {
                            lemma_valid_iff_refutes(hyps@, cert@);
                        }
                        if verify_cert(hyps.as_slice(), cert.as_slice()) {
                            render_cert(&cert)
                        } else {
                            String::from_str("{\"error\":\"internal: unverified cert\"}")
                        }
                    },
                    None => String::from_str("{\"cert\":null}"),
                }
            }
        },
    }
}

} // verus!
