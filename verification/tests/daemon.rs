//! The daemon's answers: handshake, requests, and malformed or hostile input.

use farkas_core::daemon::respond;

/// Deterministic PRNG, fixed seeds: failures reproduce.
struct XorShift(u64);

impl XorShift {
    fn next(&mut self) -> u64 {
        let mut x = self.0;
        x ^= x << 13;
        x ^= x >> 7;
        x ^= x << 17;
        self.0 = x;
        x
    }
}

fn assert_protocol_answer(input: &str, answer: &str) {
    let v: serde_json::Value = serde_json::from_str(answer)
        .unwrap_or_else(|_| panic!("non-JSON answer {answer:.120} to input {input:.120}"));
    assert!(
        v.get("cert").is_some() || v.get("error").is_some() || v.get("farkas_protocol").is_some(),
        "answer {answer:.120} has none of cert/error/farkas_protocol (input {input:.120})"
    );
}

const VALID: &str =
    "{\"maxVar\":1,\"hyps\":[[\"lt\",[[0,-1]]],[\"le\",[[1,-1],[0,2]]],[\"le\",[[1,1]]]]}";

#[test]
fn handshake_reports_protocol_v1() {
    let r = respond("{\"hello\":true}");
    assert!(r.contains("\"farkas_protocol\":1"), "{r}");
}

#[test]
fn hello_must_be_exactly_true() {
    assert!(respond("{\"hello\":false}").starts_with("{\"error\""));
    assert!(respond("{\"hello\":1}").starts_with("{\"error\""));
}

#[test]
fn duplicate_atom_indices_are_additive() {
    // h1 repeats atom 1: [[1,1],[1,1]] must read additively as 2x <= 0,
    // matching verify_cert; with h2: x > 1 this is a contradiction whose
    // certificate must pass the (additive) exact verifier.
    let r = respond(
        "{\"maxVar\":1,\"hyps\":[[\"lt\",[[0,-1]]],[\"le\",[[1,1],[1,1]]],[\"lt\",[[1,-1],[0,1]]]]}",
    );
    assert!(r.starts_with("{\"cert\":[["), "{r}");
}

#[test]
fn feasible_and_infeasible_requests() {
    let ok = respond(
        "{\"maxVar\":1,\"hyps\":[[\"lt\",[[0,-1]]],[\"le\",[[1,-1],[0,2]]],[\"le\",[[1,1]]]]}",
    );
    assert!(ok.starts_with("{\"cert\":[["), "{ok}");
    let none = respond("{\"maxVar\":1,\"hyps\":[[\"lt\",[[0,-1]]],[\"le\",[[1,-1]]]]}");
    assert_eq!(none, "{\"cert\":null}");
    let bad = respond("{\"nonsense\":1}");
    assert_eq!(bad, "{\"error\":\"bad request\"}");
}

/// Structured malformations: every shape a confused or hostile client could
/// produce is answered with one protocol line, and a real request still
/// solves afterwards.
#[test]
fn malformed_requests_never_kill_the_daemon() {
    let cases: &[&str] = &[
        "not json at all",
        "{",
        "[]",
        "null",
        "42",
        "\"maxVar\"",
        "{\"maxVar\":1}",
        "{\"hyps\":[]}",
        "{\"maxVar\":\"one\",\"hyps\":[]}",
        "{\"maxVar\":-1,\"hyps\":[]}",
        "{\"maxVar\":1.5,\"hyps\":[]}",
        "{\"maxVar\":1,\"hyps\":{}}",
        "{\"maxVar\":1,\"hyps\":[42]}",
        "{\"maxVar\":1,\"hyps\":[[]]}",
        "{\"maxVar\":1,\"hyps\":[[\"gt\",[[0,1]]]]}",
        "{\"maxVar\":1,\"hyps\":[[\"lt\"]]}",
        "{\"maxVar\":1,\"hyps\":[[\"lt\",[[0]]]]}",
        "{\"maxVar\":1,\"hyps\":[[\"lt\",[[0,\"x\"]]]]}",
        "{\"maxVar\":1,\"hyps\":[[\"lt\",[[0,1.25]]]]}",
        "{\"maxVar\":1,\"hyps\":[[\"lt\",[[-3,1]]]]}",
        "{\"maxVar\":1,\"hyps\":[[\"lt\",[[0,1],[0,1],[0,1]]]]}",
        // absurd maxVar: must be a fast error, not an OOM
        "{\"maxVar\":999999999999,\"hyps\":[[\"lt\",[[0,-1]]]]}",
        // atom index beyond maxVar: protocol error, not an indexing panic
        "{\"maxVar\":1,\"hyps\":[[\"lt\",[[7,1]]]]}",
        "{\"maxVar\":1,\"hyps\":[[\"lt\",[[0,-1]]],[\"le\",[[999999999,1]]]]}",
        "{\"hello\":false}",
        "{\"hello\":1}",
        "{\"hello\":true}",
    ];
    for input in cases {
        let answer = respond(input);
        assert_protocol_answer(input, &answer);
        // liveness after every malformation: a real request still solves
        let ok = respond(VALID);
        assert!(ok.starts_with("{\"cert\":[["), "daemon broken after {input:.120}: {ok:.120}");
    }
}

/// Random byte garbage and random JSON-ish mutations of a valid request.
#[test]
fn random_garbage_never_kills_the_daemon() {
    let mut rng = XorShift(0x243F6A8885A308D3);
    for round in 0..300 {
        let input = if round % 2 == 0 {
            // printable garbage (newline-free so it stays one request)
            let len = 1 + (rng.next() % 200) as usize;
            (0..len).map(|_| (b' ' + (rng.next() % 94) as u8) as char).collect::<String>()
        } else {
            // structured mutation: flip one byte of a valid request
            let mut bytes = VALID.as_bytes().to_vec();
            let pos = (rng.next() as usize) % bytes.len();
            bytes[pos] = b' ' + (rng.next() % 94) as u8;
            String::from_utf8_lossy(&bytes).into_owned()
        };
        let answer = respond(&input);
        assert_protocol_answer(&input, &answer);
    }
    let ok = respond(VALID);
    assert!(ok.starts_with("{\"cert\":[["), "daemon broken after garbage: {ok:.120}");
}

/// Giant-but-wellformed inputs: coefficients with tens of thousands of
/// digits and a megabyte-scale line must be answered, not wedge.
#[test]
fn giant_inputs_answer_and_terminate() {
    let big = "9".repeat(30_000);
    let req = format!(
        "{{\"maxVar\":1,\"hyps\":[[\"lt\",[[0,-1]]],[\"le\",[[1,-{big}],[0,{big}]]],[\"le\",[[1,{big}]]]]}}"
    );
    let answer = respond(&req);
    assert_protocol_answer(&req, &answer);
    assert!(answer.starts_with("{\"cert\":"), "giant coefficients: {answer:.120}");

    // one huge line that is not valid JSON
    let junk = "x".repeat(1 << 20);
    let answer = respond(&junk);
    assert_eq!(answer, "{\"error\":\"bad request\"}");
}
