//! Concrete instances of the library's laws, edge cases of the parsers, and
//! one check per wrapped outside call.

use farkas_core::arith::{gcd_u128, gcd_u64};
use farkas_core::bench::{
    bucket_name, bucket_rows, certs_verified, corpus_certs, fallback_buckets, fallback_sources,
    label_agreement, native_certs, route_tally, self_check, solve, unique_infeasible, Engine, RowResult,
};
use farkas_core::bignum::{lcm_of, BigNum};
use farkas_core::counters::CounterState;
use farkas_core::daemon::{handshake, respond};
use farkas_core::hybrid::{exact_repair, produce_certificate_hybrid, FpOutcome, Route};
use farkas_core::json::{has_prefix, has_suffix, text_u64, trim_text};
use farkas_core::rat::TRat;
use farkas_core::tiered::produce_certificate_tiered;
use farkas_core::types::{is_corpus_file, parse_line, parse_request, Hyp, Ineq};
use farkas_core::verify::verify_cert;

fn n(x: i64) -> BigNum {
    BigNum::from_i64(x)
}

const VALID: &str =
    "{\"maxVar\":1,\"hyps\":[[\"lt\",[[0,-1]]],[\"le\",[[1,-1],[0,2]]],[\"le\",[[1,1]]]]}";

/// Read a certificate answer back into certificate entries.
fn read_cert(answer: &str) -> Vec<(usize, BigNum)> {
    let v: serde_json::Value = serde_json::from_str(answer).unwrap();
    v.get("cert")
        .unwrap()
        .as_array()
        .unwrap()
        .iter()
        .map(|e| {
            let e = e.as_array().unwrap();
            let idx = e[0].as_u64().unwrap() as usize;
            let text = e[1].as_str().unwrap();
            let b: num_bigint::BigInt = text.parse().unwrap();
            let (s, mag) = b.to_u32_digits();
            (idx, BigNum { neg: s == num_bigint::Sign::Minus, mag })
        })
        .collect()
}

#[test]
fn handshake_text_is_exact() {
    assert_eq!(handshake(), "{\"farkas_protocol\":1,\"version\":\"0.1.0\",\"engine\":\"tiered\"}");
    assert_eq!(respond("{\"hello\":true}"), handshake());
    assert_eq!(respond(" {\"hello\" : true , \"x\":[1]} "), handshake());
}

#[test]
fn every_certificate_answer_refutes_the_request() {
    let answer = respond(VALID);
    let (_, hyps) = parse_request(VALID).unwrap();
    let cert = read_cert(&answer);
    assert!(!cert.is_empty());
    assert!(verify_cert(&hyps, &cert), "{answer}");
}

#[test]
fn error_answers_are_exact() {
    assert_eq!(respond("[]"), "{\"error\":\"bad request\"}");
    assert_eq!(respond("{\"maxVar\":1.0,\"hyps\":[]}"), "{\"error\":\"bad request\"}");
    assert_eq!(
        respond("{\"maxVar\":1000001,\"hyps\":[]}"),
        "{\"error\":\"maxVar too large\"}"
    );
    assert_eq!(respond("{\"maxVar\":1000000,\"hyps\":[]}"), "{\"cert\":null}");
    assert_eq!(
        respond("{\"maxVar\":2,\"hyps\":[[\"lt\",[[3,1]]]]}"),
        "{\"error\":\"atom index exceeds maxVar\"}"
    );
}

#[test]
fn request_parsing_edge_cases() {
    // extra elements of a pair or a hypothesis are ignored
    let (m, hs) = parse_request("{\"maxVar\":2,\"hyps\":[[\"le\",[[1,5,9]],\"extra\"]]}").unwrap();
    assert_eq!(m, 2);
    assert_eq!(hs.len(), 1);
    assert_eq!(hs[0].ineq, Ineq::Le);
    assert_eq!(hs[0].coeffs, vec![(1usize, n(5))]);
    // surrounding whitespace is trimmed
    assert!(parse_request("\u{a0}\t{\"maxVar\":0,\"hyps\":[]}\u{2003}").is_some());
    // a negative or fractional maxVar, an unknown relation, a non-integer coefficient
    assert!(parse_request("{\"maxVar\":-1,\"hyps\":[]}").is_none());
    assert!(parse_request("{\"maxVar\":1e2,\"hyps\":[]}").is_none());
    assert!(parse_request("{\"maxVar\":1,\"hyps\":[[\"ge\",[]]]}").is_none());
    assert!(parse_request("{\"maxVar\":1,\"hyps\":[[\"lt\",[[0,2.5]]]]}").is_none());
    // a 40-digit coefficient is read exactly
    let (_, hs) = parse_request("{\"maxVar\":0,\"hyps\":[[\"lt\",[[0,-1234567890123456789012345678901234567890]]]]}").unwrap();
    let big: num_bigint::BigInt = "-1234567890123456789012345678901234567890".parse().unwrap();
    let (s, mag) = big.to_u32_digits();
    assert_eq!(hs[0].coeffs[0].1, BigNum { neg: s == num_bigint::Sign::Minus, mag });
}

#[test]
fn corpus_rows_parse_with_defaults() {
    assert!(parse_line("   ").is_none());
    assert!(parse_line("{\"ty\":\"tactic\",\"maxVar\":1,\"hyps\":[]}").is_none());
    assert!(parse_line("{\"ty\":\"oracle\",\"maxVar\":1,\"hyps\":[],\"cert\":7}").is_none());
    let i = parse_line("{\"ty\":\"oracle\",\"maxVar\":3,\"hyps\":[[\"eq\",[[2,4]]]]}").unwrap();
    assert_eq!(i.src, "");
    assert_eq!(i.call, 0);
    assert_eq!(i.ns, 0);
    assert!(!i.ok);
    assert!(i.cert.is_none());
    assert_eq!(i.max_var, 3);
    assert_eq!(i.nnz(), 1);
    let j = parse_line(
        "{\"ty\":\"oracle\",\"src\":\"a.lean\",\"call\":4,\"maxVar\":1,\"ns\":99,\"ok\":true,\"hyps\":[[\"lt\",[[0,-1]]]],\"cert\":[[0,3]]}",
    )
    .unwrap();
    assert_eq!(j.src, "a.lean");
    assert_eq!((j.call, j.ns, j.ok), (4, 99, true));
    assert_eq!(j.cert, Some(vec![(0usize, n(3))]));
}

#[test]
fn text_helpers_follow_std() {
    assert_eq!(text_u64("18446744073709551615"), Some(u64::MAX));
    assert_eq!(text_u64("18446744073709551616"), None);
    assert_eq!(text_u64("+7"), Some(7));
    assert_eq!(text_u64("007"), Some(7));
    assert_eq!(text_u64(""), None);
    assert_eq!(text_u64("+"), None);
    assert_eq!(text_u64("-1"), None);
    assert_eq!(text_u64("1.0"), None);
    assert_eq!(text_u64("١"), None);
    assert_eq!(trim_text("\u{a0} x y \t\n"), "x y");
    assert_eq!(trim_text(" \u{3000} "), "");
    assert!(has_prefix("oracle.a", "oracle."));
    assert!(!has_prefix("orac", "oracle."));
    assert!(has_suffix("x.jsonl", ".jsonl"));
    assert!(is_corpus_file("oracle.test.jsonl"));
    assert!(is_corpus_file("oracle.jsonl"));
    assert!(!is_corpus_file("tactic.test.jsonl"));
    assert!(!is_corpus_file("oracle.test.json"));
}

#[test]
fn names_and_buckets() {
    assert_eq!(Engine::Faithful.name(), "faithful");
    assert_eq!(Engine::Tiered.name(), "tiered");
    assert_eq!(Engine::Hybrid.name(), "hybrid");
    assert_eq!(bucket_name(99), "nnz < 100");
    assert_eq!(bucket_name(100), "nnz 100-1k");
    assert_eq!(bucket_name(1000), "nnz 100-1k");
    assert_eq!(bucket_name(1001), "nnz > 1k");
}

#[test]
fn gcds() {
    assert_eq!(gcd_u64(12, 18), 6);
    assert_eq!(gcd_u64(0, 5), 5);
    assert_eq!(gcd_u64(7, 0), 7);
    assert_eq!(gcd_u128(1 << 100, 3 << 90), 1 << 90);
    assert_eq!(lcm_of(&n(4), &n(6)), n(12));
    assert_eq!(lcm_of(&n(1), &n(9)), n(9));
}

#[test]
fn routes_that_fall_back() {
    assert!(Route::TieredRepairFail { attempts: 2 }.is_fallback());
    assert!(Route::TieredFpStalled.is_fallback());
    assert!(!Route::Fp { attempts: 1 }.is_fallback());
    assert!(!Route::TieredDirect.is_fallback());
    assert!(!Route::TieredFpInfeasible.is_fallback());
}

#[test]
fn hybrid_routes_follow_the_fp_outcome() {
    let hyps = vec![
        Hyp { ineq: Ineq::Lt, coeffs: vec![(0, n(-1))] },
        Hyp { ineq: Ineq::Le, coeffs: vec![(1, n(1)), (0, n(1))] },
        Hyp { ineq: Ineq::Lt, coeffs: vec![(1, n(-1))] },
    ];
    let mut ctr = CounterState::new();
    let (c, r) = produce_certificate_hybrid(&hyps, 1, FpOutcome::Unrepresentable, &mut ctr);
    assert_eq!(r, Route::TieredDirect);
    assert!(verify_cert(&hyps, &c.unwrap()));
    let (_, r) = produce_certificate_hybrid(&hyps, 1, FpOutcome::Infeasible, &mut ctr);
    assert_eq!(r, Route::TieredFpInfeasible);
    let (_, r) = produce_certificate_hybrid(&hyps, 1, FpOutcome::Stalled, &mut ctr);
    assert_eq!(r, Route::TieredFpStalled);
    // a repeated support is tried once; the first good one answers
    let fp = FpOutcome::Feasible(vec![vec![], vec![2, 0, 1], vec![2, 0, 1]]);
    let (c, r) = produce_certificate_hybrid(&hyps, 1, fp, &mut ctr);
    assert_eq!(r, Route::Fp { attempts: 1 });
    assert_eq!(c.unwrap(), vec![(0usize, n(1)), (1, n(1)), (2, n(1))]);
    // no strict column in the support: repair refuses it
    let fp = FpOutcome::Feasible(vec![vec![1], vec![1]]);
    let (c, r) = produce_certificate_hybrid(&hyps, 1, fp, &mut ctr);
    assert_eq!(r, Route::TieredRepairFail { attempts: 1 });
    assert!(verify_cert(&hyps, &c.unwrap()));
    assert!(exact_repair(&hyps, &[1], &mut ctr).is_none());
}

#[test]
fn repair_scales_fractions_to_integers() {
    // 2x - 1 <= 0, -3x + 2 < 0, -1 < 0: the repaired solution is
    // (1, 2/3, 1/3), scaled by the lcm 3 to (3, 2, 1).
    let hyps = vec![
        Hyp { ineq: Ineq::Le, coeffs: vec![(1, n(2)), (0, n(-1))] },
        Hyp { ineq: Ineq::Lt, coeffs: vec![(1, n(-3)), (0, n(2))] },
        Hyp { ineq: Ineq::Lt, coeffs: vec![(0, n(-1))] },
    ];
    let mut ctr = CounterState::new();
    let c = produce_certificate_tiered(&hyps, 1, &mut ctr).unwrap();
    assert!(verify_cert(&hyps, &c));
    let r = exact_repair(&hyps, &[1, 0, 2], &mut ctr).unwrap();
    assert_eq!(r, vec![(0usize, n(3)), (1, n(2)), (2, n(1))]);
    assert!(verify_cert(&hyps, &r));
}

#[test]
fn bench_bookkeeping() {
    let row = "{\"ty\":\"oracle\",\"maxVar\":1,\"ok\":false,\"hyps\":[[\"lt\",[[0,-1]]],[\"le\",[[1,1],[0,1]]],[\"lt\",[[1,-1]]]]}";
    let other = "{\"ty\":\"oracle\",\"maxVar\":2,\"ok\":false,\"hyps\":[[\"lt\",[[0,-1]]]]}";
    let labelled = "{\"ty\":\"oracle\",\"maxVar\":1,\"ok\":true,\"hyps\":[[\"lt\",[[0,-1]]]]}";
    let insts: Vec<_> = [row, other, row, labelled, other].iter().map(|l| parse_line(l).unwrap()).collect();
    assert_eq!(unique_infeasible(&insts), 2);
    assert_eq!(unique_infeasible(&insts[3..4]), 0);
    let mut ctr = CounterState::new();
    let (c, route) = solve(Engine::Tiered, &insts[0], FpOutcome::Stalled, &mut ctr);
    assert!(route.is_none());
    assert_eq!(self_check(&insts[0].hyps, &c), (true, true));
    let (c2, route) = solve(Engine::Hybrid, &insts[0], FpOutcome::Stalled, &mut ctr);
    assert_eq!(route, Some(Route::TieredFpStalled));
    assert_eq!(c2, c);
    let (c3, _) = solve(Engine::Faithful, &insts[0], FpOutcome::Stalled, &mut ctr);
    assert_eq!(c3, c);
    assert_eq!(self_check(&insts[0].hyps, &None), (false, true));
    assert_eq!(self_check(&insts[0].hyps, &Some(vec![(0, n(1))])), (false, false));
}

#[test]
fn counters_fold_deltas_once() {
    let mut ctr = CounterState::new();
    let a = TRat::from_i64(3);
    let b = TRat::from_i64(5);
    let _ = a.add(&b, &mut ctr);
    let _ = a.mul(&b, &mut ctr);
    assert_eq!(ctr.tls_counters().ops, [2, 0, 0]);
    let g = ctr.counters();
    assert_eq!(g.ops, [2, 0, 0]);
    // a second fold adds nothing
    ctr.flush_tls();
    assert_eq!(ctr.counters().ops, [2, 0, 0]);
    let _ = a.sub(&b, &mut ctr);
    assert_eq!(ctr.counters().ops, [3, 0, 0]);
    ctr.reset_counters();
    assert_eq!(ctr.counters().ops, [0, 0, 0]);
    assert_eq!(ctr.tls_counters().ops, [3, 0, 0]);
}

#[test]
fn tiered_values_compare_by_value() {
    let mut ctr = CounterState::new();
    let x = TRat::from_i64(6).div(&TRat::from_i64(4), &mut ctr);
    let y = TRat::from_i64(3).div(&TRat::from_i64(2), &mut ctr);
    assert_eq!(x, y);
    assert!(x < TRat::from_i64(2));
    assert!(TRat::from_i64(-1) < x);
    let big = TRat::from_bigint(&BigNum { neg: false, mag: vec![0, 0, 0, 0, 1] });
    assert_eq!(big.tier(), 2);
    assert!(x < big);
    let back = big.mul(&TRat::one().div(&big, &mut ctr), &mut ctr);
    assert_eq!(back, TRat::one());
    assert_eq!(back.tier(), 0);
}

#[test]
fn big_numbers_add_multiply_and_compare() {
    let a = BigNum { neg: false, mag: vec![u32::MAX, u32::MAX] };
    let one = n(1);
    let s = a.add(&one);
    assert_eq!(s, BigNum { neg: false, mag: vec![0, 0, 1] });
    let p = a.mul(&a);
    assert_eq!(p, BigNum { neg: false, mag: vec![1, 0, u32::MAX - 1, u32::MAX] });
    assert!(s != a);
    assert_eq!(n(-7).neg(), n(7));
}

#[test]
fn answers_are_single_lines() {
    let lines = [
        "{\"hello\":true}",
        VALID,
        "not json",
        "{\"maxVar\":2000000,\"hyps\":[]}",
        "{\"maxVar\":0,\"hyps\":[[\"lt\",[[3,1]]]]}",
        "{\"maxVar\":1,\"hyps\":[[\"le\",[[1,1]]]]}",
        "{\"maxVar\":0,\"hyps\":[[\"lt\",[[0,-1]]],[\"lt\",[[0,123456789012345678901234567890]]]]}",
    ];
    for l in lines {
        let r = respond(l);
        assert!(!r.contains('\n'), "{r}");
        assert!(!r.is_empty());
    }
}

#[test]
fn refutation_ignores_entry_order() {
    let (_, hyps) = parse_request(VALID).unwrap();
    let cert = read_cert(&respond(VALID));
    let mut rev = cert.clone();
    rev.reverse();
    assert!(verify_cert(&hyps, &cert));
    assert!(verify_cert(&hyps, &rev));
    let mut bad = cert.clone();
    bad[0].1 = n(7);
    let mut bad_rev = bad.clone();
    bad_rev.reverse();
    assert_eq!(verify_cert(&hyps, &bad), verify_cert(&hyps, &bad_rev));
    assert!(!verify_cert(&hyps, &bad));
}

#[test]
fn repair_rejects_inconsistent_and_negative_systems() {
    let mut ctr = CounterState::new();
    // -1 < 0 and x <= 0: the constant row forces lambda_0 = 0, the
    // normalization row lambda_0 = 1.
    let hyps = vec![
        Hyp { ineq: Ineq::Lt, coeffs: vec![(0, n(-1))] },
        Hyp { ineq: Ineq::Le, coeffs: vec![(1, n(1))] },
    ];
    assert!(exact_repair(&hyps, &[0, 1], &mut ctr).is_none());
    // -1 < 0 and -1 <= 0: the unique solution has lambda_1 = -1.
    let hyps = vec![
        Hyp { ineq: Ineq::Lt, coeffs: vec![(0, n(-1))] },
        Hyp { ineq: Ineq::Le, coeffs: vec![(0, n(-1))] },
    ];
    assert!(exact_repair(&hyps, &[0, 1], &mut ctr).is_none());
    // -1 < 0 and 1 <= 0: lambda = (1, 1).
    let hyps = vec![
        Hyp { ineq: Ineq::Lt, coeffs: vec![(0, n(-1))] },
        Hyp { ineq: Ineq::Le, coeffs: vec![(0, n(1))] },
    ];
    assert_eq!(exact_repair(&hyps, &[1, 0], &mut ctr).unwrap(), vec![(0usize, n(1)), (1, n(1))]);
    // a zero coefficient gives no row; an atom with no support term is ignored
    let hyps = vec![
        Hyp { ineq: Ineq::Lt, coeffs: vec![(0, n(-1)), (5, n(0))] },
        Hyp { ineq: Ineq::Le, coeffs: vec![(0, n(2))] },
    ];
    assert_eq!(exact_repair(&hyps, &[0, 1], &mut ctr).unwrap(), vec![(0usize, n(2)), (1, n(1))]);
}

fn row(src: &str, nnz: usize, corpus_ok: bool, native_ok: bool, route: Option<Route>) -> RowResult {
    RowResult {
        src: src.to_string(),
        call: 1,
        nnz,
        corpus_ns: 1000,
        native_ns: 10,
        corpus_ok,
        native_ok,
        self_check_ok: true,
        route,
    }
}

#[test]
fn report_bookkeeping_counts_rows() {
    let rows = vec![
        row("b.lean", 5, true, true, Some(Route::Fp { attempts: 1 })),
        row("a.lean", 150, true, true, Some(Route::Fp { attempts: 3 })),
        row("b.lean", 2000, false, false, Some(Route::TieredRepairFail { attempts: 2 })),
        row("a.lean", 50, true, false, Some(Route::TieredFpStalled)),
        row("c.lean", 50, false, false, Some(Route::TieredFpStalled)),
        row("c.lean", 999, true, true, Some(Route::TieredDirect)),
        row("d.lean", 1000, false, false, Some(Route::TieredFpInfeasible)),
        row("b.lean", 7, true, true, Some(Route::Fp { attempts: 0 })),
    ];
    assert_eq!(label_agreement(&rows), 7);
    assert_eq!(native_certs(&rows), 4);
    assert_eq!(corpus_certs(&rows), 5);
    assert!(certs_verified(&rows));
    let mut bad = rows;
    bad[0].self_check_ok = false;
    assert!(!certs_verified(&bad));
    let rows = bad;
    assert_eq!(bucket_rows(&rows, 0), vec![0, 3, 4, 7]);
    assert_eq!(bucket_rows(&rows, 1), vec![1, 5, 6]);
    assert_eq!(bucket_rows(&rows, 2), vec![2]);
    let t = route_tally(&rows);
    assert_eq!((t.fp, t.retries, t.direct, t.repair_fail, t.stalled, t.fp_infeasible), (3, [2, 0, 1], 1, 1, 2, 1));
    assert_eq!(fallback_buckets(&rows), [2, 0, 1]);
    let srcs = fallback_sources(&rows);
    assert_eq!(srcs, vec![("a.lean".to_string(), 1), ("b.lean".to_string(), 1), ("c.lean".to_string(), 1)]);
    let more = vec![
        row("zeta.lean", 1, true, true, Some(Route::TieredFpStalled)),
        row("alpha.lean", 1, true, true, Some(Route::TieredFpStalled)),
        row("zeta.lean", 1, true, true, Some(Route::TieredRepairFail { attempts: 1 })),
        row("beta.lean", 1, true, true, Some(Route::Fp { attempts: 1 })),
        row("alpha2.lean", 1, true, true, Some(Route::TieredFpStalled)),
    ];
    assert_eq!(
        fallback_sources(&more),
        vec![("zeta.lean".to_string(), 2), ("alpha.lean".to_string(), 1), ("alpha2.lean".to_string(), 1)]
    );
}

#[test]
fn every_engine_certificate_is_valid() {
    let rows = [
        "{\"ty\":\"oracle\",\"maxVar\":8,\"hyps\":[[\"lt\",[[0,-1]]],[\"eq\",[[1,-1],[0,1001]]],[\"eq\",[[1,1],[0,-1001]]],[\"eq\",[[2,-1],[0,1000]]],[\"eq\",[[2,1],[0,-1000]]],[\"eq\",[[3,-1],[0,999]]],[\"eq\",[[3,1],[0,-999]]],[\"eq\",[[4,-1],[0,998]]],[\"eq\",[[4,1],[0,-998]]],[\"eq\",[[5,-1],[0,997]]],[\"eq\",[[5,1],[0,-997]]],[\"eq\",[[7,-1],[6,1]]],[\"eq\",[[7,1],[6,-1]]],[\"eq\",[[8,-1],[1,1]]],[\"eq\",[[8,1],[1,-1]]],[\"le\",[[4,1],[0,-997]]]]}",
        "{\"ty\":\"oracle\",\"maxVar\":2,\"hyps\":[[\"lt\",[[0,-1]]],[\"lt\",[[2,1],[1,-1]]],[\"le\",[[2,-1],[1,1]]]]}",
        "{\"ty\":\"oracle\",\"maxVar\":1,\"hyps\":[[\"lt\",[[0,-1]]],[\"le\",[[1,3],[0,-2]]],[\"le\",[[1,-5],[0,4]]]]}",
    ];
    for line in rows {
        let inst = parse_line(line).unwrap();
        for engine in [Engine::Faithful, Engine::Tiered, Engine::Hybrid] {
            let mut ctr = CounterState::new();
            let (c, _) = solve(engine, &inst, FpOutcome::Unrepresentable, &mut ctr);
            let c = c.expect("these systems are infeasible");
            assert!(verify_cert(&inst.hyps, &c), "{line}");
        }
    }
}

#[test]
fn null_answers_come_from_satisfiable_requests() {
    // -1 < 0, x - 1 <= 0, -x < 0: x = 1/2 satisfies all three
    let line = "{\"maxVar\":1,\"hyps\":[[\"lt\",[[0,-1]]],[\"le\",[[1,1],[0,-1]]],[\"lt\",[[1,-1]]]]}";
    assert_eq!(respond(line), "{\"cert\":null}");
    let (_, hyps) = parse_request(line).unwrap();
    // evaluate 2 * t at x = 1/2 (so the constant atom counts 2 and x counts 1)
    for h in &hyps {
        let mut twice = 0i64;
        for (atom, c) in &h.coeffs {
            let c = small(c);
            twice += if *atom == 0 { 2 * c } else { c };
        }
        match h.ineq {
            Ineq::Lt => assert!(twice < 0),
            Ineq::Le => assert!(twice <= 0),
            Ineq::Eq => assert_eq!(twice, 0),
        }
    }
}

/// The value of a small big integer.
fn small(b: &BigNum) -> i64 {
    let mut v: i128 = 0;
    for d in b.mag.iter().rev() {
        v = v * (1i128 << 32) + *d as i128;
    }
    (if b.neg { -v } else { v }) as i64
}

#[test]
fn promotions_are_counted_exactly_when_a_product_leaves_its_tier() {
    let mut ctr = CounterState::new();
    let a = TRat::from_i64(1 << 62);
    let c0 = ctr.tls_counters();
    let b = a.mul(&a, &mut ctr);
    let c1 = ctr.tls_counters();
    assert_eq!(b.tier(), 1);
    assert_eq!((c1.ops[0] - c0.ops[0], c1.promo_to_i128 - c0.promo_to_i128), (1, 1));
    assert_eq!((c1.ops[1], c1.promo_to_big), (c0.ops[1], c0.promo_to_big));
    let c = b.mul(&b, &mut ctr);
    let c2 = ctr.tls_counters();
    assert_eq!(c.tier(), 2);
    assert_eq!((c2.ops[1] - c1.ops[1], c2.promo_to_big - c1.promo_to_big), (1, 1));
    assert_eq!((c2.ops[0], c2.promo_to_i128), (c1.ops[0], c1.promo_to_i128));
    // a product that stays in its tier records no promotion
    let d = TRat::from_i64(3).mul(&TRat::from_i64(5), &mut ctr);
    let c3 = ctr.tls_counters();
    assert_eq!(d.tier(), 0);
    assert_eq!((c3.ops[0] - c2.ops[0], c3.promo_to_i128), (1, c2.promo_to_i128));
}

#[test]
fn no_strict_hypothesis_goes_straight_to_the_exact_engine() {
    let hyps = vec![
        Hyp { ineq: Ineq::Le, coeffs: vec![(1, n(1))] },
        Hyp { ineq: Ineq::Le, coeffs: vec![(1, n(-1))] },
    ];
    let mut ctr = CounterState::new();
    let (c, route) = produce_certificate_hybrid(&hyps, 1, FpOutcome::Infeasible, &mut ctr);
    assert_eq!(route, Route::TieredDirect);
    assert!(c.is_none());
}

#[test]
fn verdict_ignores_order_and_positive_scaling() {
    let (_, hyps) = parse_request(VALID).unwrap();
    let cert = read_cert(&respond(VALID));
    let k = n(1_000_000_007);
    let mut scaled: Vec<(usize, BigNum)> = cert.iter().map(|(i, c)| (*i, c.mul(&k))).collect();
    scaled.reverse();
    assert!(verify_cert(&hyps, &cert));
    assert!(verify_cert(&hyps, &scaled));
    let mut bad = cert.clone();
    bad[0].1 = n(7);
    let mut bad_scaled: Vec<(usize, BigNum)> = bad.iter().map(|(i, c)| (*i, c.mul(&k))).collect();
    bad_scaled.reverse();
    assert_eq!(verify_cert(&hyps, &bad), verify_cert(&hyps, &bad_scaled));
}
