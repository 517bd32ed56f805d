//! Hand-checked corpus rows through the parser, the verifier and every engine.

use farkas_core::bignum::BigNum;
use farkas_core::counters::CounterState;
use farkas_core::hybrid::{exact_repair, produce_certificate_hybrid, FpOutcome, Route};
use farkas_core::oracle::produce_certificate;
use farkas_core::tiered::produce_certificate_tiered;
use farkas_core::types::{parse_line, Hyp, Ineq};
use farkas_core::verify::verify_cert;

fn bi(x: i64) -> BigNum {
    BigNum::from_i64(x)
}

// Row 1 (test/aime_1983_p1.lean call 1), cert {9:1, 5:1, 0:1}:
//   hyp9 = le [x1 - 1*c],  hyp5 = le [-x1 + 2c],  hyp0 = lt [-1*c]
//   sum: atom1: 1-1 = 0; atom0(c): -1+2-1 = 0; hyp0 is lt  => valid.
const ROW1: &str = r#"{"ty":"oracle","call":1,"t":80736211447781,"src":"test/aime_1983_p1.lean","maxVar":4,"nHyps":13,"hyps":[["lt",[[0,-1]]],["le",[[1,-1]]],["le",[[2,-1]]],["le",[[3,-1]]],["le",[[4,-1]]],["le",[[1,-1],[0,2]]],["le",[[2,-1],[0,2]]],["le",[[3,-1],[0,2]]],["le",[[4,-1]]],["le",[[1,1],[0,-1]]],["le",[[1,-1],[0,2]]],["le",[[2,-1],[0,2]]],["le",[[3,-1],[0,2]]]],"ns":2416303,"ok":true,"cert":[[9,1],[5,1],[0,1]]}"#;

// Row 2 (test/aime_1983_p2.lean call 1), cert {8:1, 3:1}:
//   hyp8 = lt [x2 - x1],  hyp3 = le [-x2 + x1]
//   sum: atom2: 1-1 = 0; atom1: -1+1 = 0; hyp8 is lt  => valid.
const ROW2: &str = r#"{"ty":"oracle","call":1,"t":80736034095310,"src":"test/aime_1983_p2.lean","maxVar":6,"nHyps":9,"hyps":[["lt",[[0,-1]]],["lt",[[1,-1]]],["lt",[[1,1],[0,-15]]],["le",[[2,-1],[1,1]]],["le",[[2,1],[0,-15]]],["eq",[[6,-1],[5,1],[4,1],[3,1]]],["eq",[[6,1],[5,-1],[4,-1],[3,-1]]],["le",[[2,-1],[1,1]]],["lt",[[2,1],[1,-1]]]],"ns":1802009,"ok":true,"cert":[[8,1],[3,1]]}"#;

// Row 3 (test/amc12_2000_p6.lean call 1), cert {7:1, 4:1, 0:1}:
//   hyp7 = le [-x1 + 19c],  hyp4 = le [x1 - 18c],  hyp0 = lt [-1c]
//   sum: atom1: -1+1 = 0; atom0: 19-18-1 = 0; hyp0 is lt  => valid.
const ROW3: &str = r#"{"ty":"oracle","call":1,"t":80924942757555,"src":"test/amc12_2000_p6.lean","maxVar":2,"nHyps":8,"hyps":[["lt",[[0,-1]]],["le",[[1,-1]]],["le",[[2,-1]]],["le",[[1,-1],[0,4]]],["le",[[1,1],[0,-18]]],["le",[[2,-1],[0,4]]],["le",[[2,1],[0,-18]]],["le",[[1,-1],[0,19]]]],"ns":1910609,"ok":true,"cert":[[7,1],[4,1],[0,1]]}"#;

#[test]
fn verifier_accepts_hand_checked_corpus_certs() {
    for row in [ROW1, ROW2, ROW3] {
        let inst = parse_line(row).expect("parse");
        let cert = inst.cert.as_ref().expect("cert");
        assert!(verify_cert(&inst.hyps, cert), "known-good cert must verify");
    }
}

#[test]
fn verifier_rejects_tampered_certs() {
    let inst = parse_line(ROW1).unwrap();
    // wrong weight breaks the zero-sum
    assert!(!verify_cert(&inst.hyps, &[(9, bi(2)), (5, bi(1)), (0, bi(1))]));
    // dropping the strict hyp: sum = (x1-1) + (-x1+2) = 1 != 0 -> reject
    assert!(!verify_cert(&inst.hyps, &[(9, bi(1)), (5, bi(1))]));
    let inst2 = parse_line(ROW2).unwrap();
    // nonpositive / out-of-range coefficients must be rejected outright.
    assert!(!verify_cert(&inst2.hyps, &[(3, bi(0))]));
    assert!(!verify_cert(&inst2.hyps, &[(3, bi(-1))]));
    assert!(!verify_cert(&inst2.hyps, &[(99, bi(1))]));
    assert!(!verify_cert(&inst2.hyps, &[]));
}

#[test]
fn oracle_solves_hand_checked_rows() {
    for row in [ROW1, ROW2, ROW3] {
        let inst = parse_line(row).unwrap();
        let cert = produce_certificate(&inst.hyps, inst.max_var)
            .expect("oracle must find a certificate");
        assert!(verify_cert(&inst.hyps, &cert), "produced cert must self-verify");
    }
}

#[test]
fn all_eq_corner_case_has_no_certificate() {
    // x = 0 and -x = 0: the weighted sum can vanish (1,1) but no hyp is
    // strict, so "0 = 0" is not a contradiction -> no certificate.
    let hyps = vec![
        Hyp { ineq: Ineq::Eq, coeffs: vec![(1, bi(1))] },
        Hyp { ineq: Ineq::Eq, coeffs: vec![(1, bi(-1))] },
    ];
    let mut ctr = CounterState::new();
    assert!(produce_certificate(&hyps, 1).is_none());
    assert!(produce_certificate_tiered(&hyps, 1, &mut ctr).is_none());
    // no strict hypothesis: the FP phase has no LP to build
    let (c, _) = produce_certificate_hybrid(&hyps, 1, FpOutcome::Unrepresentable, &mut ctr);
    assert!(c.is_none());
    // ...and the verifier agrees that the eq-only combination is no cert.
    assert!(!verify_cert(&hyps, &[(0, bi(1)), (1, bi(1))]));
}

#[test]
fn satisfiable_system_is_infeasible_for_cert_search() {
    // -1 < 0 (linarith's trivial hyp) and x > 0: jointly satisfiable,
    // so no nonneg combination sums to zero with a strict participant.
    let hyps = vec![
        Hyp { ineq: Ineq::Lt, coeffs: vec![(0, bi(-1))] },
        Hyp { ineq: Ineq::Lt, coeffs: vec![(1, bi(-1))] },
    ];
    let mut ctr = CounterState::new();
    assert!(produce_certificate(&hyps, 1).is_none());
    assert!(produce_certificate_tiered(&hyps, 1, &mut ctr).is_none());
    // the FP phase-1 LP (-mu0 = 0, -mu1 = 0, mu0 + mu1 = 1) is infeasible
    let (c, route) = produce_certificate_hybrid(&hyps, 1, FpOutcome::Infeasible, &mut ctr);
    assert!(c.is_none());
    // SOUNDNESS: the hybrid 'no certificate' must have come from an exact
    // engine, never from the FP path.
    assert!(!matches!(route, Route::Fp { .. }));
    // whatever supports a (wrong) FP point suggests, the answer stays exact
    let fp = FpOutcome::Feasible(vec![vec![0, 1], vec![1], vec![0]]);
    let (c, route) = produce_certificate_hybrid(&hyps, 1, fp, &mut ctr);
    assert!(c.is_none());
    assert!(!matches!(route, Route::Fp { .. }));
}

#[test]
fn tiered_engine_matches_faithful_on_hand_rows() {
    for row in [ROW1, ROW2, ROW3] {
        let inst = parse_line(row).unwrap();
        let mut ctr = CounterState::new();
        let cert = produce_certificate_tiered(&inst.hyps, inst.max_var, &mut ctr)
            .expect("tiered oracle must find a certificate");
        assert!(verify_cert(&inst.hyps, &cert), "tiered cert must self-verify");
        // identical algorithm -> identical certificate as faithful
        let faithful = produce_certificate(&inst.hyps, inst.max_var).unwrap();
        assert_eq!(cert, faithful, "tiered must make the same pivot decisions");
    }
}

#[test]
fn tier_promotion_mid_pivot_overflows_i64() {
    // x > A/B and x <= C/D with A/B > C/D: infeasible, and the pivot
    // arithmetic multiplies ~1e15-scale coprime values, whose ~1e30
    // products overflow i64 mid-solve and must promote to i128.
    let a: i64 = 1_000_000_000_000_001; // A = 1e15 + 1
    let b: i64 = 1_000_000_000_000_000; // B = 1e15
    let hyps = vec![
        Hyp { ineq: Ineq::Lt, coeffs: vec![(0, bi(-1))] },            // -1 < 0
        Hyp { ineq: Ineq::Lt, coeffs: vec![(1, bi(-b)), (0, bi(a))] }, // A - Bx < 0
        Hyp { ineq: Ineq::Le, coeffs: vec![(1, bi(a)), (0, bi(-b))] }, // Ax - B <= 0
    ];
    let mut ctr = CounterState::new();
    let before = ctr.tls_counters();
    let cert = produce_certificate_tiered(&hyps, 1, &mut ctr).expect("must find certificate");
    let after = ctr.tls_counters();
    assert!(verify_cert(&hyps, &cert), "cert must pass the exact verifier");
    assert!(
        after.promo_to_i128 > before.promo_to_i128,
        "solve must have promoted i64 -> i128 at least once \
         (promotions before {} after {})",
        before.promo_to_i128,
        after.promo_to_i128
    );
    // agreement with the faithful engine
    let faithful = produce_certificate(&hyps, 1).expect("faithful agrees");
    assert_eq!(cert, faithful);
}

#[test]
fn hybrid_engine_solves_hand_rows() {
    for row in [ROW1, ROW2, ROW3] {
        let inst = parse_line(row).unwrap();
        let support: Vec<usize> = inst.cert.as_ref().unwrap().iter().map(|(j, _)| *j).collect();
        // an FP point whose support is the true one, and an FP phase that stalls
        for fp in [FpOutcome::Feasible(vec![support.clone()]), FpOutcome::Stalled] {
            let mut ctr = CounterState::new();
            let (cert, _route) = produce_certificate_hybrid(&inst.hyps, inst.max_var, fp, &mut ctr);
            let cert = cert.expect("hybrid must find a certificate");
            assert!(verify_cert(&inst.hyps, &cert), "hybrid cert must self-verify");
        }
    }
}

#[test]
fn hybrid_falls_back_when_fp_feasible_but_exactly_infeasible() {
    // Column scaling maps the coefficients {2^60, 2^60+1} of hyp 1 to
    // {-2^60/(2^60+1), -1}, and -2^60/(2^60+1) rounds to -1.0 in f64, so the
    // FP LP is feasible with mu = (1, 1): every attempt proposes the support
    // [0, 1].  The exact lambda-space system is inconsistent, so exact repair
    // must reject it and the engine must fall back to tiered, which proves
    // there is no certificate.
    let n: i64 = 1 << 60;
    let hyps = vec![
        Hyp { ineq: Ineq::Lt, coeffs: vec![(1, bi(n)), (2, bi(n))] },
        Hyp { ineq: Ineq::Le, coeffs: vec![(1, bi(-(n + 1))), (2, bi(-n))] },
    ];
    let fp = FpOutcome::Feasible(vec![vec![0, 1], vec![0, 1], vec![0, 1]]);
    let mut ctr = CounterState::new();
    let (cert, route) = produce_certificate_hybrid(&hyps, 2, fp, &mut ctr);
    assert!(cert.is_none(), "exactly infeasible: no certificate may be produced");
    assert!(route.is_fallback(), "expected a fallback-to-tiered route, got {route:?}");
    // exact engines agree
    assert!(produce_certificate(&hyps, 2).is_none());
    assert!(produce_certificate_tiered(&hyps, 2, &mut ctr).is_none());
}

#[test]
fn tampered_support_rejected_by_exact_repair() {
    let inst = parse_line(ROW1).unwrap();
    let mut ctr = CounterState::new();
    // The true support {9, 5, 0} repairs to the known certificate.
    let cert = exact_repair(&inst.hyps, &[9, 5, 0], &mut ctr).expect("true support must repair");
    assert!(verify_cert(&inst.hyps, &cert));
    assert_eq!(cert, vec![(0usize, bi(1)), (5, bi(1)), (9, bi(1))]);
    // Tampered supports: dropping any needed column makes the restricted
    // system strict-free or inconsistent, and exact repair must reject.
    assert!(exact_repair(&inst.hyps, &[9, 5], &mut ctr).is_none(), "no strict hyp");
    assert!(exact_repair(&inst.hyps, &[5, 0], &mut ctr).is_none(), "inconsistent");
    assert!(exact_repair(&inst.hyps, &[9, 0], &mut ctr).is_none(), "inconsistent");
    assert!(exact_repair(&inst.hyps, &[0], &mut ctr).is_none(), "inconsistent");
    // An irrelevant extra column cannot smuggle in a bad certificate:
    // whatever repair returns must still pass the exact verifier.
    if let Some(c) = exact_repair(&inst.hyps, &[9, 5, 0, 1], &mut ctr) {
        assert!(verify_cert(&inst.hyps, &c));
    }
}
