//! Deterministic random instances: certificate search, exact verification,
//! agreement between the tiered and the reference engine, and tampering.

use farkas_core::bignum::BigNum;
use farkas_core::counters::CounterState;
use farkas_core::oracle::produce_certificate;
use farkas_core::tiered::produce_certificate_tiered;
use farkas_core::types::{Hyp, Ineq};
use farkas_core::verify::verify_cert;
use num_bigint::{BigInt, Sign};

/// Deterministic PRNG, fixed seeds: failures reproduce.
struct XorShift(u64);

impl XorShift {
    fn next(&mut self) -> u64 {
        let mut x = self.0;
        x ^= x << 13;
        x ^= x >> 7;
        x ^= x << 17;
        self.0 = x;
        x
    }

    fn below(&mut self, n: u64) -> u64 {
        self.next() % n
    }

    /// Small signed coefficient in [-10, 10] \ {0}.
    fn coeff(&mut self) -> i64 {
        let c = self.below(20) as i64 - 10;
        if c == 0 { 1 } else { c }
    }
}

fn big(x: &BigInt) -> BigNum {
    let (s, mag) = x.to_u32_digits();
    BigNum { neg: s == Sign::Minus, mag }
}

fn unbig(x: &BigNum) -> BigInt {
    BigInt::from_slice(if x.neg { Sign::Minus } else { Sign::Plus }, &x.mag)
}

/// A random instance in linarith's shape: atom 0 is the constant, the seed
/// hypothesis `-1 < 0` is present, and eq hypotheses are mirrored in both
/// orientations.
fn random_instance(rng: &mut XorShift) -> (Vec<Hyp>, usize) {
    let max_var = 1 + rng.below(6) as usize;
    let n_hyps = 1 + rng.below(8) as usize;
    let mut hyps = vec![Hyp { ineq: Ineq::Lt, coeffs: vec![(0, BigNum::from_i64(-1))] }];
    for _ in 0..n_hyps {
        let ineq = match rng.below(3) {
            0 => Ineq::Eq,
            1 => Ineq::Le,
            _ => Ineq::Lt,
        };
        let n_terms = 1 + rng.below(4) as usize;
        let mut coeffs: Vec<(usize, BigNum)> = Vec::new();
        for _ in 0..n_terms {
            let var = rng.below(max_var as u64 + 1) as usize;
            if !coeffs.iter().any(|(v, _)| *v == var) {
                coeffs.push((var, BigNum::from_i64(rng.coeff())));
            }
        }
        let neg: Vec<(usize, BigNum)> = coeffs.iter().map(|(v, c)| (*v, c.neg())).collect();
        hyps.push(Hyp { ineq, coeffs });
        if ineq == Ineq::Eq {
            hyps.push(Hyp { ineq: Ineq::Eq, coeffs: neg });
        }
    }
    (hyps, max_var)
}

/// Every certificate either engine produces must pass the exact verifier,
/// and the two exact engines must agree on certificate existence.
#[test]
fn random_roundtrip_and_engine_agreement() {
    let mut rng = XorShift(0x9E3779B97F4A7C15);
    let mut found = 0usize;
    for i in 0..500 {
        let (hyps, max_var) = random_instance(&mut rng);
        let mut ctr = CounterState::new();
        let tiered = produce_certificate_tiered(&hyps, max_var, &mut ctr);
        let reference = produce_certificate(&hyps, max_var);
        if let Some(cert) = &tiered {
            assert!(verify_cert(&hyps, cert), "unverified tiered cert on instance {i}");
            found += 1;
        }
        if let Some(cert) = &reference {
            assert!(verify_cert(&hyps, cert), "unverified reference cert on instance {i}");
        }
        assert_eq!(
            tiered.is_some(),
            reference.is_some(),
            "engines disagree on certificate existence, instance {i}: {hyps:?}"
        );
    }
    // the distribution must actually exercise the interesting branch
    assert!(found > 50, "only {found}/500 instances had certificates");
}

/// Same round-trip with ~10^40-scale coefficients: forces promotion out of
/// the i64 tier.
#[test]
fn random_roundtrip_big_coefficients() {
    let mut rng = XorShift(0xD1B54A32D192ED03);
    for i in 0..60 {
        let (mut hyps, max_var) = random_instance(&mut rng);
        for h in hyps.iter_mut().skip(1) {
            for (_, c) in h.coeffs.iter_mut() {
                let scale = BigInt::from(10u8).pow(20 + rng.below(20) as u32);
                *c = big(&(unbig(c) * &scale + BigInt::from(rng.coeff())));
            }
        }
        let mut ctr = CounterState::new();
        let tiered = produce_certificate_tiered(&hyps, max_var, &mut ctr);
        let reference = produce_certificate(&hyps, max_var);
        if let Some(cert) = &tiered {
            assert!(verify_cert(&hyps, cert), "unverified big-coeff cert on instance {i}");
        }
        assert_eq!(tiered.is_some(), reference.is_some(), "big-coeff disagreement, instance {i}");
    }
}

/// Hand-built instance with a known certificate, then every class of
/// tampering must be rejected.
#[test]
fn tampered_certificates_are_rejected() {
    // h0: -1 < 0 (seed), h1: x + 1 <= 0, h2: -x < 0; 1*h0 + 1*h1 + 1*h2 = 0<0
    let n = BigNum::from_i64;
    let hyps = vec![
        Hyp { ineq: Ineq::Lt, coeffs: vec![(0, n(-1))] },
        Hyp { ineq: Ineq::Le, coeffs: vec![(1, n(1)), (0, n(1))] },
        Hyp { ineq: Ineq::Lt, coeffs: vec![(1, n(-1))] },
    ];
    let good = vec![(0, n(1)), (1, n(1)), (2, n(1))];
    assert!(verify_cert(&hyps, &good), "the untampered certificate must verify");

    let perturbed = vec![(0, n(1)), (1, n(2)), (2, n(1))];
    assert!(!verify_cert(&hyps, &perturbed), "perturbed weight must fail");

    // only le hyps weighted: sums to zero but nothing strict
    let h_no_strict = vec![
        Hyp { ineq: Ineq::Le, coeffs: vec![(1, n(1))] },
        Hyp { ineq: Ineq::Le, coeffs: vec![(1, n(-1))] },
    ];
    let no_strict = vec![(0, n(1)), (1, n(1))];
    assert!(!verify_cert(&h_no_strict, &no_strict), "strictness-free cert must fail");

    let zero_weight = vec![(0, n(0)), (1, n(1)), (2, n(1))];
    assert!(!verify_cert(&hyps, &zero_weight), "zero weight must fail");
    let neg_weight = vec![(0, n(-1)), (1, n(1)), (2, n(1))];
    assert!(!verify_cert(&hyps, &neg_weight), "negative weight must fail");

    let out_of_range = vec![(0, n(1)), (7, n(1))];
    assert!(!verify_cert(&hyps, &out_of_range), "out-of-range index must fail");

    assert!(!verify_cert(&hyps, &[]), "empty cert must fail");
}
