//! Tiered rationals against `num-rational`, tier placement and promotion.

use farkas_core::bignum::{BigNum, BigRat};
use farkas_core::counters::CounterState;
use farkas_core::rat::{norm_m, TRat};
use num_bigint::{BigInt, Sign};
use num_rational::BigRational;
use num_traits::One;
use std::str::FromStr;

fn big(x: &BigInt) -> BigNum {
    let (s, mag) = x.to_u32_digits();
    BigNum { neg: s == Sign::Minus, mag }
}

fn big_rat(x: &BigRational) -> BigRat {
    BigRat { num: big(x.numer()), den: x.denom().to_u32_digits().1 }
}

fn q(n: i128, d: i128) -> TRat {
    norm_m(n, d)
}

fn ground(t: &TRat) -> BigRational {
    let r = t.to_bigrational();
    let sign = if r.num.neg { Sign::Minus } else { Sign::Plus };
    BigRational::new(BigInt::from_slice(sign, &r.num.mag), BigInt::from_slice(Sign::Plus, &r.den))
}

#[test]
fn arithmetic_matches_bigrational_across_tiers() {
    let mut ctr = CounterState::new();
    let big = TRat::from_bigint(&big(&BigInt::from_str("123456789012345678901234567890123456789").unwrap()));
    let big_scaled = big.mul(&q(-1, 7919), &mut ctr);
    let vals = [
        q(0, 1),
        q(3, 7),
        q(-5, 9),
        q(1, 1),
        q(i64::MAX as i128, 1),
        q(i64::MIN as i128, 3),
        q((i64::MAX as i128) * 12345, 67891),
        q(-(i64::MAX as i128) * 999983, (i64::MAX as i128) - 4),
        big.clone(),
        big_scaled,
    ];
    for x in &vals {
        for y in &vals {
            let (gx, gy) = (ground(x), ground(y));
            assert_eq!(ground(&x.add(y, &mut ctr)), &gx + &gy, "add {x:?} {y:?}");
            assert_eq!(ground(&x.sub(y, &mut ctr)), &gx - &gy, "sub {x:?} {y:?}");
            assert_eq!(ground(&x.mul(y, &mut ctr)), &gx * &gy, "mul {x:?} {y:?}");
            if !y.is_zero() {
                assert_eq!(ground(&x.div(y, &mut ctr)), &gx / &gy, "div {x:?} {y:?}");
            }
            assert_eq!(x.cmp_val(y), gx.cmp(&gy), "cmp {x:?} {y:?}");
        }
        assert_eq!(ground(&x.neg()), -ground(x), "neg {x:?}");
    }
}

#[test]
fn overflow_promotes_then_demotes() {
    let mut ctr = CounterState::new();
    let before = ctr.tls_counters();
    let a = TRat::from_i64(1 << 62);
    let b = a.mul(&a, &mut ctr); // 2^124: overflows i64, exact in i128
    assert_eq!(b.tier(), 1, "2^124 must land in the i128 tier");
    let c = b.mul(&b, &mut ctr); // 2^248: overflows i128 -> Big
    assert_eq!(c.tier(), 2, "2^248 must land in the Big tier");
    assert_eq!(ground(&c), ground(&a) * ground(&a) * ground(&a) * ground(&a));
    // demotion: dividing back down must return to the smallest tier
    let d = c.div(&b, &mut ctr).div(&b, &mut ctr);
    assert_eq!(d.tier(), 0);
    assert_eq!(d, TRat::one());
    let after = ctr.tls_counters();
    assert!(after.promo_to_i128 > before.promo_to_i128, "i64->i128 promotion recorded");
    assert!(after.promo_to_big > before.promo_to_big, "i128->Big promotion recorded");
}

#[test]
fn canonical_form_invariants() {
    let mut ctr = CounterState::new();
    // reduction + sign normalization
    match q(-4, -6) {
        TRat::S(n, d) => {
            assert_eq!((n, d), (2, 3));
        }
        other => panic!("expected S, got {other:?}"),
    }
    // i64::MIN edge cases
    let m = TRat::from_i64(i64::MIN);
    assert_eq!(m.neg().tier(), 1); // 2^63 does not fit i64
    assert_eq!(ground(&m.neg()), -ground(&m));
    let r = TRat::one().div(&m, &mut ctr);
    assert_eq!(ground(&r), ground(&m).recip());
    assert!(r.is_negative());
    // Big value that fits small tiers demotes on construction
    let one = TRat::B(Box::new(big_rat(&BigRational::one())));
    assert_eq!(one.add(&TRat::zero(), &mut ctr).tier(), 0);
}

#[test]
fn i128_min_never_enters_m_tier() {
    let mut ctr = CounterState::new();
    let two127 = BigRational::from(BigInt::one() << 127);
    // Construction site 1: from_bigint(-2^127) must not become M(i128::MIN).
    let m = TRat::from_bigint(&big(&(-(BigInt::one() << 127i32))));
    assert_ne!(m.tier(), 1, "-2^127 must live in the Big tier, not M");
    assert_eq!(ground(&m.neg()), two127, "neg(-2^127) must be exact");
    assert_eq!(ground(&TRat::one().div(&m, &mut ctr)), ground(&m).recip());
    // Construction site 2: a mixed-tier product landing exactly on -2^127.
    let p = TRat::from_bigint(&big(&(BigInt::one() << 64))).mul(&TRat::from_i64(i64::MIN), &mut ctr);
    assert_eq!(ground(&p), -&two127);
    assert_ne!(p.tier(), 1, "product -2^127 must live in the Big tier, not M");
    assert_eq!(ground(&p.neg()), two127, "neg of product must be exact");
    assert_eq!(ground(&TRat::one().div(&p, &mut ctr)), ground(&p).recip());
    // Construction site 3: Big-tier arithmetic shrinking to exactly -2^127.
    let s = TRat::B(Box::new(big_rat(&(-&two127 - BigRational::one())))).add(&TRat::one(), &mut ctr);
    assert_eq!(ground(&s), -&two127);
    assert_ne!(s.tier(), 1, "shrink_big(-2^127) must stay Big");
    assert_eq!(ground(&s.neg()), two127);
}
