//! Tiered exact rational arithmetic (`TRat`).
//!
//! A value is stored as `S(i64, i64)`, `M(i128, i128)` or `B(BigRat)`,
//! always in lowest terms with a positive denominator, and always in the
//! smallest tier it fits (`M` never holds `i128::MIN` as numerator).  Ring
//! operations try checked native arithmetic first and promote on overflow;
//! results are demoted again after every operation.  Each ring operation is
//! recorded in a `CounterState` (op at the tier of the widest operand, plus a
//! promotion event when a checked operation overflowed).
use crate::arith::{
    abs, gcd, gcd_u128, gcd_u64, lemma_coprime_divisors, lemma_coprime_product,
    lemma_coprime_symmetric, lemma_divide_out_gcd, lemma_exact_quotient, lemma_gcd_one,
    lemma_gcd_zero_left, lemma_coprime_shift, reduced,
};
use crate::bignum::{
    big_compare, big_sub, big_to_i128, big_to_i64, rat_add, rat_compare, rat_mul, rat_new, rat_sub,
    BigNum, BigRat,
};
use crate::counters::{advanced, lemma_advanced_trans, CounterState};
use crate::rational::{lemma_qnorm_unique, qadd, qdiv, qmul, qsub};
use std::cmp::Ordering;
use vstd::std_specs::cmp::{PartialEqSpecImpl, PartialOrdSpecImpl};
use vstd::prelude::*;

verus! {

pub open spec fn fits_i64(v: int) -> bool {
    i64::MIN <= v <= i64::MAX
}

pub open spec fn fits_i128(v: int) -> bool {
    i128::MIN <= v <= i128::MAX
}

/// The smallest tier that holds `n / d`: 0 = i64, 1 = i128, 2 = Big.
pub open spec fn canonical_tier(n: int, d: int) -> int {
    if fits_i64(n) && fits_i64(d) {
        0
    } else if fits_i128(n) && fits_i128(d) && n != i128::MIN {
        1
    } else {
        2
    }
}

/// A tiered exact rational.
#[derive(Debug)]
pub enum TRat {
    /// num/den, den > 0, reduced.
    S(i64, i64),
    /// num/den, den > 0, reduced, does not fit `S`; num is never i128::MIN.
    M(i128, i128),
    /// Reduced, positive denominator; does not fit `M`.
    B(Box<BigRat>),
}

impl View for TRat {
    type V = (int, int);

    open spec fn view(&self) -> (int, int) {
        (self.num(), self.den())
    }
}

impl TRat {
    pub open spec fn num(&self) -> int {
        match self {
            TRat::S(n, _) => *n as int,
            TRat::M(n, _) => *n as int,
            TRat::B(r) => r.num_v(),
        }
    }

    pub open spec fn den(&self) -> int {
        match self {
            TRat::S(_, d) => *d as int,
            TRat::M(_, d) => *d as int,
            TRat::B(r) => r.den_v(),
        }
    }

    pub open spec fn tier_spec(&self) -> int {
        match self {
            TRat::S(..) => 0,
            TRat::M(..) => 1,
            TRat::B(..) => 2,
        }
    }

    /// Lowest terms with a positive denominator; an `M` numerator is never
    /// `i128::MIN`.  Arithmetic accepts any such value.
    pub open spec fn valid(&self) -> bool {
        reduced(self.num(), self.den()) && !(self is M && self.num() == i128::MIN)
    }

    /// Valid and in the smallest tier: the form every operation returns.
    pub open spec fn wf(&self) -> bool {
        self.valid() && self.tier_spec() == canonical_tier(self.num(), self.den())
    }

    /// `self` denotes the rational `n / d`.
    pub open spec fn denotes(&self, n: int, d: int) -> bool {
        self.num() * d == n * self.den()
    }

    /// Tier an operation on `self` and `o` is attributed to: the widest operand.
    pub open spec fn op_tier(&self, o: &TRat) -> int {
        widest(self.tier_spec(), o.tier_spec())
    }
}

/// The reciprocal `1 / (n / d)` of a nonzero value, sign on the numerator.
pub open spec fn recip_view(v: (int, int)) -> (int, int) {
    if v.0 > 0 {
        (v.1, v.0)
    } else {
        (-v.1, -v.0)
    }
}

/// Tier an operation on operands of tiers `t1` and `t2` is attributed to.
pub open spec fn widest(t1: int, t2: int) -> int {
    if t1 == 2 || t2 == 2 {
        2
    } else if t1 == 0 && t2 == 0 {
        0
    } else {
        1
    }
}

/// The counters after one ring op at tier `t`: the op is counted, a
/// promotion out of that tier is recorded exactly when `promoted`, and
/// nothing else changes.
pub open spec fn counted_op(before: CounterState, after: CounterState, t: int, promoted: bool) -> bool {
    &&& after.flushed == before.flushed
    &&& after.global == before.global
    &&& after.tls.slot(t) == vstd::wrapping::u64_specs::wrapping_add(before.tls.slot(t), 1)
    &&& forall|j: int|
        0 <= j < 5 && j != t && j != t + 3 ==> #[trigger] after.tls.slot(j) == before.tls.slot(j)
    &&& t < 2 ==> after.tls.slot(t + 3) == if promoted {
        vstd::wrapping::u64_specs::wrapping_add(before.tls.slot(t + 3), 1)
    } else {
        before.tls.slot(t + 3)
    }
    &&& forall|j: int|
        0 <= j < 5 ==> #[trigger] after.ev(j) == before.ev(j) + if j == t || (t < 2 && promoted && j == t + 3) {
            1int
        } else {
            0int
        }
    &&& advanced(before, after)
}

/// One event on the running tally: a ring op at some tier, or an event
/// that leaves the tally as it is (a flush, a read or a reset of the totals,
/// a negation, a comparison).
pub open spec fn tally_step(a: CounterState, b: CounterState) -> bool {
    b.tls == a.tls || exists|t: int, p: bool| 0 <= t < 3 && #[trigger] counted_op(a, b, t, p)
}

/// Each state follows the one before by a tally event.
pub open spec fn tally_run(s: Seq<CounterState>) -> bool
    decreases s.len(),
{
    s.len() <= 1 || (tally_run(s.drop_last()) && tally_step(s[s.len() - 2], s[s.len() - 1]))
}

/// No state follows the one before by a ring op.
pub open spec fn quiet_run(s: Seq<CounterState>) -> bool
    decreases s.len(),
{
    s.len() <= 1 || (quiet_run(s.drop_last()) && s[s.len() - 1].tls == s[s.len() - 2].tls)
}

/// The running tally is never reset: over any run of events each counter
/// only grows (short of wrapping at 2^64), and over a run with no ring op it
/// stays as it is.
pub proof fn lemma_tally_never_resets(s: Seq<CounterState>, j: int)
    requires
        s.len() >= 1,
        0 <= j < 5,
        tally_run(s),
        forall|i: int| 0 <= i < s.len() ==> (#[trigger] s[i]).tls.slot(j) < u64::MAX,
    ensures
        s[s.len() - 1].tls.slot(j) >= s[0].tls.slot(j),
        quiet_run(s) ==> s[s.len() - 1].tls == s[0].tls,
    decreases s.len(),
{
    if s.len() > 1 {
        let p = s.drop_last();
        assert forall|i: int| 0 <= i < p.len() implies (#[trigger] p[i]).tls.slot(j) < u64::MAX by {
            assert(p[i] == s[i]);
        }
        lemma_tally_never_resets(p, j);
        assert(p[0] == s[0]);
        assert(p[p.len() - 1] == s[s.len() - 2]);
        let a = s[s.len() - 2];
        let b = s[s.len() - 1];
        assert(a.tls.slot(j) < u64::MAX);
        if b.tls != a.tls {
            let (t, pr) = choose|t: int, pr: bool| 0 <= t < 3 && #[trigger] counted_op(a, b, t, pr);
            if j != t && j != t + 3 {
                assert(b.tls.slot(j) == a.tls.slot(j));
            }
        }
    }
}

/// `v` fits the machine integer of tier `t` (i64 for 0, i128 for 1).
pub open spec fn fits_tier(v: int, t: int) -> bool {
    if t == 0 {
        fits_i64(v)
    } else {
        fits_i128(v)
    }
}

/// An addition or subtraction of `x` and `y` at tier `t` promotes: one of
/// the unreduced cross products, the common denominator or the unreduced
/// numerator overflows the tier's integers.
pub open spec fn addsub_promotes(x: (int, int), y: (int, int), subtract: bool, t: int) -> bool {
    t < 2 && !(fits_tier(x.0 * y.1, t) && fits_tier(y.0 * x.1, t) && fits_tier(x.1 * y.1, t) && fits_tier(
        if subtract {
            x.0 * y.1 - y.0 * x.1
        } else {
            x.0 * y.1 + y.0 * x.1
        },
        t,
    ))
}

/// A multiplication at tier `t` with reduced result `q` promotes: the
/// result leaves the tier.
pub open spec fn mul_promotes(q: (int, int), t: int) -> bool {
    t < 2 && canonical_tier(q.0, q.1) > t
}

/// Bound on a product of two bounded integers.
proof fn lemma_mul_bound(x: int, y: int, bx: int, by: int)
    requires
        -bx <= x <= bx,
        -by <= y <= by,
    ensures
        -(bx * by) <= x * y <= bx * by,
{
    let ax = abs(x) as int;
    let ay = abs(y) as int;
    vstd::arithmetic::mul::lemma_mul_upper_bound(ax, bx, ay, by);
    assert(abs(x * y) as int == ax * ay) by (nonlinear_arith)
        requires
            ax == (if x < 0 { -x } else { x }),
            ay == (if y < 0 { -y } else { y }),
            abs(x * y) as int == (if x * y < 0 { -(x * y) } else { x * y }),
    ;
}

/// `r` over `d1` denotes `n1 / d1`, which equals `n2 / d2`: so `r` denotes `n2 / d2`.
proof fn lemma_denotes_trans(rn: int, rd: int, n1: int, d1: int, n2: int, d2: int)
    requires
        rn * d1 == n1 * rd,
        n1 * d2 == n2 * d1,
        d1 != 0,
    ensures
        rn * d2 == n2 * rd,
{
    assert(d1 * (rn * d2) == d1 * (n2 * rd)) by (nonlinear_arith)
        requires
            rn * d1 == n1 * rd,
            n1 * d2 == n2 * d1,
    ;
    assert(rn * d2 == n2 * rd) by (nonlinear_arith)
        requires
            d1 * (rn * d2) == d1 * (n2 * rd),
            d1 != 0,
    ;
}

/// Cross-reducing `a/b * c/d` by `g1 = gcd(a, d)` and `g2 = gcd(c, b)` leaves
/// a product that is already in lowest terms.
proof fn lemma_cross_reduce(
    a: int,
    b: int,
    c: int,
    d: int,
    g1: int,
    g2: int,
    a2: int,
    b2: int,
    c2: int,
    d2: int,
)
    requires
        reduced(a, b),
        reduced(c, d),
        g1 > 0,
        g2 > 0,
        a == g1 * a2,
        d == g1 * d2,
        c == g2 * c2,
        b == g2 * b2,
        gcd(abs(a2), d2 as nat) == 1,
        gcd(abs(c2), b2 as nat) == 1,
    ensures
        b2 > 0,
        d2 > 0,
        reduced(a2 * c2, b2 * d2),
        (a2 * c2) * (b * d) == (a * c) * (b2 * d2),
{
    assert(b2 > 0 && d2 > 0) by (nonlinear_arith)
        requires
            b > 0,
            d > 0,
            g1 > 0,
            g2 > 0,
            d == g1 * d2,
            b == g2 * b2,
    ;
    assert(abs(a) == g1 * abs(a2)) by (nonlinear_arith)
        requires
            a == g1 * a2,
            g1 > 0,
            abs(a) == (if a < 0 { -a } else { a }),
            abs(a2) == (if a2 < 0 { -a2 } else { a2 }),
    ;
    assert(abs(c) == g2 * abs(c2)) by (nonlinear_arith)
        requires
            c == g2 * c2,
            g2 > 0,
            abs(c) == (if c < 0 { -c } else { c }),
            abs(c2) == (if c2 < 0 { -c2 } else { c2 }),
    ;
    let b2n = b2 as nat;
    let d2n = d2 as nat;
    lemma_coprime_divisors(abs(a), b as nat, abs(a2), b2n, g1, g2);
    lemma_coprime_divisors(abs(c), d as nat, abs(c2), d2n, g2, g1);
    lemma_coprime_product(abs(a2), b2n, d2n);
    lemma_coprime_product(abs(c2), b2n, d2n);
    lemma_coprime_symmetric(abs(a2), b2n * d2n);
    lemma_coprime_symmetric(abs(c2), b2n * d2n);
    lemma_coprime_product(b2n * d2n, abs(a2), abs(c2));
    lemma_coprime_symmetric(b2n * d2n, abs(a2) * abs(c2));
    assert(abs(a2 * c2) == abs(a2) * abs(c2)) by (nonlinear_arith)
        requires
            abs(a2) == (if a2 < 0 { -a2 } else { a2 }),
            abs(c2) == (if c2 < 0 { -c2 } else { c2 }),
            abs(a2 * c2) == (if a2 * c2 < 0 { -(a2 * c2) } else { a2 * c2 }),
    ;
    assert((b2n * d2n) as int == b2 * d2);
    assert(b2 * d2 > 0) by (nonlinear_arith)
        requires
            b2 > 0,
            d2 > 0,
    ;
    assert(gcd(abs(a2) * abs(c2), b2n * d2n) == 1);
    assert(((b2 * d2) as nat) == b2n * d2n);
    assert(gcd(abs(a2 * c2), (b2 * d2) as nat) == 1);
    assert((a2 * c2) * (b * d) == (a * c) * (b2 * d2)) by (nonlinear_arith)
        requires
            a == g1 * a2,
            d == g1 * d2,
            c == g2 * c2,
            b == g2 * b2,
    ;
}

fn mag64(n: i64) -> (r: u64)
    ensures
        r as int == abs(n as int),
{
    if n < 0 {
        if n == i64::MIN {
            9223372036854775808u64
        } else {
            (-n) as u64
        }
    } else {
        n as u64
    }
}

fn mag128(n: i128) -> (r: u128)
    ensures
        r as int == abs(n as int),
{
    if n < 0 {
        if n == i128::MIN {
            170141183460469231731687303715884105728u128
        } else {
            (-n) as u128
        }
    } else {
        n as u128
    }
}

/// `q` with the given sign, as i64.
fn signed64(q: u64, negative: bool) -> (r: i64)
    requires
        q <= 9223372036854775808,
        !negative ==> q <= 9223372036854775807,
    ensures
        r as int == (if negative { -(q as int) } else { q as int }),
{
    if negative {
        if q == 9223372036854775808 {
            i64::MIN
        } else {
            -(q as i64)
        }
    } else {
        q as i64
    }
}

/// `q` with the given sign, as i128 (`q < 2^127`).
fn signed128(q: u128, negative: bool) -> (r: i128)
    requires
        q <= 170141183460469231731687303715884105727,
    ensures
        r as int == (if negative { -(q as int) } else { q as int }),
{
    if negative {
        -(q as i128)
    } else {
        q as i128
    }
}

fn in_i64(v: i128) -> (r: bool)
    ensures
        r == fits_i64(v as int),
{
    -9223372036854775808i128 <= v && v <= 9223372036854775807i128
}

proof fn lemma_zero_reduced()
    ensures
        reduced(0, 1),
{
    lemma_gcd_zero_left(1);
}

/// Reduce `n / d` (d > 0, both i64); the result always fits `S`.
fn norm_s(n: i64, d: i64) -> (r: TRat)
    requires
        d > 0,
    ensures
        r.wf(),
        r.tier_spec() == 0,
        r.denotes(n as int, d as int),
{
    if n == 0 {
        proof {
            lemma_zero_reduced();
        }
        return TRat::S(0, 1);
    }
    let an = mag64(n);
    let du = d as u64;
    let g = gcd_u64(an, du);
    proof {
        lemma_divide_out_gcd(an as nat, du as nat);
        lemma_exact_quotient(an as nat, g as nat);
        lemma_exact_quotient(du as nat, g as nat);
    }
    let qn = an / g;
    let qd = du / g;
    let num = signed64(qn, n < 0);
    let den = qd as i64;
    proof {
        let gi = g as int;
        assert(num as int * d as int == n as int * den as int) by (nonlinear_arith)
            requires
                an as int == gi * qn,
                du as int == gi * qd,
                du as int == d as int,
                an as int == abs(n as int),
                num as int == (if n < 0 { -(qn as int) } else { qn as int }),
                den as int == qd as int,
        ;
        assert(abs(num as int) == qn as nat);
    }
    TRat::S(num, den)
}

/// Demote an already reduced i128 pair to `S` when both parts fit.
fn demote_m(n: i128, d: i128) -> (r: TRat)
    requires
        reduced(n as int, d as int),
        n != i128::MIN,
    ensures
        r.wf(),
        r.num() == n,
        r.den() == d,
{
    if in_i64(n) && in_i64(d) {
        TRat::S(n as i64, d as i64)
    } else {
        TRat::M(n, d)
    }
}

/// Reduce `n / d` (i128, d != 0) into the smallest fitting tier.
pub fn norm_m(n: i128, d: i128) -> (r: TRat)
    requires
        d != 0,
    ensures
        r.wf(),
        r.denotes(n as int, d as int),
{
    if n == 0 {
        proof {
            lemma_zero_reduced();
        }
        return TRat::S(0, 1);
    }
    if n == i128::MIN || d == i128::MIN {
        let bn = BigNum::from_i128(n);
        let bd = BigNum::from_i128(d);
        let q = rat_new(&bn, &bd);
        return shrink_big(q);
    }
    let an = mag128(n);
    let ad = mag128(d);
    let g = gcd_u128(an, ad);
    proof {
        lemma_divide_out_gcd(an as nat, ad as nat);
        lemma_exact_quotient(an as nat, g as nat);
        lemma_exact_quotient(ad as nat, g as nat);
    }
    let qn = an / g;
    let qd = ad / g;
    let num = signed128(qn, (n < 0) != (d < 0));
    let den = signed128(qd, false);
    proof {
        let gi = g as int;
        assert(num as int * d as int == n as int * den as int) by (nonlinear_arith)
            requires
                an as int == gi * qn,
                ad as int == gi * qd,
                an as int == abs(n as int),
                ad as int == abs(d as int),
                num as int == (if (n < 0) != (d < 0) { -(qn as int) } else { qn as int }),
                den as int == qd as int,
        ;
        assert(abs(num as int) == qn as nat);
        assert(qd > 0);
    }
    demote_m(num, den)
}

/// Demote a reduced big rational to the smallest fitting tier.  A numerator
/// of exactly i128::MIN stays Big.
pub fn shrink_big(r: BigRat) -> (t: TRat)
    requires
        r.wf(),
    ensures
        t.wf(),
        t.num() == r.num_v(),
        t.den() == r.den_v(),
{
    let den_mag = r.den.clone();
    assert(den_mag@ =~= r.den@);
    let den_num = BigNum { neg: false, mag: den_mag };
    match (big_to_i128(&r.num), big_to_i128(&den_num)) {
        (Some(n), Some(d)) => {
            if n == i128::MIN {
                TRat::B(Box::new(r))
            } else {
                demote_m(n, d)
            }
        },
        _ => TRat::B(Box::new(r)),
    }
}

impl Clone for TRat {
    fn clone(&self) -> (r: TRat)
        ensures
            r.num() == self.num(),
            r.den() == self.den(),
            r.tier_spec() == self.tier_spec(),
    {
        match self {
            TRat::S(n, d) => TRat::S(*n, *d),
            TRat::M(n, d) => TRat::M(*n, *d),
            TRat::B(r) => TRat::B(Box::new(r.copy())),
        }
    }
}

impl TRat {
    pub fn zero() -> (r: TRat)
        ensures
            r.wf(),
            r@ == (0int, 1int),
    {
        proof {
            lemma_zero_reduced();
        }
        TRat::S(0, 1)
    }

    pub fn one() -> (r: TRat)
        ensures
            r.wf(),
            r@ == (1int, 1int),
    {
        proof {
            lemma_gcd_one(1);
        }
        TRat::S(1, 1)
    }

    pub fn from_i64(n: i64) -> (r: TRat)
        ensures
            r.wf(),
            r@ == (n as int, 1int),
    {
        proof {
            lemma_gcd_one(abs(n as int));
        }
        TRat::S(n, 1)
    }

    /// The integer `v`, stored in the smallest tier that holds it.
    pub fn from_bigint(v: &BigNum) -> (r: TRat)
        ensures
            r.wf(),
            r@ == (v@, 1int),
    {
        proof {
            lemma_gcd_one(abs(v@));
        }
        match big_to_i64(v) {
            Some(n) => TRat::S(n, 1),
            None => match big_to_i128(v) {
                Some(n) => {
                    if n != i128::MIN {
                        TRat::M(n, 1)
                    } else {
                        TRat::B(Box::new(BigRat::from_integer(v.clone())))
                    }
                },
                None => TRat::B(Box::new(BigRat::from_integer(v.clone()))),
            },
        }
    }

    /// 0 = i64, 1 = i128, 2 = Big.
    pub fn tier(&self) -> (r: usize)
        ensures
            r as int == self.tier_spec(),
    {
        match self {
            TRat::S(..) => 0,
            TRat::M(..) => 1,
            TRat::B(..) => 2,
        }
    }

    /// The same value as a big rational.
    pub fn to_bigrational(&self) -> (r: BigRat)
        requires
            self.den() > 0,
        ensures
            r.num_v() == self.num(),
            r.den_v() == self.den(),
    {
        match self {
            TRat::S(n, d) => {
                let dd = BigNum::from_i128(*d as i128);
                BigRat { num: BigNum::from_i128(*n as i128), den: dd.mag }
            },
            TRat::M(n, d) => {
                let dd = BigNum::from_i128(*d);
                BigRat { num: BigNum::from_i128(*n), den: dd.mag }
            },
            TRat::B(r) => r.copy(),
        }
    }

    pub fn is_zero(&self) -> (r: bool)
        ensures
            r == (self.num() == 0),
    {
        match self {
            TRat::S(n, _) => *n == 0,
            TRat::M(n, _) => *n == 0,
            TRat::B(r) => r.is_zero(),
        }
    }

    pub fn is_positive(&self) -> (r: bool)
        ensures
            r == (self.num() > 0),
    {
        match self {
            TRat::S(n, _) => *n > 0,
            TRat::M(n, _) => *n > 0,
            TRat::B(r) => r.is_positive(),
        }
    }

    pub fn is_negative(&self) -> (r: bool)
        ensures
            r == (self.num() < 0),
    {
        match self {
            TRat::S(n, _) => *n < 0,
            TRat::M(n, _) => *n < 0,
            TRat::B(r) => r.is_negative(),
        }
    }

    /// Exact negation; not counted as a ring op.
    pub fn neg(&self) -> (r: TRat)
        requires
            self.valid(),
        ensures
            r.wf(),
            r@ == (-self.num(), self.den()),
    {
        match self {
            TRat::S(n, d) => {
                if *n == i64::MIN {
                    TRat::M(9223372036854775808i128, *d as i128)
                } else {
                    TRat::S(-*n, *d)
                }
            },
            TRat::M(n, d) => demote_m(-*n, *d),
            TRat::B(r) => shrink_big(r.neg()),
        }
    }

    fn as_i128(&self) -> (r: (i128, i128))
        requires
            self.tier_spec() != 2,
        ensures
            r.0 as int == self.num(),
            r.1 as int == self.den(),
    {
        match self {
            TRat::S(n, d) => (*n as i128, *d as i128),
            TRat::M(n, d) => (*n, *d),
            TRat::B(_) => (0, 1),
        }
    }
}

impl TRat {
    /// `self + o`, exact.
    pub fn add(&self, o: &TRat, ctr: &mut CounterState) -> (r: TRat)
        requires
            self.valid(),
            o.valid(),
        ensures
            r.wf(),
            r@ == qadd(self@, o@),
            r.denotes(self.num() * o.den() + o.num() * self.den(), self.den() * o.den()),
            counted_op(*old(ctr), *final(ctr), self.op_tier(o), addsub_promotes(self@, o@, false, self.op_tier(o))),
    {
        let r = self.addsub(o, false, ctr);
        proof {
            assert(self.den() * o.den() != 0) by (nonlinear_arith)
                requires
                    self.den() > 0,
                    o.den() > 0,
            ;
            lemma_qnorm_unique(r@, self.num() * o.den() + o.num() * self.den(), self.den() * o.den());
        }
        r
    }

    /// `self - o`, exact.
    pub fn sub(&self, o: &TRat, ctr: &mut CounterState) -> (r: TRat)
        requires
            self.valid(),
            o.valid(),
        ensures
            r.wf(),
            r@ == qsub(self@, o@),
            r.denotes(self.num() * o.den() - o.num() * self.den(), self.den() * o.den()),
            counted_op(*old(ctr), *final(ctr), self.op_tier(o), addsub_promotes(self@, o@, true, self.op_tier(o))),
    {
        let r = self.addsub(o, true, ctr);
        proof {
            assert(self.den() * o.den() != 0) by (nonlinear_arith)
                requires
                    self.den() > 0,
                    o.den() > 0,
            ;
            lemma_qnorm_unique(r@, self.num() * o.den() - o.num() * self.den(), self.den() * o.den());
        }
        r
    }

    #[verifier::spinoff_prover]
    fn addsub(&self, o: &TRat, subtract: bool, ctr: &mut CounterState) -> (r: TRat)
        requires
            self.valid(),
            o.valid(),
        ensures
            r.wf(),
            r.denotes(
                if subtract {
                    self.num() * o.den() - o.num() * self.den()
                } else {
                    self.num() * o.den() + o.num() * self.den()
                },
                self.den() * o.den(),
            ),
            counted_op(*old(ctr), *final(ctr), self.op_tier(o), addsub_promotes(self@, o@, subtract, self.op_tier(o))),
    {
        match (self, o) {
            (TRat::S(a, b), TRat::S(c, d)) => {
                ctr.bump(0);
                let ghost mid = *ctr;
                let (a, b, c, d) = (*a, *b, *c, *d);
                let fast = match (a.checked_mul(d), c.checked_mul(b), b.checked_mul(d)) {
                    (Some(t1), Some(t2), Some(bd)) => {
                        let n = if subtract {
                            t1.checked_sub(t2)
                        } else {
                            t1.checked_add(t2)
                        };
                        match n {
                            Some(n) => {
                                assert(bd > 0) by (nonlinear_arith)
                                    requires
                                        b > 0,
                                        d > 0,
                                        bd == b * d,
                                ;
                                Some(norm_s(n, bd))
                            },
                            None => None,
                        }
                    },
                    _ => None,
                };
                if let Some(r) = fast {
                    return r;
                }
                ctr.bump(3);
                proof {
                    lemma_advanced_trans(*old(ctr), mid, *ctr);
                }
                let (ai, bi, ci, di) = (a as i128, b as i128, c as i128, d as i128);
                assert(-85070591730234615856620279821087277056 <= ai * di
                    <= 85070591730234615856620279821087277056) by (nonlinear_arith)
                    requires
                        -9223372036854775808 <= ai <= 9223372036854775807,
                        0 < di <= 9223372036854775807,
                ;
                assert(-85070591730234615856620279821087277056 <= ci * bi
                    <= 85070591730234615856620279821087277056) by (nonlinear_arith)
                    requires
                        -9223372036854775808 <= ci <= 9223372036854775807,
                        0 < bi <= 9223372036854775807,
                ;
                assert(0 < bi * di <= 85070591730234615856620279821087277056) by (nonlinear_arith)
                    requires
                        0 < bi <= 9223372036854775807,
                        0 < di <= 9223372036854775807,
                ;
                let t1 = ai * di;
                let t2 = ci * bi;
                let n = if subtract {
                    t1 - t2
                } else {
                    t1 + t2
                };
                norm_m(n, bi * di)
            },
            (TRat::B(_), _) | (_, TRat::B(_)) => {
                ctr.bump(2);
                let x = self.to_bigrational();
                let y = o.to_bigrational();
                if x.is_integer() && y.is_integer() {
                    let n = if subtract {
                        big_sub(&x.num, &y.num)
                    } else {
                        x.num.add(&y.num)
                    };
                    return shrink_big(BigRat::integer(n));
                }
                if x.is_integer() {
                    // a +- p/q = (a*q +- p)/q, already in lowest terms
                    let q = BigNum { neg: false, mag: y.den.clone() };
                    assert(q.mag@ =~= y.den@);
                    let aq = x.num.mul(&q);
                    let n = if subtract {
                        big_sub(&aq, &y.num)
                    } else {
                        aq.add(&y.num)
                    };
                    proof {
                        let (a, p, qq) = (x.num_v(), y.num_v(), y.den_v());
                        if subtract {
                            lemma_coprime_shift(p, -a, qq);
                            assert(abs(n@) == abs(-a * qq + p)) by (nonlinear_arith)
                                requires
                                    n@ == a * qq - p,
                                    abs(n@) == (if n@ < 0 { -n@ } else { n@ }),
                                    abs(-a * qq + p) == (if -a * qq + p < 0 { -(-a * qq + p) } else { -a * qq + p }),
                            ;
                        } else {
                            lemma_coprime_shift(p, a, qq);
                        }
                    }
                    let den = y.den.clone();
                    assert(den@ =~= y.den@);
                    return shrink_big(BigRat { num: n, den });
                }
                if y.is_integer() {
                    // p/q +- c = (p +- c*q)/q, already in lowest terms
                    let q = BigNum { neg: false, mag: x.den.clone() };
                    assert(q.mag@ =~= x.den@);
                    let cq = y.num.mul(&q);
                    let n = if subtract {
                        big_sub(&x.num, &cq)
                    } else {
                        x.num.add(&cq)
                    };
                    proof {
                        let (c, p, qq) = (y.num_v(), x.num_v(), x.den_v());
                        if subtract {
                            lemma_coprime_shift(p, -c, qq);
                            assert(n@ == -c * qq + p) by (nonlinear_arith)
                                requires
                                    n@ == p - c * qq,
                            ;
                        } else {
                            lemma_coprime_shift(p, c, qq);
                        }
                    }
                    let den = x.den.clone();
                    assert(den@ =~= x.den@);
                    return shrink_big(BigRat { num: n, den });
                }
                let q = if subtract {
                    rat_sub(&x, &y)
                } else {
                    rat_add(&x, &y)
                };
                shrink_big(q)
            },
            _ => {
                ctr.bump(1);
                let ghost mid = *ctr;
                let (a, b) = self.as_i128();
                let (c, d) = o.as_i128();
                let fast = match (a.checked_mul(d), c.checked_mul(b), b.checked_mul(d)) {
                    (Some(t1), Some(t2), Some(bd)) => {
                        let n = if subtract {
                            t1.checked_sub(t2)
                        } else {
                            t1.checked_add(t2)
                        };
                        match n {
                            Some(n) => {
                                assert(bd > 0) by (nonlinear_arith)
                                    requires
                                        b > 0,
                                        d > 0,
                                        bd == b * d,
                                ;
                                Some(norm_m(n, bd))
                            },
                            None => None,
                        }
                    },
                    _ => None,
                };
                if let Some(r) = fast {
                    return r;
                }
                ctr.bump(4);
                proof {
                    lemma_advanced_trans(*old(ctr), mid, *ctr);
                }
                let t1 = BigNum::from_i128(a).mul(&BigNum::from_i128(d));
                let t2 = BigNum::from_i128(c).mul(&BigNum::from_i128(b));
                let n = if subtract {
                    big_sub(&t1, &t2)
                } else {
                    t1.add(&t2)
                };
                let den = BigNum::from_i128(b).mul(&BigNum::from_i128(d));
                assert(den@ > 0) by (nonlinear_arith)
                    requires
                        b > 0,
                        d > 0,
                        den@ == b * d,
                ;
                shrink_big(rat_new(&n, &den))
            },
        }
    }
}

impl TRat {
    /// `self * o`, exact (factors are cross-reduced first).
    pub fn mul(&self, o: &TRat, ctr: &mut CounterState) -> (r: TRat)
        requires
            self.valid(),
            o.valid(),
        ensures
            r.wf(),
            r@ == qmul(self@, o@),
            r.denotes(self.num() * o.num(), self.den() * o.den()),
            counted_op(*old(ctr), *final(ctr), self.op_tier(o), mul_promotes(qmul(self@, o@), self.op_tier(o))),
    {
        let r = self.mul_cross(o, ctr);
        proof {
            assert(self.den() * o.den() != 0) by (nonlinear_arith)
                requires
                    self.den() > 0,
                    o.den() > 0,
            ;
            lemma_qnorm_unique(r@, self.num() * o.num(), self.den() * o.den());
        }
        r
    }

    fn mul_cross(&self, o: &TRat, ctr: &mut CounterState) -> (r: TRat)
        requires
            self.valid(),
            o.valid(),
        ensures
            r.wf(),
            r.denotes(self.num() * o.num(), self.den() * o.den()),
            counted_op(*old(ctr), *final(ctr), self.op_tier(o), mul_promotes(qmul(self@, o@), self.op_tier(o))),
    {
        match (self, o) {
            (TRat::S(a, b), TRat::S(c, d)) => {
                ctr.bump(0);
                let ghost mid = *ctr;
                let (a, b, c, d) = (*a, *b, *c, *d);
                if a == 0 || c == 0 {
                    proof {
                        lemma_zero_reduced();
                        assert(a * c == 0) by (nonlinear_arith)
                            requires
                                a == 0 || c == 0,
                        ;
                    }
                    return TRat::S(0, 1);
                }
                let ma = mag64(a);
                let mc = mag64(c);
                let du = d as u64;
                let bu = b as u64;
                let g1 = gcd_u64(ma, du);
                let g2 = gcd_u64(mc, bu);
                proof {
                    lemma_divide_out_gcd(ma as nat, du as nat);
                    lemma_divide_out_gcd(mc as nat, bu as nat);
                    lemma_exact_quotient(ma as nat, g1 as nat);
                    lemma_exact_quotient(du as nat, g1 as nat);
                    lemma_exact_quotient(mc as nat, g2 as nat);
                    lemma_exact_quotient(bu as nat, g2 as nat);
                }
                let a2 = signed64(ma / g1, a < 0);
                let d2 = (du / g1) as i64;
                let c2 = signed64(mc / g2, c < 0);
                let b2 = (bu / g2) as i64;
                proof {
                    let (g1i, g2i) = (g1 as int, g2 as int);
                    assert(a as int == g1i * a2) by (nonlinear_arith)
                        requires
                            ma as int == g1i * (ma / g1) as int,
                            ma as int == abs(a as int),
                            a2 as int == (if a < 0 { -((ma / g1) as int) } else { (ma / g1) as int }),
                    ;
                    assert(c as int == g2i * c2) by (nonlinear_arith)
                        requires
                            mc as int == g2i * (mc / g2) as int,
                            mc as int == abs(c as int),
                            c2 as int == (if c < 0 { -((mc / g2) as int) } else { (mc / g2) as int }),
                    ;
                    assert(abs(a2 as int) == (ma / g1) as nat);
                    assert(abs(c2 as int) == (mc / g2) as nat);
                    lemma_cross_reduce(
                        a as int,
                        b as int,
                        c as int,
                        d as int,
                        g1i,
                        g2i,
                        a2 as int,
                        b2 as int,
                        c2 as int,
                        d2 as int,
                    );
                    assert((b as int) * (d as int) != 0) by (nonlinear_arith)
                        requires
                            b > 0,
                            d > 0,
                    ;
                    lemma_qnorm_unique((a2 * c2, b2 * d2), (a as int) * (c as int), (b as int) * (d as int));
                    assert((a2 * c2, b2 * d2) == qmul(self@, o@));
                }
                match (a2.checked_mul(c2), b2.checked_mul(d2)) {
                    (Some(n), Some(den)) => TRat::S(n, den),
                    _ => {
                        ctr.bump(3);
                        proof {
                            lemma_advanced_trans(*old(ctr), mid, *ctr);
                        }
                        let (a2i, b2i, c2i, d2i) = (a2 as i128, b2 as i128, c2 as i128, d2 as i128);
                        proof {
                            lemma_mul_bound(a2i as int, c2i as int, 9223372036854775808, 9223372036854775808);
                        }
                        assert(0 < b2i * d2i <= 85070591730234615856620279821087277056) by (nonlinear_arith)
                            requires
                                0 < b2i <= 9223372036854775807,
                                0 < d2i <= 9223372036854775807,
                        ;
                        let r = norm_m(a2i * c2i, b2i * d2i);
                        proof {
                            lemma_denotes_trans(
                                r.num(),
                                r.den(),
                                a2 * c2,
                                b2 * d2,
                                a * c,
                                b * d,
                            );
                        }
                        r
                    },
                }
            },
            (TRat::B(_), _) | (_, TRat::B(_)) => {
                ctr.bump(2);
                let x = self.to_bigrational();
                let y = o.to_bigrational();
                if x.is_integer() && y.is_integer() {
                    return shrink_big(BigRat::integer(x.num.mul(&y.num)));
                }
                shrink_big(rat_mul(&x, &y))
            },
            _ => {
                ctr.bump(1);
                let ghost mid = *ctr;
                let (a, b) = self.as_i128();
                let (c, d) = o.as_i128();
                if a == 0 || c == 0 {
                    proof {
                        lemma_zero_reduced();
                        let (sn, on, sd, od) = (self.num(), o.num(), self.den(), o.den());
                        assert(sn == a as int && on == c as int);
                        assert(0 * (sd * od) == sn * on * 1) by (nonlinear_arith)
                            requires
                                sn == 0 || on == 0,
                        ;
                    }
                    return TRat::S(0, 1);
                }
                let ma = mag128(a);
                let mc = mag128(c);
                let du = d as u128;
                let bu = b as u128;
                let g1 = gcd_u128(ma, du);
                let g2 = gcd_u128(mc, bu);
                proof {
                    lemma_divide_out_gcd(ma as nat, du as nat);
                    lemma_divide_out_gcd(mc as nat, bu as nat);
                    lemma_exact_quotient(ma as nat, g1 as nat);
                    lemma_exact_quotient(du as nat, g1 as nat);
                    lemma_exact_quotient(mc as nat, g2 as nat);
                    lemma_exact_quotient(bu as nat, g2 as nat);
                }
                let a2 = signed128(ma / g1, a < 0);
                let d2 = signed128(du / g1, false);
                let c2 = signed128(mc / g2, c < 0);
                let b2 = signed128(bu / g2, false);
                proof {
                    let (g1i, g2i) = (g1 as int, g2 as int);
                    assert(a as int == g1i * a2) by (nonlinear_arith)
                        requires
                            ma as int == g1i * (ma / g1) as int,
                            ma as int == abs(a as int),
                            a2 as int == (if a < 0 { -((ma / g1) as int) } else { (ma / g1) as int }),
                    ;
                    assert(c as int == g2i * c2) by (nonlinear_arith)
                        requires
                            mc as int == g2i * (mc / g2) as int,
                            mc as int == abs(c as int),
                            c2 as int == (if c < 0 { -((mc / g2) as int) } else { (mc / g2) as int }),
                    ;
                    assert(abs(a2 as int) == (ma / g1) as nat);
                    assert(abs(c2 as int) == (mc / g2) as nat);
                    lemma_cross_reduce(
                        a as int,
                        b as int,
                        c as int,
                        d as int,
                        g1i,
                        g2i,
                        a2 as int,
                        b2 as int,
                        c2 as int,
                        d2 as int,
                    );
                    assert((b as int) * (d as int) != 0) by (nonlinear_arith)
                        requires
                            b > 0,
                            d > 0,
                    ;
                    lemma_qnorm_unique((a2 * c2, b2 * d2), (a as int) * (c as int), (b as int) * (d as int));
                    assert((a2 * c2, b2 * d2) == qmul(self@, o@));
                }
                match (a2.checked_mul(c2), b2.checked_mul(d2)) {
                    (Some(n), Some(den)) => {
                        if n != i128::MIN {
                            return demote_m(n, den);
                        }
                    },
                    _ => {},
                }
                ctr.bump(4);
                proof {
                    lemma_advanced_trans(*old(ctr), mid, *ctr);
                }
                let num = BigNum::from_i128(a).mul(&BigNum::from_i128(c));
                let den = BigNum::from_i128(b).mul(&BigNum::from_i128(d));
                assert(den@ > 0) by (nonlinear_arith)
                    requires
                        b > 0,
                        d > 0,
                        den@ == b * d,
                ;
                shrink_big(rat_new(&num, &den))
            },
        }
    }

    /// `1 / self` (self nonzero); not counted as a ring op.
    fn recip(&self) -> (r: TRat)
        requires
            self.valid(),
            self.num() != 0,
        ensures
            r.wf(),
            r@ == recip_view(self@),
    {
        proof {
            lemma_coprime_symmetric(abs(self.num()), self.den() as nat);
        }
        match self {
            TRat::S(n, d) => {
                if *n > 0 {
                    TRat::S(*d, *n)
                } else if *n == i64::MIN {
                    TRat::M(-(*d as i128), 9223372036854775808i128)
                } else {
                    TRat::S(-*d, -*n)
                }
            },
            TRat::M(n, d) => {
                if *n > 0 {
                    demote_m(*d, *n)
                } else {
                    demote_m(-*d, -*n)
                }
            },
            TRat::B(r) => shrink_big(r.recip()),
        }
    }

    /// `self / o`; `o` must be nonzero.  Counted as one multiplicative op of
    /// `self` and the reciprocal of `o`.
    pub fn div(&self, o: &TRat, ctr: &mut CounterState) -> (r: TRat)
        requires
            self.valid(),
            o.valid(),
            o.num() != 0,
        ensures
            r.wf(),
            r@ == qdiv(self@, o@),
            r.denotes(self.num() * o.den(), self.den() * o.num()),
            counted_op(
                *old(ctr),
                *final(ctr),
                widest(self.tier_spec(), canonical_tier(recip_view(o@).0, recip_view(o@).1)),
                mul_promotes(
                    qdiv(self@, o@),
                    widest(self.tier_spec(), canonical_tier(recip_view(o@).0, recip_view(o@).1)),
                ),
            ),
    {
        let inv = o.recip();
        let r = self.mul(&inv, ctr);
        proof {
            let (rn, rd, sn, sd, on, od) = (r.num(), r.den(), self.num(), self.den(), o.num(), o.den());
            if on > 0 {
                assert(rn * (sd * on) == (sn * od) * rd) by (nonlinear_arith)
                    requires
                        rn * (sd * on) == (sn * od) * rd,
                ;
            } else {
                assert(rn * (sd * -on) == (sn * -od) * rd);
                assert(rn * (sd * on) == (sn * od) * rd) by (nonlinear_arith)
                    requires
                        rn * (sd * -on) == (sn * -od) * rd,
                ;
            }
            assert(sd * on != 0) by (nonlinear_arith)
                requires
                    sd > 0,
                    on != 0,
            ;
            lemma_qnorm_unique(r@, sn * od, sd * on);
        }
        r
    }

    /// Sign of `self - o` as -1 / 0 / 1.
    pub fn compare(&self, o: &TRat) -> (r: i8)
        requires
            self.valid(),
            o.valid(),
        ensures
            r == -1 <==> self.num() * o.den() < o.num() * self.den(),
            r == 0 <==> self.num() * o.den() == o.num() * self.den(),
            r == 1 <==> self.num() * o.den() > o.num() * self.den(),
    {
        match (self, o) {
            (TRat::S(a, b), TRat::S(c, d)) => {
                let (ai, bi, ci, di) = (*a as i128, *b as i128, *c as i128, *d as i128);
                assert(-85070591730234615856620279821087277056 <= ai * di
                    <= 85070591730234615856620279821087277056) by (nonlinear_arith)
                    requires
                        -9223372036854775808 <= ai <= 9223372036854775807,
                        0 < di <= 9223372036854775807,
                ;
                assert(-85070591730234615856620279821087277056 <= ci * bi
                    <= 85070591730234615856620279821087277056) by (nonlinear_arith)
                    requires
                        -9223372036854775808 <= ci <= 9223372036854775807,
                        0 < bi <= 9223372036854775807,
                ;
                let x = ai * di;
                let y = ci * bi;
                if x < y {
                    -1
                } else if x == y {
                    0
                } else {
                    1
                }
            },
            (TRat::B(_), _) | (_, TRat::B(_)) => {
                rat_compare(&self.to_bigrational(), &o.to_bigrational())
            },
            _ => {
                let (a, b) = self.as_i128();
                let (c, d) = o.as_i128();
                match (a.checked_mul(d), c.checked_mul(b)) {
                    (Some(x), Some(y)) => {
                        if x < y {
                            -1
                        } else if x == y {
                            0
                        } else {
                            1
                        }
                    },
                    _ => {
                        let x = BigNum::from_i128(a).mul(&BigNum::from_i128(d));
                        let y = BigNum::from_i128(c).mul(&BigNum::from_i128(b));
                        big_compare(&x, &y)
                    },
                }
            },
        }
    }

    /// Exact comparison of the two values.
    pub fn cmp_val(&self, o: &TRat) -> (r: std::cmp::Ordering)
        requires
            self.valid(),
            o.valid(),
        ensures
            r == std::cmp::Ordering::Less <==> self.num() * o.den() < o.num() * self.den(),
            r == std::cmp::Ordering::Equal <==> self.num() * o.den() == o.num() * self.den(),
            r == std::cmp::Ordering::Greater <==> self.num() * o.den() > o.num() * self.den(),
    {
        let c = self.compare(o);
        if c < 0 {
            std::cmp::Ordering::Less
        } else if c == 0 {
            std::cmp::Ordering::Equal
        } else {
            std::cmp::Ordering::Greater
        }
    }
}

/// Canonical form: two well-formed tiered rationals that denote the same
/// number have the same numerator, denominator and tier.
pub proof fn lemma_canonical_unique(x: TRat, y: TRat)
    requires
        x.wf(),
        y.wf(),
        x.num() * y.den() == y.num() * x.den(),
    ensures
        x@ == y@,
        x.tier_spec() == y.tier_spec(),
{
    crate::arith::lemma_reduced_unique(x.num(), x.den(), y.num(), y.den());
}

/// Zero has the single representation `0 / 1`.
pub proof fn lemma_zero_is_canonical(v: TRat)
    requires
        v.wf(),
    ensures
        v.num() == 0 ==> v@ == (0int, 1int),
{
    if v.num() == 0 {
        lemma_gcd_zero_left(v.den() as nat);
    }
}

impl TRat {
    /// Numerator and denominator as big integers, whatever the tier.
    fn big_parts(&self) -> (r: (BigNum, BigNum))
        ensures
            r.0@ == self.num(),
            r.1@ == self.den(),
    {
        match self {
            TRat::S(n, d) => (BigNum::from_i64(*n), BigNum::from_i64(*d)),
            TRat::M(n, d) => (BigNum::from_i128(*n), BigNum::from_i128(*d)),
            TRat::B(r) => {
                let m = r.den.clone();
                assert(m@ =~= r.den@);
                (r.num.clone(), BigNum { neg: false, mag: m })
            },
        }
    }

    /// Sign of `n1 * d2 - n2 * d1` by exact big-integer cross products.
    fn cross_sign(&self, o: &TRat) -> (r: i8)
        ensures
            r == -1 <==> self.num() * o.den() < o.num() * self.den(),
            r == 0 <==> self.num() * o.den() == o.num() * self.den(),
            r == 1 <==> self.num() * o.den() > o.num() * self.den(),
    {
        let (a, b) = self.big_parts();
        let (c, d) = o.big_parts();
        big_compare(&a.mul(&d), &c.mul(&b))
    }
}

/// Two values are equal when they denote the same number.
impl PartialEq for TRat {
    fn eq(&self, o: &TRat) -> (r: bool) {
        self.cross_sign(o) == 0
    }
}

impl PartialEqSpecImpl for TRat {
    open spec fn obeys_eq_spec() -> bool {
        true
    }

    open spec fn eq_spec(&self, o: &TRat) -> bool {
        self.num() * o.den() == o.num() * self.den()
    }
}

/// Values are ordered by the numbers they denote.
impl PartialOrd for TRat {
    fn partial_cmp(&self, o: &TRat) -> (r: Option<Ordering>) {
        let c = self.cross_sign(o);
        if c < 0 {
            Some(Ordering::Less)
        } else if c == 0 {
            Some(Ordering::Equal)
        } else {
            Some(Ordering::Greater)
        }
    }
}

impl PartialOrdSpecImpl for TRat {
    open spec fn obeys_partial_cmp_spec() -> bool {
        true
    }

    open spec fn partial_cmp_spec(&self, o: &TRat) -> Option<Ordering> {
        if self.num() * o.den() < o.num() * self.den() {
            Some(Ordering::Less)
        } else if self.num() * o.den() == o.num() * self.den() {
            Some(Ordering::Equal)
        } else {
            Some(Ordering::Greater)
        }
    }
}

} // verus!
