//! Exact rationals as mathematical values: a pair (numerator, denominator)
//! in lowest terms with a positive denominator, and the field operations on
//! such pairs.  Both exact number types of the library (`TRat`, `BigRat`)
//! keep their values in this form, so a value is determined by its pair.
use crate::arith::{
    abs, gcd, lemma_divide_out_gcd, lemma_exact_quotient, lemma_reduced_unique, reduced,
};
use vstd::prelude::*;

verus! {

/// `n / d` (d != 0) in lowest terms with a positive denominator.
pub open spec fn qnorm(n: int, d: int) -> (int, int) {
    if n == 0 {
        (0, 1)
    } else {
        let g = gcd(abs(n), abs(d));
        let num = (abs(n) / g) as int;
        let den = (abs(d) / g) as int;
        if (n < 0) == (d < 0) {
            (num, den)
        } else {
            (-num, den)
        }
    }
}

/// Zero.
pub open spec fn qzero() -> (int, int) {
    (0, 1)
}

/// Sum.
pub open spec fn qadd(a: (int, int), b: (int, int)) -> (int, int) {
    qnorm(a.0 * b.1 + b.0 * a.1, a.1 * b.1)
}

/// Difference.
pub open spec fn qsub(a: (int, int), b: (int, int)) -> (int, int) {
    qnorm(a.0 * b.1 - b.0 * a.1, a.1 * b.1)
}

/// Product.
pub open spec fn qmul(a: (int, int), b: (int, int)) -> (int, int) {
    qnorm(a.0 * b.0, a.1 * b.1)
}

/// Quotient (`b` nonzero).
pub open spec fn qdiv(a: (int, int), b: (int, int)) -> (int, int) {
    qnorm(a.0 * b.1, a.1 * b.0)
}

/// Negation.
pub open spec fn qneg(a: (int, int)) -> (int, int) {
    (-a.0, a.1)
}

/// The pair is in lowest terms with a positive denominator.
pub open spec fn qwf(a: (int, int)) -> bool {
    reduced(a.0, a.1)
}

/// `qnorm` is in lowest terms and denotes `n / d`.
pub proof fn lemma_qnorm(n: int, d: int)
    requires
        d != 0,
    ensures
        qwf(qnorm(n, d)),
        qnorm(n, d).0 * d == n * qnorm(n, d).1,
{
    if n == 0 {
        crate::arith::lemma_gcd_one(0);
        assert(0 * d == n * 1);
    } else {
        let an = abs(n);
        let ad = abs(d);
        lemma_divide_out_gcd(an, ad);
        let g = gcd(an, ad);
        lemma_exact_quotient(an, g);
        lemma_exact_quotient(ad, g);
        let a1 = (an / g) as int;
        let d1 = (ad / g) as int;
        let q = qnorm(n, d);
        assert(abs(q.0) == an / g);
        assert(q.1 == d1);
        assert(q.0 * d == n * q.1) by (nonlinear_arith)
            requires
                an as int == g * a1,
                ad as int == g * d1,
                an as int == (if n < 0 { -n } else { n }),
                ad as int == (if d < 0 { -d } else { d }),
                q.0 == (if (n < 0) == (d < 0) { a1 } else { -a1 }),
                q.1 == d1,
        ;
    }
}

/// A reduced pair denoting `n / d` is `qnorm(n, d)`.
pub proof fn lemma_qnorm_unique(r: (int, int), n: int, d: int)
    requires
        d != 0,
        qwf(r),
        r.0 * d == n * r.1,
    ensures
        r == qnorm(n, d),
{
    lemma_qnorm(n, d);
    let q = qnorm(n, d);
    assert(r.0 * q.1 == q.0 * r.1) by (nonlinear_arith)
        requires
            r.0 * d == n * r.1,
            q.0 * d == n * q.1,
            d != 0,
    ;
    lemma_reduced_unique(r.0, r.1, q.0, q.1);
}

/// A reduced pair is its own normal form; in particular `qsub(x, 0) == x`.
pub proof fn lemma_qnorm_id(a: (int, int))
    requires
        qwf(a),
    ensures
        qnorm(a.0, a.1) == a,
        qsub(a, qzero()) == a,
        qadd(a, qzero()) == a,
        qsub(qzero(), a) == qneg(a),
        qmul(a, qzero()) == qzero(),
        qmul(qzero(), a) == qzero(),
        qwf(qneg(a)),
{
    lemma_qnorm_unique(a, a.0, a.1);
    assert(a.0 * 1 - 0 * a.1 == a.0);
    assert(a.1 * 1 == a.1);
    assert(a.0 * 1 + 0 * a.1 == a.0);
    assert(0 * a.1 - a.0 * 1 == -a.0);
    assert(1 * a.1 == a.1);
    assert(abs(-a.0) == abs(a.0));
    lemma_qnorm_unique(qneg(a), -a.0, a.1);
    assert(a.0 * 0 == 0);
    assert(0 * a.0 == 0);
}

/// The integer `n` as a fraction.
pub open spec fn qint(n: int) -> (int, int) {
    (n, 1)
}

/// Integers are reduced, and sums of integers are integers.
pub proof fn lemma_qint(a: int, b: int)
    ensures
        qwf(qint(a)),
        qnorm(a, 1) == qint(a),
        qadd(qint(a), qint(b)) == qint(a + b),
        qneg(qint(a)) == qint(-a),
        qint(0) == qzero(),
{
    crate::arith::lemma_gcd_one(abs(a));
    crate::arith::lemma_gcd_one(abs(a + b));
    lemma_qnorm_unique(qint(a), a, 1);
    lemma_qnorm_unique(qint(a + b), a * 1 + b * 1, 1int * 1int);
}

/// Multiplication commutes.
pub proof fn lemma_qmul_comm(a: (int, int), b: (int, int))
    ensures
        qmul(a, b) == qmul(b, a),
{
    assert(a.0 * b.0 == b.0 * a.0 && a.1 * b.1 == b.1 * a.1) by (nonlinear_arith);
}

/// Zero is absorbing or neutral where it should be.
pub proof fn lemma_qzero_ops(c: (int, int))
    ensures
        qdiv(qzero(), c) == qzero(),
        qmul(qzero(), c) == qzero(),
        qneg(qzero()) == qzero(),
        qsub(qzero(), qzero()) == qzero(),
        qwf(qzero()),
{
    assert(0 * c.1 == 0);
    assert(0 * c.0 == 0);
    crate::arith::lemma_gcd_one(0);
    assert(0 * 1 - 0 * 1 == 0);
}


/// Two fractions of the same value have the same normal form.
pub proof fn lemma_qnorm_eq(n1: int, d1: int, n2: int, d2: int)
    requires
        d1 != 0,
        d2 != 0,
        n1 * d2 == n2 * d1,
    ensures
        qnorm(n1, d1) == qnorm(n2, d2),
{
    lemma_qnorm(n1, d1);
    let q = qnorm(n1, d1);
    assert(q.0 * d2 == n2 * q.1) by (nonlinear_arith)
        requires
            q.0 * d1 == n1 * q.1,
            n1 * d2 == n2 * d1,
            d1 != 0,
    ;
    lemma_qnorm_unique(q, n2, d2);
}

/// Addition commutes.
pub proof fn lemma_qadd_comm(a: (int, int), b: (int, int))
    ensures
        qadd(a, b) == qadd(b, a),
{
    assert(a.0 * b.1 + b.0 * a.1 == b.0 * a.1 + a.0 * b.1 && a.1 * b.1 == b.1 * a.1) by (nonlinear_arith);
}

/// A nonzero product of nonzero factors.
pub proof fn lemma_nz(x: int, y: int)
    requires
        x != 0,
        y != 0,
    ensures
        x * y != 0,
{
    assert(x * y != 0) by (nonlinear_arith)
        requires
            x != 0,
            y != 0,
    ;
}

/// `qadd(x, c)` where `x` denotes `s / p`, as a fraction over `p * c.1`.
proof fn lemma_qadd_left(x: (int, int), c: (int, int), s: int, p: int)
    requires
        qwf(x),
        qwf(c),
        p != 0,
        x.0 * p == s * x.1,
    ensures
        qadd(x, c) == qnorm(s * c.1 + c.0 * p, p * c.1),
{
    lemma_nz(x.1, c.1);
    lemma_nz(p, c.1);
    let x0 = x.0;
    let x1 = x.1;
    let c0 = c.0;
    let c1 = c.1;
    vstd::arithmetic::mul::lemma_mul_is_distributive_add_other_way(p * c1, x0 * c1, c0 * x1);
    vstd::arithmetic::mul::lemma_mul_is_distributive_add_other_way(x1 * c1, s * c1, c0 * p);
    assert((x0 * c1) * (p * c1) == (x0 * p) * (c1 * c1)) by (nonlinear_arith);
    assert((c0 * x1) * (p * c1) == (c0 * p) * (x1 * c1)) by (nonlinear_arith);
    assert((s * c1) * (x1 * c1) == (s * x1) * (c1 * c1)) by (nonlinear_arith);
    lemma_qnorm_eq(x0 * c1 + c0 * x1, x1 * c1, s * c1 + c0 * p, p * c1);
}

/// `qmul(x, c)` where `x` denotes `s / p`, as a fraction over `p * c.1`.
pub proof fn lemma_qmul_left(x: (int, int), c: (int, int), s: int, p: int)
    requires
        qwf(x),
        qwf(c),
        p != 0,
        x.0 * p == s * x.1,
    ensures
        qmul(x, c) == qnorm(s * c.0, p * c.1),
{
    lemma_nz(x.1, c.1);
    lemma_nz(p, c.1);
    let x0 = x.0;
    let x1 = x.1;
    let c0 = c.0;
    let c1 = c.1;
    assert((x0 * c0) * (p * c1) == (s * c0) * (x1 * c1)) by (nonlinear_arith)
        requires
            x0 * p == s * x1,
    ;
    lemma_qnorm_eq(x0 * c0, x1 * c1, s * c0, p * c1);
}

/// Addition associates.
pub proof fn lemma_qadd_assoc(a: (int, int), b: (int, int), c: (int, int))
    requires
        qwf(a),
        qwf(b),
        qwf(c),
    ensures
        qadd(qadd(a, b), c) == qadd(a, qadd(b, c)),
{
    let (a0, a1, b0, b1, c0, c1) = (a.0, a.1, b.0, b.1, c.0, c.1);
    let s = a0 * b1 + b0 * a1;
    let p = a1 * b1;
    let t = b0 * c1 + c0 * b1;
    let q = b1 * c1;
    lemma_nz(a1, b1);
    lemma_nz(b1, c1);
    lemma_qnorm(s, p);
    lemma_qnorm(t, q);
    lemma_qadd_left(qadd(a, b), c, s, p);
    lemma_qadd_comm(a, qadd(b, c));
    lemma_qadd_left(qadd(b, c), a, t, q);
    lemma_qadd_comm(qadd(b, c), a);
    lemma_nz(p, c1);
    lemma_nz(q, a1);
    let n1 = s * c1 + c0 * p;
    let d1 = p * c1;
    let n2 = t * a1 + a0 * q;
    let d2 = q * a1;
    assert(n1 == n2 && d1 == d2) by (nonlinear_arith)
        requires
            s == a0 * b1 + b0 * a1,
            p == a1 * b1,
            t == b0 * c1 + c0 * b1,
            q == b1 * c1,
            n1 == s * c1 + c0 * p,
            d1 == p * c1,
            n2 == t * a1 + a0 * q,
            d2 == q * a1,
    ;
}

/// Multiplication associates.
pub proof fn lemma_qmul_assoc(a: (int, int), b: (int, int), c: (int, int))
    requires
        qwf(a),
        qwf(b),
        qwf(c),
    ensures
        qmul(qmul(a, b), c) == qmul(a, qmul(b, c)),
{
    let (a0, a1, b0, b1, c0, c1) = (a.0, a.1, b.0, b.1, c.0, c.1);
    let s = a0 * b0;
    let p = a1 * b1;
    let t = b0 * c0;
    let q = b1 * c1;
    lemma_nz(a1, b1);
    lemma_nz(b1, c1);
    lemma_qnorm(s, p);
    lemma_qnorm(t, q);
    lemma_qmul_left(qmul(a, b), c, s, p);
    lemma_qmul_comm(a, qmul(b, c));
    lemma_qmul_left(qmul(b, c), a, t, q);
    assert(s * c0 == t * a0 && p * c1 == q * a1) by (nonlinear_arith)
        requires
            s == a0 * b0,
            p == a1 * b1,
            t == b0 * c0,
            q == b1 * c1,
    ;
}

/// Multiplication distributes over addition.
pub proof fn lemma_qmul_distrib(a: (int, int), b: (int, int), c: (int, int))
    requires
        qwf(a),
        qwf(b),
        qwf(c),
    ensures
        qmul(a, qadd(b, c)) == qadd(qmul(a, b), qmul(a, c)),
{
    let (a0, a1, b0, b1, c0, c1) = (a.0, a.1, b.0, b.1, c.0, c.1);
    let t = b0 * c1 + c0 * b1;
    let q = b1 * c1;
    lemma_nz(b1, c1);
    lemma_qnorm(t, q);
    lemma_qmul_comm(a, qadd(b, c));
    lemma_qmul_left(qadd(b, c), a, t, q);
    let u0 = a0 * b0;
    let pu = a1 * b1;
    let v0 = a0 * c0;
    let pv = a1 * c1;
    lemma_nz(a1, b1);
    lemma_nz(a1, c1);
    lemma_qnorm(u0, pu);
    lemma_qnorm(v0, pv);
    let u = qmul(a, b);
    let v = qmul(a, c);
    lemma_qadd_left(u, v, u0, pu);
    // qadd(u, v) == qnorm(u0 * v.1 + v.0 * pu, pu * v.1), and v denotes v0 / pv
    lemma_nz(pu, v.1);
    lemma_nz(pu, pv);
    lemma_nz(q, a1);
    let (w0, w1) = (v.0, v.1);
    assert((u0 * w1 + w0 * pu) * (pu * pv) == (u0 * pv + v0 * pu) * (pu * w1)) by (nonlinear_arith)
        requires
            w0 * pv == v0 * w1,
    ;
    lemma_qnorm_eq(u0 * w1 + w0 * pu, pu * w1, u0 * pv + v0 * pu, pu * pv);
    vstd::arithmetic::mul::lemma_mul_is_distributive_add(a0 * a1, b0 * c1, c0 * b1);
    assert((a0 * b0) * (a1 * c1) == (a0 * a1) * (b0 * c1)) by (nonlinear_arith);
    assert((a0 * c0) * (a1 * b1) == (a0 * a1) * (c0 * b1)) by (nonlinear_arith);
    assert(u0 * pv + v0 * pu == (a0 * a1) * t);
    assert(pu * pv == (a1 * a1) * q) by (nonlinear_arith)
        requires
            q == b1 * c1,
            pu == a1 * b1,
            pv == a1 * c1,
    ;
    assert((t * a0) * ((a1 * a1) * q) == ((a0 * a1) * t) * (q * a1)) by (nonlinear_arith);
    lemma_qnorm_eq(t * a0, q * a1, u0 * pv + v0 * pu, pu * pv);
}

/// Subtraction is addition of the negation; negation moves through products.
pub proof fn lemma_qsub_neg(a: (int, int), b: (int, int))
    requires
        qwf(a),
        qwf(b),
    ensures
        qsub(a, b) == qadd(a, qneg(b)),
        qneg(qmul(a, b)) == qmul(qneg(a), b),
        qneg(qmul(a, b)) == qmul(a, qneg(b)),
        qadd(a, qneg(a)) == qzero(),
        qneg(qneg(a)) == a,
        qneg(qadd(a, b)) == qadd(qneg(a), qneg(b)),
{
    let (a0, a1, b0, b1) = (a.0, a.1, b.0, b.1);
    assert(a0 * b1 - b0 * a1 == a0 * b1 + (-b0) * a1) by (nonlinear_arith);
    lemma_nz(a1, b1);
    lemma_nz(a1, a1);
    lemma_qnorm(a0 * b0, a1 * b1);
    let p = qmul(a, b);
    assert(abs(-p.0) == abs(p.0));
    let (p0, p1) = (p.0, p.1);
    assert((-p0) * (a1 * b1) == (-(a0 * b0)) * p1) by (nonlinear_arith)
        requires
            p0 * (a1 * b1) == (a0 * b0) * p1,
    ;
    lemma_qnorm_unique(qneg(p), -(a0 * b0), a1 * b1);
    assert(-(a0 * b0) == (-a0) * b0 && -(a0 * b0) == a0 * (-b0)) by (nonlinear_arith);
    assert(a0 * a1 + (-a0) * a1 == 0) by (nonlinear_arith);
    crate::arith::lemma_gcd_one(0);
    assert(0 * (a1 * a1) == 0 * 1);
    lemma_qnorm_unique(qzero(), 0, a1 * a1);
    lemma_qnorm(a0 * b1 + b0 * a1, a1 * b1);
    let s = qadd(a, b);
    assert(abs(-s.0) == abs(s.0));
    let (s0, s1) = (s.0, s.1);
    assert((-s0) * (a1 * b1) == (-(a0 * b1 + b0 * a1)) * s1) by (nonlinear_arith)
        requires
            s0 * (a1 * b1) == (a0 * b1 + b0 * a1) * s1,
    ;
    lemma_qnorm_unique(qneg(s), -(a0 * b1 + b0 * a1), a1 * b1);
    assert(-(a0 * b1 + b0 * a1) == (-a0) * b1 + (-b0) * a1) by (nonlinear_arith);
}

/// Multiplication by one and zero; quotients times the divisor.
pub proof fn lemma_qmul_units(a: (int, int), b: (int, int))
    requires
        qwf(a),
        qwf(b),
        b.0 != 0,
    ensures
        qmul(a, qint(1)) == a,
        qmul(qdiv(a, b), b) == a,
        qdiv(a, b) == qmul(a, qdiv(qint(1), b)),
        qwf(qdiv(a, b)),
        qwf(qmul(a, b)),
        qwf(qadd(a, b)),
        qwf(qsub(a, b)),
{
    lemma_qnorm_unique(a, a.0 * 1, a.1 * 1);
    assert(a.1 * b.0 != 0 && a.1 * b.1 != 0) by (nonlinear_arith)
        requires
            a.1 > 0,
            b.1 > 0,
            b.0 != 0,
    ;
    lemma_qnorm(a.0 * b.1, a.1 * b.0);
    let q = qdiv(a, b);
    assert(q.1 * b.1 != 0) by (nonlinear_arith)
        requires
            q.1 > 0,
            b.1 > 0,
    ;
    assert((q.0 * b.0) * a.1 == a.0 * (q.1 * b.1)) by (nonlinear_arith)
        requires
            q.0 * (a.1 * b.0) == (a.0 * b.1) * q.1,
            b.0 != 0,
    ;
    lemma_qnorm_unique(a, q.0 * b.0, q.1 * b.1);
    assert(1 * b.0 != 0) by (nonlinear_arith)
        requires
            b.0 != 0,
    ;
    lemma_qnorm(1 * b.1, 1 * b.0);
    let r = qdiv(qint(1), b);
    assert(a.1 * r.1 != 0) by (nonlinear_arith)
        requires
            a.1 > 0,
            r.1 > 0,
    ;
    assert((a.0 * r.0) * (a.1 * b.0) == (a.0 * b.1) * (a.1 * r.1)) by (nonlinear_arith)
        requires
            r.0 * (1 * b.0) == (1 * b.1) * r.1,
    ;
    lemma_qnorm_eq(a.0 * r.0, a.1 * r.1, a.0 * b.1, a.1 * b.0);
    lemma_qnorm(a.0 * b.0, a.1 * b.1);
    lemma_qnorm(a.0 * b.1 + b.0 * a.1, a.1 * b.1);
    lemma_qnorm(a.0 * b.1 - b.0 * a.1, a.1 * b.1);
}

} // verus!
