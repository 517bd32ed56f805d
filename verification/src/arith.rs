//! Integer number theory used by the exact rationals: Euclid's gcd (spec and
//! executable), Bezout coefficients, and the coprimality facts that keep
//! fractions in lowest terms.
use vstd::arithmetic::div_mod::*;
use vstd::arithmetic::mul::*;
use vstd::prelude::*;

verus! {

/// Euclid's greatest common divisor on naturals; `gcd(a, 0) == a`.
pub open spec fn gcd(a: nat, b: nat) -> nat
    decreases b,
{
    if b == 0 {
        a
    } else {
        gcd(b, a % b)
    }
}

/// Absolute value as a natural number.
pub open spec fn abs(n: int) -> nat {
    if n < 0 {
        (-n) as nat
    } else {
        n as nat
    }
}

/// `n / d` is in lowest terms with a positive denominator.
pub open spec fn reduced(n: int, d: int) -> bool {
    d > 0 && gcd(abs(n), d as nat) == 1
}

/// `d` divides `x` (with `d > 0`).
pub open spec fn divides(d: int, x: int) -> bool {
    d > 0 && x % d == 0
}

/// Least common multiple of two positive integers.
pub open spec fn lcm(a: int, b: int) -> int
    recommends
        a > 0,
        b > 0,
{
    a * b / (gcd(a as nat, b as nat) as int)
}

/// Bezout: there are integer coefficients combining `a` and `b` into their gcd.
pub proof fn lemma_bezout(a: nat, b: nat) -> (st: (int, int))
    ensures
        st.0 * a + st.1 * b == gcd(a, b) as int,
    decreases b,
{
    if b == 0 {
        (1, 0)
    } else {
        let q = (a / b) as int;
        let r = (a % b) as int;
        let (s1, t1) = lemma_bezout(b, a % b);
        lemma_fundamental_div_mod(a as int, b as int);
        assert(a as int == b * q + r);
        let s = t1;
        let t = s1 - t1 * q;
        assert(s * a + t * b == s1 * b + t1 * r) by (nonlinear_arith)
            requires
                a as int == b * q + r,
                s == t1,
                t == s1 - t1 * q,
        ;
        (s, t)
    }
}

/// The gcd divides both arguments and is positive unless both are zero.
pub proof fn lemma_gcd_divides(a: nat, b: nat)
    requires
        a > 0 || b > 0,
    ensures
        gcd(a, b) > 0,
        a % gcd(a, b) == 0,
        b % gcd(a, b) == 0,
    decreases b,
{
    if b == 0 {
        lemma_mod_self_0(a as int);
    } else {
        lemma_gcd_divides(b, a % b);
        let g = gcd(a, b);
        let q = (a / b) as int;
        let r = (a % b) as int;
        lemma_fundamental_div_mod(a as int, b as int);
        lemma_fundamental_div_mod(b as int, g as int);
        lemma_fundamental_div_mod(r, g as int);
        let kb = (b / g) as int;
        let kr = r / (g as int);
        assert(a as int == g * (kb * q + kr)) by (nonlinear_arith)
            requires
                a as int == b * q + r,
                b as int == g * kb,
                r == g * kr,
        ;
        lemma_mod_multiples_basic(kb * q + kr, g as int);
        lemma_mul_is_commutative(g as int, kb * q + kr);
    }
}

/// Every common divisor of `a` and `b` divides their gcd.
pub proof fn lemma_gcd_greatest(a: nat, b: nat, d: int)
    requires
        d > 0,
        (a as int) % d == 0,
        (b as int) % d == 0,
    ensures
        (gcd(a, b) as int) % d == 0,
    decreases b,
{
    if b != 0 {
        let q = (a / b) as int;
        let r = (a % b) as int;
        lemma_fundamental_div_mod(a as int, b as int);
        lemma_fundamental_div_mod(a as int, d);
        lemma_fundamental_div_mod(b as int, d);
        let ka = a as int / d;
        let kb = b as int / d;
        assert(r == d * (ka - kb * q)) by (nonlinear_arith)
            requires
                a as int == b * q + r,
                a as int == d * ka,
                b as int == d * kb,
        ;
        lemma_mod_multiples_basic(ka - kb * q, d);
        lemma_mul_is_commutative(d, ka - kb * q);
        lemma_gcd_greatest(b, a % b, d);
    }
}

/// If some integer combination of `x` and `y` equals one, they are coprime.
pub proof fn lemma_unit_combination(x: nat, y: nat, s: int, t: int)
    requires
        s * x + t * y == 1,
    ensures
        gcd(x, y) == 1,
{
    assert(x > 0 || y > 0) by (nonlinear_arith)
        requires
            s * x + t * y == 1,
    ;
    lemma_gcd_divides(x, y);
    let g = gcd(x, y) as int;
    lemma_fundamental_div_mod(x as int, g);
    lemma_fundamental_div_mod(y as int, g);
    let kx = x as int / g;
    let ky = y as int / g;
    assert(g * (s * kx + t * ky) == 1) by (nonlinear_arith)
        requires
            s * x + t * y == 1,
            x as int == g * kx,
            y as int == g * ky,
    ;
    assert(g == 1) by (nonlinear_arith)
        requires
            g > 0,
            g * (s * kx + t * ky) == 1,
    ;
}

/// Coprimality is symmetric.
pub proof fn lemma_coprime_symmetric(x: nat, y: nat)
    requires
        gcd(x, y) == 1,
    ensures
        gcd(y, x) == 1,
{
    let (s, t) = lemma_bezout(x, y);
    lemma_unit_combination(y, x, t, s);
}

/// Dividing both arguments by their gcd leaves a coprime pair.
pub proof fn lemma_divide_out_gcd(a: nat, b: nat)
    requires
        a > 0 || b > 0,
    ensures
        gcd(a, b) > 0,
        a % gcd(a, b) == 0,
        b % gcd(a, b) == 0,
        gcd(a / gcd(a, b), b / gcd(a, b)) == 1,
{
    lemma_gcd_divides(a, b);
    let g = gcd(a, b) as int;
    let (s, t) = lemma_bezout(a, b);
    lemma_fundamental_div_mod(a as int, g);
    lemma_fundamental_div_mod(b as int, g);
    let ka = a as int / g;
    let kb = b as int / g;
    assert(s * ka + t * kb == 1) by (nonlinear_arith)
        requires
            s * a + t * b == g,
            a as int == g * ka,
            b as int == g * kb,
            g > 0,
    ;
    lemma_unit_combination((a / (g as nat)) as nat, (b / (g as nat)) as nat, s, t);
}

/// Divisors of coprime numbers are coprime.
pub proof fn lemma_coprime_divisors(x: nat, y: nat, x2: nat, y2: nat, kx: int, ky: int)
    requires
        gcd(x, y) == 1,
        x as int == kx * x2,
        y as int == ky * y2,
    ensures
        gcd(x2, y2) == 1,
{
    let (s, t) = lemma_bezout(x, y);
    assert((s * kx) * x2 + (t * ky) * y2 == 1) by (nonlinear_arith)
        requires
            s * x + t * y == 1,
            x as int == kx * x2,
            y as int == ky * y2,
    ;
    lemma_unit_combination(x2, y2, s * kx, t * ky);
}

/// A number coprime to two factors is coprime to their product.
pub proof fn lemma_coprime_product(x: nat, y: nat, z: nat)
    requires
        gcd(x, y) == 1,
        gcd(x, z) == 1,
    ensures
        gcd(x, y * z) == 1,
{
    let (s1, t1) = lemma_bezout(x, y);
    let (s2, t2) = lemma_bezout(x, z);
    let a = s1 * s2 * x + s1 * t2 * z + t1 * s2 * y;
    let b = t1 * t2;
    assert(a * x + b * (y * z) == 1) by (nonlinear_arith)
        requires
            s1 * x + t1 * y == 1,
            s2 * x + t2 * z == 1,
            a == s1 * s2 * x + s1 * t2 * z + t1 * s2 * y,
            b == t1 * t2,
    ;
    lemma_unit_combination(x, y * z, a, b);
}

/// Fractions in lowest terms with positive denominators are equal exactly
/// when they denote the same rational number.
pub proof fn lemma_reduced_unique(n1: int, d1: int, n2: int, d2: int)
    requires
        reduced(n1, d1),
        reduced(n2, d2),
        n1 * d2 == n2 * d1,
    ensures
        n1 == n2,
        d1 == d2,
{
    let (s1, t1) = lemma_bezout(abs(n1), d1 as nat);
    let (s2, t2) = lemma_bezout(abs(n2), d2 as nat);
    let u1 = if n1 < 0 { -s1 } else { s1 };
    let u2 = if n2 < 0 { -s2 } else { s2 };
    assert(u1 * n1 == s1 * abs(n1)) by (nonlinear_arith)
        requires
            u1 == (if n1 < 0 { -s1 } else { s1 }),
            abs(n1) == (if n1 < 0 { -n1 } else { n1 }),
    ;
    assert(u2 * n2 == s2 * abs(n2)) by (nonlinear_arith)
        requires
            u2 == (if n2 < 0 { -s2 } else { s2 }),
            abs(n2) == (if n2 < 0 { -n2 } else { n2 }),
    ;
    // d1 divides d2 and d2 divides d1.
    assert(d1 * (u1 * n2 + t1 * d2) == d2) by (nonlinear_arith)
        requires
            u1 * n1 + t1 * d1 == 1,
            n1 * d2 == n2 * d1,
    ;
    assert(d2 * (u2 * n1 + t2 * d1) == d1) by (nonlinear_arith)
        requires
            u2 * n2 + t2 * d2 == 1,
            n1 * d2 == n2 * d1,
    ;
    assert(d1 == d2) by (nonlinear_arith)
        requires
            d1 > 0,
            d2 > 0,
            d1 * (u1 * n2 + t1 * d2) == d2,
            d2 * (u2 * n1 + t2 * d1) == d1,
    ;
    assert(n1 == n2) by (nonlinear_arith)
        requires
            d1 > 0,
            d1 == d2,
            n1 * d2 == n2 * d1,
    ;
}

/// `gcd(0, d) == d`: zero is in lowest terms only as `0 / 1`.
pub proof fn lemma_gcd_zero_left(d: nat)
    ensures
        gcd(0, d) == d,
{
    if d != 0 {
        lemma_small_mod(0, d);
        assert(gcd(0, d) == gcd(d, 0));
    }
}

/// `gcd(a, 1) == 1`: every integer over one is in lowest terms.
pub proof fn lemma_gcd_one(a: nat)
    ensures
        gcd(a, 1) == 1,
{
    assert(a % 1 == 0);
    assert(gcd(1, 0) == 1);
}

/// An exact quotient: `a == g * (a / g)` and `a / g <= a`.
pub proof fn lemma_exact_quotient(a: nat, g: nat)
    requires
        g > 0,
        a % g == 0,
    ensures
        a == g * (a / g),
        a / g <= a,
        a > 0 ==> a / g > 0,
        a > 0 ==> g <= a,
{
    lemma_fundamental_div_mod(a as int, g as int);
    let q = a / g;
    assert(q <= a) by (nonlinear_arith)
        requires
            a == g * q,
            g > 0,
    ;
    if a > 0 {
        assert(q > 0 && g <= a) by (nonlinear_arith)
            requires
                a == g * q,
                g > 0,
                a > 0,
        ;
    }
}

/// The lcm of two positive integers is positive and a multiple of both.
pub proof fn lemma_lcm(a: int, b: int)
    requires
        a > 0,
        b > 0,
    ensures
        lcm(a, b) > 0,
        lcm(a, b) % a == 0,
        lcm(a, b) % b == 0,
{
    lemma_gcd_divides(a as nat, b as nat);
    let g = gcd(a as nat, b as nat) as int;
    lemma_fundamental_div_mod(a, g);
    lemma_fundamental_div_mod(b, g);
    let ka = a / g;
    let kb = b / g;
    assert(a * b == g * (a * kb)) by (nonlinear_arith)
        requires
            b == g * kb,
    ;
    lemma_div_multiples_vanish(a * kb, g);
    assert(lcm(a, b) == a * kb);
    assert(a * kb == ka * b) by (nonlinear_arith)
        requires
            a == g * ka,
            b == g * kb,
    ;
    assert(kb > 0) by (nonlinear_arith)
        requires
            b == g * kb,
            b > 0,
            g > 0,
    ;
    assert(a * kb > 0) by (nonlinear_arith)
        requires
            a > 0,
            kb > 0,
    ;
    lemma_mod_multiples_basic(kb, a);
    lemma_mul_is_commutative(kb, a);
    lemma_mod_multiples_basic(ka, b);
}

/// Divisibility is transitive.
pub proof fn lemma_divides_trans(x: int, y: int, z: int)
    requires
        x > 0,
        y > 0,
        y % x == 0,
        z % y == 0,
    ensures
        z % x == 0,
{
    lemma_fundamental_div_mod(y, x);
    lemma_fundamental_div_mod(z, y);
    let ky = y / x;
    let kz = z / y;
    assert(z == x * (ky * kz)) by (nonlinear_arith)
        requires
            y == x * ky,
            z == y * kz,
    ;
    lemma_mod_multiples_basic(ky * kz, x);
    lemma_mul_is_commutative(x, ky * kz);
}

/// Euclid's algorithm on `u64`.
pub fn gcd_u64(a: u64, b: u64) -> (r: u64)
    ensures
        r as nat == gcd(a as nat, b as nat),
{
    let mut x = a;
    let mut y = b;
    while y != 0
        invariant
            gcd(x as nat, y as nat) == gcd(a as nat, b as nat),
        decreases y,
    {
        let t = x % y;
        x = y;
        y = t;
    }
    x
}

/// Euclid's algorithm on `u128`.
pub fn gcd_u128(a: u128, b: u128) -> (r: u128)
    ensures
        r as nat == gcd(a as nat, b as nat),
{
    let mut x = a;
    let mut y = b;
    while y != 0
        invariant
            gcd(x as nat, y as nat) == gcd(a as nat, b as nat),
        decreases y,
    {
        let t = x % y;
        x = y;
        y = t;
    }
    x
}

/// Adding a multiple of `d` to a number coprime to `d` keeps it coprime.
pub proof fn lemma_coprime_shift(p: int, a: int, d: int)
    requires
        d > 0,
        gcd(abs(p), d as nat) == 1,
    ensures
        gcd(abs(a * d + p), d as nat) == 1,
{
    let x = a * d + p;
    lemma_gcd_divides(abs(x), d as nat);
    let g = gcd(abs(x), d as nat) as int;
    lemma_fundamental_div_mod(abs(x) as int, g);
    lemma_fundamental_div_mod(d, g);
    let k = abs(x) as int / g;
    let m = d / g;
    let e = if x >= 0 {
        k - a * m
    } else {
        -k - a * m
    };
    assert(p == g * e) by (nonlinear_arith)
        requires
            abs(x) as int == g * k,
            d == g * m,
            x == a * d + p,
            abs(x) as int == (if x < 0 { -x } else { x }),
            e == (if x >= 0 { k - a * m } else { -k - a * m }),
    ;
    let ae = if e >= 0 {
        e
    } else {
        -e
    };
    assert(abs(p) as int == g * ae) by (nonlinear_arith)
        requires
            p == g * e,
            g > 0,
            abs(p) as int == (if p < 0 { -p } else { p }),
            ae == (if e >= 0 { e } else { -e }),
    ;
    lemma_mod_multiples_basic(ae, g);
    lemma_mul_is_commutative(g, ae);
    lemma_gcd_greatest(abs(p), d as nat, g);
    if g > 1 {
        lemma_small_mod(1nat, g as nat);
    }
}

/// The lcm with one is the other argument.
pub proof fn lemma_lcm_one(a: int)
    requires
        a > 0,
    ensures
        lcm(a, 1) == a,
        lcm(1, a) == a,
{
    lemma_gcd_one(a as nat);
    if a == 1 {
        assert(gcd(1, 1) == 1);
    } else {
        assert(1nat % (a as nat) == 1) by {
            lemma_small_mod(1nat, a as nat);
        }
        assert(gcd(1nat, a as nat) == gcd(a as nat, 1nat));
    }
    assert(gcd(a as nat, 1nat) as int == 1);
    assert(gcd(1nat, a as nat) as int == 1);
    assert(a * 1 / 1int == a) by (nonlinear_arith);
    assert(1 * a / 1int == a) by (nonlinear_arith);
}

} // verus!
