//! Arbitrary-precision integers and rationals as plain values.
//!
//! `BigNum` holds a sign flag and base-2^32 magnitude digits (least
//! significant first); `BigRat` holds a numerator and a positive magnitude
//! denominator.  The arithmetic itself is done by `num-bigint` /
//! `num-rational`: each operation below converts to the crate's types, makes
//! one call, and converts back.
use crate::arith::{abs, lcm, reduced};
use crate::rational::{lemma_qnorm_unique, qadd, qdiv, qmul, qsub};
use num_bigint::BigInt;
use num_bigint::Sign::{Minus, NoSign, Plus};
use num_integer::Integer;
use num_rational::BigRational;
use num_traits::ToPrimitive;
use vstd::prelude::*;
use vstd::std_specs::cmp::PartialEqSpecImpl;

verus! {

/// Value of little-endian base-2^32 digits.
pub open spec fn digits_value(s: Seq<u32>) -> nat
    decreases s.len(),
{
    if s.len() == 0 {
        0
    } else {
        s[0] as nat + 4294967296 * digits_value(s.drop_first())
    }
}

/// Decimal digits of a natural number (most significant first, no leading zero).
pub open spec fn nat_decimal(n: nat) -> Seq<char>
    decreases n,
{
    if n < 10 {
        seq![digit_char(n)]
    } else {
        nat_decimal(n / 10).push(digit_char(n % 10))
    }
}

pub open spec fn digit_char(d: nat) -> char {
    if d == 0 { '0' }
    else if d == 1 { '1' }
    else if d == 2 { '2' }
    else if d == 3 { '3' }
    else if d == 4 { '4' }
    else if d == 5 { '5' }
    else if d == 6 { '6' }
    else if d == 7 { '7' }
    else if d == 8 { '8' }
    else { '9' }
}

/// Decimal text of an integer: a minus sign for negatives, then the digits.
pub open spec fn int_decimal(v: int) -> Seq<char> {
    if v < 0 {
        seq!['-'] + nat_decimal((-v) as nat)
    } else {
        nat_decimal(v as nat)
    }
}

/// Integer division rounding toward zero (`d > 0`).
pub open spec fn trunc_div(n: int, d: int) -> int {
    if n >= 0 {
        n / d
    } else {
        -((-n) / d)
    }
}

/// Value of decimal digits with `_` separators skipped; `None` on any other
/// character.
pub open spec fn digits_underscored(s: Seq<char>) -> Option<nat>
    decreases s.len(),
{
    if s.len() == 0 {
        Some(0)
    } else {
        let c = s.last();
        match digits_underscored(s.drop_last()) {
            None => None,
            Some(v) => if '0' <= c && c <= '9' {
                Some(v * 10 + (c as nat - '0' as nat) as nat)
            } else if c == '_' {
                Some(v)
            } else {
                None
            },
        }
    }
}

/// A nonnegative decimal: one leading `+` dropped (unless another `+`
/// follows it), then at least one character, not starting with `_`.
pub open spec fn unsigned_decimal(s: Seq<char>) -> Option<nat> {
    let t = if s.len() > 0 && s[0] == '+' && !(s.len() > 1 && s[1] == '+') {
        s.drop_first()
    } else {
        s
    };
    if t.len() == 0 || t[0] == '_' {
        None
    } else {
        digits_underscored(t)
    }
}

/// What `BigInt::from_str` (radix 10) reads from a text: a leading `-`
/// negates what follows it (unless a `+` follows the `-`, which is then
/// rejected), and the rest is an unsigned decimal.
pub open spec fn decimal_parse(text: Seq<char>) -> Option<int> {
    if text.len() > 0 && text[0] == '-' && !(text.len() > 1 && text[1] == '+') {
        match unsigned_decimal(text.drop_first()) {
            Some(v) => Some(-(v as int)),
            None => None,
        }
    } else {
        match unsigned_decimal(text) {
            Some(v) => Some(v as int),
            None => None,
        }
    }
}

/// An arbitrary-precision integer: sign flag and magnitude digits.
#[derive(Debug)]
pub struct BigNum {
    pub neg: bool,
    pub mag: Vec<u32>,
}

impl View for BigNum {
    type V = int;

    open spec fn view(&self) -> int {
        if self.neg {
            -(digits_value(self.mag@) as int)
        } else {
            digits_value(self.mag@) as int
        }
    }
}

impl Clone for BigNum {
    fn clone(&self) -> (r: Self)
        ensures
            r@ == self@,
    {
        let m = self.mag.clone();
        assert(m@ =~= self.mag@);
        BigNum { neg: self.neg, mag: m }
    }
}

/// Digits are all zero exactly when their value is zero.
pub proof fn lemma_digits_zero(s: Seq<u32>)
    ensures
        digits_value(s) == 0 <==> (forall|i: int| 0 <= i < s.len() ==> s[i] == 0),
    decreases s.len(),
{
    if s.len() > 0 {
        lemma_digits_zero(s.drop_first());
        if digits_value(s) == 0 {
            assert forall|i: int| 0 <= i < s.len() implies s[i] == 0 by {
                if i > 0 {
                    assert(s[i] == s.drop_first()[i - 1]);
                }
            }
        }
        if forall|i: int| 0 <= i < s.len() ==> s[i] == 0 {
            assert forall|i: int| 0 <= i < s.drop_first().len() implies s.drop_first()[i] == 0 by {
                assert(s.drop_first()[i] == s[i + 1]);
            }
        }
    }
}

/// True when every digit of `mag` is zero (value zero).
fn digits_all_zero(mag: &Vec<u32>) -> (r: bool)
    ensures
        r == (digits_value(mag@) == 0),
{
    proof {
        lemma_digits_zero(mag@);
    }
    let mut i: usize = mag.len();
    while i > 0
        invariant
            i <= mag.len(),
            forall|j: int| i <= j < mag.len() ==> mag@[j] == 0,
            digits_value(mag@) == 0 <==> (forall|j: int| 0 <= j < mag@.len() ==> mag@[j] == 0),
        decreases i,
    {
        if mag[i - 1] != 0 {
            assert(mag@[i - 1] != 0);
            return false;
        }
        i = i - 1;
    }
    true
}

impl BigNum {
    pub fn zero() -> (r: BigNum)
        ensures
            r@ == 0,
            !r.neg,
            r.mag@.len() == 0,
    {
        let v: Vec<u32> = Vec::new();
        BigNum { neg: false, mag: v }
    }

    /// Exact conversion from a 128-bit integer.
    pub fn from_i128(n: i128) -> (r: BigNum)
        ensures
            r@ == n as int,
    {
        let neg = n < 0;
        let u: u128 = if n < 0 {
            if n == i128::MIN {
                170141183460469231731687303715884105728u128
            } else {
                (-n) as u128
            }
        } else {
            n as u128
        };
        assert(u as int == abs(n as int));
        let d0 = (u % 4294967296) as u32;
        let u1 = u / 4294967296;
        let d1 = (u1 % 4294967296) as u32;
        let u2 = u1 / 4294967296;
        let d2 = (u2 % 4294967296) as u32;
        let u3 = u2 / 4294967296;
        let d3 = u3 as u32;
        assert(u3 < 4294967296) by (nonlinear_arith)
            requires
                u1 == u / 4294967296,
                u2 == u1 / 4294967296,
                u3 == u2 / 4294967296,
                u < 340282366920938463463374607431768211456,
        ;
        let mut mag: Vec<u32> = Vec::new();
        mag.push(d0);
        mag.push(d1);
        mag.push(d2);
        mag.push(d3);
        proof {
            let s = mag@;
            let s3 = s.drop_first().drop_first().drop_first();
            assert(s3.drop_first() =~= Seq::<u32>::empty());
            assert(digits_value(s3.drop_first()) == 0);
            assert(digits_value(s3) == d3 as nat);
            assert(digits_value(s.drop_first().drop_first()) == d2 + 4294967296 * d3);
            assert(digits_value(s.drop_first()) == d1 + 4294967296 * (d2 + 4294967296 * d3));
            assert(digits_value(s) == d0 + 4294967296 * (d1 + 4294967296 * (d2 + 4294967296
                * d3)));
            assert(u == d0 + 4294967296 * (d1 + 4294967296 * (d2 + 4294967296 * d3))) by (nonlinear_arith)
                requires
                    d0 == u % 4294967296,
                    u1 == u / 4294967296,
                    d1 == u1 % 4294967296,
                    u2 == u1 / 4294967296,
                    d2 == u2 % 4294967296,
                    u3 == u2 / 4294967296,
                    d3 == u3,
            ;
        }
        BigNum { neg, mag }
    }

    pub fn from_i64(n: i64) -> (r: BigNum)
        ensures
            r@ == n as int,
    {
        BigNum::from_i128(n as i128)
    }

    pub fn is_zero(&self) -> (r: bool)
        ensures
            r == (self@ == 0),
    {
        digits_all_zero(&self.mag)
    }

    pub fn is_positive(&self) -> (r: bool)
        ensures
            r == (self@ > 0),
    {
        !self.neg && !digits_all_zero(&self.mag)
    }

    pub fn is_negative(&self) -> (r: bool)
        ensures
            r == (self@ < 0),
    {
        self.neg && !digits_all_zero(&self.mag)
    }

    pub fn neg(&self) -> (r: BigNum)
        ensures
            r@ == -self@,
    {
        let m = self.mag.clone();
        assert(m@ =~= self.mag@);
        BigNum { neg: !self.neg, mag: m }
    }

    /// Sum, computed by `num-bigint`.
    pub fn add(&self, o: &BigNum) -> (r: BigNum)
        ensures
            r@ == self@ + o@,
    {
        big_add(self, o)
    }

    /// Product, computed by `num-bigint`.
    pub fn mul(&self, o: &BigNum) -> (r: BigNum)
        ensures
            r@ == self@ * o@,
    {
        big_mul(self, o)
    }
}

/// Wraps `BigInt + BigInt` (num-bigint): the result is the exact sum.
#[verifier::external_body]
pub(crate) fn big_add(a: &BigNum, b: &BigNum) -> (r: BigNum)
    ensures
        r@ == a@ + b@,
{
    let x = BigInt::from_slice(if a.neg { Minus } else { Plus }, &a.mag);
    let y = BigInt::from_slice(if b.neg { Minus } else { Plus }, &b.mag);
    let (s, mag) = (x + y).to_u32_digits();
    BigNum { neg: match s { Minus => true, NoSign => false, Plus => false }, mag }
}

/// Wraps `BigInt * BigInt` (num-bigint): the result is the exact product.
#[verifier::external_body]
pub(crate) fn big_mul(a: &BigNum, b: &BigNum) -> (r: BigNum)
    ensures
        r@ == a@ * b@,
{
    let x = BigInt::from_slice(if a.neg { Minus } else { Plus }, &a.mag);
    let y = BigInt::from_slice(if b.neg { Minus } else { Plus }, &b.mag);
    let (s, mag) = (x * y).to_u32_digits();
    BigNum { neg: match s { Minus => true, NoSign => false, Plus => false }, mag }
}

/// Wraps `BigInt - BigInt` (num-bigint): the result is the exact difference.
#[verifier::external_body]
pub(crate) fn big_sub(a: &BigNum, b: &BigNum) -> (r: BigNum)
    ensures
        r@ == a@ - b@,
{
    let x = BigInt::from_slice(if a.neg { Minus } else { Plus }, &a.mag);
    let y = BigInt::from_slice(if b.neg { Minus } else { Plus }, &b.mag);
    let (s, mag) = (x - y).to_u32_digits();
    BigNum { neg: match s { Minus => true, NoSign => false, Plus => false }, mag }
}

/// Wraps `Ord::cmp` on `BigInt` (num-bigint), as -1 / 0 / 1.
#[verifier::external_body]
pub(crate) fn big_compare(a: &BigNum, b: &BigNum) -> (r: i8)
    ensures
        r == -1 <==> a@ < b@,
        r == 0 <==> a@ == b@,
        r == 1 <==> a@ > b@,
{
    let x = BigInt::from_slice(if a.neg { Minus } else { Plus }, &a.mag);
    let y = BigInt::from_slice(if b.neg { Minus } else { Plus }, &b.mag);
    match x.cmp(&y) {
        std::cmp::Ordering::Less => -1,
        std::cmp::Ordering::Equal => 0,
        std::cmp::Ordering::Greater => 1,
    }
}

/// Wraps `ToPrimitive::to_i64` on `BigInt`: `Some` exactly when the value fits.
#[verifier::external_body]
pub(crate) fn big_to_i64(a: &BigNum) -> (r: Option<i64>)
    ensures
        r == (if i64::MIN <= a@ <= i64::MAX {
            Some(a@ as i64)
        } else {
            None::<i64>
        }),
{
    BigInt::from_slice(if a.neg { Minus } else { Plus }, &a.mag).to_i64()
}

/// Wraps `ToPrimitive::to_i128` on `BigInt`: `Some` exactly when the value fits.
#[verifier::external_body]
pub(crate) fn big_to_i128(a: &BigNum) -> (r: Option<i128>)
    ensures
        r == (if i128::MIN <= a@ <= i128::MAX {
            Some(a@ as i128)
        } else {
            None::<i128>
        }),
{
    BigInt::from_slice(if a.neg { Minus } else { Plus }, &a.mag).to_i128()
}

/// Wraps `Integer::lcm` on `BigInt` (num-integer / num-bigint): for positive
/// arguments it is `a * b / gcd(a, b)`.
#[verifier::external_body]
pub(crate) fn big_lcm(a: &BigNum, b: &BigNum) -> (r: BigNum)
    requires
        a@ > 0,
        b@ > 0,
    ensures
        r@ == lcm(a@, b@),
{
    let x = BigInt::from_slice(if a.neg { Minus } else { Plus }, &a.mag);
    let y = BigInt::from_slice(if b.neg { Minus } else { Plus }, &b.mag);
    let (s, mag) = x.lcm(&y).to_u32_digits();
    BigNum { neg: match s { Minus => true, NoSign => false, Plus => false }, mag }
}

/// Least common multiple of two positive integers (shortcut when one is 1).
pub fn lcm_of(a: &BigNum, b: &BigNum) -> (r: BigNum)
    requires
        a@ > 0,
        b@ > 0,
    ensures
        r@ == lcm(a@, b@),
{
    let one = BigNum::from_i64(1);
    proof {
        crate::arith::lemma_lcm_one(a@);
        crate::arith::lemma_lcm_one(b@);
    }
    if big_compare(b, &one) == 0 {
        a.clone()
    } else if big_compare(a, &one) == 0 {
        b.clone()
    } else {
        big_lcm(a, b)
    }
}

/// Wraps `BigInt::from_str` (num-bigint, radix 10): `Some` exactly when the
/// text is in its grammar (`decimal_parse`), with that value.
#[verifier::external_body]
pub(crate) fn big_from_decimal(text: &str) -> (r: Option<BigNum>)
    ensures
        match r {
            Some(b) => decimal_parse(text@) == Some(b@),
            None => decimal_parse(text@) is None,
        },
{
    let (s, mag) = text.parse::<BigInt>().ok()?.to_u32_digits();
    Some(BigNum { neg: match s { Minus => true, NoSign => false, Plus => false }, mag })
}

/// Wraps the `Display` impl of `BigInt` (num-bigint): decimal digits with a
/// leading `-` for negative values.
#[verifier::external_body]
pub(crate) fn big_to_decimal(a: &BigNum) -> (r: String)
    ensures
        r@ == int_decimal(a@),
{
    format!("{}", BigInt::from_slice(if a.neg { Minus } else { Plus }, &a.mag))
}

/// Two big integers are equal when their values are.
impl PartialEq for BigNum {
    fn eq(&self, o: &BigNum) -> (r: bool) {
        big_compare(self, o) == 0
    }
}

impl PartialEqSpecImpl for BigNum {
    open spec fn obeys_eq_spec() -> bool {
        true
    }

    open spec fn eq_spec(&self, o: &BigNum) -> bool {
        self@ == o@
    }
}

/// An exact rational: numerator and positive denominator digits.
#[derive(Debug)]
pub struct BigRat {
    pub num: BigNum,
    pub den: Vec<u32>,
}

impl View for BigRat {
    type V = (int, int);

    open spec fn view(&self) -> (int, int) {
        (self.num_v(), self.den_v())
    }
}

impl BigRat {
    pub open spec fn num_v(&self) -> int {
        self.num@
    }

    pub open spec fn den_v(&self) -> int {
        digits_value(self.den@) as int
    }

    /// The value as a (numerator, denominator) pair.
    pub open spec fn q(&self) -> (int, int) {
        (self.num_v(), self.den_v())
    }

    /// Lowest terms with a positive denominator.
    pub open spec fn wf(&self) -> bool {
        reduced(self.num_v(), self.den_v())
    }

    /// `self` denotes `n / d`.
    pub open spec fn denotes(&self, n: int, d: int) -> bool {
        self.num_v() * d == n * self.den_v()
    }

    /// The integer `n` as a rational (denominator one).
    pub fn integer(n: BigNum) -> (r: BigRat)
        ensures
            r.wf(),
            r.num_v() == n@,
            r.den_v() == 1,
    {
        let mut den: Vec<u32> = Vec::new();
        den.push(1);
        proof {
            assert(den@.drop_first() =~= Seq::<u32>::empty());
            assert(digits_value(den@) == den@[0] as nat + 4294967296 * digits_value(den@.drop_first()));
            crate::arith::lemma_gcd_one(abs(n@));
        }
        BigRat { num: n, den }
    }

    /// The value is an integer (denominator one).
    pub fn is_integer(&self) -> (r: bool)
        ensures
            r == (self.den_v() == 1),
    {
        if self.den.len() == 0 {
            return false;
        }
        let ghost rest = self.den@.drop_first();
        proof {
            lemma_digits_zero(rest);
            assert(digits_value(self.den@) == self.den@[0] as nat + 4294967296 * digits_value(rest));
        }
        if self.den[0] != 1 {
            proof {
                if digits_value(rest) > 0 {
                    assert(4294967296 * digits_value(rest) >= 4294967296) by (nonlinear_arith)
                        requires
                            digits_value(rest) > 0,
                    ;
                }
            }
            return false;
        }
        let mut i: usize = 1;
        while i < self.den.len()
            invariant
                1 <= i <= self.den@.len(),
                rest == self.den@.drop_first(),
                self.den@[0] == 1,
                digits_value(self.den@) == 1 + 4294967296 * digits_value(rest),
                digits_value(rest) == 0 <==> (forall|j: int| 0 <= j < rest.len() ==> rest[j] == 0),
                forall|j: int| 1 <= j < i ==> self.den@[j] == 0,
            decreases self.den@.len() - i,
        {
            if self.den[i] != 0 {
                assert(rest[i - 1] != 0);
                assert(4294967296 * digits_value(rest) >= 4294967296) by (nonlinear_arith)
                    requires
                        digits_value(rest) > 0,
                ;
                return false;
            }
            i = i + 1;
        }
        assert forall|j: int| 0 <= j < rest.len() implies rest[j] == 0 by {
            assert(rest[j] == self.den@[j + 1]);
        }
        true
    }

    pub fn copy(&self) -> (r: BigRat)
        ensures
            r.num_v() == self.num_v(),
            r.den_v() == self.den_v(),
    {
        let d = self.den.clone();
        assert(d@ =~= self.den@);
        BigRat { num: self.num.clone(), den: d }
    }

    /// The integer `n` as `n / 1`.
    pub fn from_integer(n: BigNum) -> (r: BigRat)
        ensures
            r.num_v() == n@,
            r.den_v() == 1,
    {
        let mut d: Vec<u32> = Vec::new();
        d.push(1);
        assert(d@.drop_first() =~= Seq::<u32>::empty());
        assert(digits_value(d@.drop_first()) == 0);
        BigRat { num: n, den: d }
    }

    pub fn is_zero(&self) -> (r: bool)
        ensures
            r == (self.num_v() == 0),
    {
        self.num.is_zero()
    }

    pub fn is_positive(&self) -> (r: bool)
        ensures
            r == (self.num_v() > 0),
    {
        self.num.is_positive()
    }

    pub fn is_negative(&self) -> (r: bool)
        ensures
            r == (self.num_v() < 0),
    {
        self.num.is_negative()
    }

    /// Negation keeps lowest terms.
    pub fn neg(&self) -> (r: BigRat)
        ensures
            r.num_v() == -self.num_v(),
            r.den_v() == self.den_v(),
            self.wf() ==> r.wf(),
    {
        let d = self.den.clone();
        assert(d@ =~= self.den@);
        BigRat { num: self.num.neg(), den: d }
    }

    /// Reciprocal of a nonzero rational with the sign moved to the numerator.
    pub fn recip(&self) -> (r: BigRat)
        requires
            self.num_v() != 0,
            self.den_v() > 0,
        ensures
            r.num_v() == (if self.num_v() > 0 { self.den_v() } else { -self.den_v() }),
            r.den_v() == abs(self.num_v()),
            self.wf() ==> r.wf(),
    {
        proof {
            if self.wf() {
                crate::arith::lemma_coprime_symmetric(abs(self.num_v()), self.den_v() as nat);
            }
        }
        let neg = self.num.is_negative();
        let n = self.num.mag.clone();
        assert(n@ =~= self.num.mag@);
        let d = self.den.clone();
        assert(d@ =~= self.den@);
        BigRat { num: BigNum { neg, mag: d }, den: n }
    }
}

/// Wraps `Ratio::new` (num-rational): reduces `n / d` to lowest terms with a
/// positive denominator; `d` must be nonzero (it panics otherwise).
#[verifier::external_body]
pub(crate) fn rat_new(n: &BigNum, d: &BigNum) -> (r: BigRat)
    requires
        d@ != 0,
    ensures
        r.wf(),
        r.denotes(n@, d@),
{
    let x = BigInt::from_slice(if n.neg { Minus } else { Plus }, &n.mag);
    let r = BigRational::new(x, BigInt::from_slice(if d.neg { Minus } else { Plus }, &d.mag));
    let (s, mag) = r.numer().to_u32_digits();
    BigRat { num: BigNum { neg: match s { Minus => true, NoSign => false, Plus => false }, mag }, den: r.denom().to_u32_digits().1 }
}

/// Wraps `Ratio + Ratio` (num-rational): exact sum in lowest terms.
#[verifier::external_body]
pub(crate) fn rat_add(a: &BigRat, b: &BigRat) -> (r: BigRat)
    requires
        a.den_v() > 0,
        b.den_v() > 0,
    ensures
        r.wf(),
        r.denotes(a.num_v() * b.den_v() + b.num_v() * a.den_v(), a.den_v() * b.den_v()),
{
    let x = BigRational::new_raw(BigInt::from_slice(if a.num.neg { Minus } else { Plus }, &a.num.mag), BigInt::from_slice(Plus, &a.den));
    let y = BigRational::new_raw(BigInt::from_slice(if b.num.neg { Minus } else { Plus }, &b.num.mag), BigInt::from_slice(Plus, &b.den));
    let r = x + y;
    let (s, mag) = r.numer().to_u32_digits();
    BigRat { num: BigNum { neg: match s { Minus => true, NoSign => false, Plus => false }, mag }, den: r.denom().to_u32_digits().1 }
}

/// Wraps `Ratio - Ratio` (num-rational): exact difference in lowest terms.
#[verifier::external_body]
pub(crate) fn rat_sub(a: &BigRat, b: &BigRat) -> (r: BigRat)
    requires
        a.den_v() > 0,
        b.den_v() > 0,
    ensures
        r.wf(),
        r.denotes(a.num_v() * b.den_v() - b.num_v() * a.den_v(), a.den_v() * b.den_v()),
{
    let x = BigRational::new_raw(BigInt::from_slice(if a.num.neg { Minus } else { Plus }, &a.num.mag), BigInt::from_slice(Plus, &a.den));
    let y = BigRational::new_raw(BigInt::from_slice(if b.num.neg { Minus } else { Plus }, &b.num.mag), BigInt::from_slice(Plus, &b.den));
    let r = x - y;
    let (s, mag) = r.numer().to_u32_digits();
    BigRat { num: BigNum { neg: match s { Minus => true, NoSign => false, Plus => false }, mag }, den: r.denom().to_u32_digits().1 }
}

/// Wraps `Ratio * Ratio` (num-rational): exact product in lowest terms.
#[verifier::external_body]
pub(crate) fn rat_mul(a: &BigRat, b: &BigRat) -> (r: BigRat)
    requires
        a.den_v() > 0,
        b.den_v() > 0,
    ensures
        r.wf(),
        r.denotes(a.num_v() * b.num_v(), a.den_v() * b.den_v()),
{
    let x = BigRational::new_raw(BigInt::from_slice(if a.num.neg { Minus } else { Plus }, &a.num.mag), BigInt::from_slice(Plus, &a.den));
    let y = BigRational::new_raw(BigInt::from_slice(if b.num.neg { Minus } else { Plus }, &b.num.mag), BigInt::from_slice(Plus, &b.den));
    let r = x * y;
    let (s, mag) = r.numer().to_u32_digits();
    BigRat { num: BigNum { neg: match s { Minus => true, NoSign => false, Plus => false }, mag }, den: r.denom().to_u32_digits().1 }
}

/// Wraps `Ord::cmp` on `Ratio` (num-rational), as -1 / 0 / 1: the sign of
/// `a - b`.
#[verifier::external_body]
pub(crate) fn rat_compare(a: &BigRat, b: &BigRat) -> (r: i8)
    requires
        a.den_v() > 0,
        b.den_v() > 0,
    ensures
        r == -1 <==> a.num_v() * b.den_v() < b.num_v() * a.den_v(),
        r == 0 <==> a.num_v() * b.den_v() == b.num_v() * a.den_v(),
        r == 1 <==> a.num_v() * b.den_v() > b.num_v() * a.den_v(),
{
    let x = BigRational::new_raw(BigInt::from_slice(if a.num.neg { Minus } else { Plus }, &a.num.mag), BigInt::from_slice(Plus, &a.den));
    let y = BigRational::new_raw(BigInt::from_slice(if b.num.neg { Minus } else { Plus }, &b.num.mag), BigInt::from_slice(Plus, &b.den));
    match x.cmp(&y) {
        std::cmp::Ordering::Less => -1,
        std::cmp::Ordering::Equal => 0,
        std::cmp::Ordering::Greater => 1,
    }
}

/// Wraps `Ratio::to_integer` (num-rational): truncation toward zero.
#[verifier::external_body]
pub(crate) fn rat_to_integer(a: &BigRat) -> (r: BigNum)
    requires
        a.den_v() > 0,
    ensures
        r@ == trunc_div(a.num_v(), a.den_v()),
{
    let x = BigRational::new_raw(BigInt::from_slice(if a.num.neg { Minus } else { Plus }, &a.num.mag), BigInt::from_slice(Plus, &a.den));
    let (s, mag) = x.to_integer().to_u32_digits();
    BigNum { neg: match s { Minus => true, NoSign => false, Plus => false }, mag }
}

/// Wraps `Ratio / Ratio` (num-rational): exact quotient in lowest terms;
/// the divisor must be nonzero (it panics otherwise).
#[verifier::external_body]
pub(crate) fn rat_div(a: &BigRat, b: &BigRat) -> (r: BigRat)
    requires
        a.den_v() > 0,
        b.den_v() > 0,
        b.num_v() != 0,
    ensures
        r.wf(),
        r.denotes(a.num_v() * b.den_v(), a.den_v() * b.num_v()),
{
    let x = BigRational::new_raw(BigInt::from_slice(if a.num.neg { Minus } else { Plus }, &a.num.mag), BigInt::from_slice(Plus, &a.den));
    let y = BigRational::new_raw(BigInt::from_slice(if b.num.neg { Minus } else { Plus }, &b.num.mag), BigInt::from_slice(Plus, &b.den));
    let r = x / y;
    let (s, mag) = r.numer().to_u32_digits();
    BigRat { num: BigNum { neg: match s { Minus => true, NoSign => false, Plus => false }, mag }, den: r.denom().to_u32_digits().1 }
}

impl BigRat {
    pub fn zero() -> (r: BigRat)
        ensures
            r.wf(),
            r@ == (0int, 1int),
    {
        proof {
            crate::arith::lemma_gcd_zero_left(1);
        }
        BigRat::from_integer(BigNum::zero())
    }

    pub fn one() -> (r: BigRat)
        ensures
            r.wf(),
            r@ == (1int, 1int),
    {
        proof {
            crate::arith::lemma_gcd_one(1);
        }
        BigRat::from_integer(BigNum::from_i64(1))
    }

    pub fn add(&self, o: &BigRat) -> (r: BigRat)
        requires
            self.wf(),
            o.wf(),
        ensures
            r.wf(),
            r.q() == qadd(self.q(), o.q()),
            r.denotes(self.num_v() * o.den_v() + o.num_v() * self.den_v(), self.den_v() * o.den_v()),
    {
        let r = rat_add(self, o);
        proof {
            assert(self.den_v() * o.den_v() != 0) by (nonlinear_arith)
                requires
                    self.den_v() > 0,
                    o.den_v() != 0,
            ;
            lemma_qnorm_unique(r.q(), self.num_v() * o.den_v() + o.num_v() * self.den_v(), self.den_v() * o.den_v());
        }
        r
    }

    pub fn sub(&self, o: &BigRat) -> (r: BigRat)
        requires
            self.wf(),
            o.wf(),
        ensures
            r.wf(),
            r.q() == qsub(self.q(), o.q()),
            r.denotes(self.num_v() * o.den_v() - o.num_v() * self.den_v(), self.den_v() * o.den_v()),
    {
        let r = rat_sub(self, o);
        proof {
            assert(self.den_v() * o.den_v() != 0) by (nonlinear_arith)
                requires
                    self.den_v() > 0,
                    o.den_v() != 0,
            ;
            lemma_qnorm_unique(r.q(), self.num_v() * o.den_v() - o.num_v() * self.den_v(), self.den_v() * o.den_v());
        }
        r
    }

    pub fn mul(&self, o: &BigRat) -> (r: BigRat)
        requires
            self.wf(),
            o.wf(),
        ensures
            r.wf(),
            r.q() == qmul(self.q(), o.q()),
            r.denotes(self.num_v() * o.num_v(), self.den_v() * o.den_v()),
    {
        let r = rat_mul(self, o);
        proof {
            assert(self.den_v() * o.den_v() != 0) by (nonlinear_arith)
                requires
                    self.den_v() > 0,
                    o.den_v() != 0,
            ;
            lemma_qnorm_unique(r.q(), self.num_v() * o.num_v(), self.den_v() * o.den_v());
        }
        r
    }

    pub fn div(&self, o: &BigRat) -> (r: BigRat)
        requires
            self.wf(),
            o.wf(),
            o.num_v() != 0,
        ensures
            r.wf(),
            r.q() == qdiv(self.q(), o.q()),
            r.denotes(self.num_v() * o.den_v(), self.den_v() * o.num_v()),
    {
        let r = rat_div(self, o);
        proof {
            assert(self.den_v() * o.num_v() != 0) by (nonlinear_arith)
                requires
                    self.den_v() > 0,
                    o.num_v() != 0,
            ;
            lemma_qnorm_unique(r.q(), self.num_v() * o.den_v(), self.den_v() * o.num_v());
        }
        r
    }

    /// Sign of `self - o` as -1 / 0 / 1.
    pub fn compare(&self, o: &BigRat) -> (r: i8)
        requires
            self.wf(),
            o.wf(),
        ensures
            r == -1 <==> self.num_v() * o.den_v() < o.num_v() * self.den_v(),
            r == 0 <==> self.num_v() * o.den_v() == o.num_v() * self.den_v(),
            r == 1 <==> self.num_v() * o.den_v() > o.num_v() * self.den_v(),
    {
        rat_compare(self, o)
    }
}

/// Zero has the single representation `0 / 1`.
pub proof fn lemma_bigrat_zero_canonical(v: BigRat)
    requires
        v.wf(),
    ensures
        v.num_v() == 0 ==> v@ == (0int, 1int),
{
    if v.num_v() == 0 {
        crate::arith::lemma_gcd_zero_left(v.den_v() as nat);
    }
}

} // verus!
