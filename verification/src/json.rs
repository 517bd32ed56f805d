//! JSON text as the request and corpus readers see it, one level at a time.
//!
//! `serde_json` reads a text into a value; the library keeps the value's top
//! level as plain data and each direct child as JSON text of its own, which is
//! read again when the logic descends into it.  With `arbitrary_precision`,
//! a number keeps the exact digits of its token.
use crate::bignum::{big_from_decimal, decimal_parse, BigNum};
use serde_json::Value;
use vstd::prelude::*;

verus! {

/// The top level of one JSON value; children are kept as JSON text.
pub enum JsonNode {
    /// The text is not one JSON value.
    Invalid,
    Null,
    Bool(bool),
    /// The number's token, digits as written.
    Number(String),
    Str(String),
    Array(Vec<String>),
    /// Object members (key, member text), one per distinct key.
    Object(Vec<(String, String)>),
}

/// Mathematical model of a `JsonNode`.
pub enum JsonView {
    Invalid,
    Null,
    Bool(bool),
    Number(Seq<char>),
    Str(Seq<char>),
    Array(Seq<Seq<char>>),
    Object(Seq<(Seq<char>, Seq<char>)>),
}

impl View for JsonNode {
    type V = JsonView;

    open spec fn view(&self) -> JsonView {
        match self {
            JsonNode::Invalid => JsonView::Invalid,
            JsonNode::Null => JsonView::Null,
            JsonNode::Bool(b) => JsonView::Bool(*b),
            JsonNode::Number(t) => JsonView::Number(t@),
            JsonNode::Str(s) => JsonView::Str(s@),
            JsonNode::Array(a) => JsonView::Array(a@.map_values(|s: String| s@)),
            JsonNode::Object(o) => JsonView::Object(
                o@.map_values(|p: (String, String)| (p.0@, p.1@)),
            ),
        }
    }
}

/// What `read_json` gives for a text: the top level of the value that
/// `serde_json::from_str::<Value>` reads from it, each child written back
/// as JSON text by `Value`'s `Display` (two outside functions together).
pub uninterp spec fn json_parse(text: Seq<char>) -> JsonView;

/// Wraps `serde_json::from_str::<serde_json::Value>`: the value read from
/// `text` (named `json_parse`), its children re-serialised by `Value`'s
/// `Display`, which writes them back as JSON text.
#[verifier::external_body]
pub(crate) fn read_json(text: &str) -> (r: JsonNode)
    ensures
        r@ == json_parse(text@),
{
    match serde_json::from_str::<Value>(text) {
        Err(_) => JsonNode::Invalid,
        Ok(Value::Null) => JsonNode::Null,
        Ok(Value::Bool(b)) => JsonNode::Bool(b),
        Ok(Value::Number(n)) => JsonNode::Number(n.to_string()),
        Ok(Value::String(s)) => JsonNode::Str(s),
        Ok(Value::Array(a)) => JsonNode::Array(a.iter().map(|e| e.to_string()).collect()),
        Ok(Value::Object(m)) => JsonNode::Object(m.iter().map(|(k, e)| (k.clone(), e.to_string())).collect()),
    }
}

/// Unicode `White_Space`, the set `char::is_whitespace` tests.
pub open spec fn is_space(c: char) -> bool {
    let u = c as u32;
    ||| 0x09 <= u <= 0x0d
    ||| u == 0x20
    ||| u == 0x85
    ||| u == 0xa0
    ||| u == 0x1680
    ||| 0x2000 <= u <= 0x200a
    ||| u == 0x2028
    ||| u == 0x2029
    ||| u == 0x202f
    ||| u == 0x205f
    ||| u == 0x3000
}

/// Drop leading whitespace.
pub open spec fn skip_lead(s: Seq<char>) -> Seq<char>
    decreases s.len(),
{
    if s.len() > 0 && is_space(s[0]) {
        skip_lead(s.drop_first())
    } else {
        s
    }
}

/// Drop trailing whitespace.
pub open spec fn skip_trail(s: Seq<char>) -> Seq<char>
    decreases s.len(),
{
    if s.len() > 0 && is_space(s.last()) {
        skip_trail(s.drop_last())
    } else {
        s
    }
}

/// `str::trim`: the text without leading and trailing whitespace.
pub open spec fn trimmed(s: Seq<char>) -> Seq<char> {
    skip_trail(skip_lead(s))
}

fn space_char(c: char) -> (r: bool)
    ensures
        r == is_space(c),
{
    let u = c as u32;
    (0x09 <= u && u <= 0x0d) || u == 0x20 || u == 0x85 || u == 0xa0 || u == 0x1680 || (0x2000
        <= u && u <= 0x200a) || u == 0x2028 || u == 0x2029 || u == 0x202f || u == 0x205f || u
        == 0x3000
}

/// The text without leading and trailing whitespace.
pub fn trim_text(s: &str) -> (r: &str)
    ensures
        r@ == trimmed(s@),
{
    let n = s.unicode_len();
    let mut i: usize = 0;
    assert(s@.subrange(0, n as int) =~= s@);
    while i < n && space_char(s.get_char(i))
        invariant
            n == s@.len(),
            i <= n,
            skip_lead(s@) == skip_lead(s@.subrange(i as int, n as int)),
        decreases n - i,
    {
        assert(s@.subrange(i as int, n as int).drop_first() =~= s@.subrange(i + 1, n as int));
        i = i + 1;
    }
    assert(skip_lead(s@.subrange(i as int, n as int)) == s@.subrange(i as int, n as int));
    let mut j: usize = n;
    while j > i && space_char(s.get_char(j - 1))
        invariant
            n == s@.len(),
            i <= j <= n,
            skip_trail(s@.subrange(i as int, n as int)) == skip_trail(
                s@.subrange(i as int, j as int),
            ),
        decreases j - i,
    {
        assert(s@.subrange(i as int, j as int).drop_last() =~= s@.subrange(i as int, j - 1));
        j = j - 1;
    }
    assert(skip_trail(s@.subrange(i as int, j as int)) == s@.subrange(i as int, j as int));
    s.substring_char(i, j)
}

/// An ASCII decimal digit.
pub open spec fn is_digit(c: char) -> bool {
    '0' <= c <= '9'
}

/// Value of a digit string (most significant first).
pub open spec fn digits_nat(s: Seq<char>) -> nat
    decreases s.len(),
{
    if s.len() == 0 {
        0
    } else {
        digits_nat(s.drop_last()) * 10 + (s.last() as nat - '0' as nat) as nat
    }
}

/// Every character is a decimal digit.
pub open spec fn all_digits(s: Seq<char>) -> bool {
    forall|i: int| 0 <= i < s.len() ==> is_digit(#[trigger] s[i])
}

/// The digits part of unsigned text: without one leading `+`.
pub open spec fn unsigned_body(s: Seq<char>) -> Seq<char> {
    if s.len() > 0 && s[0] == '+' {
        s.drop_first()
    } else {
        s
    }
}

/// Text accepted by `str::parse` for an unsigned integer: an optional `+`,
/// then one or more decimal digits; its value.
pub open spec fn unsigned_text(s: Seq<char>) -> Option<nat> {
    if unsigned_body(s).len() > 0 && all_digits(unsigned_body(s)) {
        Some(digits_nat(unsigned_body(s)))
    } else {
        None
    }
}

/// `str::parse::<u64>`: the value when the text is unsigned and fits.
pub open spec fn u64_text(s: Seq<char>) -> Option<u64> {
    match unsigned_text(s) {
        Some(n) => if n <= u64::MAX {
            Some(n as u64)
        } else {
            None
        },
        None => None,
    }
}

proof fn lemma_digits_prefix(s: Seq<char>, k: int)
    requires
        0 <= k <= s.len(),
        forall|i: int| 0 <= i < s.len() ==> is_digit(#[trigger] s[i]),
    ensures
        digits_nat(s.take(k)) <= digits_nat(s),
    decreases s.len() - k,
{
    if k < s.len() {
        lemma_digits_prefix(s, k + 1);
        assert(s.take(k + 1).drop_last() =~= s.take(k));
    } else {
        assert(s.take(k) =~= s);
    }
}

/// Parse unsigned decimal text into a `u64`, as `str::parse::<u64>` does.
pub fn text_u64(s: &str) -> (r: Option<u64>)
    ensures
        r == u64_text(s@),
{
    if !s.is_ascii() {
        proof {
            let k = choose|k: int| 0 <= k < s@.len() && !('\0' <= #[trigger] s@[k] <= '\u{7f}');
            assert(!is_digit(s@[k]));
            if s@.len() > 0 && s@[0] == '+' {
                assert(s@.drop_first()[k - 1] == s@[k]);
                assert(!is_digit(s@.drop_first()[k - 1]));
            } else {
                assert(!is_digit(s@[k]));
            }
            assert(unsigned_text(s@) is None);
        }
        return None;
    }
    let b = s.as_bytes();
    proof {
        vstd::string::is_ascii_spec_bytes(s);
    }
    assert(b@.len() == s@.len());
    let n = b.len();
    let start: usize = if n > 0 && b[0] == 43 {
        1
    } else {
        0
    };
    let ghost body = s@.subrange(start as int, n as int);
    proof {
        if start == 1 {
            assert(s@[0] as u8 == 43u8);
            assert(s@[0] == '+');
            assert(body =~= s@.drop_first());
        } else {
            if n > 0 {
                assert(s@[0] as u8 != 43u8);
            }
            assert(body =~= s@);
        }
    }
    if start >= n {
        return None;
    }
    let mut i: usize = start;
    while i < n
        invariant
            b@ == Seq::new(s@.len(), |k: int| s@[k] as u8),
            n == b@.len(),
            start <= i <= n,
            body == s@.subrange(start as int, n as int),
            forall|k: int| 0 <= k < s@.len() ==> '\0' <= #[trigger] s@[k] <= '\u{7f}',
            forall|k: int| start <= k < i ==> is_digit(#[trigger] s@[k]),
            forall|k: int| start <= k < i ==> 48 <= #[trigger] b@[k] <= 57,
            body == unsigned_body(s@),
        decreases n - i,
    {
        let c = b[i];
        assert(c == s@[i as int] as u8);
        let ghost ch = s@[i as int];
        assert(ch <= '\u{7f}');
        assert(c as int == ch as int);
        if c < 48 || c > 57 {
            assert(body[i - start] == ch);
            assert(!is_digit(body[i - start]));
            assert(body.len() > 0);
            assert(!all_digits(body));
            assert(unsigned_text(s@) is None);
            return None;
        }
        assert(is_digit(ch));
        i = i + 1;
    }
    assert forall|k: int| 0 <= k < body.len() implies is_digit(#[trigger] body[k]) by {
        assert(body[k] == s@[k + start]);
    }
    let mut acc: u64 = 0;
    let mut j: usize = start;
    while j < n
        invariant
            b@ == Seq::new(s@.len(), |k: int| s@[k] as u8),
            n == b@.len(),
            start <= j <= n,
            body == s@.subrange(start as int, n as int),
            forall|k: int| 0 <= k < s@.len() ==> '\0' <= #[trigger] s@[k] <= '\u{7f}',
            forall|k: int| 0 <= k < body.len() ==> is_digit(#[trigger] body[k]),
            forall|k: int| start <= k < n ==> 48 <= #[trigger] b@[k] <= 57,
            acc == digits_nat(body.take(j - start)),
            body.len() == n - start,
            body == unsigned_body(s@),
        decreases n - j,
    {
        let d = (b[j] - 48) as u64;
        proof {
            assert(body[j - start] == s@[j as int]);
            assert(s@[j as int] <= '\u{7f}');
            assert(b@[j as int] as int == s@[j as int] as int);
            assert(body.take(j - start + 1).drop_last() =~= body.take(j - start));
            assert(d == (s@[j as int] as nat - '0' as nat));
        }
        if acc > (u64::MAX - d) / 10 {
            proof {
                assert(acc * 10 + d > u64::MAX) by (nonlinear_arith)
                    requires
                        acc > (u64::MAX - d) / 10,
                        d <= 9,
                ;
                lemma_digits_prefix(body, j - start + 1);
            }
            return None;
        }
        assert(acc * 10 + d <= u64::MAX) by (nonlinear_arith)
            requires
                acc <= (u64::MAX - d) / 10,
                d <= 9,
        ;
        acc = acc * 10 + d;
        j = j + 1;
    }
    assert(body.take(n - start) =~= body);
    Some(acc)
}

/// The member text stored under `key` (object keys are distinct).
pub open spec fn member(fields: Seq<(Seq<char>, Seq<char>)>, key: Seq<char>) -> Option<Seq<char>>
    decreases fields.len(),
{
    if fields.len() == 0 {
        None
    } else if fields[0].0 == key {
        Some(fields[0].1)
    } else {
        member(fields.drop_first(), key)
    }
}

/// `Value::get(key)`: an object's member text, `None` for anything else.
pub open spec fn json_get(v: JsonView, key: Seq<char>) -> Option<Seq<char>> {
    match v {
        JsonView::Object(fields) => member(fields, key),
        _ => None,
    }
}

/// `value[key]`: the member read as JSON, `Null` where there is none.
pub open spec fn json_index(v: JsonView, key: Seq<char>) -> JsonView {
    match json_get(v, key) {
        Some(t) => json_parse(t),
        None => JsonView::Null,
    }
}

/// `Value::as_u64`.
pub open spec fn json_u64(v: JsonView) -> Option<u64> {
    match v {
        JsonView::Number(t) => u64_text(t),
        _ => None,
    }
}

/// `usize::try_from(value.as_u64()?)`.
pub open spec fn json_usize(v: JsonView) -> Option<usize> {
    match json_u64(v) {
        Some(n) => if n <= usize::MAX {
            Some(n as usize)
        } else {
            None
        },
        None => None,
    }
}

/// The integer a number token denotes, as `BigInt::from_str` reads it.
pub open spec fn json_int(v: JsonView) -> Option<int> {
    match v {
        JsonView::Number(t) => decimal_parse(t),
        _ => None,
    }
}

/// `Value::as_str`.
pub open spec fn json_str(v: JsonView) -> Option<Seq<char>> {
    match v {
        JsonView::Str(s) => Some(s),
        _ => None,
    }
}

/// `Value::as_bool`.
pub open spec fn json_bool(v: JsonView) -> Option<bool> {
    match v {
        JsonView::Bool(b) => Some(b),
        _ => None,
    }
}

/// The text of a string view, if any.
pub open spec fn text_view(o: Option<&String>) -> Option<Seq<char>> {
    match o {
        Some(t) => Some(t@),
        None => None,
    }
}

/// The member text stored under `key`.
pub fn get_member<'a>(node: &'a JsonNode, key: &str) -> (r: Option<&'a String>)
    ensures
        text_view(r) == json_get(node@, key@),
{
    match node {
        JsonNode::Object(fields) => {
            let k = String::from_str(key);
            let ghost fv = fields@.map_values(|p: (String, String)| (p.0@, p.1@));
            let mut i: usize = 0;
            assert(fv.subrange(0, fv.len() as int) =~= fv);
            assert(json_get(node@, key@) == member(fv, key@));
            while i < fields.len()
                invariant
                    i <= fields@.len(),
                    json_get(node@, key@) == member(fv, key@),
                    fv == fields@.map_values(|p: (String, String)| (p.0@, p.1@)),
                    k@ == key@,
                    member(fv, key@) == member(fv.subrange(i as int, fv.len() as int), key@),
                decreases fields@.len() - i,
            {
                let ghost rest = fv.subrange(i as int, fv.len() as int);
                assert(rest[0] == fv[i as int]);
                assert(fv[i as int] == (fields@[i as int].0@, fields@[i as int].1@));
                if fields[i].0 == k {
                    assert(member(rest, key@) == Some(fields@[i as int].1@));
                    return Some(&fields[i].1);
                }
                assert(rest.drop_first() =~= fv.subrange(i + 1, fv.len() as int));
                i = i + 1;
            }
            None
        },
        _ => None,
    }
}

/// `Value::as_u64`.
pub fn as_u64(node: &JsonNode) -> (r: Option<u64>)
    ensures
        r == json_u64(node@),
{
    match node {
        JsonNode::Number(t) => text_u64(t.as_str()),
        _ => None,
    }
}

/// `usize::try_from(value.as_u64()?)`.
pub fn as_usize(node: &JsonNode) -> (r: Option<usize>)
    ensures
        r == json_usize(node@),
{
    match as_u64(node) {
        Some(n) => if n <= usize::MAX as u64 {
            Some(n as usize)
        } else {
            None
        },
        None => None,
    }
}

/// The integer a number token denotes.
pub fn as_bignum(node: &JsonNode) -> (r: Option<BigNum>)
    ensures
        match r {
            Some(b) => json_int(node@) == Some(b@),
            None => json_int(node@) is None,
        },
{
    match node {
        JsonNode::Number(t) => big_from_decimal(t.as_str()),
        _ => None,
    }
}

/// `Value::as_str`.
pub fn as_str(node: &JsonNode) -> (r: Option<&String>)
    ensures
        text_view(r) == json_str(node@),
{
    match node {
        JsonNode::Str(s) => Some(s),
        _ => None,
    }
}

/// `Value::as_bool`.
pub fn as_bool(node: &JsonNode) -> (r: Option<bool>)
    ensures
        r == json_bool(node@),
{
    match node {
        JsonNode::Bool(b) => Some(*b),
        _ => None,
    }
}

/// `value[key]`: the member read as JSON, `Null` where there is none.
pub fn index(node: &JsonNode, key: &str) -> (r: JsonNode)
    ensures
        r@ == json_index(node@, key@),
{
    match get_member(node, key) {
        Some(t) => read_json(t.as_str()),
        None => JsonNode::Null,
    }
}

/// `str::starts_with` for a text pattern.
pub open spec fn starts_with(s: Seq<char>, p: Seq<char>) -> bool {
    p.len() <= s.len() && s.subrange(0, p.len() as int) == p
}

/// `str::ends_with` for a text pattern.
pub open spec fn ends_with(s: Seq<char>, p: Seq<char>) -> bool {
    p.len() <= s.len() && s.subrange(s.len() - p.len(), s.len() as int) == p
}

/// Whether `s` begins with `p`.
pub fn has_prefix(s: &str, p: &str) -> (r: bool)
    ensures
        r == starts_with(s@, p@),
{
    let n = s.unicode_len();
    let m = p.unicode_len();
    if m > n {
        return false;
    }
    let mut k: usize = 0;
    while k < m
        invariant
            n == s@.len(),
            m == p@.len(),
            m <= n,
            k <= m,
            forall|t: int| 0 <= t < k ==> s@[t] == p@[t],
        decreases m - k,
    {
        if s.get_char(k) != p.get_char(k) {
            assert(s@.subrange(0, m as int)[k as int] != p@[k as int]);
            return false;
        }
        k = k + 1;
    }
    assert(s@.subrange(0, m as int) =~= p@);
    true
}

/// Whether `s` ends with `p`.
pub fn has_suffix(s: &str, p: &str) -> (r: bool)
    ensures
        r == ends_with(s@, p@),
{
    let n = s.unicode_len();
    let m = p.unicode_len();
    if m > n {
        return false;
    }
    let off = n - m;
    let mut k: usize = 0;
    while k < m
        invariant
            n == s@.len(),
            m == p@.len(),
            off == n - m,
            k <= m,
            forall|t: int| 0 <= t < k ==> s@[off + t] == p@[t],
        decreases m - k,
    {
        if s.get_char(off + k) != p.get_char(k) {
            assert(s@.subrange(off as int, n as int)[k as int] != p@[k as int]);
            return false;
        }
        k = k + 1;
    }
    assert(s@.subrange(off as int, n as int) =~= p@);
    true
}

} // verus!
