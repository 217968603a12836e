//! The productions of the grammar over a vector of characters, each proved
//! to give what its spec function in `grammar` gives.
use crate::grammar::{self, Escaped, Parsed};
use crate::value::{lemma_array_view, lemma_object_view, pair_views, views, ErrorKind, Json, JsonNumber, JsonValue};
use vstd::prelude::*;

verus! {

/// What a production hands back: the value and the position after it, or
/// the trail of frames, innermost first.
pub type Step = Result<(JsonValue, usize), Vec<(usize, ErrorKind)>>;

/// Whether `r` is what the grammar gives, `p`.
pub open spec fn agrees(r: Step, p: Parsed) -> bool {
    match r {
        Ok((v, e)) => p == Parsed::Done(v@, e as int),
        Err(t) => p == Parsed::Fail(t@),
    }
}

/// Whether a successful `r` moved forward from `i` and stayed in `s`.
pub open spec fn progress(r: Step, s: Seq<char>, i: int) -> bool {
    r matches Ok((_, e)) ==> i < e <= s.len()
}

/// Relies on String::push: the character is appended at the end.
#[verifier::external_body]
fn push_char(t: &mut String, c: char)
    ensures
        final(t)@ == old(t)@.push(c),
{
    t.push(c)
}

/// Relies on char::from_u32: a character exactly for the scalar values,
/// the one with that code point.
#[verifier::external_body]
fn char_from_code(v: u32) -> (r: Option<char>)
    ensures
        r is Some <==> grammar::is_scalar(v as int),
        r matches Some(c) ==> grammar::code(c) == v as int,
{
    char::from_u32(v)
}

fn is_ws(c: char) -> (r: bool)
    ensures
        r == grammar::is_ws(c),
{
    c == ' ' || c == '\t' || c == '\n' || c == '\r'
}

fn is_digit(c: char) -> (r: bool)
    ensures
        r == grammar::is_digit(c),
{
    '0' <= c && c <= '9'
}

fn at(s: &Vec<char>, i: usize, c: char) -> (r: bool)
    ensures
        r == grammar::at(s@, i as int, c),
{
    i < s.len() && s[i] == c
}

pub fn skip_ws(s: &Vec<char>, i: usize) -> (r: usize)
    requires
        i <= s.len(),
    ensures
        r as int == grammar::skip_ws(s@, i as int),
        i <= r <= s.len(),
{
    let mut k = i;
    while k < s.len() && is_ws(s[k])
        invariant
            i <= k <= s.len(),
            grammar::skip_ws(s@, i as int) == grammar::skip_ws(s@, k as int),
        decreases s.len() - k,
    {
        k = k + 1;
    }
    k
}

fn skip_digits(s: &Vec<char>, i: usize) -> (r: usize)
    requires
        i <= s.len(),
    ensures
        r as int == grammar::skip_digits(s@, i as int),
        i <= r <= s.len(),
{
    let mut k = i;
    while k < s.len() && is_digit(s[k])
        invariant
            i <= k <= s.len(),
            grammar::skip_digits(s@, i as int) == grammar::skip_digits(s@, k as int),
        decreases s.len() - k,
    {
        k = k + 1;
    }
    k
}

fn word_at(s: &Vec<char>, i: usize, w: &[char]) -> (r: bool)
    ensures
        r == grammar::word_at(s@, i as int, w@),
{
    if i > s.len() || w.len() > s.len() - i {
        return false;
    }
    let mut k: usize = 0;
    while k < w.len()
        invariant
            i + w.len() <= s.len(),
            k <= w.len(),
            forall|m: int| 0 <= m < k ==> s@[i + m] == w@[m],
        decreases w.len() - k,
    {
        if s[i + k] != w[k] {
            assert(s@.subrange(i as int, i + w.len())[k as int] != w@[k as int]);
            return false;
        }
        k = k + 1;
    }
    assert(s@.subrange(i as int, i + w.len()) =~= w@);
    true
}

pub fn null_at(s: &Vec<char>, i: usize) -> (r: Step)
    requires
        i <= s.len(),
    ensures
        agrees(r, grammar::null(s@, i as int)),
        progress(r, s@, i as int),
{
    let j = skip_ws(s, i);
    if word_at(s, j, &['n', 'u', 'l', 'l']) {
        let e = skip_ws(s, j + 4);
        Ok((JsonValue::Null, e))
    } else {
        let t = vec![(j, ErrorKind::Keyword), (j, ErrorKind::Null)];
        assert(t@ =~= grammar::frame(j as int, ErrorKind::Keyword).push((j, ErrorKind::Null)));
        Err(t)
    }
}

pub fn bool_at(s: &Vec<char>, i: usize) -> (r: Step)
    requires
        i <= s.len(),
    ensures
        agrees(r, grammar::boolean(s@, i as int)),
        progress(r, s@, i as int),
{
    let j = skip_ws(s, i);
    if word_at(s, j, &['t', 'r', 'u', 'e']) {
        let e = skip_ws(s, j + 4);
        Ok((JsonValue::Bool(true), e))
    } else if word_at(s, j, &['f', 'a', 'l', 's', 'e']) {
        let e = skip_ws(s, j + 5);
        Ok((JsonValue::Bool(false), e))
    } else {
        let t = vec![(j, ErrorKind::Keyword), (j, ErrorKind::Bool)];
        assert(t@ =~= grammar::frame(j as int, ErrorKind::Keyword).push((j, ErrorKind::Bool)));
        Err(t)
    }
}

fn simple_escape(c: char) -> (r: Option<char>)
    ensures
        r == grammar::simple_escape(c),
{
    if c == '"' {
        Some('"')
    } else if c == '\\' {
        Some('\\')
    } else if c == 'b' {
        Some('\x08')
    } else if c == 'f' {
        Some('\x0c')
    } else if c == 'n' {
        Some('\n')
    } else if c == 'r' {
        Some('\r')
    } else if c == 't' {
        Some('\t')
    } else {
        None
    }
}

/// The value of a hexadecimal digit, if `c` is one.
fn hex_digit(c: char) -> (r: Option<u32>)
    ensures
        r is Some <==> grammar::is_hex(c),
        r matches Some(v) ==> v as int == grammar::hex_val(c) && v < 16,
{
    if '0' <= c && c <= '9' {
        Some(c as u32 - '0' as u32)
    } else if 'a' <= c && c <= 'f' {
        Some(c as u32 - 'a' as u32 + 10)
    } else if 'A' <= c && c <= 'F' {
        Some(c as u32 - 'A' as u32 + 10)
    } else {
        None
    }
}

/// The escape sequence whose backslash stands at `i`.
pub fn escape_at(s: &Vec<char>, i: usize) -> (r: Result<(char, usize), (usize, ErrorKind)>)
    requires
        i < s.len(),
    ensures
        match r {
            Ok((c, n)) => grammar::escape(s@, i as int) == Escaped::Char(c, n as int) && i < n
                <= s.len(),
            Err((p, k)) => grammar::escape(s@, i as int) == Escaped::Fail(p as int, k),
        },
{
    if i + 1 >= s.len() {
        return Err((i + 1, ErrorKind::Escape));
    }
    if s[i + 1] == 'u' {
        let h0 = match hex_at(s, i + 2) {
            Some(h) => h,
            None => return Err((i + 2, ErrorKind::HexDigit)),
        };
        let h1 = match hex_at(s, i + 3) {
            Some(h) => h,
            None => return Err((i + 3, ErrorKind::HexDigit)),
        };
        let h2 = match hex_at(s, i + 4) {
            Some(h) => h,
            None => return Err((i + 4, ErrorKind::HexDigit)),
        };
        let h3 = match hex_at(s, i + 5) {
            Some(h) => h,
            None => return Err((i + 5, ErrorKind::HexDigit)),
        };
        let v = h0 * 4096 + h1 * 256 + h2 * 16 + h3;
        match char_from_code(v) {
            Some(c) => {
                assert(grammar::code(grammar::char_of(v as int)) == v as int);
                Ok((c, i + 6))
            },
            None => Err((i, ErrorKind::Scalar)),
        }
    } else {
        match simple_escape(s[i + 1]) {
            Some(c) => Ok((c, i + 2)),
            None => Err((i + 1, ErrorKind::Escape)),
        }
    }
}

/// The value of the hexadecimal digit at position `p`, if one is there.
fn hex_at(s: &Vec<char>, p: usize) -> (r: Option<u32>)
    ensures
        r is Some <==> (p < s.len() && grammar::is_hex(s@[p as int])),
        r matches Some(v) ==> v as int == grammar::hex_val(s@[p as int]) && v < 16,
{
    if p < s.len() {
        hex_digit(s[p])
    } else {
        None
    }
}

pub fn string_at(s: &Vec<char>, i: usize) -> (r: Step)
    requires
        i <= s.len(),
    ensures
        agrees(r, grammar::string(s@, i as int)),
        progress(r, s@, i as int),
{
    let j = skip_ws(s, i);
    if !at(s, j, '"') {
        let t = vec![(j, ErrorKind::Char('"')), (j, ErrorKind::String)];
        assert(t@ =~= grammar::frame(j as int, ErrorKind::Char('"')).push((j, ErrorKind::String)));
        return Err(t);
    }
    let mut text = String::new();
    let mut k = j + 1;
    loop
        invariant
            i <= j < k <= s.len(),
            j as int == grammar::skip_ws(s@, i as int),
            grammar::at(s@, j as int, '"'),
            grammar::str_body(s@, j + 1, seq![]) == grammar::str_body(s@, k as int, text@),
        decreases s.len() - k,
    {
        if k >= s.len() {
            let t = vec![(k, ErrorKind::Char('"')), (j, ErrorKind::String)];
            assert(t@ =~= grammar::frame(k as int, ErrorKind::Char('"')).push((j, ErrorKind::String)));
            return Err(t);
        }
        let c = s[k];
        if c == '"' {
            let e = skip_ws(s, k + 1);
            return Ok((JsonValue::String(text), e));
        } else if c == '\\' {
            match escape_at(s, k) {
                Ok((d, n)) => {
                    push_char(&mut text, d);
                    k = n;
                },
                Err((p, kind)) => {
                    let t = vec![(p, kind), (j, ErrorKind::String)];
                    assert(t@ =~= grammar::frame(p as int, kind).push((j, ErrorKind::String)));
                    return Err(t);
                },
            }
        } else {
            push_char(&mut text, c);
            k = k + 1;
        }
    }
}

/// The characters from position `from` up to `to`, as a string.
fn text_of(s: &Vec<char>, from: usize, to: usize) -> (r: String)
    requires
        from <= to <= s.len(),
    ensures
        r@ == s@.subrange(from as int, to as int),
{
    let mut r = String::new();
    let mut k = from;
    while k < to
        invariant
            from <= k <= to <= s.len(),
            r@ == s@.subrange(from as int, k as int),
        decreases to - k,
    {
        push_char(&mut r, s[k]);
        assert(s@.subrange(from as int, k + 1) =~= s@.subrange(from as int, k as int).push(s@[k as int]));
        k = k + 1;
    }
    r
}

pub fn number_at(s: &Vec<char>, i: usize) -> (r: Step)
    requires
        i <= s.len(),
    ensures
        agrees(r, grammar::number(s@, i as int)),
        progress(r, s@, i as int),
{
    let j = skip_ws(s, i);
    let a = if at(s, j, '-') {
        j + 1
    } else {
        j
    };
    if !(a < s.len() && is_digit(s[a])) {
        let t = vec![(a, ErrorKind::Digit), (j, ErrorKind::Number)];
        assert(t@ =~= grammar::frame(a as int, ErrorKind::Digit).push((j, ErrorKind::Number)));
        return Err(t);
    }
    if s[a] == '0' && at(s, a + 1, '0') {
        let t = vec![(a + 1, ErrorKind::LeadingZero), (j, ErrorKind::Number)];
        assert(t@ =~= grammar::frame(a + 1, ErrorKind::LeadingZero).push((j, ErrorKind::Number)));
        return Err(t);
    }
    let b = skip_digits(s, a + 1);
    let c = if at(s, b, '.') {
        skip_digits(s, b + 1)
    } else {
        b
    };
    let mantissa = text_of(s, j, c);
    if !(at(s, c, 'e') || at(s, c, 'E')) {
        let end = skip_ws(s, c);
        return Ok((JsonValue::Number(JsonNumber { mantissa, exponent: None }), end));
    }
    if !(at(s, c + 1, '+') || at(s, c + 1, '-')) {
        let t = vec![(c + 1, ErrorKind::Sign), (j, ErrorKind::Number)];
        assert(t@ =~= grammar::frame(c + 1, ErrorKind::Sign).push((j, ErrorKind::Number)));
        return Err(t);
    }
    if !(c + 2 < s.len() && is_digit(s[c + 2])) {
        let t = vec![(c + 2, ErrorKind::Digit), (j, ErrorKind::Number)];
        assert(t@ =~= grammar::frame(c + 2, ErrorKind::Digit).push((j, ErrorKind::Number)));
        return Err(t);
    }
    let e = skip_digits(s, c + 3);
    let exponent = text_of(s, c + 1, e);
    let end = skip_ws(s, e);
    Ok((JsonValue::Number(JsonNumber { mantissa, exponent: Some(exponent) }), end))
}

/// Any value at `i`; at most `d` arrays and objects may open, one inside
/// the other.
pub fn value_at(s: &Vec<char>, i: usize, d: usize) -> (r: Step)
    requires
        i <= s.len(),
    ensures
        agrees(r, grammar::value(s@, i as int, d as nat)),
        progress(r, s@, i as int),
    decreases d, 1int,
{
    let j = skip_ws(s, i);
    if j >= s.len() {
        let t = vec![(j, ErrorKind::Value)];
        assert(t@ =~= grammar::frame(j as int, ErrorKind::Value));
        return Err(t);
    }
    let c = s[j];
    if c == 'n' {
        null_at(s, i)
    } else if c == 't' || c == 'f' {
        bool_at(s, i)
    } else if c == '"' {
        string_at(s, i)
    } else if c == '[' {
        array_at(s, i, d)
    } else if c == '-' || is_digit(c) {
        number_at(s, i)
    } else if c == '{' {
        object_at(s, i, d)
    } else {
        let t = vec![(j, ErrorKind::Value)];
        assert(t@ =~= grammar::frame(j as int, ErrorKind::Value));
        Err(t)
    }
}

pub fn array_at(s: &Vec<char>, i: usize, d: usize) -> (r: Step)
    requires
        i <= s.len(),
    ensures
        agrees(r, grammar::array(s@, i as int, d as nat)),
        progress(r, s@, i as int),
    decreases d, 0int,
{
    let j = skip_ws(s, i);
    if !at(s, j, '[') {
        let t = vec![(j, ErrorKind::Char('[')), (j, ErrorKind::Array)];
        assert(t@ =~= grammar::frame(j as int, ErrorKind::Char('[')).push((j, ErrorKind::Array)));
        return Err(t);
    }
    if d == 0 {
        let t = vec![(j, ErrorKind::DepthLimit), (j, ErrorKind::Array)];
        assert(t@ =~= grammar::frame(j as int, ErrorKind::DepthLimit).push((j, ErrorKind::Array)));
        return Err(t);
    }
    let k0 = skip_ws(s, j + 1);
    if at(s, k0, ']') {
        let end = skip_ws(s, k0 + 1);
        let items: Vec<JsonValue> = Vec::new();
        proof {
            lemma_array_view(items);
            assert(views(items@) =~= seq![]);
        }
        return Ok((JsonValue::Array(items), end));
    }
    if at(s, k0, ',') {
        let m = skip_ws(s, k0 + 1);
        if at(s, m, ']') {
            let end = skip_ws(s, m + 1);
            let items: Vec<JsonValue> = Vec::new();
            proof {
                lemma_array_view(items);
                assert(views(items@) =~= seq![]);
            }
            return Ok((JsonValue::Array(items), end));
        }
        let t = vec![(m, ErrorKind::Char(']')), (j, ErrorKind::Array)];
        assert(t@ =~= grammar::frame(m as int, ErrorKind::Char(']')).push((j, ErrorKind::Array)));
        return Err(t);
    }
    let dd = d - 1;
    let mut items: Vec<JsonValue> = Vec::new();
    let mut k = k0;
    assert(views(items@) =~= seq![]);
    loop
        invariant
            i <= j < k0 <= k <= s.len(),
            d > 0,
            dd == d - 1,
            j as int == grammar::skip_ws(s@, i as int),
            grammar::at(s@, j as int, '['),
            k0 as int == grammar::skip_ws(s@, j + 1),
            !grammar::at(s@, k0 as int, ']'),
            !grammar::at(s@, k0 as int, ','),
            grammar::elems(s@, k0 as int, dd as nat, seq![]) == grammar::elems(
                s@,
                k as int,
                dd as nat,
                views(items@),
            ),
        decreases s.len() - k,
    {
        match value_at(s, k, dd) {
            Err(mut t) => {
                t.push((j, ErrorKind::Array));
                return Err(t);
            },
            Ok((v, e)) => {
                let ghost before = items@;
                items.push(v);
                assert(views(items@) =~= views(before).push(v@));
                if at(s, e, ']') {
                    let end = skip_ws(s, e + 1);
                    proof {
                        lemma_array_view(items);
                    }
                    return Ok((JsonValue::Array(items), end));
                } else if at(s, e, ',') {
                    let m = skip_ws(s, e + 1);
                    if at(s, m, ']') {
                        let end = skip_ws(s, m + 1);
                        proof {
                            lemma_array_view(items);
                        }
                        return Ok((JsonValue::Array(items), end));
                    }
                    k = m;
                } else {
                    let t = vec![(e, ErrorKind::Char(']')), (j, ErrorKind::Array)];
                    assert(t@ =~= grammar::frame(e as int, ErrorKind::Char(']')).push(
                        (j, ErrorKind::Array),
                    ));
                    return Err(t);
                }
            },
        }
    }
}

pub fn object_at(s: &Vec<char>, i: usize, d: usize) -> (r: Step)
    requires
        i <= s.len(),
    ensures
        agrees(r, grammar::object(s@, i as int, d as nat)),
        progress(r, s@, i as int),
    decreases d, 0int,
{
    let j = skip_ws(s, i);
    if !at(s, j, '{') {
        let t = vec![(j, ErrorKind::Char('{')), (j, ErrorKind::Object)];
        assert(t@ =~= grammar::frame(j as int, ErrorKind::Char('{')).push((j, ErrorKind::Object)));
        return Err(t);
    }
    if d == 0 {
        let t = vec![(j, ErrorKind::DepthLimit), (j, ErrorKind::Object)];
        assert(t@ =~= grammar::frame(j as int, ErrorKind::DepthLimit).push((j, ErrorKind::Object)));
        return Err(t);
    }
    let k0 = skip_ws(s, j + 1);
    if at(s, k0, '}') {
        let end = skip_ws(s, k0 + 1);
        let pairs: Vec<(JsonValue, JsonValue)> = Vec::new();
        proof {
            lemma_object_view(pairs);
            assert(pair_views(pairs@) =~= seq![]);
        }
        return Ok((JsonValue::Object(pairs), end));
    }
    if at(s, k0, ',') {
        let m = skip_ws(s, k0 + 1);
        if at(s, m, '}') {
            let end = skip_ws(s, m + 1);
            let pairs: Vec<(JsonValue, JsonValue)> = Vec::new();
            proof {
                lemma_object_view(pairs);
                assert(pair_views(pairs@) =~= seq![]);
            }
            return Ok((JsonValue::Object(pairs), end));
        }
        let t = vec![(m, ErrorKind::Char('}')), (j, ErrorKind::Object)];
        assert(t@ =~= grammar::frame(m as int, ErrorKind::Char('}')).push((j, ErrorKind::Object)));
        return Err(t);
    }
    let dd = d - 1;
    let mut pairs: Vec<(JsonValue, JsonValue)> = Vec::new();
    let mut k = k0;
    assert(pair_views(pairs@) =~= seq![]);
    loop
        invariant
            i <= j < k0 <= k <= s.len(),
            d > 0,
            dd == d - 1,
            j as int == grammar::skip_ws(s@, i as int),
            grammar::at(s@, j as int, '{'),
            k0 as int == grammar::skip_ws(s@, j + 1),
            !grammar::at(s@, k0 as int, '}'),
            !grammar::at(s@, k0 as int, ','),
            grammar::members(s@, k0 as int, dd as nat, seq![]) == grammar::members(
                s@,
                k as int,
                dd as nat,
                pair_views(pairs@),
            ),
        decreases s.len() - k,
    {
        let (key, e) = match string_at(s, k) {
            Err(mut t) => {
                t.push((j, ErrorKind::Object));
                return Err(t);
            },
            Ok(p) => p,
        };
        if !at(s, e, ':') {
            let t = vec![(e, ErrorKind::Char(':')), (j, ErrorKind::Object)];
            assert(t@ =~= grammar::frame(e as int, ErrorKind::Char(':')).push((j, ErrorKind::Object)));
            return Err(t);
        }
        match value_at(s, e + 1, dd) {
            Err(mut t) => {
                t.push((j, ErrorKind::Object));
                return Err(t);
            },
            Ok((v, f)) => {
                let ghost before = pairs@;
                let ghost kv = (key@, v@);
                pairs.push((key, v));
                assert(pair_views(pairs@) =~= pair_views(before).push(kv));
                if at(s, f, '}') {
                    let end = skip_ws(s, f + 1);
                    proof {
                        lemma_object_view(pairs);
                    }
                    return Ok((JsonValue::Object(pairs), end));
                } else if at(s, f, ',') {
                    let m = skip_ws(s, f + 1);
                    if at(s, m, '}') {
                        let end = skip_ws(s, m + 1);
                        proof {
                            lemma_object_view(pairs);
                        }
                        return Ok((JsonValue::Object(pairs), end));
                    }
                    k = m;
                } else {
                    let t = vec![(f, ErrorKind::Char('}')), (j, ErrorKind::Object)];
                    assert(t@ =~= grammar::frame(f as int, ErrorKind::Char('}')).push(
                        (j, ErrorKind::Object),
                    ));
                    return Err(t);
                }
            },
        }
    }
}

} // verus!
