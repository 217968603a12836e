//! The JSON grammar as spec functions over the characters of the input.
//!
//! Each production takes the text and the position at which it starts, and
//! gives either the value and the position just after it (trailing
//! whitespace included), or the trail of frames that explains the failure,
//! innermost frame first.
use crate::value::{ErrorKind, Json};
use vstd::prelude::*;

verus! {

pub enum Parsed {
    Done(Json, int),
    Fail(Seq<(usize, ErrorKind)>),
}

/// A single frame.
pub open spec fn frame(at: int, kind: ErrorKind) -> Seq<(usize, ErrorKind)> {
    seq![(at as usize, kind)]
}

/// The failure `t`, with the frame of the production that started at `at`.
pub open spec fn wrap(p: Parsed, at: int, kind: ErrorKind) -> Parsed {
    match p {
        Parsed::Fail(t) => Parsed::Fail(t.push((at as usize, kind))),
        _ => p,
    }
}

pub open spec fn is_ws(c: char) -> bool {
    c == ' ' || c == '\t' || c == '\n' || c == '\r'
}

pub open spec fn is_digit(c: char) -> bool {
    '0' <= c <= '9'
}

pub open spec fn is_hex(c: char) -> bool {
    ('0' <= c <= '9') || ('a' <= c <= 'f') || ('A' <= c <= 'F')
}

pub open spec fn hex_val(c: char) -> int {
    if '0' <= c <= '9' {
        c as int - '0' as int
    } else if 'a' <= c <= 'f' {
        c as int - 'a' as int + 10
    } else {
        c as int - 'A' as int + 10
    }
}

/// Whether `c` stands at position `i` of `s`.
pub open spec fn at(s: Seq<char>, i: int, c: char) -> bool {
    0 <= i < s.len() && s[i] == c
}

/// The first position at or after `i` that holds no whitespace.
pub open spec fn skip_ws(s: Seq<char>, i: int) -> int
    decreases s.len() - i,
{
    if 0 <= i < s.len() && is_ws(s[i]) {
        skip_ws(s, i + 1)
    } else {
        i
    }
}

/// The first position at or after `i` that holds no decimal digit.
pub open spec fn skip_digits(s: Seq<char>, i: int) -> int
    decreases s.len() - i,
{
    if 0 <= i < s.len() && is_digit(s[i]) {
        skip_digits(s, i + 1)
    } else {
        i
    }
}

/// Whether the word `w` stands at position `i` of `s`.
pub open spec fn word_at(s: Seq<char>, i: int, w: Seq<char>) -> bool {
    0 <= i && i + w.len() <= s.len() && s.subrange(i, i + w.len()) == w
}

pub open spec fn null_word() -> Seq<char> {
    seq!['n', 'u', 'l', 'l']
}

pub open spec fn true_word() -> Seq<char> {
    seq!['t', 'r', 'u', 'e']
}

pub open spec fn false_word() -> Seq<char> {
    seq!['f', 'a', 'l', 's', 'e']
}

pub open spec fn null(s: Seq<char>, i: int) -> Parsed {
    let j = skip_ws(s, i);
    if word_at(s, j, null_word()) {
        Parsed::Done(Json::Null, skip_ws(s, j + 4))
    } else {
        Parsed::Fail(frame(j, ErrorKind::Keyword).push((j as usize, ErrorKind::Null)))
    }
}

pub open spec fn boolean(s: Seq<char>, i: int) -> Parsed {
    let j = skip_ws(s, i);
    if word_at(s, j, true_word()) {
        Parsed::Done(Json::Bool(true), skip_ws(s, j + 4))
    } else if word_at(s, j, false_word()) {
        Parsed::Done(Json::Bool(false), skip_ws(s, j + 5))
    } else {
        Parsed::Fail(frame(j, ErrorKind::Keyword).push((j as usize, ErrorKind::Bool)))
    }
}

/// The character that a simple escape letter stands for.
pub open spec fn simple_escape(c: char) -> Option<char> {
    if c == '"' {
        Some('"')
    } else if c == '\\' {
        Some('\\')
    } else if c == 'b' {
        Some('\x08')
    } else if c == 'f' {
        Some('\x0c')
    } else if c == 'n' {
        Some('\n')
    } else if c == 'r' {
        Some('\r')
    } else if c == 't' {
        Some('\t')
    } else {
        None
    }
}

/// The value of the four hexadecimal digits from position `i` on.
pub open spec fn hex4(s: Seq<char>, i: int) -> int {
    hex_val(s[i]) * 4096 + hex_val(s[i + 1]) * 256 + hex_val(s[i + 2]) * 16 + hex_val(s[i + 3])
}

/// Whether `v` is a Unicode scalar value (a code point that is no surrogate).
pub open spec fn is_scalar(v: int) -> bool {
    (0 <= v < 0xD800) || (0xE000 <= v <= 0x10FFFF)
}

/// The code point of `c`.
pub open spec fn code(c: char) -> int {
    c as int
}

/// The character whose code point is `v`.
pub open spec fn char_of(v: int) -> char {
    choose|c: char| #[trigger] code(c) == v
}

/// The first of the four positions from `i` on that holds no hexadecimal
/// digit, or `i + 4` when all four do.
pub open spec fn first_non_hex(s: Seq<char>, i: int) -> int {
    if !(0 <= i < s.len() && is_hex(s[i])) {
        i
    } else if !(i + 1 < s.len() && is_hex(s[i + 1])) {
        i + 1
    } else if !(i + 2 < s.len() && is_hex(s[i + 2])) {
        i + 2
    } else if !(i + 3 < s.len() && is_hex(s[i + 3])) {
        i + 3
    } else {
        i + 4
    }
}

pub enum Escaped {
    /// The character, and the position after the escape.
    Char(char, int),
    Fail(int, ErrorKind),
}

/// The escape sequence whose backslash stands at `i`.
pub open spec fn escape(s: Seq<char>, i: int) -> Escaped {
    if !(i + 1 < s.len()) {
        Escaped::Fail(i + 1, ErrorKind::Escape)
    } else if s[i + 1] == 'u' {
        let h = first_non_hex(s, i + 2);
        if h < i + 6 {
            Escaped::Fail(h, ErrorKind::HexDigit)
        } else if is_scalar(hex4(s, i + 2)) {
            Escaped::Char(char_of(hex4(s, i + 2)), i + 6)
        } else {
            Escaped::Fail(i, ErrorKind::Scalar)
        }
    } else {
        match simple_escape(s[i + 1]) {
            Some(c) => Escaped::Char(c, i + 2),
            None => Escaped::Fail(i + 1, ErrorKind::Escape),
        }
    }
}

pub enum Body {
    /// The characters, and the position of the closing quote.
    Text(Seq<char>, int),
    Fail(int, ErrorKind),
}

/// The body of a string from position `i` on, after the characters `acc`.
pub open spec fn str_body(s: Seq<char>, i: int, acc: Seq<char>) -> Body
    decreases s.len() - i,
{
    if !(0 <= i < s.len()) {
        Body::Fail(i, ErrorKind::Char('"'))
    } else if s[i] == '"' {
        Body::Text(acc, i)
    } else if s[i] == '\\' {
        match escape(s, i) {
            Escaped::Char(c, n) => if i < n {
                str_body(s, n, acc.push(c))
            } else {
                Body::Fail(i, ErrorKind::Escape)
            },
            Escaped::Fail(p, k) => Body::Fail(p, k),
        }
    } else {
        str_body(s, i + 1, acc.push(s[i]))
    }
}

pub open spec fn string(s: Seq<char>, i: int) -> Parsed {
    let j = skip_ws(s, i);
    if at(s, j, '"') {
        match str_body(s, j + 1, seq![]) {
            Body::Text(t, k) => Parsed::Done(Json::Str(t), skip_ws(s, k + 1)),
            Body::Fail(p, k) => Parsed::Fail(frame(p, k).push((j as usize, ErrorKind::String))),
        }
    } else {
        Parsed::Fail(frame(j, ErrorKind::Char('"')).push((j as usize, ErrorKind::String)))
    }
}

pub open spec fn number(s: Seq<char>, i: int) -> Parsed {
    let j = skip_ws(s, i);
    let a = if at(s, j, '-') {
        j + 1
    } else {
        j
    };
    if !(0 <= a < s.len() && is_digit(s[a])) {
        Parsed::Fail(frame(a, ErrorKind::Digit).push((j as usize, ErrorKind::Number)))
    } else if s[a] == '0' && at(s, a + 1, '0') {
        Parsed::Fail(frame(a + 1, ErrorKind::LeadingZero).push((j as usize, ErrorKind::Number)))
    } else {
        let b = skip_digits(s, a + 1);
        let c = if at(s, b, '.') {
            skip_digits(s, b + 1)
        } else {
            b
        };
        let mantissa = s.subrange(j, c);
        if !(at(s, c, 'e') || at(s, c, 'E')) {
            Parsed::Done(Json::Num(mantissa, None), skip_ws(s, c))
        } else if !(at(s, c + 1, '+') || at(s, c + 1, '-')) {
            Parsed::Fail(frame(c + 1, ErrorKind::Sign).push((j as usize, ErrorKind::Number)))
        } else if !(0 <= c + 2 < s.len() && is_digit(s[c + 2])) {
            Parsed::Fail(frame(c + 2, ErrorKind::Digit).push((j as usize, ErrorKind::Number)))
        } else {
            let e = skip_digits(s, c + 3);
            Parsed::Done(Json::Num(mantissa, Some(s.subrange(c + 1, e))), skip_ws(s, e))
        }
    }
}

/// Whether a step from `k` to `m` moves forward inside the text. Every
/// step of the grammar does; the productions that repeat test it, so that
/// their recursion visibly ends.
pub open spec fn advances(s: Seq<char>, k: int, m: int) -> bool {
    k < m <= s.len()
}

/// Any value, chosen by the character that starts it; `d` is how many
/// more arrays and objects may open.
pub open spec fn value(s: Seq<char>, i: int, d: nat) -> Parsed
    decreases d, s.len() - i, 1int,
{
    let j = skip_ws(s, i);
    if !(0 <= j < s.len()) {
        Parsed::Fail(frame(j, ErrorKind::Value))
    } else {
        let c = s[j];
        if c == 'n' {
            null(s, i)
        } else if c == 't' || c == 'f' {
            boolean(s, i)
        } else if c == '"' {
            string(s, i)
        } else if c == '[' {
            array(s, i, d)
        } else if c == '-' || is_digit(c) {
            number(s, i)
        } else if c == '{' {
            object(s, i, d)
        } else {
            Parsed::Fail(frame(j, ErrorKind::Value))
        }
    }
}

pub open spec fn array(s: Seq<char>, i: int, d: nat) -> Parsed
    decreases d, s.len() - i, 0int,
{
    let j = skip_ws(s, i);
    if !at(s, j, '[') {
        Parsed::Fail(frame(j, ErrorKind::Char('[')).push((j as usize, ErrorKind::Array)))
    } else if d == 0 {
        Parsed::Fail(frame(j, ErrorKind::DepthLimit).push((j as usize, ErrorKind::Array)))
    } else {
        let k = skip_ws(s, j + 1);
        if at(s, k, ']') {
            Parsed::Done(Json::Arr(seq![]), skip_ws(s, k + 1))
        } else if at(s, k, ',') {
            let m = skip_ws(s, k + 1);
            if at(s, m, ']') {
                Parsed::Done(Json::Arr(seq![]), skip_ws(s, m + 1))
            } else {
                Parsed::Fail(frame(m, ErrorKind::Char(']')).push((j as usize, ErrorKind::Array)))
            }
        } else {
            wrap(elems(s, k, (d - 1) as nat, seq![]), j, ErrorKind::Array)
        }
    }
}

/// The elements of an array from the one at `k` on, after the elements
/// `acc`, up to and past the closing bracket.
pub open spec fn elems(s: Seq<char>, k: int, d: nat, acc: Seq<Json>) -> Parsed
    decreases d, s.len() - k, 2int,
{
    match value(s, k, d) {
        Parsed::Fail(t) => Parsed::Fail(t),
        Parsed::Done(v, e) => {
            let items = acc.push(v);
            if at(s, e, ']') {
                Parsed::Done(Json::Arr(items), skip_ws(s, e + 1))
            } else if at(s, e, ',') {
                let m = skip_ws(s, e + 1);
                if at(s, m, ']') {
                    Parsed::Done(Json::Arr(items), skip_ws(s, m + 1))
                } else if advances(s, k, m) {
                    elems(s, m, d, items)
                } else {
                    Parsed::Fail(frame(m, ErrorKind::Value))
                }
            } else {
                Parsed::Fail(frame(e, ErrorKind::Char(']')))
            }
        },
    }
}

pub open spec fn object(s: Seq<char>, i: int, d: nat) -> Parsed
    decreases d, s.len() - i, 0int,
{
    let j = skip_ws(s, i);
    if !at(s, j, '{') {
        Parsed::Fail(frame(j, ErrorKind::Char('{')).push((j as usize, ErrorKind::Object)))
    } else if d == 0 {
        Parsed::Fail(frame(j, ErrorKind::DepthLimit).push((j as usize, ErrorKind::Object)))
    } else {
        let k = skip_ws(s, j + 1);
        if at(s, k, '}') {
            Parsed::Done(Json::Obj(seq![]), skip_ws(s, k + 1))
        } else if at(s, k, ',') {
            let m = skip_ws(s, k + 1);
            if at(s, m, '}') {
                Parsed::Done(Json::Obj(seq![]), skip_ws(s, m + 1))
            } else {
                Parsed::Fail(frame(m, ErrorKind::Char('}')).push((j as usize, ErrorKind::Object)))
            }
        } else {
            wrap(members(s, k, (d - 1) as nat, seq![]), j, ErrorKind::Object)
        }
    }
}

/// The members of an object from the one at `k` on, after the pairs `acc`,
/// up to and past the closing brace.
pub open spec fn members(s: Seq<char>, k: int, d: nat, acc: Seq<(Json, Json)>) -> Parsed
    decreases d, s.len() - k, 2int,
{
    match string(s, k) {
        Parsed::Fail(t) => Parsed::Fail(t),
        Parsed::Done(key, e) => if !at(s, e, ':') {
            Parsed::Fail(frame(e, ErrorKind::Char(':')))
        } else if !advances(s, k, e + 1) {
            Parsed::Fail(frame(e, ErrorKind::Value))
        } else {
            match value(s, e + 1, d) {
                Parsed::Fail(t) => Parsed::Fail(t),
                Parsed::Done(v, f) => {
                    let pairs = acc.push((key, v));
                    if at(s, f, '}') {
                        Parsed::Done(Json::Obj(pairs), skip_ws(s, f + 1))
                    } else if at(s, f, ',') {
                        let m = skip_ws(s, f + 1);
                        if at(s, m, '}') {
                            Parsed::Done(Json::Obj(pairs), skip_ws(s, m + 1))
                        } else if advances(s, k, m) {
                            members(s, m, d, pairs)
                        } else {
                            Parsed::Fail(frame(m, ErrorKind::Value))
                        }
                    } else {
                        Parsed::Fail(frame(f, ErrorKind::Char('}')))
                    }
                },
            }
        },
    }
}

/// A value that takes up the whole text.
pub open spec fn complete(s: Seq<char>, d: nat) -> Parsed {
    match value(s, 0, d) {
        Parsed::Done(v, e) => if e < s.len() {
            Parsed::Fail(frame(e, ErrorKind::Trailing))
        } else {
            Parsed::Done(v, e)
        },
        f => f,
    }
}

} // verus!
