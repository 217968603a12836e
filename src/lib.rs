//! A small JSON parser whose productions are proved to follow the grammar
//! written down in `grammar`.
//!
//! Every parser ignores whatever text is left after the value it parsed,
//! except `parse_complete`, which asks for the whole input.
pub mod grammar;
pub mod laws;
pub mod parser;
pub mod value;

pub use value::{ErrorKind, Json, JsonNumber, JsonValue};

use grammar::Parsed;
use parser::Step;
use vstd::prelude::*;

verus! {

/// How many arrays and objects may open one inside the other when no
/// other bound is given.
pub const DEFAULT_MAX_DEPTH: usize = 128;

/// Why a parse failed: the trail of frames, outermost first, each the
/// position (counted in characters of `data`) and what went wrong there,
/// together with the text that was parsed.
#[derive(Clone, Debug, PartialEq)]
pub struct Error {
    pub errors: Vec<(usize, ErrorKind)>,
    pub data: String,
}

/// The characters of `s`.
pub fn chars_of(s: &str) -> (r: Vec<char>)
    ensures
        r@ == s@,
{
    let mut r: Vec<char> = Vec::new();
    for c in it: s.chars()
        invariant
            r@ == it.seq().take(it.index() as int),
    {
        r.push(c);
    }
    r
}

/// What a public parser returns for the text `s`, whose grammar result
/// is `p`.
pub open spec fn outcome(r: Result<JsonValue, Error>, s: Seq<char>, p: Parsed) -> bool {
    match r {
        Ok(v) => p matches Parsed::Done(m, _) && v@ == m,
        Err(e) => p matches Parsed::Fail(t) && e.errors@ == t.reverse() && e.data@ == s,
    }
}

/// Turns the result of a production into the public result.
fn finish(s: &str, r: Step) -> (out: Result<JsonValue, Error>)
    ensures
        r matches Ok((v, _)) ==> out == Ok::<JsonValue, Error>(v),
        r matches Err(t) ==> out matches Err(e) && e.errors@ == t@.reverse() && e.data@ == s@,
{
    match r {
        Ok((v, _)) => Ok(v),
        Err(t) => {
            let n = t.len();
            let mut errors: Vec<(usize, ErrorKind)> = Vec::new();
            let mut k: usize = 0;
            while k < n
                invariant
                    n == t.len(),
                    k <= n,
                    errors@ =~= t@.reverse().take(k as int),
                decreases n - k,
            {
                errors.push(t[n - 1 - k]);
                k = k + 1;
            }
            Err(Error { errors, data: s.to_owned() })
        },
    }
}

/// Parses any value, with at most `max_depth` arrays and objects opened
/// one inside the other.
pub fn parse_with_depth(s: &str, max_depth: usize) -> (r: Result<JsonValue, Error>)
    ensures
        outcome(r, s@, grammar::value(s@, 0, max_depth as nat)),
{
    let cs = chars_of(s);
    let r = parser::value_at(&cs, 0, max_depth);
    finish(s, r)
}

/// Parses any value.
pub fn parse(s: &str) -> (r: Result<JsonValue, Error>)
    ensures
        outcome(r, s@, grammar::value(s@, 0, DEFAULT_MAX_DEPTH as nat)),
{
    parse_with_depth(s, DEFAULT_MAX_DEPTH)
}

impl JsonValue {
    /// Parses any value.
    pub fn from_str(s: &str) -> (r: Result<JsonValue, Error>)
        ensures
            outcome(r, s@, grammar::value(s@, 0, DEFAULT_MAX_DEPTH as nat)),
    {
        parse(s)
    }
}

/// Parses `null`.
pub fn parse_null(s: &str) -> (r: Result<JsonValue, Error>)
    ensures
        outcome(r, s@, grammar::null(s@, 0)),
{
    let cs = chars_of(s);
    finish(s, parser::null_at(&cs, 0))
}

/// Parses `true` or `false`.
pub fn parse_bool(s: &str) -> (r: Result<JsonValue, Error>)
    ensures
        outcome(r, s@, grammar::boolean(s@, 0)),
{
    let cs = chars_of(s);
    finish(s, parser::bool_at(&cs, 0))
}

/// Parses a quoted string.
pub fn parse_string(s: &str) -> (r: Result<JsonValue, Error>)
    ensures
        outcome(r, s@, grammar::string(s@, 0)),
{
    let cs = chars_of(s);
    finish(s, parser::string_at(&cs, 0))
}

/// Parses an array.
pub fn parse_array(s: &str) -> (r: Result<JsonValue, Error>)
    ensures
        outcome(r, s@, grammar::array(s@, 0, DEFAULT_MAX_DEPTH as nat)),
{
    let cs = chars_of(s);
    finish(s, parser::array_at(&cs, 0, DEFAULT_MAX_DEPTH))
}

/// Parses a number.
pub fn parse_number(s: &str) -> (r: Result<JsonValue, Error>)
    ensures
        outcome(r, s@, grammar::number(s@, 0)),
{
    let cs = chars_of(s);
    finish(s, parser::number_at(&cs, 0))
}

/// Parses an object.
pub fn parse_object(s: &str) -> (r: Result<JsonValue, Error>)
    ensures
        outcome(r, s@, grammar::object(s@, 0, DEFAULT_MAX_DEPTH as nat)),
{
    let cs = chars_of(s);
    finish(s, parser::object_at(&cs, 0, DEFAULT_MAX_DEPTH))
}

/// Parses any value that takes up the whole of `s`, with at most
/// `max_depth` arrays and objects opened one inside the other.
pub fn parse_complete(s: &str, max_depth: usize) -> (r: Result<JsonValue, Error>)
    ensures
        outcome(r, s@, grammar::complete(s@, max_depth as nat)),
{
    let cs = chars_of(s);
    let r = parser::value_at(&cs, 0, max_depth);
    let r = match r {
        Ok((v, e)) => if e < cs.len() {
            let t = vec![(e, ErrorKind::Trailing)];
            assert(t@ =~= grammar::frame(e as int, ErrorKind::Trailing));
            Err(t)
        } else {
            Ok((v, e))
        },
        Err(t) => Err(t),
    };
    finish(s, r)
}

} // verus!
