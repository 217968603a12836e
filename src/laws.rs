//! Facts that hold of every input, proved over the grammar.
use crate::grammar::{self, at, skip_digits, skip_ws, Body, Escaped, Parsed};
use crate::value::{depth, seq_max, ErrorKind, Json};
use vstd::prelude::*;

verus! {

/// Whether the positions of a trail (innermost frame first) lie between
/// `lo` and `hi` and never grow from a frame to the one that encloses it.
pub open spec fn placed(t: Seq<(usize, ErrorKind)>, lo: int, hi: int) -> bool {
    &&& t.len() > 0
    &&& forall|k: int| 0 <= k < t.len() ==> lo <= #[trigger] t[k].0 <= hi
    &&& forall|k: int| 0 < k < t.len() ==> #[trigger] t[k].0 <= t[k - 1].0
}

/// Whether a value can begin with the character `c`.
pub open spec fn starts_value(c: char) -> bool {
    c == 'n' || c == 't' || c == 'f' || c == '"' || c == '[' || c == '-' || grammar::is_digit(c)
        || c == '{'
}

/// Whether the innermost frame of the trail `t` (its first) marks a place
/// of `s` that the grammar could not take: the character there, or the end
/// of the text, is not what its kind says was required; for a keyword, not
/// the keyword of the production that encloses the frame.
pub open spec fn offends(s: Seq<char>, t: Seq<(usize, ErrorKind)>) -> bool {
    let p = t[0].0 as int;
    let here = 0 <= p < s.len();
    match t[0].1 {
        ErrorKind::Char(c) => !at(s, p, c),
        ErrorKind::Keyword => t.len() >= 2 && (t[1].1 == ErrorKind::Null ==> !grammar::word_at(
            s,
            p,
            grammar::null_word(),
        )) && (t[1].1 == ErrorKind::Bool ==> !grammar::word_at(s, p, grammar::true_word())
            && !grammar::word_at(s, p, grammar::false_word())),
        ErrorKind::Digit => !(here && grammar::is_digit(s[p])),
        ErrorKind::Sign => !at(s, p, '+') && !at(s, p, '-'),
        ErrorKind::LeadingZero => at(s, p, '0') && at(s, p - 1, '0'),
        ErrorKind::HexDigit => !(here && grammar::is_hex(s[p])),
        ErrorKind::Escape => !(here && (s[p] == 'u' || grammar::simple_escape(s[p]) is Some)),
        ErrorKind::Scalar => at(s, p, '\\'),
        ErrorKind::Value => !(here && starts_value(s[p])),
        ErrorKind::DepthLimit => at(s, p, '[') || at(s, p, '{'),
        _ => false,
    }
}

/// Whether a production started at `i` ended inside the text after at
/// least one character, or failed with a trail placed between `i` and the
/// end of the text whose innermost frame marks what could not be taken.
pub open spec fn sound(p: Parsed, s: Seq<char>, i: int) -> bool {
    match p {
        Parsed::Done(_, e) => i < e <= s.len(),
        Parsed::Fail(t) => placed(t, i, s.len() as int) && offends(s, t),
    }
}

/// Whether a value parsed with budget `d` nests no deeper than `d`.
pub open spec fn within(p: Parsed, d: nat) -> bool {
    p matches Parsed::Done(v, _) ==> depth(v) <= d
}

/// Whether every item of the array or pair of the object that `p` gives
/// nests no deeper than `d`.
pub open spec fn members_within(p: Parsed, d: nat) -> bool {
    &&& p matches Parsed::Done(Json::Arr(items), _) ==> forall|k: int|
        0 <= k < items.len() ==> depth(#[trigger] items[k]) <= d
    &&& p matches Parsed::Done(Json::Obj(pairs), _) ==> forall|k: int|
        0 <= k < pairs.len() ==> depth(#[trigger] pairs[k].0) <= d && depth(pairs[k].1) <= d
}

proof fn lemma_skip_ws(s: Seq<char>, i: int)
    requires
        0 <= i <= s.len(),
    ensures
        i <= skip_ws(s, i) <= s.len(),
    decreases s.len() - i,
{
    if i < s.len() && grammar::is_ws(s[i]) {
        lemma_skip_ws(s, i + 1);
    }
}

proof fn lemma_skip_digits(s: Seq<char>, i: int)
    requires
        0 <= i <= s.len(),
    ensures
        i <= skip_digits(s, i) <= s.len(),
    decreases s.len() - i,
{
    if i < s.len() && grammar::is_digit(s[i]) {
        lemma_skip_digits(s, i + 1);
    }
}

proof fn lemma_one(s: Seq<char>, at: int, kind: ErrorKind, lo: int)
    requires
        0 <= lo <= at <= s.len() <= usize::MAX,
    ensures
        placed(grammar::frame(at, kind), lo, s.len() as int),
{
    assert(grammar::frame(at, kind)[0] == (at as usize, kind));
}

proof fn lemma_wrap(t: Seq<(usize, ErrorKind)>, j: int, kind: ErrorKind, lo: int, hi: int)
    requires
        placed(t, j, hi),
        0 <= lo <= j <= hi <= usize::MAX,
    ensures
        placed(t.push((j as usize, kind)), lo, hi),
        t.push((j as usize, kind))[0] == t[0],
        t.len() >= 2 ==> t.push((j as usize, kind))[1] == t[1],
{
    let u = t.push((j as usize, kind));
    assert forall|k: int| 0 <= k < u.len() implies lo <= #[trigger] u[k].0 <= hi by {
        if k < t.len() {
            assert(u[k] == t[k]);
        }
    }
    assert forall|k: int| 0 < k < u.len() implies #[trigger] u[k].0 <= u[k - 1].0 by {
        assert(u[k - 1] == t[k - 1]);
        if k < t.len() {
            assert(u[k] == t[k]);
        }
    }
}

proof fn lemma_null(s: Seq<char>, i: int)
    requires
        0 <= i <= s.len() <= usize::MAX,
    ensures
        sound(grammar::null(s, i), s, i),
        within(grammar::null(s, i), 0),
{
    lemma_skip_ws(s, i);
    let j = skip_ws(s, i);
    if grammar::word_at(s, j, grammar::null_word()) {
        lemma_skip_ws(s, j + 4);
    } else {
        lemma_one(s, j, ErrorKind::Keyword, j);
        lemma_wrap(grammar::frame(j, ErrorKind::Keyword), j, ErrorKind::Null, i, s.len() as int);
    }
}

proof fn lemma_boolean(s: Seq<char>, i: int)
    requires
        0 <= i <= s.len() <= usize::MAX,
    ensures
        sound(grammar::boolean(s, i), s, i),
        within(grammar::boolean(s, i), 0),
{
    lemma_skip_ws(s, i);
    let j = skip_ws(s, i);
    if grammar::word_at(s, j, grammar::true_word()) {
        lemma_skip_ws(s, j + 4);
    } else if grammar::word_at(s, j, grammar::false_word()) {
        lemma_skip_ws(s, j + 5);
    } else {
        lemma_one(s, j, ErrorKind::Keyword, j);
        lemma_wrap(grammar::frame(j, ErrorKind::Keyword), j, ErrorKind::Bool, i, s.len() as int);
    }
}

proof fn lemma_str_body(s: Seq<char>, i: int, acc: Seq<char>)
    requires
        0 <= i <= s.len() <= usize::MAX,
    ensures
        grammar::str_body(s, i, acc) matches Body::Text(_, k) ==> i <= k < s.len(),
        grammar::str_body(s, i, acc) matches Body::Fail(p, kind) ==> i <= p <= s.len() && offends(
            s,
            grammar::frame(p, kind),
        ),
    decreases s.len() - i,
{
    if 0 <= i < s.len() && s[i] != '"' {
        if s[i] == '\\' {
            if let Escaped::Char(c, n) = grammar::escape(s, i) {
                if i < n {
                    lemma_str_body(s, n, acc.push(c));
                }
            }
        } else {
            lemma_str_body(s, i + 1, acc.push(s[i]));
        }
    }
}

proof fn lemma_string(s: Seq<char>, i: int)
    requires
        0 <= i <= s.len() <= usize::MAX,
    ensures
        sound(grammar::string(s, i), s, i),
        within(grammar::string(s, i), 0),
{
    lemma_skip_ws(s, i);
    let j = skip_ws(s, i);
    if at(s, j, '"') {
        lemma_str_body(s, j + 1, seq![]);
        match grammar::str_body(s, j + 1, seq![]) {
            Body::Text(_, k) => lemma_skip_ws(s, k + 1),
            Body::Fail(p, kind) => {
                lemma_one(s, p, kind, j);
                lemma_wrap(grammar::frame(p, kind), j, ErrorKind::String, i, s.len() as int);
            },
        }
    } else {
        lemma_one(s, j, ErrorKind::Char('"'), j);
        lemma_wrap(grammar::frame(j, ErrorKind::Char('"')), j, ErrorKind::String, i, s.len() as int);
    }
}

#[verifier::spinoff_prover]
#[verifier::rlimit(50)]
proof fn lemma_number(s: Seq<char>, i: int)
    requires
        0 <= i <= s.len() <= usize::MAX,
    ensures
        sound(grammar::number(s, i), s, i),
        within(grammar::number(s, i), 0),
{
    lemma_skip_ws(s, i);
    let j = skip_ws(s, i);
    let a = if at(s, j, '-') {
        j + 1
    } else {
        j
    };
    if !(0 <= a < s.len() && grammar::is_digit(s[a])) {
        lemma_one(s, a, ErrorKind::Digit, j);
        lemma_wrap(grammar::frame(a, ErrorKind::Digit), j, ErrorKind::Number, i, s.len() as int);
    } else if s[a] == '0' && at(s, a + 1, '0') {
        lemma_one(s, a + 1, ErrorKind::LeadingZero, j);
        lemma_wrap(grammar::frame(a + 1, ErrorKind::LeadingZero), j, ErrorKind::Number, i, s.len() as int);
    } else {
        lemma_skip_digits(s, a + 1);
        let b = skip_digits(s, a + 1);
        if at(s, b, '.') {
            lemma_skip_digits(s, b + 1);
        }
        let c = if at(s, b, '.') {
            skip_digits(s, b + 1)
        } else {
            b
        };
        if !(at(s, c, 'e') || at(s, c, 'E')) {
            lemma_skip_ws(s, c);
        } else if !(at(s, c + 1, '+') || at(s, c + 1, '-')) {
            lemma_one(s, c + 1, ErrorKind::Sign, j);
            lemma_wrap(grammar::frame(c + 1, ErrorKind::Sign), j, ErrorKind::Number, i, s.len() as int);
        } else if !(0 <= c + 2 < s.len() && grammar::is_digit(s[c + 2])) {
            lemma_one(s, c + 2, ErrorKind::Digit, j);
            lemma_wrap(grammar::frame(c + 2, ErrorKind::Digit), j, ErrorKind::Number, i, s.len() as int);
        } else {
            lemma_skip_digits(s, c + 3);
            lemma_skip_ws(s, skip_digits(s, c + 3));
        }
    }
}

/// The largest element of a sequence of naturals is 0 or one of them.
proof fn lemma_seq_max_attained(v: Seq<nat>)
    ensures
        seq_max(v) == 0 || exists|k: int| 0 <= k < v.len() && seq_max(v) == v[k],
    decreases v.len(),
{
    if v.len() > 0 {
        let w = v.drop_last();
        lemma_seq_max_attained(w);
        if seq_max(v) != v.last() && seq_max(w) != 0 {
            let k = choose|k: int| 0 <= k < w.len() && seq_max(w) == w[k];
            assert(v[k] == w[k]);
        }
    }
}

proof fn lemma_seq_max_all()
    ensures
        forall|v: Seq<nat>|
            #[trigger] seq_max(v) == 0 || exists|k: int| 0 <= k < v.len() && seq_max(v) == v[k],
{
    assert forall|v: Seq<nat>|
        #[trigger] seq_max(v) == 0 || exists|k: int| 0 <= k < v.len() && seq_max(v) == v[k] by {
        lemma_seq_max_attained(v);
    }
}

proof fn lemma_value(s: Seq<char>, i: int, d: nat)
    requires
        0 <= i <= s.len() <= usize::MAX,
    ensures
        sound(grammar::value(s, i, d), s, i),
        within(grammar::value(s, i, d), d),
    decreases d, s.len() - i, 1int,
{
    lemma_skip_ws(s, i);
    let j = skip_ws(s, i);
    if 0 <= j < s.len() {
        let c = s[j];
        if c == 'n' {
            lemma_null(s, i);
        } else if c == 't' || c == 'f' {
            lemma_boolean(s, i);
        } else if c == '"' {
            lemma_string(s, i);
        } else if c == '[' {
            lemma_array(s, i, d);
        } else if c == '-' || grammar::is_digit(c) {
            lemma_number(s, i);
        } else if c == '{' {
            lemma_object(s, i, d);
        }
    }
}

proof fn lemma_array(s: Seq<char>, i: int, d: nat)
    requires
        0 <= i <= s.len() <= usize::MAX,
    ensures
        sound(grammar::array(s, i, d), s, i),
        within(grammar::array(s, i, d), d),
    decreases d, s.len() - i, 0int,
{
    lemma_skip_ws(s, i);
    let j = skip_ws(s, i);
    let n = s.len() as int;
    if !at(s, j, '[') {
        lemma_one(s, j, ErrorKind::Char('['), j);
        lemma_wrap(grammar::frame(j, ErrorKind::Char('[')), j, ErrorKind::Array, i, n);
    } else if d == 0 {
        lemma_one(s, j, ErrorKind::DepthLimit, j);
        lemma_wrap(grammar::frame(j, ErrorKind::DepthLimit), j, ErrorKind::Array, i, n);
    } else {
        lemma_skip_ws(s, j + 1);
        let k = skip_ws(s, j + 1);
        if at(s, k, ']') {
            lemma_skip_ws(s, k + 1);
            lemma_empty_depth();
        } else if at(s, k, ',') {
            lemma_skip_ws(s, k + 1);
            let m = skip_ws(s, k + 1);
            if at(s, m, ']') {
                lemma_skip_ws(s, m + 1);
                lemma_empty_depth();
            } else {
                lemma_one(s, m, ErrorKind::Char(']'), j);
                lemma_wrap(grammar::frame(m, ErrorKind::Char(']')), j, ErrorKind::Array, i, n);
            }
        } else {
            let dd = (d - 1) as nat;
            lemma_elems(s, k, dd, seq![]);
            match grammar::elems(s, k, dd, seq![]) {
                Parsed::Fail(t) => lemma_wrap(t, j, ErrorKind::Array, i, n),
                Parsed::Done(v, _) => lemma_arr_depth(v, dd),
            }
        }
    }
}

proof fn lemma_empty_depth()
    ensures
        depth(Json::Arr(seq![])) == 1,
        depth(Json::Obj(seq![])) == 1,
{
    reveal_with_fuel(depth, 2);
    reveal_with_fuel(seq_max, 2);
}

/// An array or object whose members nest no deeper than `d` nests no
/// deeper than `d + 1`.
proof fn lemma_arr_depth(v: Json, d: nat)
    requires
        members_within(Parsed::Done(v, 0), d),
    ensures
        v is Arr || v is Obj ==> depth(v) <= d + 1,
{
    reveal_with_fuel(depth, 2);
    lemma_seq_max_all();
}

#[verifier::spinoff_prover]
proof fn lemma_elems(s: Seq<char>, k: int, d: nat, acc: Seq<Json>)
    requires
        0 <= k <= s.len() <= usize::MAX,
        forall|m: int| 0 <= m < acc.len() ==> depth(#[trigger] acc[m]) <= d,
    ensures
        sound(grammar::elems(s, k, d, acc), s, k),
        members_within(grammar::elems(s, k, d, acc), d),
        grammar::elems(s, k, d, acc) matches Parsed::Done(v, _) ==> v is Arr,
    decreases d, s.len() - k, 2int,
{
    lemma_value(s, k, d);
    if let Parsed::Done(v, e) = grammar::value(s, k, d) {
        let items = acc.push(v);
        assert forall|m: int| 0 <= m < items.len() implies depth(#[trigger] items[m]) <= d by {
            if m < acc.len() {
                assert(items[m] == acc[m]);
            }
        }
        if at(s, e, ']') {
            lemma_skip_ws(s, e + 1);
        } else if at(s, e, ',') {
            lemma_skip_ws(s, e + 1);
            let m = skip_ws(s, e + 1);
            if at(s, m, ']') {
                lemma_skip_ws(s, m + 1);
            } else if grammar::advances(s, k, m) {
                lemma_elems(s, m, d, items);
                if let Parsed::Fail(t) = grammar::elems(s, m, d, items) {
                    assert(placed(t, k, s.len() as int));
                }
            } else {
                lemma_one(s, m, ErrorKind::Value, k);
            }
        } else {
            lemma_one(s, e, ErrorKind::Char(']'), k);
        }
    }
}

proof fn lemma_object(s: Seq<char>, i: int, d: nat)
    requires
        0 <= i <= s.len() <= usize::MAX,
    ensures
        sound(grammar::object(s, i, d), s, i),
        within(grammar::object(s, i, d), d),
    decreases d, s.len() - i, 0int,
{
    lemma_skip_ws(s, i);
    let j = skip_ws(s, i);
    let n = s.len() as int;
    if !at(s, j, '{') {
        lemma_one(s, j, ErrorKind::Char('{'), j);
        lemma_wrap(grammar::frame(j, ErrorKind::Char('{')), j, ErrorKind::Object, i, n);
    } else if d == 0 {
        lemma_one(s, j, ErrorKind::DepthLimit, j);
        lemma_wrap(grammar::frame(j, ErrorKind::DepthLimit), j, ErrorKind::Object, i, n);
    } else {
        lemma_skip_ws(s, j + 1);
        let k = skip_ws(s, j + 1);
        if at(s, k, '}') {
            lemma_skip_ws(s, k + 1);
            lemma_empty_depth();
        } else if at(s, k, ',') {
            lemma_skip_ws(s, k + 1);
            let m = skip_ws(s, k + 1);
            if at(s, m, '}') {
                lemma_skip_ws(s, m + 1);
                lemma_empty_depth();
            } else {
                lemma_one(s, m, ErrorKind::Char('}'), j);
                lemma_wrap(grammar::frame(m, ErrorKind::Char('}')), j, ErrorKind::Object, i, n);
            }
        } else {
            let dd = (d - 1) as nat;
            lemma_members(s, k, dd, seq![]);
            match grammar::members(s, k, dd, seq![]) {
                Parsed::Fail(t) => lemma_wrap(t, j, ErrorKind::Object, i, n),
                Parsed::Done(v, _) => lemma_arr_depth(v, dd),
            }
        }
    }
}

#[verifier::spinoff_prover]
#[verifier::rlimit(40)]
proof fn lemma_members(s: Seq<char>, k: int, d: nat, acc: Seq<(Json, Json)>)
    requires
        0 <= k <= s.len() <= usize::MAX,
        forall|m: int|
            0 <= m < acc.len() ==> depth(#[trigger] acc[m].0) <= d && depth(acc[m].1) <= d,
    ensures
        sound(grammar::members(s, k, d, acc), s, k),
        members_within(grammar::members(s, k, d, acc), d),
        grammar::members(s, k, d, acc) matches Parsed::Done(v, _) ==> v is Obj,
    decreases d, s.len() - k, 2int,
{
    lemma_string(s, k);
    if let Parsed::Done(key, e) = grammar::string(s, k) {
        if !at(s, e, ':') {
            lemma_one(s, e, ErrorKind::Char(':'), k);
        } else if !grammar::advances(s, k, e + 1) {
            lemma_one(s, e, ErrorKind::Value, k);
        } else {
            lemma_value(s, e + 1, d);
            if let Parsed::Done(v, f) = grammar::value(s, e + 1, d) {
                assert(depth(key) == 0 && depth(v) <= d);
                let pairs = acc.push((key, v));
                assert forall|m: int| 0 <= m < pairs.len() implies depth(#[trigger] pairs[m].0) <= d
                    && depth(pairs[m].1) <= d by {
                    if m < acc.len() {
                        assert(pairs[m] == acc[m]);
                    }
                }
                if at(s, f, '}') {
                    lemma_skip_ws(s, f + 1);
                    assert(grammar::members(s, k, d, acc) == Parsed::Done(
                        Json::Obj(pairs),
                        skip_ws(s, f + 1),
                    ));
                } else if at(s, f, ',') {
                    lemma_skip_ws(s, f + 1);
                    let m = skip_ws(s, f + 1);
                    if at(s, m, '}') {
                        lemma_skip_ws(s, m + 1);
                        assert(grammar::members(s, k, d, acc) == Parsed::Done(
                            Json::Obj(pairs),
                            skip_ws(s, m + 1),
                        ));
                    } else if grammar::advances(s, k, m) {
                        lemma_members(s, m, d, pairs);
                        assert(grammar::members(s, k, d, acc) == grammar::members(s, m, d, pairs));
                        if let Parsed::Fail(t) = grammar::members(s, m, d, pairs) {
                            assert(placed(t, k, s.len() as int));
                        }
                    } else {
                        lemma_one(s, m, ErrorKind::Value, k);
                    }
                } else {
                    lemma_one(s, f, ErrorKind::Char('}'), k);
                }
            } else if let Parsed::Fail(t) = grammar::value(s, e + 1, d) {
                assert(placed(t, k, s.len() as int));
            }
        }
    }
}

/// Whether a trail read outermost frame first, as `Error::errors` holds
/// it, is nonempty, stays inside a text of length `n`, and never moves
/// backwards: each frame points at or after the frame that encloses it.
pub open spec fn ordered_within(u: Seq<(usize, ErrorKind)>, n: int) -> bool {
    &&& u.len() > 0
    &&& forall|k: int| 0 <= k < u.len() ==> #[trigger] u[k].0 <= n
    &&& forall|k: int| 0 < k < u.len() ==> u[k - 1].0 <= #[trigger] u[k].0
}

/// A value parsed from position `i` ends after at least one character and
/// inside the text. A failure explains itself by a trail that, read
/// outermost frame first, is nonempty, points into the text at or after
/// `i`, and moves forward from each production to the one that failed
/// inside it. Its last frame marks where the text stopped matching: the
/// character there, or the end of the text, is not what that frame says
/// was required.
pub proof fn law_error_trail(s: Seq<char>, i: int, d: nat)
    requires
        0 <= i <= s.len() <= usize::MAX,
    ensures
        grammar::value(s, i, d) matches Parsed::Done(_, e) ==> i < e <= s.len(),
        grammar::value(s, i, d) matches Parsed::Fail(t) ==> ordered_within(t.reverse(), s.len() as int)
            && t.reverse()[0].0 >= i && t.reverse().last() == t[0] && offends(s, t),
{
    lemma_value(s, i, d);
    if let Parsed::Fail(t) = grammar::value(s, i, d) {
        let u = t.reverse();
        let n = t.len() as int;
        assert forall|k: int| 0 <= k < u.len() implies #[trigger] u[k].0 <= s.len() by {
            assert(u[k] == t[n - 1 - k]);
        }
        assert forall|k: int| 0 < k < u.len() implies u[k - 1].0 <= #[trigger] u[k].0 by {
            assert(u[k] == t[n - 1 - k]);
            assert(u[k - 1] == t[n - 1 - (k - 1)]);
        }
        assert(u[0] == t[n - 1]);
        assert(u[n - 1] == t[0]);
    }
}

/// A value parsed with a budget of `d` nested arrays and objects nests no
/// deeper than `d`: deeper input fails with a depth-limit frame instead.
pub proof fn law_depth_bounded(s: Seq<char>, i: int, d: nat)
    requires
        0 <= i <= s.len() <= usize::MAX,
    ensures
        grammar::value(s, i, d) matches Parsed::Done(v, _) ==> depth(v) <= d,
{
    lemma_value(s, i, d);
}

/// Trying the productions in the order null, boolean, string, array,
/// number, object and taking the first that succeeds gives what the
/// dispatcher gives: whichever production succeeds at `i`, the value there
/// is its result, so no two of them succeed on the same text.
pub proof fn law_dispatch(s: Seq<char>, i: int, d: nat)
    requires
        0 <= i <= s.len(),
    ensures
        grammar::null(s, i) is Done ==> grammar::value(s, i, d) == grammar::null(s, i),
        grammar::boolean(s, i) is Done ==> grammar::value(s, i, d) == grammar::boolean(s, i),
        grammar::string(s, i) is Done ==> grammar::value(s, i, d) == grammar::string(s, i),
        grammar::array(s, i, d) is Done ==> grammar::value(s, i, d) == grammar::array(s, i, d),
        grammar::number(s, i) is Done ==> grammar::value(s, i, d) == grammar::number(s, i),
        grammar::object(s, i, d) is Done ==> grammar::value(s, i, d) == grammar::object(s, i, d),
{
    let j = skip_ws(s, i);
    if grammar::word_at(s, j, grammar::null_word()) {
        assert(s[j] == s.subrange(j, j + 4)[0]);
    }
    if grammar::word_at(s, j, grammar::true_word()) {
        assert(s[j] == s.subrange(j, j + 4)[0]);
    }
    if grammar::word_at(s, j, grammar::false_word()) {
        assert(s[j] == s.subrange(j, j + 5)[0]);
    }
}

proof fn lemma_skip_ws_idempotent(s: Seq<char>, i: int)
    requires
        0 <= i <= s.len(),
    ensures
        skip_ws(s, skip_ws(s, i)) == skip_ws(s, i),
    decreases s.len() - i,
{
    if i < s.len() && grammar::is_ws(s[i]) {
        lemma_skip_ws_idempotent(s, i + 1);
    }
}

/// Whitespace before a value changes nothing: parsing from `i` gives what
/// parsing from the first character after the whitespace gives.
pub proof fn law_leading_whitespace(s: Seq<char>, i: int, d: nat)
    requires
        0 <= i <= s.len(),
    ensures
        grammar::value(s, i, d) == grammar::value(s, skip_ws(s, i), d),
{
    lemma_skip_ws_idempotent(s, i);
}

/// Object members are kept in the order of the text, one pair per member,
/// with nothing merged or dropped, so equal keys stay separate pairs:
/// when the members from `k` on parse after the pairs `acc`, the key
/// string at `k` and the value after its colon parse too, and the pairs
/// found begin with `acc` and then that key and value.
pub proof fn law_members_in_order(s: Seq<char>, k: int, d: nat, acc: Seq<(Json, Json)>)
    requires
        0 <= k <= s.len() <= usize::MAX,
    ensures
        grammar::members(s, k, d, acc) matches Parsed::Done(Json::Obj(ps), _) ==> {
            &&& grammar::string(s, k) matches Parsed::Done(key, e)
            &&& grammar::value(s, e + 1, d) matches Parsed::Done(v, _)
            &&& ps.len() > acc.len()
            &&& ps.take(acc.len() + 1int) == acc.push((key, v))
        },
    decreases s.len() - k,
{
    if let Parsed::Done(key, e) = grammar::string(s, k) {
        if at(s, e, ':') && grammar::advances(s, k, e + 1) {
            if let Parsed::Done(v, f) = grammar::value(s, e + 1, d) {
                let pairs = acc.push((key, v));
                if at(s, f, ',') {
                    lemma_value(s, e + 1, d);
                    lemma_skip_ws(s, f + 1);
                    let m = skip_ws(s, f + 1);
                    if !at(s, m, '}') && grammar::advances(s, k, m) {
                        law_members_in_order(s, m, d, pairs);
                        assert(grammar::members(s, k, d, acc) == grammar::members(s, m, d, pairs));
                        if let Parsed::Done(Json::Obj(ps), _) = grammar::members(s, m, d, pairs) {
                            assert(ps.take(acc.len() + 1int) =~= ps.take(pairs.len() + 1int).take(acc.len() + 1int));
                            assert(pairs.push(ps[pairs.len() as int]).take(acc.len() + 1int) =~= pairs);
                        }
                    } else {
                        assert(pairs.take(acc.len() + 1int) =~= pairs);
                    }
                } else {
                    assert(pairs.take(acc.len() + 1int) =~= pairs);
                }
            }
        }
    }
}

/// Whether every character of `t` is a decimal digit.
pub open spec fn all_digits(t: Seq<char>) -> bool {
    forall|k: int| 0 <= k < t.len() ==> grammar::is_digit(#[trigger] t[k])
}

/// Whether the integer part of the mantissa `m` runs from `n` to `p`:
/// one digit or more that do not start `00`, followed by the end or by a
/// `.` and digits.
pub open spec fn integer_part(m: Seq<char>, n: int, p: int) -> bool {
    &&& n < p <= m.len()
    &&& all_digits(m.subrange(n, p))
    &&& !(p - n >= 2 && m[n] == '0' && m[n + 1] == '0')
    &&& p == m.len() || (m[p] == '.' && all_digits(m.subrange(p + 1, m.len() as int)))
}

/// How many characters the sign of a mantissa takes: 1 for a leading
/// `-`, else 0.
pub open spec fn sign_len(m: Seq<char>) -> int {
    if m.len() > 0 && m[0] == '-' {
        1
    } else {
        0
    }
}

/// The shape of a mantissa: an optional `-`, then an integer part.
pub open spec fn mantissa_shape(m: Seq<char>) -> bool {
    exists|p: int| integer_part(m, sign_len(m), p)
}

/// The shape of an exponent: a sign and at least one digit.
pub open spec fn exponent_shape(t: Seq<char>) -> bool {
    t.len() >= 2 && (t[0] == '+' || t[0] == '-') && all_digits(t.subrange(1, t.len() as int))
}

proof fn lemma_skip_digits_all(s: Seq<char>, i: int)
    requires
        0 <= i <= s.len(),
    ensures
        all_digits(s.subrange(i, skip_digits(s, i))),
    decreases s.len() - i,
{
    lemma_skip_digits(s, i);
    if i < s.len() && grammar::is_digit(s[i]) {
        lemma_skip_digits_all(s, i + 1);
        let r = skip_digits(s, i);
        assert forall|k: int| 0 <= k < r - i implies grammar::is_digit(
            #[trigger] s.subrange(i, r)[k],
        ) by {
            if k > 0 {
                assert(s.subrange(i, r)[k] == s.subrange(i + 1, r)[k - 1]);
            }
        }
    }
}

/// A number token is an optional `-`, then `0` or a run of digits that
/// does not start `00`, then optionally a `.` and digits. The mantissa is
/// exactly that text. An `e` or `E` after it always begins an exponent,
/// which is a sign and at least one digit, and whose text is what follows
/// the `e`.
pub proof fn law_number_shape(s: Seq<char>, i: int)
    requires
        0 <= i <= s.len(),
    ensures
        grammar::number(s, i) matches Parsed::Done(v, _) ==> v matches Json::Num(m, x) && ({
            let j = skip_ws(s, i);
            let c = j + m.len();
            &&& mantissa_shape(m)
            &&& c <= s.len() && m == s.subrange(j, c)
            &&& match x {
                Some(t) => exponent_shape(t) && (at(s, c, 'e') || at(s, c, 'E')) && c + 1
                    + t.len() <= s.len() && t == s.subrange(c + 1, c + 1 + t.len()),
                None => !at(s, c, 'e') && !at(s, c, 'E'),
            }
        }),
{
    lemma_skip_ws(s, i);
    let j = skip_ws(s, i);
    let a = if at(s, j, '-') {
        j + 1
    } else {
        j
    };
    if 0 <= a < s.len() && grammar::is_digit(s[a]) && !(s[a] == '0' && at(s, a + 1, '0')) {
        lemma_skip_digits(s, a);
        lemma_skip_digits(s, a + 1);
        lemma_skip_digits_all(s, a);
        assert(skip_digits(s, a) == skip_digits(s, a + 1));
        let b = skip_digits(s, a + 1);
        if at(s, b, '.') {
            lemma_skip_digits(s, b + 1);
            lemma_skip_digits_all(s, b + 1);
        }
        let c = if at(s, b, '.') {
            skip_digits(s, b + 1)
        } else {
            b
        };
        let m = s.subrange(j, c);
        let n = a - j;
        assert(m.subrange(n, b - j) =~= s.subrange(a, b));
        if at(s, b, '.') {
            assert(m.subrange(b - j + 1, m.len() as int) =~= s.subrange(b + 1, c));
        }
        assert(n < b - j <= m.len());
        assert(all_digits(m.subrange(n, b - j)));
        assert(m[n] == s[a]);
        if b - a >= 2 {
            assert(m[n + 1] == s[a + 1]);
        }
        if b < c {
            assert(m[b - j] == s[b]);
        }
        assert(integer_part(m, n, b - j));
        assert(m[0] == s[j]);
        assert(n == sign_len(m));
        assert(integer_part(m, sign_len(m), b - j));
        if (at(s, c, 'e') || at(s, c, 'E')) && (at(s, c + 1, '+') || at(s, c + 1, '-')) && 0
            <= c + 2 < s.len() && grammar::is_digit(s[c + 2]) {
            lemma_skip_digits(s, c + 2);
            lemma_skip_digits(s, c + 3);
            lemma_skip_digits_all(s, c + 2);
            assert(skip_digits(s, c + 2) == skip_digits(s, c + 3));
            let e = skip_digits(s, c + 3);
            let t = s.subrange(c + 1, e);
            assert(t.subrange(1, t.len() as int) =~= s.subrange(c + 2, e));
            assert(t[0] == s[c + 1]);
            assert(exponent_shape(t));
        }
    }
}

} // verus!
