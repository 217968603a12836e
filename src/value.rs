use vstd::prelude::*;

verus! {

/// The mathematical model of a parsed JSON value.
pub enum Json {
    Null,
    Bool(bool),
    Str(Seq<char>),
    /// A number as the text of its mantissa (sign, integer part and
    /// fraction) and, when present, of its signed exponent.
    Num(Seq<char>, Option<Seq<char>>),
    Arr(Seq<Json>),
    Obj(Seq<(Json, Json)>),
}

/// A JSON number, kept as the text that was matched.
///
/// `mantissa` holds the optional minus sign, the integer digits and the
/// optional fraction (`"-234.0123"`); `exponent` holds the sign and digits
/// that followed `e` or `E` (`"-2"`). The value of the number is the
/// mantissa read as a decimal, multiplied by ten to the power of the
/// exponent.
#[derive(Clone, Debug, PartialEq)]
pub struct JsonNumber {
    pub mantissa: String,
    pub exponent: Option<String>,
}

/// A parsed JSON value.
#[derive(Debug, PartialEq)]
pub enum JsonValue {
    Null,
    Bool(bool),
    String(String),
    Array(Vec<JsonValue>),
    Number(JsonNumber),
    Object(Vec<(JsonValue, JsonValue)>),
}

pub open spec fn opt_text(t: Option<String>) -> Option<Seq<char>> {
    match t {
        Some(x) => Some(x@),
        None => None,
    }
}

impl View for JsonValue {
    type V = Json;

    open spec fn view(&self) -> Json
        decreases self,
    {
        match self {
            JsonValue::Null => Json::Null,
            JsonValue::Bool(b) => Json::Bool(*b),
            JsonValue::String(t) => Json::Str(t@),
            JsonValue::Number(n) => Json::Num(n.mantissa@, opt_text(n.exponent)),
            JsonValue::Array(v) => Json::Arr(
                Seq::new(
                    v.len() as nat,
                    |k: int|
                        if 0 <= k < v.len() {
                            v[k].view()
                        } else {
                            Json::Null
                        },
                ),
            ),
            JsonValue::Object(v) => Json::Obj(
                Seq::new(
                    v.len() as nat,
                    |k: int|
                        if 0 <= k < v.len() {
                            (v[k].0.view(), v[k].1.view())
                        } else {
                            (Json::Null, Json::Null)
                        },
                ),
            ),
        }
    }
}

pub open spec fn views(v: Seq<JsonValue>) -> Seq<Json> {
    Seq::new(v.len(), |k: int| v[k]@)
}

pub open spec fn pair_views(v: Seq<(JsonValue, JsonValue)>) -> Seq<(Json, Json)> {
    Seq::new(v.len(), |k: int| (v[k].0@, v[k].1@))
}

pub proof fn lemma_array_view(v: Vec<JsonValue>)
    ensures
        JsonValue::Array(v)@ == Json::Arr(views(v@)),
{
    reveal_with_fuel(<JsonValue as View>::view, 2);
    let a = JsonValue::Array(v)@->Arr_0;
    assert forall|k: int| 0 <= k < v.len() implies a[k] == views(v@)[k] by {}
    assert(a =~= views(v@));
}

pub proof fn lemma_object_view(v: Vec<(JsonValue, JsonValue)>)
    ensures
        JsonValue::Object(v)@ == Json::Obj(pair_views(v@)),
{
    reveal_with_fuel(<JsonValue as View>::view, 2);
    let a = JsonValue::Object(v)@->Obj_0;
    assert forall|k: int| 0 <= k < v.len() implies a[k] == pair_views(v@)[k] by {}
    assert(a =~= pair_views(v@));
}

/// Nesting depth of a value: scalars have depth 0, an array or object one
/// more than its deepest member.
pub open spec fn depth(j: Json) -> nat
    decreases j,
{
    match j {
        Json::Arr(items) => 1 + seq_max(
            Seq::new(items.len(), |k: int| if 0 <= k < items.len() { depth(items[k]) } else { 0 }),
        ),
        Json::Obj(pairs) => 1 + seq_max(
            Seq::new(
                pairs.len(),
                |k: int|
                    if 0 <= k < pairs.len() {
                        if depth(pairs[k].0) >= depth(pairs[k].1) {
                            depth(pairs[k].0)
                        } else {
                            depth(pairs[k].1)
                        }
                    } else {
                        0
                    },
            ),
        ),
        _ => 0,
    }
}

/// The largest element of a sequence of naturals, 0 for the empty one.
pub open spec fn seq_max(s: Seq<nat>) -> nat
    decreases s.len(),
{
    if s.len() == 0 {
        0
    } else {
        let m = seq_max(s.drop_last());
        if s.last() >= m {
            s.last()
        } else {
            m
        }
    }
}

/// What a frame of an error trail records.
#[derive(Clone, Copy, Debug, PartialEq, Eq)]
pub enum ErrorKind {
    /// This character was required here.
    Char(char),
    /// One of the keywords `null`, `true`, `false` was required here.
    Keyword,
    /// A decimal digit was required here.
    Digit,
    /// The `+` or `-` that must follow the `e` or `E` of an exponent is
    /// missing here.
    Sign,
    /// A second `0` follows the leading `0` of a number.
    LeadingZero,
    /// A hexadecimal digit of a `\u` escape was required here.
    HexDigit,
    /// The character after a backslash starts no escape.
    Escape,
    /// The `\u` escape starting here names no Unicode scalar value.
    Scalar,
    /// No value starts here: the character here, or the end of the text,
    /// begins none of the six productions (null, boolean, string, array,
    /// number, object), so this one frame stands for all six attempts.
    Value,
    /// An array or object here would exceed the nesting limit.
    DepthLimit,
    /// Text is left after a value that should have taken the whole input.
    Trailing,
    /// Frame of the `null` production, at the start of its token.
    Null,
    /// Frame of the boolean production.
    Bool,
    /// Frame of the string production.
    String,
    /// Frame of the array production.
    Array,
    /// Frame of the number production.
    Number,
    /// Frame of the object production.
    Object,
}

} // verus!
