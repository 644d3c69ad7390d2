//! Access to JSON text through the `json` crate. Each result is named as a function of
//! the text that was parsed, so that what the library does with it can be stated exactly.
use vstd::prelude::*;

verus! {

#[verifier::external_type_specification]
#[verifier::external_body]
pub struct ExJsonValue(json::JsonValue);

/// Whether `json::parse` accepts the text.
pub uninterp spec fn json_accepts(text: Seq<char>) -> bool;

/// The string member `key` of the parsed text, if the text is an object with such a
/// member holding a string.
pub uninterp spec fn json_str_member(text: Seq<char>, key: Seq<char>) -> Option<Seq<char>>;

/// The member `key` as `JsonValue::as_i32` reads it.
pub uninterp spec fn json_i32_member(text: Seq<char>, key: Seq<char>) -> Option<i32>;

/// The member `key` as `JsonValue::as_u64` reads it.
pub uninterp spec fn json_u64_member(text: Seq<char>, key: Seq<char>) -> Option<u64>;

/// The length of the member `key`, if it holds an array.
pub uninterp spec fn json_array_len(text: Seq<char>, key: Seq<char>) -> Option<nat>;

/// Entry `i` of the array member `key`, if that entry is a string.
pub uninterp spec fn json_array_str(text: Seq<char>, key: Seq<char>, i: int) -> Option<
    Seq<char>,
>;

/// The character with code point `v` (below 128).
pub open spec fn ascii(v: int) -> char {
    (v as u8) as char
}

/// A lowercase hexadecimal digit.
pub open spec fn hex_digit(d: int) -> char {
    if d < 10 { ascii(48 + d) } else { ascii(87 + d) }
}

/// How `json`'s writer puts one character of a string: `"` and `\` after a backslash;
/// backspace, tab, newline, form feed and carriage return as `\b`, `\t`, `\n`, `\f`,
/// `\r`; other characters below 0x20 as `\u00` and two hexadecimal digits; every other
/// character as itself.
pub open spec fn escaped_char(c: char) -> Seq<char> {
    let v = c as u32;
    if v == 0x22 {
        seq![ascii(92), ascii(34)]
    } else if v == 0x5c {
        seq![ascii(92), ascii(92)]
    } else if v == 8 {
        seq![ascii(92), ascii(98)]
    } else if v == 9 {
        seq![ascii(92), ascii(116)]
    } else if v == 10 {
        seq![ascii(92), ascii(110)]
    } else if v == 12 {
        seq![ascii(92), ascii(102)]
    } else if v == 13 {
        seq![ascii(92), ascii(114)]
    } else if v < 0x20 {
        seq![ascii(92), ascii(117), ascii(48), ascii(48), hex_digit((v / 16) as int), hex_digit((v % 16) as int)]
    } else {
        seq![c]
    }
}

/// The escaped characters of a string.
pub open spec fn escaped_text(s: Seq<char>) -> Seq<char>
    decreases s.len(),
{
    if s.len() == 0 { Seq::empty() } else { escaped_text(s.drop_last()) + escaped_char(s.last()) }
}

/// The JSON text of a string, quoted and escaped, as `json::stringify` writes it.
pub open spec fn json_quoted(s: Seq<char>) -> Seq<char> {
    seq![ascii(34)] + escaped_text(s) + seq![ascii(34)]
}

/// A parsed JSON document, with the text it was parsed from.
pub struct JsonDoc {
    value: json::JsonValue,
    text: Ghost<Seq<char>>,
}

impl JsonDoc {
    /// The text that this document was parsed from.
    pub closed spec fn source(&self) -> Seq<char> {
        self.text@
    }
}

/// Relies on `json::parse`: it succeeds or fails on the text alone.
#[verifier::external_body]
pub fn parse_json_text(s: &str) -> (r: Option<JsonDoc>)
    ensures
        r is Some <==> json_accepts(s@),
        r matches Some(d) ==> d.source() == s@,
{
    match json::parse(s) {
        Ok(value) => Some(JsonDoc { value, text: Ghost(s@) }),
        Err(_) => None,
    }
}

/// Relies on indexing a `json::JsonValue` by key and `JsonValue::as_str`.
#[verifier::external_body]
pub fn member_str(d: &JsonDoc, key: &str) -> (r: Option<String>)
    ensures
        r matches Some(s) ==> json_str_member(d.source(), key@) == Some(s@),
        r is None ==> json_str_member(d.source(), key@) is None,
{
    d.value[key].as_str().map(|s| s.to_string())
}

/// Relies on indexing a `json::JsonValue` by key and `JsonValue::as_i32`.
#[verifier::external_body]
pub fn member_i32(d: &JsonDoc, key: &str) -> (r: Option<i32>)
    ensures
        r == json_i32_member(d.source(), key@),
{
    d.value[key].as_i32()
}

/// Relies on indexing a `json::JsonValue` by key and `JsonValue::as_u64`.
#[verifier::external_body]
pub fn member_u64(d: &JsonDoc, key: &str) -> (r: Option<u64>)
    ensures
        r == json_u64_member(d.source(), key@),
{
    d.value[key].as_u64()
}

/// Relies on indexing a `json::JsonValue` by key and `JsonValue::len` on an array.
#[verifier::external_body]
pub fn member_array_len(d: &JsonDoc, key: &str) -> (r: Option<usize>)
    ensures
        r matches Some(n) ==> json_array_len(d.source(), key@) == Some(n as nat),
        r is None ==> json_array_len(d.source(), key@) is None,
{
    match &d.value[key] {
        json::JsonValue::Array(a) => Some(a.len()),
        _ => None,
    }
}

/// Relies on indexing a `json::JsonValue` array by position and `JsonValue::as_str`.
#[verifier::external_body]
pub fn member_array_str(d: &JsonDoc, key: &str, i: usize) -> (r: Option<String>)
    ensures
        r matches Some(s) ==> json_array_str(d.source(), key@, i as int) == Some(s@),
        r is None ==> json_array_str(d.source(), key@, i as int) is None,
{
    d.value[key][i].as_str().map(|s| s.to_string())
}

/// Relies on `json::stringify` of a string: a string value is written by the generator's
/// `write_string`, which escapes by its table of escapes.
#[verifier::external_body]
pub fn quote_json(s: &str) -> (r: String)
    ensures
        r@ == json_quoted(s@),
{
    json::stringify(s)
}

} // verus!
