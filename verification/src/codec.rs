//! JSON renderings produced by `serde_json` for the stored text columns.
use vstd::prelude::*;

verus! {

/// A lowercase hexadecimal digit.
pub open spec fn hex_digit(d: u32) -> char {
    if d < 10 {
        (48 + d) as char
    } else {
        (87 + d) as char
    }
}

/// How `serde_json` writes one character inside a string literal: quote
/// and backslash behind a backslash, the five controls with a short escape
/// by it, the other controls below U+0020 as `\u00` and two lowercase hex
/// digits, and every other character as itself.
pub open spec fn json_escape(c: char) -> Seq<char> {
    let n = c as u32;
    if c == '"' {
        seq!['\\', '"']
    } else if c == '\\' {
        seq!['\\', '\\']
    } else if n == 0x08 {
        seq!['\\', 'b']
    } else if n == 0x09 {
        seq!['\\', 't']
    } else if n == 0x0a {
        seq!['\\', 'n']
    } else if n == 0x0c {
        seq!['\\', 'f']
    } else if n == 0x0d {
        seq!['\\', 'r']
    } else if n < 0x20 {
        seq!['\\', 'u', '0', '0', hex_digit(n / 16), hex_digit(n % 16)]
    } else {
        seq![c]
    }
}

/// The characters of a text, each as `serde_json` writes it in a string.
pub open spec fn json_escaped(s: Seq<char>) -> Seq<char>
    decreases s.len(),
{
    if s.len() == 0 {
        Seq::empty()
    } else {
        json_escaped(s.drop_last()) + json_escape(s.last())
    }
}

/// What `serde_json::to_string` gives for a text: a JSON string literal.
pub open spec fn json_string(s: Seq<char>) -> Seq<char> {
    seq!['"'] + json_escaped(s) + seq!['"']
}

/// The string literals of the texts, separated by commas.
pub open spec fn json_items(items: Seq<Seq<char>>) -> Seq<char>
    decreases items.len(),
{
    if items.len() == 0 {
        Seq::empty()
    } else if items.len() == 1 {
        json_string(items[0])
    } else {
        json_items(items.drop_last()) + seq![','] + json_string(items.last())
    }
}

/// What `serde_json::to_string` gives for a list of texts: a compact JSON
/// array.
pub open spec fn json_string_list(items: Seq<Seq<char>>) -> Seq<char> {
    seq!['['] + json_items(items) + seq![']']
}

/// Renders a text as a JSON string literal with `serde_json::to_string`,
/// which gives [`json_string`] of the text: its escape table, and the
/// compact formatter.  Serialising a `str` does not fail.
#[verifier::external_body]
pub(crate) fn encode_json_string(s: &str) -> (r: String)
    ensures
        r@ == json_string(s@),
{
    match serde_json::to_string(s) {
        Ok(text) => text,
        Err(_) => String::new(),
    }
}

/// Renders a list of texts as a JSON array with `serde_json::to_string`,
/// which gives [`json_string_list`] of the texts: the compact formatter
/// opens with `[`, puts a comma before every item but the first, and closes
/// with `]`.  Serialising a slice of `String` does not fail.
#[verifier::external_body]
pub(crate) fn encode_json_string_list(items: &[String]) -> (r: String)
    ensures
        r@ == json_string_list(crate::text::texts(items@)),
{
    match serde_json::to_string(items) {
        Ok(text) => text,
        Err(_) => String::new(),
    }
}

/// The stored data of a `message.sent` event: `{"recipient":<routed>}`.
pub open spec fn recipient_data(routed: Seq<char>) -> Seq<char> {
    "{\"recipient\":"@ + json_string(routed) + "}"@
}

/// Builds [`recipient_data`].
pub fn encode_recipient_data(routed: &str) -> (r: String)
    ensures
        r@ == recipient_data(routed@),
{
    let mut text = String::from_str("{\"recipient\":");
    let quoted = encode_json_string(routed);
    text.append(quoted.as_str());
    text.append("}");
    text
}

} // verus!
