//! Checks and defaults of the requests that the dashboard and the tool
//! server accept.
use vstd::prelude::*;

verus! {

/// The largest text body accepted, in bytes.
pub const MAX_TEXT_BYTES: usize = 65536;

/// The largest label accepted, in bytes.
pub const MAX_LABEL_BYTES: usize = 256;

/// The largest number of resources in one request.
pub const MAX_RESOURCES: usize = 64;

/// Whether a character has the Unicode `White_Space` property: tab, line
/// feed, vertical tab, form feed, carriage return, space, next line,
/// no-break space, ogham space mark, the spaces U+2000 to U+200A, line and
/// paragraph separators, narrow no-break space, medium mathematical space
/// and ideographic space.
pub open spec fn white_space(c: char) -> bool {
    let n = c as u32;
    (0x09 <= n && n <= 0x0d) || n == 0x20 || n == 0x85 || n == 0xa0 || n == 0x1680 || (0x2000 <= n
        && n <= 0x200a) || n == 0x2028 || n == 0x2029 || n == 0x202f || n == 0x205f || n == 0x3000
}

/// Decides [`white_space`].
fn is_white_space(c: char) -> (b: bool)
    ensures
        b == white_space(c),
{
    let n = c as u32;
    (0x09 <= n && n <= 0x0d) || n == 0x20 || n == 0x85 || n == 0xa0 || n == 0x1680 || (0x2000 <= n
        && n <= 0x200a) || n == 0x2028 || n == 0x2029 || n == 0x202f || n == 0x205f || n == 0x3000
}

/// Whether every character of the text is `White_Space`: what
/// `str::trim` leaves of such a text, and only of such a text, is empty.
fn is_blank(s: &str) -> (b: bool)
    ensures
        b == blank(s@),
{
    let n = s.unicode_len();
    let mut i: usize = 0;
    while i < n
        invariant
            n == s@.len(),
            i <= n,
            forall|j: int| 0 <= j < i ==> white_space(#[trigger] s@[j]),
        decreases n - i,
    {
        if !is_white_space(s.get_char(i)) {
            return false;
        }
        i += 1;
    }
    true
}

pub open spec fn blank(s: Seq<char>) -> bool {
    forall|i: int| 0 <= i < s.len() ==> white_space(#[trigger] s[i])
}

/// A request field that was refused: its label and the byte limit it broke.
#[derive(Debug)]
pub struct InvalidField {
    pub label: String,
    pub max_bytes: usize,
}

/// A refused request.
#[derive(Debug)]
pub enum InvalidRequest {
    /// A text or label is blank or too long.
    Field(InvalidField),
    /// A resource list is empty or longer than [`MAX_RESOURCES`].
    ResourceCount,
}

/// Accepts a text of 1 to [`MAX_TEXT_BYTES`] bytes that is not blank.
pub fn validate_text(label: &str, value: &str) -> (r: Result<(), InvalidRequest>)
    ensures
        r is Ok <==> !blank(value@) && byte_len(value@) <= MAX_TEXT_BYTES,
        r matches Err(InvalidRequest::Field(f)) ==> f.label@ == label@ && f.max_bytes == MAX_TEXT_BYTES,
        r is Err ==> r matches Err(InvalidRequest::Field(_)),
{
    if is_blank(value) || value.len() > MAX_TEXT_BYTES {
        Err(InvalidRequest::Field(InvalidField { label: label.to_owned(), max_bytes: MAX_TEXT_BYTES }))
    } else {
        Ok(())
    }
}

/// Accepts a label of 1 to [`MAX_LABEL_BYTES`] bytes that is not blank.
pub fn validate_label(label: &str, value: &str) -> (r: Result<(), InvalidRequest>)
    ensures
        r is Ok <==> !blank(value@) && byte_len(value@) <= MAX_LABEL_BYTES,
        r matches Err(InvalidRequest::Field(f)) ==> f.label@ == label@ && f.max_bytes == MAX_LABEL_BYTES,
        r is Err ==> r matches Err(InvalidRequest::Field(_)),
{
    if is_blank(value) || value.len() > MAX_LABEL_BYTES {
        Err(InvalidRequest::Field(InvalidField { label: label.to_owned(), max_bytes: MAX_LABEL_BYTES }))
    } else {
        Ok(())
    }
}

/// The length in bytes of a text, as `str::len` reports it.
pub open spec fn byte_len(s: Seq<char>) -> usize {
    crate::text::text_bytes(s).len() as usize
}

pub open spec fn valid_label(s: Seq<char>) -> bool {
    !blank(s) && byte_len(s) <= MAX_LABEL_BYTES
}

/// Accepts 1 to [`MAX_RESOURCES`] resources, each a valid label; the
/// first invalid resource is reported.
pub fn validate_resources(resources: &[String]) -> (r: Result<(), InvalidRequest>)
    ensures
        r is Ok <==> 1 <= resources@.len() <= MAX_RESOURCES && forall|i: int|
            0 <= i < resources@.len() ==> valid_label(#[trigger] resources@[i]@),
        r matches Err(InvalidRequest::ResourceCount) <==> !(1 <= resources@.len() <= MAX_RESOURCES),
        r matches Err(InvalidRequest::Field(f)) ==> f.label@ == "resource"@ && f.max_bytes
            == MAX_LABEL_BYTES,
{
    if resources.len() == 0 || resources.len() > MAX_RESOURCES {
        return Err(InvalidRequest::ResourceCount);
    }
    let mut i: usize = 0;
    while i < resources.len()
        invariant
            i <= resources@.len(),
            1 <= resources@.len() <= MAX_RESOURCES,
            forall|k: int| 0 <= k < i ==> valid_label(#[trigger] resources@[k]@),
        decreases resources@.len() - i,
    {
        match validate_label("resource", resources[i].as_str()) {
            Ok(()) => {},
            Err(e) => {
                return Err(e);
            },
        }
        i += 1;
    }
    Ok(())
}

/// The kind of a memory when none is given.
pub fn default_kind() -> (k: String)
    ensures
        k@ == "note"@,
{
    String::from_str("note")
}

/// The recipient that addresses the whole workspace.
pub fn broadcast() -> (r: String)
    ensures
        r@ == "*"@,
{
    String::from_str("*")
}

/// How many memories a recall returns when no limit is given.
pub fn default_recall_limit() -> (n: u32)
    ensures
        n == 10,
{
    10
}

/// How many messages an inbox read returns when no limit is given.
pub fn default_inbox_limit() -> (n: u32)
    ensures
        n == 50,
{
    50
}

/// How many events a journal read returns when no limit is given.
pub fn default_event_limit() -> (n: u32)
    ensures
        n == 100,
{
    100
}

/// The lease of a claim, in seconds, when none is given.
pub fn default_lease() -> (n: u64)
    ensures
        n == 300,
{
    300
}

} // verus!
