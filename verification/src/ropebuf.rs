//! The target text buffer: a `crop::Rope`, modelled by the sequence of
//! characters it holds. All mutation goes through line-granular operations,
//! stated over the raw-line decomposition of the model.

use crate::text::raw_lines;
use vstd::prelude::*;

verus! {

#[verifier::external_type_specification]
#[verifier::external_body]
pub struct ExRope(crop::Rope);

/// The characters held by a rope.
pub uninterp spec fn rope_text(r: crop::Rope) -> Seq<char>;

/// Relies on `crop::Rope::from::<&str>`: builds a rope holding exactly the
/// given text.
#[verifier::external_body]
pub(crate) fn rope_from_str(s: &str) -> (r: crop::Rope)
    ensures
        rope_text(r) == s@,
{
    crop::Rope::from(s)
}

/// Relies on `crop::Rope`'s `Display` impl: writes out exactly the text the
/// rope holds.
#[verifier::external_body]
pub(crate) fn rope_to_string(r: &crop::Rope) -> (s: String)
    ensures
        s@ == rope_text(*r),
{
    r.to_string()
}

/// Relies on `crop::Rope::raw_lines`: yields the lines of the rope including
/// their line terminators; a final line break does not open a trailing empty
/// line.
#[verifier::external_body]
pub(crate) fn rope_raw_lines(r: &crop::Rope) -> (v: Vec<String>)
    ensures
        v.deep_view() == raw_lines(rope_text(*r)),
{
    let mut v = Vec::new();
    for line in r.raw_lines() {
        v.push(line.to_string());
    }
    v
}

/// Relies on `crop::Rope::line_len`: the number of raw lines in the rope.
#[verifier::external_body]
pub(crate) fn rope_line_count(r: &crop::Rope) -> (n: usize)
    ensures
        n == raw_lines(rope_text(*r)).len(),
{
    r.line_len()
}

/// Relies on `crop::Rope::byte_of_line` (the byte offset where the given
/// line starts; for `line_len` itself, the end of the text) and
/// `crop::Rope::insert` (splices the given text in at that offset).
#[verifier::external_body]
pub(crate) fn rope_insert_at_line(r: &mut crop::Rope, line: usize, text: &str)
    requires
        line <= raw_lines(rope_text(*old(r))).len(),
    ensures
        rope_text(*final(r)) == raw_lines(rope_text(*old(r))).take(line as int).flatten() + text@
            + raw_lines(rope_text(*old(r))).skip(line as int).flatten(),
{
    let at = r.byte_of_line(line);
    r.insert(at, text);
}

/// Relies on `crop::Rope::byte_of_line` and `crop::Rope::delete`: removes
/// the byte range spanning the raw lines `start..end`.
#[verifier::external_body]
pub(crate) fn rope_delete_lines(r: &mut crop::Rope, start: usize, end: usize)
    requires
        start <= end <= raw_lines(rope_text(*old(r))).len(),
    ensures
        rope_text(*final(r)) == raw_lines(rope_text(*old(r))).take(start as int).flatten()
            + raw_lines(rope_text(*old(r))).skip(end as int).flatten(),
{
    let from = r.byte_of_line(start);
    let to = r.byte_of_line(end);
    r.delete(from..to);
}

} // verus!
