//! The text buffer.

use crate::text;
use ropey::Rope;
use vstd::prelude::*;
use vstd::utf8::*;

verus! {

/// `ropey::Rope`, a text buffer.
#[verifier::external_type_specification]
#[verifier::external_body]
pub struct ExRope(Rope);

/// The characters that a rope holds.
pub uninterp spec fn rope_chars(rope: Rope) -> Seq<char>;

/// The UTF-8 bytes of what a rope holds.
pub open spec fn rope_bytes(rope: Rope) -> Seq<u8> {
    encode_utf8(rope_chars(rope))
}

/// Calls `ropey::Rope`'s `to_string`: the string holds the rope's text.
#[verifier::external_body]
pub(crate) fn rope_to_string(rope: &Rope) -> (text: String)
    ensures
        text@ == rope_chars(*rope),
{
    rope.to_string()
}

/// Calls `ropey::Rope::from_str`: the rope holds the string's text.
#[verifier::external_body]
pub(crate) fn rope_from_str(text: &str) -> (rope: Rope)
    ensures
        rope_chars(rope) == text@,
{
    Rope::from_str(text)
}

/// Calls `ropey::Rope::insert`: `text` comes to stand at the byte offset
/// `at`, which must be a character boundary of the rope.
#[verifier::external_body]
pub(crate) fn rope_insert(rope: &mut Rope, at: usize, text: &str)
    requires
        at <= rope_bytes(*old(rope)).len(),
        text::is_boundary(rope_bytes(*old(rope)), at as int),
    ensures
        rope_bytes(*final(rope)) == rope_bytes(*old(rope)).subrange(0, at as int) + encode_utf8(
            text@,
        ) + rope_bytes(*old(rope)).subrange(at as int, rope_bytes(*old(rope)).len() as int),
{
    rope.insert(at, text)
}

/// Calls `ropey::Rope::remove`: the text between two byte offsets, which must
/// be character boundaries of the rope, is gone.
#[verifier::external_body]
pub(crate) fn rope_remove(rope: &mut Rope, start: usize, end: usize)
    requires
        start <= end <= rope_bytes(*old(rope)).len(),
        text::is_boundary(rope_bytes(*old(rope)), start as int),
        text::is_boundary(rope_bytes(*old(rope)), end as int),
    ensures
        rope_bytes(*final(rope)) == rope_bytes(*old(rope)).subrange(0, start as int) + rope_bytes(
            *old(rope),
        ).subrange(end as int, rope_bytes(*old(rope)).len() as int),
{
    rope.remove(start..end)
}

} // verus!
