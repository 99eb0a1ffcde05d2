//! Contracts for the rope that holds a document, `ropey::Rope`.
//!
//! A rope stands for the text it holds; every method is described by the text
//! model of [`crate::text`]. Lines end at line feeds alone, which is what ropey
//! does when its `cr_lines` and `unicode_lines` features are off.
use crate::text;
use ropey::Rope;
use vstd::prelude::*;

verus! {

/// `ropey::Rope`, an editable text.
#[verifier::external_type_specification]
#[verifier::external_body]
pub struct ExRope(Rope);

/// The text that a rope holds.
pub uninterp spec fn rope_text(rope: Rope) -> Seq<char>;

/// `ropey::Rope::from_str` builds a rope that holds the given text.
pub assume_specification[ Rope::from_str ](contents: &str) -> (rope: Rope)
    ensures
        rope_text(rope) == contents@,
;

/// `clone` of a `ropey::Rope` holds the same text.
pub assume_specification[ <Rope as Clone>::clone ](rope: &Rope) -> (copy: Rope)
    ensures
        rope_text(copy) == rope_text(*rope),
;

/// `ropey::Rope::len_bytes` is the length in UTF-8 bytes.
pub assume_specification[ Rope::len_bytes ](rope: &Rope) -> (n: usize)
    ensures
        n == text::utf8_len(rope_text(*rope)),
;

/// `ropey::Rope::len_chars` is the number of characters.
pub assume_specification[ Rope::len_chars ](rope: &Rope) -> (n: usize)
    ensures
        n == rope_text(*rope).len(),
;

/// `ropey::Rope::len_lines` is the number of lines: one more than there are
/// line feeds.
pub assume_specification[ Rope::len_lines ](rope: &Rope) -> (n: usize)
    ensures
        n == text::line_count(rope_text(*rope)),
;

/// `ropey::Rope::len_utf16_cu` is the length in UTF-16 code units.
pub assume_specification[ Rope::len_utf16_cu ](rope: &Rope) -> (n: usize)
    ensures
        n == text::utf16_len(rope_text(*rope)),
;

/// `ropey::Rope::byte_to_char` is the index of the character that a byte
/// belongs to. It panics past the end.
pub assume_specification[ Rope::byte_to_char ](rope: &Rope, byte_idx: usize) -> (c: usize)
    requires
        byte_idx <= text::utf8_len(rope_text(*rope)),
    ensures
        c == text::char_of_byte(rope_text(*rope), byte_idx as int),
;

/// `ropey::Rope::byte_to_line` is the number of line feeds before a byte. It
/// panics past the end.
pub assume_specification[ Rope::byte_to_line ](rope: &Rope, byte_idx: usize) -> (line: usize)
    requires
        byte_idx <= text::utf8_len(rope_text(*rope)),
    ensures
        line == text::line_of_char(
            rope_text(*rope),
            text::char_of_byte(rope_text(*rope), byte_idx as int) as int,
        ),
;

/// `ropey::Rope::char_to_byte` is the byte offset of a character. It panics
/// past the end.
pub assume_specification[ Rope::char_to_byte ](rope: &Rope, char_idx: usize) -> (b: usize)
    requires
        char_idx <= rope_text(*rope).len(),
    ensures
        b == text::byte_of_char(rope_text(*rope), char_idx as int),
;

/// `ropey::Rope::char_to_utf16_cu` is the UTF-16 offset of a character. It
/// panics past the end.
pub assume_specification[ Rope::char_to_utf16_cu ](rope: &Rope, char_idx: usize) -> (u: usize)
    requires
        char_idx <= rope_text(*rope).len(),
    ensures
        u == text::utf16_of_char(rope_text(*rope), char_idx as int),
;

/// `ropey::Rope::utf16_cu_to_char` is the index of the character that a UTF-16
/// code unit belongs to. It panics past the end.
pub assume_specification[ Rope::utf16_cu_to_char ](rope: &Rope, utf16_cu_idx: usize) -> (c: usize)
    requires
        utf16_cu_idx <= text::utf16_len(rope_text(*rope)),
    ensures
        c == text::char_of_utf16(rope_text(*rope), utf16_cu_idx as int),
;

/// `ropey::Rope::line_to_byte` is the byte offset at which a line starts; the
/// number of lines stands for the end of the text. It panics beyond that.
pub assume_specification[ Rope::line_to_byte ](rope: &Rope, line_idx: usize) -> (b: usize)
    requires
        line_idx <= text::line_count(rope_text(*rope)),
    ensures
        b == text::byte_of_char(
            rope_text(*rope),
            text::line_start(rope_text(*rope), line_idx as nat) as int,
        ),
;

/// `ropey::Rope::line_to_char` is the index of the character at which a line
/// starts; the number of lines stands for the end of the text. It panics beyond
/// that.
pub assume_specification[ Rope::line_to_char ](rope: &Rope, line_idx: usize) -> (c: usize)
    requires
        line_idx <= text::line_count(rope_text(*rope)),
    ensures
        c == text::line_start(rope_text(*rope), line_idx as nat),
;

/// `ropey::Rope::insert` puts a text before a character. It panics past the
/// end.
pub assume_specification[ Rope::insert ](rope: &mut Rope, char_idx: usize, contents: &str)
    requires
        char_idx <= rope_text(*old(rope)).len(),
    ensures
        rope_text(*final(rope)) == rope_text(*old(rope)).take(char_idx as int) + contents@ + rope_text(
            *old(rope),
        ).skip(char_idx as int),
;

/// `ropey::Rope::remove` on a half-open range of characters deletes them. It
/// panics where the range is inverted or reaches past the end.
#[verifier::external_body]
pub(crate) fn rope_remove(rope: &mut Rope, start: usize, end: usize)
    requires
        start <= end <= rope_text(*old(rope)).len(),
    ensures
        rope_text(*final(rope)) == rope_text(*old(rope)).take(start as int) + rope_text(
            *old(rope),
        ).skip(end as int),
{
    rope.remove(start..end)
}

/// `ropey::Rope::slice` on a half-open range of characters, turned into an
/// owned string, holds the characters of that range. It panics where the range
/// is inverted or reaches past the end.
#[verifier::external_body]
pub(crate) fn rope_slice(rope: &Rope, start: usize, end: usize) -> (text: String)
    requires
        start <= end <= rope_text(*rope).len(),
    ensures
        text@ == rope_text(*rope).subrange(start as int, end as int),
{
    rope.slice(start..end).into()
}

/// `to_string` of a `ropey::Rope`, which writes out all of its chunks, is the
/// rope's text.
#[verifier::external_body]
pub(crate) fn rope_to_string(rope: &Rope) -> (text: String)
    ensures
        text@ == rope_text(*rope),
{
    rope.to_string()
}

} // verus!
