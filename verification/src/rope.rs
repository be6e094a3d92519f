//! The `ropey` rope that stores editable text, seen through its character
//! contents. Each item here is trusted: its contract restates what ropey
//! documents for the method it calls (ropey 1.6 with its default
//! `unicode_lines` feature).
use ropey::Rope;
use vstd::prelude::*;
use crate::lines::{line_count, line_of_byte, line_start_byte};
use crate::text::{byte_offset, char_at_byte, utf8_len};

verus! {

#[verifier::external_type_specification]
#[verifier::external_body]
pub struct ExRope(Rope);

#[verifier::external_type_specification]
#[verifier::external_body]
pub struct ExRopeError(ropey::Error);

/// The characters that a rope holds.
pub uninterp spec fn rope_text(r: Rope) -> Seq<char>;

/// `Rope::new`: an empty rope.
#[verifier::external_body]
pub(crate) fn rope_new() -> (r: Rope)
    ensures
        rope_text(r) == Seq::<char>::empty(),
{
    Rope::new()
}

/// `Rope::from_str`: a rope that holds exactly the characters of `text`.
#[verifier::external_body]
pub(crate) fn rope_from_str(text: &str) -> (r: Rope)
    ensures
        rope_text(r) == text@,
{
    Rope::from_str(text)
}

/// `Rope::len_bytes`: the length of the UTF-8 encoding of the contents.
#[verifier::external_body]
pub(crate) fn rope_len_bytes(r: &Rope) -> (n: usize)
    ensures
        n == utf8_len(rope_text(*r)),
{
    r.len_bytes()
}

/// `Rope::len_chars`: the number of characters.
#[verifier::external_body]
pub(crate) fn rope_len_chars(r: &Rope) -> (n: usize)
    ensures
        n == rope_text(*r).len(),
{
    r.len_chars()
}

/// `Rope::len_lines`: the number of lines (line breaks plus one).
#[verifier::external_body]
pub(crate) fn rope_len_lines(r: &Rope) -> (n: usize)
    ensures
        n == line_count(rope_text(*r)),
{
    r.len_lines()
}

/// `Rope::try_byte_to_char`: fails exactly past the end; otherwise the
/// index of the character that contains the byte (the end maps to the end).
#[verifier::external_body]
pub(crate) fn rope_try_byte_to_char(r: &Rope, byte: usize) -> (res: Result<usize, ropey::Error>)
    ensures
        res is Ok <==> byte <= utf8_len(rope_text(*r)),
        res matches Ok(c) ==> c == char_at_byte(rope_text(*r), byte as int),
{
    r.try_byte_to_char(byte)
}

/// `Rope::byte_to_char`: the index of the character that contains the byte.
#[verifier::external_body]
pub(crate) fn rope_byte_to_char(r: &Rope, byte: usize) -> (c: usize)
    requires
        byte <= utf8_len(rope_text(*r)),
    ensures
        c == char_at_byte(rope_text(*r), byte as int),
{
    r.byte_to_char(byte)
}

/// `Rope::char_to_byte`: the byte offset where a character starts.
#[verifier::external_body]
pub(crate) fn rope_char_to_byte(r: &Rope, c: usize) -> (b: usize)
    requires
        c <= rope_text(*r).len(),
    ensures
        b == byte_offset(rope_text(*r), c as int),
{
    r.char_to_byte(c)
}

/// `Rope::char`: the character at an index.
#[verifier::external_body]
pub(crate) fn rope_char(r: &Rope, c: usize) -> (ch: char)
    requires
        c < rope_text(*r).len(),
    ensures
        ch == rope_text(*r)[c as int],
{
    r.char(c)
}

/// `Rope::byte_to_line`: the line that contains the byte.
#[verifier::external_body]
pub(crate) fn rope_byte_to_line(r: &Rope, byte: usize) -> (l: usize)
    requires
        byte <= utf8_len(rope_text(*r)),
    ensures
        l == line_of_byte(rope_text(*r), byte as int),
{
    r.byte_to_line(byte)
}

/// `Rope::line_to_byte`: the byte offset where a line starts (one past the
/// last line names the end of the text).
#[verifier::external_body]
pub(crate) fn rope_line_to_byte(r: &Rope, line: usize) -> (b: usize)
    requires
        line <= line_count(rope_text(*r)),
    ensures
        b == line_start_byte(rope_text(*r), line as int),
{
    r.line_to_byte(line)
}

/// `Rope::slice` of a character range, rendered with `to_string`.
#[verifier::external_body]
pub(crate) fn rope_slice_string(r: &Rope, start: usize, end: usize) -> (s: String)
    requires
        start <= end <= rope_text(*r).len(),
    ensures
        s@ == rope_text(*r).subrange(start as int, end as int),
{
    r.slice(start..end).to_string()
}

/// `Rope::to_string` (through `Display`): all the characters.
#[verifier::external_body]
pub(crate) fn rope_to_string(r: &Rope) -> (s: String)
    ensures
        s@ == rope_text(*r),
{
    r.to_string()
}

/// `Rope::remove` of a character range.
#[verifier::external_body]
pub(crate) fn rope_remove(r: &mut Rope, start: usize, end: usize)
    requires
        start <= end <= rope_text(*old(r)).len(),
    ensures
        rope_text(*final(r)) == rope_text(*old(r)).take(start as int) + rope_text(*old(r)).skip(
            end as int,
        ),
{
    r.remove(start..end)
}

/// `Rope::insert` of a text at a character index. The rope counts its bytes
/// in a `usize`, so the result always has a byte length that fits one.
#[verifier::external_body]
pub(crate) fn rope_insert(r: &mut Rope, c: usize, text: &str)
    requires
        c <= rope_text(*old(r)).len(),
    ensures
        rope_text(*final(r)) == rope_text(*old(r)).take(c as int) + text@ + rope_text(*old(r)).skip(
            c as int,
        ),
        utf8_len(rope_text(*final(r))) <= usize::MAX,
{
    r.insert(c, text)
}

} // verus!
