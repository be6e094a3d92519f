//! Text helpers over `str`. Trimming, searching, ASCII lowering and
//! character replacement are verified here; each trusted item calls one
//! standard-library function and restates what its documentation says.
use vstd::prelude::*;
use vstd::string::StrSliceExecFns;
use vstd::utf8::{decode_utf8, encode_scalar, encode_utf8, valid_utf8};
use crate::text::{
    byte_offset, char_index, is_boundary, lemma_byte_offset_bounds,
    lemma_char_index, lemma_utf8_len_concat,
    slice_text, utf8_len, valid_range,
};

verus! {

/// The Unicode `White_Space` property, which `str::trim` and `char::is_whitespace` use.
pub open spec fn is_white_space(c: char) -> bool {
    ||| ('\u{09}' <= c && c <= '\u{0D}')
    ||| c == ' '
    ||| c == '\u{85}'
    ||| c == '\u{A0}'
    ||| c == '\u{1680}'
    ||| ('\u{2000}' <= c && c <= '\u{200A}')
    ||| c == '\u{2028}'
    ||| c == '\u{2029}'
    ||| c == '\u{202F}'
    ||| c == '\u{205F}'
    ||| c == '\u{3000}'
}

/// `s` without its leading white space.
pub open spec fn trim_start_ws(s: Seq<char>) -> Seq<char>
    decreases s.len(),
{
    if s.len() > 0 && is_white_space(s[0]) {
        trim_start_ws(s.drop_first())
    } else {
        s
    }
}

/// `s` without its trailing white space.
pub open spec fn trim_end_ws(s: Seq<char>) -> Seq<char>
    decreases s.len(),
{
    if s.len() > 0 && is_white_space(s.last()) {
        trim_end_ws(s.drop_last())
    } else {
        s
    }
}

/// `s` without leading nor trailing white space.
pub open spec fn trim_ws(s: Seq<char>) -> Seq<char> {
    trim_end_ws(trim_start_ws(s))
}

/// `s` without any trailing copies of `c`.
pub open spec fn trim_end_char(s: Seq<char>, c: char) -> Seq<char>
    decreases s.len(),
{
    if s.len() > 0 && s.last() == c {
        trim_end_char(s.drop_last(), c)
    } else {
        s
    }
}

/// ASCII letters folded to lower case; every other character unchanged.
pub open spec fn ascii_lower(c: char) -> char {
    if 'A' <= c && c <= 'Z' {
        ((c as u32) + 32) as char
    } else {
        c
    }
}

pub open spec fn ascii_lowercase(s: Seq<char>) -> Seq<char> {
    s.map_values(|c: char| ascii_lower(c))
}

/// The Unicode lower-case mapping of `str::to_lowercase`.
pub uninterp spec fn unicode_lowercase(s: Seq<char>) -> Seq<char>;

/// `p` occurs in `s` at character index `k`.
pub open spec fn occurs_at(s: Seq<char>, p: Seq<char>, k: int) -> bool {
    0 <= k && k + p.len() <= s.len() && s.subrange(k, k + p.len()) == p
}

/// First character index at or after `k` where `p` occurs in `s`.
pub open spec fn first_occurrence_from(s: Seq<char>, p: Seq<char>, k: int) -> Option<int>
    decreases s.len() + 1 - k,
{
    if k < 0 || k + p.len() > s.len() {
        None
    } else if occurs_at(s, p, k) {
        Some(k)
    } else {
        first_occurrence_from(s, p, k + 1)
    }
}

pub open spec fn first_occurrence(s: Seq<char>, p: Seq<char>) -> Option<int> {
    first_occurrence_from(s, p, 0)
}

pub open spec fn contains_seq(s: Seq<char>, p: Seq<char>) -> bool {
    exists|k: int| occurs_at(s, p, k)
}

/// Byte index of the first occurrence of `p` in `s`.
pub open spec fn find_byte(s: Seq<char>, p: Seq<char>) -> Option<int> {
    match first_occurrence(s, p) {
        Some(k) => Some(byte_offset(s, k) as int),
        None => None,
    }
}

/// Character index of the last `c` in `s`.
pub open spec fn last_index_of(s: Seq<char>, c: char) -> Option<int>
    decreases s.len(),
{
    if s.len() == 0 {
        None
    } else if s.last() == c {
        Some(s.len() - 1)
    } else {
        last_index_of(s.drop_last(), c)
    }
}

/// `str::len`: the number of bytes of the UTF-8 text (a string never holds
/// more bytes than a `usize` counts).
#[verifier::external_body]
pub(crate) fn byte_len(s: &str) -> (n: usize)
    ensures
        n == utf8_len(s@),
{
    s.len()
}

/// `s` without any trailing copies of the non-empty text `p`.
pub open spec fn trim_end_seq(s: Seq<char>, p: Seq<char>) -> Seq<char>
    decreases s.len(),
{
    if p.len() > 0 && p.len() <= s.len() && s.skip(s.len() - p.len()) == p {
        trim_end_seq(s.take(s.len() - p.len()), p)
    } else {
        s
    }
}

/// `s` without any trailing copies of `p`, as `str::trim_end_matches` with a
/// string pattern (an empty pattern removes nothing).
pub(crate) fn trim_end_matches_str<'a>(s: &'a str, p: &str) -> (r: &'a str)
    ensures
        r@ == trim_end_seq(s@, p@),
{
    let x = chars_of(s);
    let y = chars_of(p);
    let mut j: usize = x.len();
    proof {
        assert(s@.subrange(0, s@.len() as int) =~= s@);
    }
    while y.len() > 0 && y.len() <= j && occurs_at_exec(&x, &y, j - y.len())
        invariant
            x@ == s@,
            y@ == p@,
            j <= x@.len(),
            trim_end_seq(s@, p@) == trim_end_seq(s@.subrange(0, j as int), p@),
        decreases j,
    {
        proof {
            let t = s@.subrange(0, j as int);
            assert(t.skip(j - p@.len()) =~= s@.subrange(j - p@.len(), j as int));
            assert(t.take(j - p@.len()) =~= s@.subrange(0, j - p@.len()));
        }
        j = j - y.len();
    }
    proof {
        let t = s@.subrange(0, j as int);
        if p@.len() > 0 && p@.len() <= j {
            assert(t.skip(j - p@.len()) =~= s@.subrange(j - p@.len(), j as int));
        }
    }
    s.substring_char(0, j)
}

/// Every `from` replaced by `to`.
pub open spec fn replace_chars(s: Seq<char>, from: char, to: char) -> Seq<char> {
    s.map_values(|c: char| if c == from { to } else { c })
}

/// An ASCII upper-case letter's byte lowered; every other byte kept.
pub open spec fn lower_byte(b: u8) -> u8 {
    if 65 <= b && b <= 90 {
        (b + 32) as u8
    } else {
        b
    }
}

/// The byte `from` replaced by `to`; every other byte kept.
pub open spec fn swap_byte(b: u8, from: u8, to: u8) -> u8 {
    if b == from {
        to
    } else {
        b
    }
}

/// Every byte of the encoding of a character beyond ASCII is at least 0x80.
proof fn lemma_high_scalar_bytes(c: char)
    requires
        (c as u32) >= 0x80,
    ensures
        forall|i: int| 0 <= i < encode_scalar(c as u32).len() ==> #[trigger] encode_scalar(c as u32)[i] >= 0x80,
{
    let v = c as u32;
    assert(forall|x: u32| #![auto] (0xC0u8 | ((x >> 6) & 0x1F) as u8) >= 0x80u8) by (bit_vector);
    assert(forall|x: u32| #![auto] (0xE0u8 | ((x >> 12) & 0x0F) as u8) >= 0x80u8) by (bit_vector);
    assert(forall|x: u32| #![auto] (0xF0u8 | ((x >> 18) & 0x7) as u8) >= 0x80u8) by (bit_vector);
    assert(forall|x: u32| #![auto] (0x80u8 | (x & 0x3F) as u8) >= 0x80u8) by (bit_vector);
    assert(forall|x: u32| #![auto] (0x80u8 | ((x >> 6) & 0x3F) as u8) >= 0x80u8) by (bit_vector);
    assert(forall|x: u32| #![auto] (0x80u8 | ((x >> 12) & 0x3F) as u8) >= 0x80u8) by (bit_vector);
}

/// The encoding of an ASCII character is its one byte.
proof fn lemma_ascii_scalar(c: char)
    requires
        (c as u32) < 0x80,
    ensures
        encode_scalar(c as u32) == seq![(c as u32) as u8],
{
    let v = c as u32;
    assert(v < 0x80 ==> (v & 0x7F) == v) by (bit_vector);
}

/// Lowering ASCII letters in the text lowers their bytes in its encoding.
proof fn lemma_encode_ascii_lowercase(s: Seq<char>)
    ensures
        encode_utf8(ascii_lowercase(s)) == encode_utf8(s).map_values(|b: u8| lower_byte(b)),
    decreases s.len(),
{
    let t = ascii_lowercase(s);
    if s.len() == 0 {
        assert(encode_utf8(s) =~= Seq::<u8>::empty());
        assert(encode_utf8(t) =~= Seq::<u8>::empty());
        assert(encode_utf8(s).map_values(|b: u8| lower_byte(b)) =~= Seq::<u8>::empty());
    } else {
        let c = s[0];
        assert(t.drop_first() =~= ascii_lowercase(s.drop_first()));
        lemma_encode_ascii_lowercase(s.drop_first());
        let head = encode_scalar(c as u32);
        let rest = encode_utf8(s.drop_first());
        assert(encode_utf8(s) == head + rest);
        assert((head + rest).map_values(|b: u8| lower_byte(b)) =~= head.map_values(|b: u8| lower_byte(b))
            + rest.map_values(|b: u8| lower_byte(b)));
        assert(t[0] == ascii_lower(c));
        if (c as u32) < 0x80 {
            lemma_ascii_scalar(c);
            let l = ascii_lower(c);
            assert((l as u32) < 0x80 && (l as u32) as u8 == lower_byte((c as u32) as u8));
            lemma_ascii_scalar(l);
            assert(encode_scalar(l as u32) =~= head.map_values(|b: u8| lower_byte(b)));
        } else {
            lemma_high_scalar_bytes(c);
            assert(ascii_lower(c) == c);
            assert(head.map_values(|b: u8| lower_byte(b)) =~= head);
        }
    }
}

/// Replacing one ASCII character by another replaces its byte in the encoding.
proof fn lemma_encode_replace_ascii(s: Seq<char>, from: char, to: char)
    requires
        (from as u32) < 0x80,
        (to as u32) < 0x80,
    ensures
        encode_utf8(replace_chars(s, from, to)) == encode_utf8(s).map_values(
            |b: u8| swap_byte(b, (from as u32) as u8, (to as u32) as u8),
        ),
    decreases s.len(),
{
    let t = replace_chars(s, from, to);
    let f = (from as u32) as u8;
    let g = (to as u32) as u8;
    if s.len() == 0 {
        assert(encode_utf8(s) =~= Seq::<u8>::empty());
        assert(encode_utf8(t) =~= Seq::<u8>::empty());
        assert(encode_utf8(s).map_values(|b: u8| swap_byte(b, f, g)) =~= Seq::<u8>::empty());
    } else {
        let c = s[0];
        assert(t.drop_first() =~= replace_chars(s.drop_first(), from, to));
        lemma_encode_replace_ascii(s.drop_first(), from, to);
        let head = encode_scalar(c as u32);
        let rest = encode_utf8(s.drop_first());
        assert(encode_utf8(s) == head + rest);
        assert((head + rest).map_values(|b: u8| swap_byte(b, f, g)) =~= head.map_values(
            |b: u8| swap_byte(b, f, g),
        ) + rest.map_values(|b: u8| swap_byte(b, f, g)));
        let r = if c == from { to } else { c };
        assert(t[0] == r);
        if (c as u32) < 0x80 {
            lemma_ascii_scalar(c);
            lemma_ascii_scalar(r);
            assert(c == from <==> (c as u32) as u8 == f) by {
                if (c as u32) as u8 == f {
                    vstd::utf8::char_u32_cast(c, from as u32);
                }
            }
            assert(encode_scalar(r as u32) =~= head.map_values(|b: u8| swap_byte(b, f, g)));
        } else {
            lemma_high_scalar_bytes(c);
            assert(r == c);
            assert(head.map_values(|b: u8| swap_byte(b, f, g)) =~= head);
        }
    }
}

/// `String::from_utf8`: the text the bytes encode, if they are valid UTF-8.
#[verifier::external_body]
pub(crate) fn string_from_utf8(bytes: Vec<u8>) -> (r: Option<String>)
    ensures
        match r {
            Some(s) => valid_utf8(bytes@) && s@ == decode_utf8(bytes@),
            None => !valid_utf8(bytes@),
        },
{
    String::from_utf8(bytes).ok()
}

/// The text with its ASCII letters lowered, as `str::to_ascii_lowercase`:
/// its UTF-8 bytes are mapped one by one and read back.
pub(crate) fn to_ascii_lowercase(s: &str) -> (r: String)
    ensures
        r@ == ascii_lowercase(s@),
{
    let bytes = s.as_bytes();
    let mut out: Vec<u8> = Vec::new();
    let mut i: usize = 0;
    while i < bytes.len()
        invariant
            bytes@ == encode_utf8(s@),
            i <= bytes@.len(),
            out@ == bytes@.take(i as int).map_values(|b: u8| lower_byte(b)),
        decreases bytes@.len() - i,
    {
        let b = bytes[i];
        let l = if 65 <= b && b <= 90 {
            b + 32
        } else {
            b
        };
        out.push(l);
        proof {
            assert(bytes@.take(i + 1) =~= bytes@.take(i as int).push(b));
        }
        i = i + 1;
        proof {
            assert(out@ =~= bytes@.take(i as int).map_values(|b: u8| lower_byte(b)));
        }
    }
    proof {
        assert(bytes@.take(i as int) =~= bytes@);
        lemma_encode_ascii_lowercase(s@);
        vstd::utf8::encode_utf8_valid_utf8(ascii_lowercase(s@));
        vstd::utf8::encode_utf8_decode_utf8(ascii_lowercase(s@));
    }
    match string_from_utf8(out) {
        Some(r) => r,
        None => {
            proof {
                assert(false);
            }
            String::new()
        },
    }
}

/// Every `from` replaced by `to`, both ASCII characters, as `str::replace`
/// with a `char` pattern: the UTF-8 bytes are mapped one by one and read back.
pub(crate) fn replace_char(s: &str, from: char, to: char) -> (r: String)
    requires
        (from as u32) < 0x80,
        (to as u32) < 0x80,
    ensures
        r@ == replace_chars(s@, from, to),
{
    let f = from as u32 as u8;
    let g = to as u32 as u8;
    let bytes = s.as_bytes();
    let mut out: Vec<u8> = Vec::new();
    let mut i: usize = 0;
    while i < bytes.len()
        invariant
            bytes@ == encode_utf8(s@),
            i <= bytes@.len(),
            f == (from as u32) as u8,
            g == (to as u32) as u8,
            out@ == bytes@.take(i as int).map_values(|b: u8| swap_byte(b, f, g)),
        decreases bytes@.len() - i,
    {
        let b = bytes[i];
        let l = if b == f {
            g
        } else {
            b
        };
        out.push(l);
        proof {
            assert(bytes@.take(i + 1) =~= bytes@.take(i as int).push(b));
        }
        i = i + 1;
        proof {
            assert(out@ =~= bytes@.take(i as int).map_values(|b: u8| swap_byte(b, f, g)));
        }
    }
    proof {
        assert(bytes@.take(i as int) =~= bytes@);
        lemma_encode_replace_ascii(s@, from, to);
        vstd::utf8::encode_utf8_valid_utf8(replace_chars(s@, from, to));
        vstd::utf8::encode_utf8_decode_utf8(replace_chars(s@, from, to));
    }
    match string_from_utf8(out) {
        Some(r) => r,
        None => {
            proof {
                assert(false);
            }
            String::new()
        },
    }
}

/// `str::to_lowercase`: the Unicode lower-case mapping of the text.
#[verifier::external_body]
pub(crate) fn to_lowercase(s: &str) -> (r: String)
    ensures
        r@ == unicode_lowercase(s@),
{
    s.to_lowercase()
}

/// Whether `p` occurs in `x` at character index `k`.
fn occurs_at_exec(x: &Vec<char>, p: &Vec<char>, k: usize) -> (b: bool)
    ensures
        b == occurs_at(x@, p@, k as int),
{
    if k > x.len() || p.len() > x.len() - k {
        return false;
    }
    let mut i: usize = 0;
    while i < p.len()
        invariant
            k + p@.len() <= x.len(),
            i <= p@.len(),
            forall|j: int| 0 <= j < i ==> x@[k + j] == p@[j],
        decreases p@.len() - i,
    {
        if x[k + i] != p[i] {
            proof {
                assert(x@.subrange(k as int, k + p@.len())[i as int] != p@[i as int]);
            }
            return false;
        }
        i = i + 1;
    }
    proof {
        assert(x@.subrange(k as int, k + p@.len()) =~= p@);
    }
    true
}

/// Whether `s` begins with `p`, as `str::starts_with` with a string pattern.
pub(crate) fn starts_with(s: &str, p: &str) -> (b: bool)
    ensures
        b == (p@.len() <= s@.len() && s@.take(p@.len() as int) == p@),
{
    let x = chars_of(s);
    let y = chars_of(p);
    let b = occurs_at_exec(&x, &y, 0);
    proof {
        if p@.len() <= s@.len() {
            assert(s@.take(p@.len() as int) =~= s@.subrange(0, p@.len() as int));
        }
    }
    b
}

/// Whether `s` ends with `p`, as `str::ends_with` with a string pattern.
pub(crate) fn ends_with(s: &str, p: &str) -> (b: bool)
    ensures
        b == (p@.len() <= s@.len() && s@.skip(s@.len() - p@.len()) == p@),
{
    let x = chars_of(s);
    let y = chars_of(p);
    if y.len() > x.len() {
        return false;
    }
    let b = occurs_at_exec(&x, &y, x.len() - y.len());
    proof {
        assert(s@.skip(s@.len() - p@.len()) =~= s@.subrange(s@.len() - p@.len(), s@.len() as int));
    }
    b
}

/// Whether `c` has the Unicode `White_Space` property, as `char::is_whitespace`.
pub fn is_white_space_char(c: char) -> (b: bool)
    ensures
        b == is_white_space(c),
{
    ('\u{09}' <= c && c <= '\u{0D}') || c == ' ' || c == '\u{85}' || c == '\u{A0}' || c == '\u{1680}'
        || ('\u{2000}' <= c && c <= '\u{200A}') || c == '\u{2028}' || c == '\u{2029}' || c
        == '\u{202F}' || c == '\u{205F}' || c == '\u{3000}'
}

/// `s` without its leading white space, as `str::trim_start`.
pub(crate) fn trim_start(s: &str) -> (r: &str)
    ensures
        r@ == trim_start_ws(s@),
{
    let x = chars_of(s);
    let mut i: usize = 0;
    proof {
        assert(s@.subrange(0, s@.len() as int) =~= s@);
    }
    while i < x.len() && is_white_space_char(x[i])
        invariant
            x@ == s@,
            i <= x@.len(),
            trim_start_ws(s@) == trim_start_ws(s@.subrange(i as int, s@.len() as int)),
        decreases x@.len() - i,
    {
        proof {
            let t = s@.subrange(i as int, s@.len() as int);
            assert(t.drop_first() =~= s@.subrange(i + 1, s@.len() as int));
        }
        i = i + 1;
    }
    proof {
        let t = s@.subrange(i as int, s@.len() as int);
        if i == x@.len() {
            assert(t.len() == 0);
        } else {
            assert(t[0] == x@[i as int]);
        }
    }
    s.substring_char(i, x.len())
}

/// `s` without its trailing white space, as `str::trim_end`.
fn trim_end(s: &str) -> (r: &str)
    ensures
        r@ == trim_end_ws(s@),
{
    let x = chars_of(s);
    let mut j: usize = x.len();
    proof {
        assert(s@.subrange(0, s@.len() as int) =~= s@);
    }
    while j > 0 && is_white_space_char(x[j - 1])
        invariant
            x@ == s@,
            j <= x@.len(),
            trim_end_ws(s@) == trim_end_ws(s@.subrange(0, j as int)),
        decreases j,
    {
        proof {
            assert(s@.subrange(0, j as int).drop_last() =~= s@.subrange(0, j - 1));
        }
        j = j - 1;
    }
    proof {
        assert(s@.subrange(0, s@.len() as int) =~= s@);
        let t = s@.subrange(0, j as int);
        if j > 0 {
            assert(t.last() == x@[j - 1]);
        }
    }
    s.substring_char(0, j)
}

/// `s` without leading nor trailing white space, as `str::trim`.
pub(crate) fn trim(s: &str) -> (r: &str)
    ensures
        r@ == trim_ws(s@),
{
    trim_end(trim_start(s))
}

/// `s` without any trailing copies of `c`, as `str::trim_end_matches` with a
/// `char` pattern.
pub(crate) fn trim_end_matches_char(s: &str, c: char) -> (r: &str)
    ensures
        r@ == trim_end_char(s@, c),
{
    let x = chars_of(s);
    let mut j: usize = x.len();
    proof {
        assert(s@.subrange(0, s@.len() as int) =~= s@);
    }
    while j > 0 && x[j - 1] == c
        invariant
            x@ == s@,
            j <= x@.len(),
            trim_end_char(s@, c) == trim_end_char(s@.subrange(0, j as int), c),
        decreases j,
    {
        proof {
            assert(s@.subrange(0, j as int).drop_last() =~= s@.subrange(0, j - 1));
        }
        j = j - 1;
    }
    proof {
        assert(s@.subrange(0, s@.len() as int) =~= s@);
        let t = s@.subrange(0, j as int);
        if j > 0 {
            assert(t.last() == x@[j - 1]);
        }
    }
    s.substring_char(0, j)
}

/// The byte offset at which character `k` of `s` starts.
fn byte_offset_of(s: &str, k: usize) -> (b: usize)
    requires
        k <= s@.len(),
    ensures
        b == byte_offset(s@, k as int),
{
    let prefix = s.substring_char(0, k);
    proof {
        assert(prefix@ =~= s@.take(k as int));
    }
    byte_len(prefix)
}

/// Byte index of the first occurrence of `p` in `s`, as `str::find` with a
/// string pattern.
pub(crate) fn find(s: &str, p: &str) -> (r: Option<usize>)
    ensures
        match r {
            Some(i) => find_byte(s@, p@) == Some(i as int),
            None => find_byte(s@, p@) is None,
        },
{
    let x = chars_of(s);
    let y = chars_of(p);
    if y.len() > x.len() {
        return None;
    }
    let last = x.len() - y.len();
    let mut k: usize = 0;
    while k <= last
        invariant
            last == x@.len() - y@.len(),
            k <= last,
            x@ == s@,
            y@ == p@,
            first_occurrence(s@, p@) == first_occurrence_from(s@, p@, k as int),
        decreases last - k,
    {
        if occurs_at_exec(&x, &y, k) {
            return Some(byte_offset_of(s, k));
        }
        if k == last {
            proof {
                assert(first_occurrence_from(s@, p@, k + 1) is None);
            }
            return None;
        }
        k = k + 1;
    }
    None
}

/// Byte index of the last `c` in `s`, as `str::rfind` with a `char` pattern.
pub(crate) fn rfind_char(s: &str, c: char) -> (r: Option<usize>)
    ensures
        match r {
            Some(i) => last_index_of(s@, c) matches Some(k) && i == byte_offset(s@, k),
            None => last_index_of(s@, c) is None,
        },
{
    let x = chars_of(s);
    let mut j: usize = x.len();
    proof {
        assert(s@.subrange(0, s@.len() as int) =~= s@);
    }
    while j > 0
        invariant
            x@ == s@,
            j <= x@.len(),
            last_index_of(s@, c) == last_index_of(s@.subrange(0, j as int), c),
        decreases j,
    {
        let ghost t = s@.subrange(0, j as int);
        proof {
            assert(t.last() == x@[j - 1]);
            assert(t.drop_last() =~= s@.subrange(0, j - 1));
        }
        if x[j - 1] == c {
            return Some(byte_offset_of(s, j - 1));
        }
        j = j - 1;
    }
    None
}

/// Whether `p` occurs somewhere in `s`, as `str::contains` with a string pattern.
pub(crate) fn contains(s: &str, p: &str) -> (b: bool)
    ensures
        b == contains_seq(s@, p@),
{
    let x = chars_of(s);
    let y = chars_of(p);
    if y.len() > x.len() {
        proof {
            assert forall|k: int| !occurs_at(s@, p@, k) by {}
        }
        return false;
    }
    if y.len() == 0 {
        proof {
            assert(s@.subrange(0, 0) =~= p@);
            assert(occurs_at(s@, p@, 0));
        }
        return true;
    }
    let last = x.len() - y.len();
    let mut k: usize = 0;
    while k <= last
        invariant
            last == x.len() - y.len(),
            y.len() > 0,
            k <= last + 1,
            x@ == s@,
            y@ == p@,
            forall|j: int| 0 <= j < k ==> !occurs_at(s@, p@, j),
        decreases last + 1 - k,
    {
        if occurs_at_exec(&x, &y, k) {
            return true;
        }
        k = k + 1;
    }
    proof {
        assert forall|j: int| !occurs_at(s@, p@, j) by {
            if 0 <= j && j + p@.len() <= s@.len() {
                assert(j <= last);
            }
        }
    }
    false
}

/// String slicing `&s[start..end]` between character boundaries.
#[verifier::external_body]
pub(crate) fn slice(s: &str, start: usize, end: usize) -> (r: &str)
    requires
        valid_range(s@, start as int, end as int),
    ensures
        r@ == slice_text(s@, start as int, end as int),
{
    &s[start..end]
}

/// `str::get` of a byte range: `None` unless both ends are in bounds, in
/// order and on character boundaries.
#[verifier::external_body]
pub(crate) fn get(s: &str, start: usize, end: usize) -> (r: Option<&str>)
    ensures
        r is Some <==> valid_range(s@, start as int, end as int),
        r matches Some(x) ==> x@ == slice_text(s@, start as int, end as int),
{
    s.get(start..end)
}

/// The characters of a string, in order.
pub fn chars_of(s: &str) -> (v: Vec<char>)
    ensures
        v@ == s@,
{
    broadcast use vstd::string::group_string_axioms;

    let mut v: Vec<char> = Vec::new();
    for c in it: s.chars()
        invariant
            v@ == it.seq().take(it.index() as int),
            it.seq() == s@,
    {
        v.push(c);
    }
    v
}

/// Where a first occurrence is found, it occurs there and nowhere before.
pub proof fn lemma_first_occurrence_from(s: Seq<char>, p: Seq<char>, k: int)
    requires
        0 <= k,
    ensures
        match first_occurrence_from(s, p, k) {
            Some(i) => k <= i && occurs_at(s, p, i) && forall|j: int| k <= j < i ==> !occurs_at(s, p, j),
            None => forall|j: int| k <= j ==> !occurs_at(s, p, j),
        },
    decreases s.len() + 1 - k,
{
    if k + p.len() > s.len() {
    } else if occurs_at(s, p, k) {
    } else {
        lemma_first_occurrence_from(s, p, k + 1);
    }
}

/// A first occurrence lies inside the text, on a character boundary.
pub proof fn lemma_find_byte(s: Seq<char>, p: Seq<char>)
    ensures
        match first_occurrence(s, p) {
            Some(k) => {
                &&& occurs_at(s, p, k)
                &&& forall|j: int| 0 <= j < k ==> !occurs_at(s, p, j)
                &&& is_boundary(s, byte_offset(s, k) as int)
                &&& char_index(s, byte_offset(s, k) as int) == k
                &&& is_boundary(s, byte_offset(s, k + p.len()) as int)
                &&& char_index(s, byte_offset(s, k + p.len()) as int) == k + p.len()
                &&& byte_offset(s, k + p.len()) == byte_offset(s, k) + utf8_len(p)
            },
            None => !contains_seq(s, p),
        },
{
    lemma_first_occurrence_from(s, p, 0);
    match first_occurrence(s, p) {
        Some(k) => {
            lemma_char_index(s, k);
            lemma_char_index(s, k + p.len());
            assert(s.take(k + p.len()) =~= s.take(k) + p);
            lemma_utf8_len_concat(s.take(k), p);
        },
        None => {
            if contains_seq(s, p) {
                let j = choose|j: int| occurs_at(s, p, j);
                assert(0 <= j);
            }
        },
    }
}

pub proof fn lemma_trim_start_ws(s: Seq<char>)
    ensures
        trim_start_ws(s).len() == 0 || !is_white_space(trim_start_ws(s)[0]),
        trim_start_ws(s) == s.skip(s.len() - trim_start_ws(s).len()),
        trim_start_ws(s).len() <= s.len(),
    decreases s.len(),
{
    if s.len() > 0 && is_white_space(s[0]) {
        lemma_trim_start_ws(s.drop_first());
        assert(s.drop_first().skip(s.drop_first().len() - trim_start_ws(s).len()) =~= s.skip(
            s.len() - trim_start_ws(s).len(),
        ));
    } else {
        assert(s.skip(0) =~= s);
    }
}

pub proof fn lemma_trim_end_ws(s: Seq<char>)
    ensures
        trim_end_ws(s).len() == 0 || !is_white_space(trim_end_ws(s).last()),
        trim_end_ws(s) == s.take(trim_end_ws(s).len() as int),
        trim_end_ws(s).len() <= s.len(),
    decreases s.len(),
{
    if s.len() > 0 && is_white_space(s.last()) {
        lemma_trim_end_ws(s.drop_last());
        assert(s.drop_last().take(trim_end_ws(s).len() as int) =~= s.take(
            trim_end_ws(s).len() as int,
        ));
    } else {
        assert(s.take(s.len() as int) =~= s);
    }
}

/// Trimming twice is trimming once.
pub proof fn lemma_trim_ws_idempotent(s: Seq<char>)
    ensures
        trim_ws(trim_ws(s)) == trim_ws(s),
{
    let u = trim_start_ws(s);
    let v = trim_end_ws(u);
    lemma_trim_start_ws(s);
    lemma_trim_end_ws(u);
    if v.len() > 0 {
        assert(v[0] == u[0]);
    }
    assert(trim_start_ws(v) == v);
    assert(trim_end_ws(v) == v);
}

/// Whether two strings hold the same characters.
pub fn str_equals(a: &str, b: &str) -> (r: bool)
    ensures
        r == (a@ == b@),
{
    let x = chars_of(a);
    let y = chars_of(b);
    if x.len() != y.len() {
        return false;
    }
    let mut i: usize = 0;
    while i < x.len()
        invariant
            x@ == a@,
            y@ == b@,
            x@.len() == y@.len(),
            i <= x@.len(),
            forall|j: int| 0 <= j < i ==> x@[j] == y@[j],
        decreases x@.len() - i,
    {
        if x[i] != y[i] {
            return false;
        }
        i = i + 1;
    }
    assert(a@ =~= b@);
    true
}

/// A text splits around the first occurrence of a pattern into two valid
/// slices, before and after it.
pub proof fn lemma_split_at(s: Seq<char>, p: Seq<char>)
    requires
        first_occurrence(s, p) is Some,
    ensures
        ({
            let k = first_occurrence(s, p)->0;
            let b = byte_offset(s, k) as int;
            let e = b + utf8_len(p);
            &&& 0 <= k && k + p.len() <= s.len()
            &&& s.subrange(k, k + p.len()) == p
            &&& e <= utf8_len(s)
            &&& e == byte_offset(s, k + p.len())
            &&& valid_range(s, 0, b)
            &&& valid_range(s, e, utf8_len(s) as int)
            &&& slice_text(s, 0, b) == s.take(k)
            &&& slice_text(s, e, utf8_len(s) as int) == s.skip(k + p.len())
        }),
{
    lemma_find_byte(s, p);
    crate::text::lemma_ends_are_boundaries(s);
    let k = first_occurrence(s, p)->0;
    lemma_byte_offset_bounds(s, k + p.len());
}

/// The last occurrence of a character lies inside the text, and no later one.
pub proof fn lemma_last_index_of(s: Seq<char>, c: char)
    ensures
        match last_index_of(s, c) {
            Some(k) => 0 <= k < s.len() && s[k] == c && forall|j: int| k < j < s.len() ==> s[j]
                != c,
            None => forall|j: int| 0 <= j < s.len() ==> s[j] != c,
        },
    decreases s.len(),
{
    if s.len() > 0 && s.last() != c {
        lemma_last_index_of(s.drop_last(), c);
        assert forall|j: int| 0 <= j < s.len() - 1 implies s[j] == s.drop_last()[j] by {}
    }
}

pub open spec fn digit_char(d: nat) -> char {
    (('0' as u32) + (d as u32)) as char
}

/// The decimal digits of `n`, without leading zeros.
pub open spec fn decimal_text(n: nat) -> Seq<char>
    decreases n,
{
    if n < 10 {
        seq![digit_char(n)]
    } else {
        decimal_text(n / 10).push(digit_char(n % 10))
    }
}

fn digit_text(d: u128) -> (r: &'static str)
    requires
        d < 10,
    ensures
        r@ == seq![digit_char(d as nat)],
{
    proof {
        reveal_strlit("0");
        reveal_strlit("1");
        reveal_strlit("2");
        reveal_strlit("3");
        reveal_strlit("4");
        reveal_strlit("5");
        reveal_strlit("6");
        reveal_strlit("7");
        reveal_strlit("8");
        reveal_strlit("9");
    }
    match d {
        0 => "0",
        1 => "1",
        2 => "2",
        3 => "3",
        4 => "4",
        5 => "5",
        6 => "6",
        7 => "7",
        8 => "8",
        _ => "9",
    }
}

/// The decimal text of a number, as `format!("{n}")` writes it.
pub fn decimal(n: u128) -> (r: String)
    ensures
        r@ == decimal_text(n as nat),
    decreases n,
{
    if n < 10 {
        String::from_str(digit_text(n))
    } else {
        let mut r = decimal(n / 10);
        r.append(digit_text(n % 10));
        r
    }
}

/// The first occurrence of a single character is where it first appears.
pub proof fn lemma_first_char_at(s: Seq<char>, c: char, k: int)
    requires
        0 <= k < s.len(),
        s[k] == c,
        forall|j: int| 0 <= j < k ==> s[j] != c,
    ensures
        first_occurrence(s, seq![c]) == Some(k),
{
    lemma_first_occurrence_from(s, seq![c], 0);
    assert(occurs_at(s, seq![c], k)) by {
        assert(s.subrange(k, k + 1) =~= seq![c]);
    }
    match first_occurrence(s, seq![c]) {
        Some(i) => {
            if i < k {
                assert(s.subrange(i, i + 1)[0] == s[i]);
            }
        },
        None => {},
    }
}

/// A text that neither starts nor ends with white space is its own trim.
pub proof fn lemma_trim_unchanged(s: Seq<char>)
    requires
        s.len() > 0,
        !is_white_space(s[0]),
        !is_white_space(s.last()),
    ensures
        trim_ws(s) == s,
{
}

} // verus!
