//! Mathematical model of UTF-8 text addressed by byte offsets.
//!
//! A text is a `Seq<char>`; its bytes are `encode_utf8` of it. A byte offset
//! is a character boundary when some prefix of whole characters has exactly
//! that many bytes.
use vstd::prelude::*;
use vstd::utf8::*;

verus! {

/// Number of bytes of the UTF-8 encoding of `s`.
pub open spec fn utf8_len(s: Seq<char>) -> nat {
    encode_utf8(s).len()
}

/// Byte offset at which character `c` of `t` starts (`utf8_len(t)` for `c == t.len()`).
pub open spec fn byte_offset(t: Seq<char>, c: int) -> nat {
    utf8_len(t.take(c))
}

/// `b` is a byte offset that does not split a character of `t`.
pub open spec fn is_boundary(t: Seq<char>, b: int) -> bool {
    exists|c: int| 0 <= c <= t.len() && #[trigger] byte_offset(t, c) == b
}

/// The character index that starts at byte offset `b` (meaningful when `is_boundary(t, b)`).
pub open spec fn char_index(t: Seq<char>, b: int) -> int {
    choose|c: int| 0 <= c <= t.len() && #[trigger] byte_offset(t, c) == b
}

/// `start..end` is an in-bounds byte range whose ends fall on character boundaries.
pub open spec fn valid_range(t: Seq<char>, start: int, end: int) -> bool {
    &&& start <= end
    &&& end <= utf8_len(t)
    &&& is_boundary(t, start)
    &&& is_boundary(t, end)
}

/// Characters of `t` between two byte boundaries.
pub open spec fn slice_text(t: Seq<char>, start: int, end: int) -> Seq<char> {
    t.subrange(char_index(t, start), char_index(t, end))
}

/// `t` with the characters between two byte boundaries replaced by `ins`.
pub open spec fn replace_text(t: Seq<char>, start: int, end: int, ins: Seq<char>) -> Seq<char> {
    t.take(char_index(t, start)) + ins + t.skip(char_index(t, end))
}

/// Index of the character that contains byte `b`, scanning from character `c`.
pub open spec fn char_at_byte_from(t: Seq<char>, c: int, b: int) -> int
    decreases t.len() - c,
{
    if c >= t.len() || b < byte_offset(t, c + 1) {
        c
    } else {
        char_at_byte_from(t, c + 1, b)
    }
}

/// Index of the character that contains byte `b` (`t.len()` for the end offset).
pub open spec fn char_at_byte(t: Seq<char>, b: int) -> int {
    char_at_byte_from(t, 0, b)
}

pub proof fn lemma_encode_utf8_concat(a: Seq<char>, b: Seq<char>)
    ensures
        encode_utf8(a + b) == encode_utf8(a) + encode_utf8(b),
    decreases a.len(),
{
    if a.len() == 0 {
        assert(a + b =~= b);
        assert(encode_utf8(a) =~= Seq::<u8>::empty());
        assert(encode_utf8(a) + encode_utf8(b) =~= encode_utf8(b));
    } else {
        lemma_encode_utf8_concat(a.drop_first(), b);
        assert((a + b).drop_first() =~= a.drop_first() + b);
        assert(encode_utf8(a + b) =~= encode_scalar((a + b)[0] as u32) + encode_utf8(
            (a + b).drop_first(),
        ));
    }
}

pub proof fn lemma_utf8_len_concat(a: Seq<char>, b: Seq<char>)
    ensures
        utf8_len(a + b) == utf8_len(a) + utf8_len(b),
{
    lemma_encode_utf8_concat(a, b);
}

/// Every character takes between one and four bytes.
pub proof fn lemma_utf8_len_single(c: char)
    ensures
        1 <= utf8_len(seq![c]) <= 4,
{
    assert(seq![c].drop_first() =~= Seq::<char>::empty());
    assert(encode_utf8(seq![c].drop_first()) =~= Seq::<u8>::empty());
    assert(encode_utf8(seq![c]) =~= encode_scalar(c as u32) + encode_utf8(seq![c].drop_first()));
}

pub proof fn lemma_utf8_len_ascii(s: Seq<char>)
    requires
        is_ascii_chars(s),
    ensures
        utf8_len(s) == s.len(),
{
    is_ascii_chars_encode_utf8(s);
}

/// A text has at least as many bytes as characters.
pub proof fn lemma_utf8_len_at_least_len(s: Seq<char>)
    ensures
        utf8_len(s) >= s.len(),
        s.len() > 0 ==> utf8_len(s) > 0,
    decreases s.len(),
{
    if s.len() > 0 {
        lemma_utf8_len_at_least_len(s.drop_first());
        assert(s =~= seq![s[0]] + s.drop_first());
        lemma_utf8_len_concat(seq![s[0]], s.drop_first());
        lemma_utf8_len_single(s[0]);
    } else {
        assert(encode_utf8(s) =~= Seq::<u8>::empty());
    }
}

/// Byte offsets of consecutive characters differ by the width of the character.
pub proof fn lemma_byte_offset_step(t: Seq<char>, c: int)
    requires
        0 <= c < t.len(),
    ensures
        byte_offset(t, c + 1) == byte_offset(t, c) + utf8_len(seq![t[c]]),
        byte_offset(t, c) < byte_offset(t, c + 1),
{
    assert(t.take(c + 1) =~= t.take(c) + seq![t[c]]);
    lemma_utf8_len_concat(t.take(c), seq![t[c]]);
    lemma_utf8_len_single(t[c]);
}

/// Byte offsets grow strictly with the character index.
pub proof fn lemma_byte_offset_strict_mono(t: Seq<char>, c1: int, c2: int)
    requires
        0 <= c1 < c2 <= t.len(),
    ensures
        byte_offset(t, c1) < byte_offset(t, c2),
        byte_offset(t, c1) + (c2 - c1) <= byte_offset(t, c2),
    decreases c2 - c1,
{
    lemma_byte_offset_step(t, c2 - 1);
    if c1 < c2 - 1 {
        lemma_byte_offset_strict_mono(t, c1, c2 - 1);
    }
}

pub proof fn lemma_byte_offset_bounds(t: Seq<char>, c: int)
    requires
        0 <= c <= t.len(),
    ensures
        byte_offset(t, c) <= utf8_len(t),
        byte_offset(t, 0) == 0,
        byte_offset(t, t.len() as int) == utf8_len(t),
        c <= byte_offset(t, c),
{
    assert(t.take(0) =~= Seq::<char>::empty());
    assert(encode_utf8(t.take(0)) =~= Seq::<u8>::empty());
    assert(t.take(t.len() as int) =~= t);
    if 0 < c {
        lemma_byte_offset_strict_mono(t, 0, c);
    }
    if c < t.len() {
        lemma_byte_offset_strict_mono(t, c, t.len() as int);
    }
}

/// Byte offsets determine character indices.
pub proof fn lemma_byte_offset_injective(t: Seq<char>, c1: int, c2: int)
    requires
        0 <= c1 <= t.len(),
        0 <= c2 <= t.len(),
        byte_offset(t, c1) == byte_offset(t, c2),
    ensures
        c1 == c2,
{
    if c1 < c2 {
        lemma_byte_offset_strict_mono(t, c1, c2);
    } else if c2 < c1 {
        lemma_byte_offset_strict_mono(t, c2, c1);
    }
}

/// The character index of a boundary is the unique one with that byte offset.
pub proof fn lemma_char_index(t: Seq<char>, c: int)
    requires
        0 <= c <= t.len(),
    ensures
        is_boundary(t, byte_offset(t, c) as int),
        char_index(t, byte_offset(t, c) as int) == c,
{
    let b = byte_offset(t, c) as int;
    assert(0 <= c <= t.len() && byte_offset(t, c) == b);
    let d = char_index(t, b);
    lemma_byte_offset_injective(t, c, d);
}

pub proof fn lemma_boundary_char_index(t: Seq<char>, b: int)
    requires
        is_boundary(t, b),
    ensures
        0 <= char_index(t, b) <= t.len(),
        byte_offset(t, char_index(t, b)) == b,
        0 <= b <= utf8_len(t),
{
    let c = char_index(t, b);
    lemma_byte_offset_bounds(t, c);
}

pub proof fn lemma_ends_are_boundaries(t: Seq<char>)
    ensures
        is_boundary(t, 0),
        is_boundary(t, utf8_len(t) as int),
        char_index(t, 0) == 0,
        char_index(t, utf8_len(t) as int) == t.len(),
{
    lemma_byte_offset_bounds(t, 0);
    lemma_byte_offset_bounds(t, t.len() as int);
    lemma_char_index(t, 0);
    lemma_char_index(t, t.len() as int);
}

/// Byte offsets in a concatenation.
pub proof fn lemma_byte_offset_concat(a: Seq<char>, b: Seq<char>, k: int)
    requires
        0 <= k <= b.len(),
    ensures
        byte_offset(a + b, a.len() + k) == utf8_len(a) + byte_offset(b, k),
{
    assert((a + b).take(a.len() + k) =~= a + b.take(k));
    lemma_utf8_len_concat(a, b.take(k));
}

pub proof fn lemma_byte_offset_prefix(a: Seq<char>, b: Seq<char>, k: int)
    requires
        0 <= k <= a.len(),
    ensures
        byte_offset(a + b, k) == byte_offset(a, k),
{
    assert((a + b).take(k) =~= a.take(k));
}

/// Properties of the character found by `char_at_byte_from`.
pub proof fn lemma_char_at_byte_from(t: Seq<char>, c: int, b: int)
    requires
        0 <= c <= t.len(),
        byte_offset(t, c) <= b <= utf8_len(t),
    ensures
        c <= char_at_byte_from(t, c, b) <= t.len(),
        byte_offset(t, char_at_byte_from(t, c, b)) <= b,
        char_at_byte_from(t, c, b) < t.len() ==> b < byte_offset(t, char_at_byte_from(t, c, b) + 1),
        char_at_byte_from(t, c, b) == t.len() ==> b == utf8_len(t),
    decreases t.len() - c,
{
    lemma_byte_offset_bounds(t, c);
    if c >= t.len() {
    } else if b < byte_offset(t, c + 1) {
    } else {
        lemma_char_at_byte_from(t, c + 1, b);
    }
}

/// Characterisation of `char_at_byte`: the character that contains byte `b`.
pub proof fn lemma_char_at_byte(t: Seq<char>, b: int)
    requires
        0 <= b <= utf8_len(t),
    ensures
        0 <= char_at_byte(t, b) <= t.len(),
        byte_offset(t, char_at_byte(t, b)) <= b,
        char_at_byte(t, b) < t.len() ==> b < byte_offset(t, char_at_byte(t, b) + 1),
        char_at_byte(t, b) == t.len() ==> b == utf8_len(t),
{
    lemma_byte_offset_bounds(t, 0);
    lemma_char_at_byte_from(t, 0, b);
}

/// Any character index with the defining property of `char_at_byte` is it.
pub proof fn lemma_char_at_byte_unique(t: Seq<char>, b: int, c: int)
    requires
        0 <= b <= utf8_len(t),
        0 <= c <= t.len(),
        byte_offset(t, c) <= b,
        c < t.len() ==> b < byte_offset(t, c + 1),
    ensures
        char_at_byte(t, b) == c,
{
    lemma_char_at_byte(t, b);
    let d = char_at_byte(t, b);
    if d < c {
        if d + 1 < c {
            lemma_byte_offset_strict_mono(t, d + 1, c);
        }
    } else if c < d {
        if c + 1 < d {
            lemma_byte_offset_strict_mono(t, c + 1, d);
        }
    }
}

/// On a boundary, the containing character starts exactly there.
pub proof fn lemma_char_at_boundary(t: Seq<char>, b: int)
    requires
        is_boundary(t, b),
    ensures
        char_at_byte(t, b) == char_index(t, b),
{
    lemma_boundary_char_index(t, b);
    let c = char_index(t, b);
    if c < t.len() {
        lemma_byte_offset_step(t, c);
    }
    lemma_char_at_byte_unique(t, b, c);
}

/// `b` is a boundary exactly when the character containing it starts at `b`.
pub proof fn lemma_is_boundary_iff(t: Seq<char>, b: int)
    requires
        0 <= b <= utf8_len(t),
    ensures
        is_boundary(t, b) <==> byte_offset(t, char_at_byte(t, b)) == b,
{
    lemma_char_at_byte(t, b);
    if is_boundary(t, b) {
        lemma_char_at_boundary(t, b);
        lemma_boundary_char_index(t, b);
    }
    if byte_offset(t, char_at_byte(t, b)) == b {
        lemma_char_index(t, char_at_byte(t, b));
    }
}

/// Boundary facts about a replacement: where the surrounding text and the inserted text land.
pub proof fn lemma_replace_text(t: Seq<char>, start: int, end: int, ins: Seq<char>)
    requires
        valid_range(t, start, end),
    ensures
        ({
            let r = replace_text(t, start, end, ins);
            let cs = char_index(t, start);
            let ce = char_index(t, end);
            &&& 0 <= cs <= ce <= t.len()
            &&& r.len() == cs + ins.len() + (t.len() - ce)
            &&& utf8_len(r) == utf8_len(t) - (end - start) + utf8_len(ins)
            &&& is_boundary(r, start)
            &&& char_index(r, start) == cs
            &&& is_boundary(r, start + utf8_len(ins))
            &&& char_index(r, start + utf8_len(ins)) == cs + ins.len()
            &&& slice_text(r, start, start + utf8_len(ins)) == ins
            &&& slice_text(t, start, end) == t.subrange(cs, ce)
            &&& utf8_len(slice_text(t, start, end)) == end - start
        }),
{
    let cs = char_index(t, start);
    let ce = char_index(t, end);
    lemma_boundary_char_index(t, start);
    lemma_boundary_char_index(t, end);
    if ce < cs {
        lemma_byte_offset_strict_mono(t, ce, cs);
    }
    let a = t.take(cs);
    let c = t.skip(ce);
    let r = replace_text(t, start, end, ins);
    assert(r == a + ins + c);
    // lengths in bytes
    assert(t =~= t.take(cs) + t.subrange(cs, ce) + t.skip(ce));
    lemma_utf8_len_concat(t.take(cs) + t.subrange(cs, ce), t.skip(ce));
    lemma_utf8_len_concat(t.take(cs), t.subrange(cs, ce));
    assert(t.take(ce) =~= t.take(cs) + t.subrange(cs, ce));
    lemma_utf8_len_concat(t.take(cs), t.subrange(cs, ce));
    lemma_utf8_len_concat(a + ins, c);
    lemma_utf8_len_concat(a, ins);
    // offsets in the result
    lemma_byte_offset_prefix(a, ins + c, cs);
    assert(a + ins + c =~= a + (ins + c));
    assert(a.take(cs) =~= a);
    lemma_char_index(r, cs);
    lemma_byte_offset_concat(a, ins + c, ins.len() as int);
    assert((ins + c).take(ins.len() as int) =~= ins);
    lemma_char_index(r, cs + ins.len());
    assert(r.subrange(cs, cs + ins.len()) =~= ins);
    assert(slice_text(t, start, end) == t.subrange(cs, ce));
}

/// Replacing a range by its own characters gives back the text.
pub proof fn lemma_replace_same(t: Seq<char>, start: int, end: int)
    requires
        valid_range(t, start, end),
    ensures
        replace_text(t, start, end, slice_text(t, start, end)) == t,
{
    lemma_boundary_char_index(t, start);
    lemma_boundary_char_index(t, end);
    let cs = char_index(t, start);
    let ce = char_index(t, end);
    if ce < cs {
        lemma_byte_offset_strict_mono(t, ce, cs);
    }
    assert(t.take(cs) + t.subrange(cs, ce) + t.skip(ce) =~= t);
}

/// Putting the replaced characters back restores the text.
pub proof fn lemma_replace_back(t: Seq<char>, start: int, end: int, ins: Seq<char>)
    requires
        valid_range(t, start, end),
    ensures
        valid_range(replace_text(t, start, end, ins), start, start + utf8_len(ins)),
        replace_text(
            replace_text(t, start, end, ins),
            start,
            start + utf8_len(ins),
            slice_text(t, start, end),
        ) == t,
{
    lemma_replace_text(t, start, end, ins);
    let r = replace_text(t, start, end, ins);
    let cs = char_index(t, start);
    let ce = char_index(t, end);
    let a = t.take(cs);
    assert(r.take(cs) =~= a);
    assert(r.skip(cs + ins.len()) =~= t.skip(ce));
    assert(a + t.subrange(cs, ce) + t.skip(ce) =~= t);
    lemma_byte_offset_bounds(r, cs + ins.len());
}

/// vstd's byte-level notion of a character boundary agrees with `is_boundary`.
pub proof fn lemma_vstd_char_boundary(t: Seq<char>, b: int)
    ensures
        vstd::utf8::is_char_boundary(encode_utf8(t), b) == is_boundary(t, b),
    decreases t.len(),
{
    let bytes = encode_utf8(t);
    encode_utf8_valid_utf8(t);
    lemma_byte_offset_bounds(t, 0);
    if b == 0 {
        assert(0 <= 0 <= t.len() && byte_offset(t, 0) == b);
    } else if b < 0 || bytes.len() < b {
        if is_boundary(t, b) {
            lemma_boundary_char_index(t, b);
        }
    } else {
        // b > 0 and within the bytes, so t is not empty
        lemma_utf8_len_at_least_len(t);
        assert(t.len() > 0) by {
            if t.len() == 0 {
                assert(encode_utf8(t) =~= Seq::<u8>::empty());
            }
        }
        let rest = t.drop_first();
        encode_utf8_first_scalar(t);
        assert(pop_first_scalar(bytes) =~= encode_utf8(rest));
        let w = length_of_first_scalar(bytes);
        assert(t =~= seq![t[0]] + rest);
        lemma_utf8_len_concat(seq![t[0]], rest);
        lemma_utf8_len_single(t[0]);
        assert(encode_utf8(seq![t[0]]) =~= encode_scalar(t[0] as u32) + encode_utf8(seq![t[0]].drop_first()));
        assert(seq![t[0]].drop_first() =~= Seq::<char>::empty());
        assert(encode_utf8(Seq::<char>::empty()) =~= Seq::<u8>::empty());
        assert(w == utf8_len(seq![t[0]]));
        lemma_vstd_char_boundary(rest, b - w);
        if is_boundary(t, b) {
            let c = choose|c: int| 0 <= c <= t.len() && #[trigger] byte_offset(t, c) == b;
            assert(c >= 1);
            lemma_byte_offset_concat(seq![t[0]], rest, c - 1);
            assert(0 <= c - 1 <= rest.len() && byte_offset(rest, c - 1) == b - w);
        }
        if is_boundary(rest, b - w) {
            let c = choose|c: int| 0 <= c <= rest.len() && #[trigger] byte_offset(rest, c) == b - w;
            lemma_byte_offset_concat(seq![t[0]], rest, c);
            assert(0 <= c + 1 <= t.len() && byte_offset(t, c + 1) == b);
        }
    }
}

} // verus!
