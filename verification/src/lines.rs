//! Model of lines in a text, with the line breaks of Unicode Annex #14:
//! LF, VT, FF, CR, NEL, LINE SEPARATOR, PARAGRAPH SEPARATOR, and CRLF as a
//! single break. A break belongs to the line it ends; a text that ends with a
//! break has a final empty line.
use vstd::prelude::*;
use crate::text::{byte_offset, char_at_byte, lemma_byte_offset_bounds, lemma_byte_offset_strict_mono, utf8_len};

verus! {

pub open spec fn is_line_break_char(c: char) -> bool {
    ||| c == '\n'
    ||| c == '\u{0B}'
    ||| c == '\u{0C}'
    ||| c == '\r'
    ||| c == '\u{85}'
    ||| c == '\u{2028}'
    ||| c == '\u{2029}'
}

/// A line break ends just before character index `j` (a CR directly followed by LF does not end a line).
pub open spec fn ends_line_at(t: Seq<char>, j: int) -> bool {
    &&& 1 <= j <= t.len()
    &&& is_line_break_char(t[j - 1])
    &&& !(t[j - 1] == '\r' && j < t.len() && t[j] == '\n')
}

/// Number of line breaks that end at or before character index `c`.
pub open spec fn lines_before(t: Seq<char>, c: int) -> nat
    decreases c,
{
    if c <= 0 {
        0
    } else {
        lines_before(t, c - 1) + if ends_line_at(t, c) {
            1nat
        } else {
            0nat
        }
    }
}

/// Number of lines of `t`.
pub open spec fn line_count(t: Seq<char>) -> nat {
    lines_before(t, t.len() as int) + 1
}

/// Character index `c` is where line `l` starts (`line_count` names the end of the text).
pub open spec fn is_line_start(t: Seq<char>, l: int, c: int) -> bool {
    ||| (l == 0 && c == 0)
    ||| (1 <= l < line_count(t) && ends_line_at(t, c) && lines_before(t, c) == l)
    ||| (l == line_count(t) && c == t.len())
}

pub open spec fn line_start_char(t: Seq<char>, l: int) -> int {
    choose|c: int| is_line_start(t, l, c)
}

/// Byte offset where line `l` starts.
pub open spec fn line_start_byte(t: Seq<char>, l: int) -> nat {
    byte_offset(t, line_start_char(t, l))
}

/// Line that contains byte `b`.
pub open spec fn line_of_byte(t: Seq<char>, b: int) -> nat {
    lines_before(t, char_at_byte(t, b))
}

/// Byte offset at the end of line `l`, before its LF (a CR stays on the line).
pub open spec fn line_end_byte(t: Seq<char>, l: int) -> nat {
    let cs = line_start_char(t, l);
    let cn = line_start_char(t, l + 1);
    if cn > cs && t[cn - 1] == '\n' {
        (byte_offset(t, cn) - 1) as nat
    } else {
        byte_offset(t, cn)
    }
}

/// Characters of line `l`, its line break included.
pub open spec fn line_text(t: Seq<char>, l: int) -> Seq<char> {
    t.subrange(line_start_char(t, l), line_start_char(t, l + 1))
}

pub proof fn lemma_lines_before_mono(t: Seq<char>, a: int, b: int)
    requires
        a <= b,
    ensures
        lines_before(t, a) <= lines_before(t, b),
        lines_before(t, b) <= lines_before(t, a) + (b - a) || a < 0,
    decreases b - a,
{
    if a < b {
        lemma_lines_before_mono(t, a, b - 1);
    }
}

/// A break that ends at `c` puts `c` strictly after all earlier positions' line numbers.
pub proof fn lemma_lines_before_strict(t: Seq<char>, a: int, c: int)
    requires
        0 <= a < c,
        ends_line_at(t, c),
    ensures
        lines_before(t, a) < lines_before(t, c),
{
    lemma_lines_before_mono(t, a, c - 1);
}

/// Every line number up to `lines_before(t, c)` is reached by a break at or before `c`.
pub proof fn lemma_break_reaching(t: Seq<char>, c: int, l: int)
    requires
        1 <= l <= lines_before(t, c),
    ensures
        exists|j: int| 1 <= j <= c && ends_line_at(t, j) && lines_before(t, j) == l,
    decreases c,
{
    if c <= 0 {
    } else if ends_line_at(t, c) && lines_before(t, c) == l {
        assert(1 <= c <= c && ends_line_at(t, c) && lines_before(t, c) == l);
    } else {
        lemma_break_reaching(t, c - 1, l);
        let j = choose|j: int| 1 <= j <= c - 1 && ends_line_at(t, j) && lines_before(t, j) == l;
        assert(1 <= j <= c && ends_line_at(t, j) && lines_before(t, j) == l);
    }
}

pub proof fn lemma_line_start_unique(t: Seq<char>, l: int, c1: int, c2: int)
    requires
        is_line_start(t, l, c1),
        is_line_start(t, l, c2),
    ensures
        c1 == c2,
{
    if c1 < c2 && 1 <= l < line_count(t) {
        lemma_lines_before_strict(t, c1, c2);
    } else if c2 < c1 && 1 <= l < line_count(t) {
        lemma_lines_before_strict(t, c2, c1);
    }
}

/// Lines `0..=line_count(t)` have a start, which lies in the text.
pub proof fn lemma_line_start(t: Seq<char>, l: int)
    requires
        0 <= l <= line_count(t),
    ensures
        is_line_start(t, l, line_start_char(t, l)),
        0 <= line_start_char(t, l) <= t.len(),
        l < line_count(t) ==> lines_before(t, line_start_char(t, l)) == l,
        line_start_byte(t, l) <= utf8_len(t),
{
    if l == 0 {
        assert(is_line_start(t, l, 0));
    } else if l == line_count(t) {
        assert(is_line_start(t, l, t.len() as int));
    } else {
        lemma_break_reaching(t, t.len() as int, l);
        let j = choose|j: int|
            1 <= j <= t.len() && ends_line_at(t, j) && lines_before(t, j) == l;
        assert(is_line_start(t, l, j));
    }
    let c = line_start_char(t, l);
    lemma_byte_offset_bounds(t, c);
}

/// Line starts do not decrease with the line number.
pub proof fn lemma_line_start_mono(t: Seq<char>, l1: int, l2: int)
    requires
        0 <= l1 <= l2 <= line_count(t),
    ensures
        line_start_char(t, l1) <= line_start_char(t, l2),
        l1 < l2 ==> line_start_char(t, l1) < line_start_char(t, l2) || l2 == line_count(t),
{
    lemma_line_start(t, l1);
    lemma_line_start(t, l2);
    let c1 = line_start_char(t, l1);
    let c2 = line_start_char(t, l2);
    if l2 < line_count(t) && c2 <= c1 && l1 < l2 {
        lemma_lines_before_mono(t, c2, c1);
    }
    if l2 == line_count(t) {
    }
}

/// The line of a character starts at or before it.
pub proof fn lemma_line_start_before(t: Seq<char>, c: int)
    requires
        0 <= c <= t.len(),
    ensures
        lines_before(t, c) < line_count(t),
        line_start_char(t, lines_before(t, c) as int) <= c,
    decreases c,
{
    lemma_lines_before_mono(t, c, t.len() as int);
    let l = lines_before(t, c) as int;
    lemma_line_start(t, l);
    if c == 0 {
    } else if ends_line_at(t, c) {
        assert(is_line_start(t, l, c));
        lemma_line_start_unique(t, l, c, line_start_char(t, l));
    } else {
        lemma_line_start_before(t, c - 1);
    }
}

/// The end of a line lies between its start and the next line's start.
pub proof fn lemma_line_end(t: Seq<char>, l: int)
    requires
        0 <= l < line_count(t),
    ensures
        line_start_byte(t, l) <= line_end_byte(t, l) <= line_start_byte(t, l + 1),
        line_end_byte(t, l) <= utf8_len(t),
{
    lemma_line_start(t, l);
    lemma_line_start(t, l + 1);
    lemma_line_start_mono(t, l, l + 1);
    let cs = line_start_char(t, l);
    let cn = line_start_char(t, l + 1);
    if cs < cn {
        lemma_byte_offset_strict_mono(t, cs, cn);
    }
}

} // verus!
