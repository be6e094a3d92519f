//! What the inert safe view keeps of the source.
use vstd::prelude::*;
use crate::document::{
    all_line_blocks, chunks_from, lemma_chunk_progress, lemma_raw_line_split, line_blocks, min_int,
    raw_lines, safe_blocks_of, strip_line_end, SourceRange,
};
use crate::limits::MAX_SAFE_LINE_BYTES;
use crate::text::{is_boundary, lemma_ends_are_boundaries, lemma_utf8_len_concat, utf8_len};
use crate::workspace::boundary_at_or_before;

verus! {

/// Ranges that follow one another, without gap or overlap, from `from` to `to`.
pub open spec fn ranges_tile(v: Seq<(Seq<char>, SourceRange)>, from: int, to: int) -> bool
    decreases v.len(),
{
    if v.len() == 0 {
        from == to
    } else {
        &&& v[0].1.start as int == from
        &&& from <= v[0].1.end as int
        &&& ranges_tile(v.drop_first(), v[0].1.end as int, to)
    }
}

proof fn lemma_ranges_tile_concat(a: Seq<(Seq<char>, SourceRange)>, b: Seq<(Seq<char>, SourceRange)>, x: int, y: int, z: int)
    requires
        ranges_tile(a, x, y),
        ranges_tile(b, y, z),
    ensures
        ranges_tile(a + b, x, z),
    decreases a.len(),
{
    if a.len() == 0 {
        assert(a + b =~= b);
    } else {
        lemma_ranges_tile_concat(a.drop_first(), b, a[0].1.end as int, y, z);
        assert((a + b).drop_first() =~= a.drop_first() + b);
    }
}

proof fn lemma_chunks_tile(t: Seq<char>, cs: int, b: int, e: int)
    requires
        is_boundary(t, cs),
        0 <= cs < utf8_len(t),
        0 <= b,
        b + utf8_len(t) <= e <= usize::MAX,
    ensures
        ranges_tile(chunks_from(t, cs, b, e), b + cs, e),
    decreases utf8_len(t) - cs,
{
    lemma_chunk_progress(t, cs);
    let len = utf8_len(t) as int;
    let ce = boundary_at_or_before(t, min_int(cs + MAX_SAFE_LINE_BYTES, len));
    let v = chunks_from(t, cs, b, e);
    assert(v.len() > 0);
    let piece = v[0];
    assert(piece.1.start as int == b + cs);
    assert(b + cs <= piece.1.end as int);
    if ce < len {
        lemma_chunks_tile(t, ce, b, e);
        assert(piece.1.end as int == b + ce);
        assert(v.drop_first() =~= chunks_from(t, ce, b, e));
        assert(ranges_tile(v.drop_first(), piece.1.end as int, e));
        assert(ranges_tile(v, b + cs, e));
    } else {
        assert(piece.1.end as int == e);
        assert(v.drop_first() =~= Seq::<(Seq<char>, SourceRange)>::empty());
        assert(ranges_tile(v.drop_first(), e, e));
        assert(ranges_tile(v, b + cs, e));
    }
}

proof fn lemma_line_blocks_tile(r: Seq<char>, b: int)
    requires
        0 <= b,
        b + utf8_len(r) <= usize::MAX,
    ensures
        ranges_tile(line_blocks(r, b), b, b + utf8_len(r)),
{
    let t = strip_line_end(r);
    assert(utf8_len(t) <= utf8_len(r)) by {
        let a = if r.len() > 0 && r.last() == '\n' { r.drop_last() } else { r };
        if r.len() > 0 && r.last() == '\n' {
            assert(r =~= r.drop_last() + seq![r.last()]);
            lemma_utf8_len_concat(r.drop_last(), seq![r.last()]);
        }
        if a.len() > 0 && a.last() == '\r' {
            assert(a =~= a.drop_last() + seq![a.last()]);
            lemma_utf8_len_concat(a.drop_last(), seq![a.last()]);
        }
    }
    if t.len() > 0 {
        lemma_ends_are_boundaries(t);
        crate::text::lemma_utf8_len_at_least_len(t);
        lemma_chunks_tile(t, 0, b, b + utf8_len(r));
        assert(line_blocks(r, b) == chunks_from(t, 0, b, b + utf8_len(r)));
        assert(ranges_tile(line_blocks(r, b), b, b + utf8_len(r)));
    } else {
        let v = line_blocks(r, b);
        assert(v.len() == 1);
        assert(v[0].1.start as int == b);
        assert(v[0].1.end as int == b + utf8_len(r));
        assert(v.drop_first() =~= Seq::<(Seq<char>, SourceRange)>::empty());
        assert(ranges_tile(v.drop_first(), b + utf8_len(r), b + utf8_len(r)));
    }
}

proof fn lemma_all_line_blocks_tile(s: Seq<char>, b: int)
    requires
        0 <= b,
        b + utf8_len(s) <= usize::MAX,
    ensures
        ranges_tile(all_line_blocks(raw_lines(s), b), b, b + utf8_len(s)),
    decreases s.len(),
{
    if s.len() == 0 {
        assert(raw_lines(s) =~= Seq::<Seq<char>>::empty());
    } else {
        lemma_raw_line_split(s);
        let r = raw_lines(s)[0];
        let rest = s.skip(r.len() as int);
        lemma_utf8_len_concat(r, rest);
        lemma_line_blocks_tile(r, b);
        lemma_all_line_blocks_tile(rest, b + utf8_len(r));
        lemma_ranges_tile_concat(
            line_blocks(r, b),
            all_line_blocks(raw_lines(rest), b + utf8_len(r)),
            b,
            b + utf8_len(r),
            b + utf8_len(s),
        );
    }
}

/// Every piece is at most the longest line the parser would take.
pub open spec fn pieces_short(v: Seq<(Seq<char>, SourceRange)>) -> bool {
    forall|i: int| 0 <= i < v.len() ==> utf8_len(#[trigger] v[i].0) <= MAX_SAFE_LINE_BYTES
}

proof fn lemma_slice_len(t: Seq<char>, a: int, b: int)
    requires
        crate::text::valid_range(t, a, b),
    ensures
        utf8_len(crate::text::slice_text(t, a, b)) == b - a,
{
    crate::text::lemma_boundary_char_index(t, a);
    crate::text::lemma_boundary_char_index(t, b);
    let cs = crate::text::char_index(t, a);
    let ce = crate::text::char_index(t, b);
    if ce < cs {
        crate::text::lemma_byte_offset_strict_mono(t, ce, cs);
    }
    assert(t.take(ce) =~= t.take(cs) + t.subrange(cs, ce));
    lemma_utf8_len_concat(t.take(cs), t.subrange(cs, ce));
}

proof fn lemma_chunks_short(t: Seq<char>, cs: int, b: int, e: int)
    requires
        is_boundary(t, cs),
        0 <= cs,
    ensures
        pieces_short(chunks_from(t, cs, b, e)),
    decreases utf8_len(t) - cs,
{
    let len = utf8_len(t) as int;
    let v = chunks_from(t, cs, b, e);
    if cs < len {
        lemma_chunk_progress(t, cs);
        let x = min_int(cs + MAX_SAFE_LINE_BYTES, len);
        crate::workspace::lemma_boundary_at_or_before(t, x);
        let ce = boundary_at_or_before(t, x);
        lemma_slice_len(t, cs, ce);
        if ce < len {
            lemma_chunks_short(t, ce, b, e);
            assert(v.drop_first() =~= chunks_from(t, ce, b, e));
            assert forall|i: int| 0 <= i < v.len() implies utf8_len(#[trigger] v[i].0) <= MAX_SAFE_LINE_BYTES by {
                if i > 0 {
                    assert(v[i] == v.drop_first()[i - 1]);
                }
            }
        }
    }
}

proof fn lemma_line_blocks_short(r: Seq<char>, b: int)
    ensures
        pieces_short(line_blocks(r, b)),
{
    let t = strip_line_end(r);
    if t.len() > 0 {
        lemma_ends_are_boundaries(t);
        lemma_chunks_short(t, 0, b, b + utf8_len(r));
    } else {
        assert(utf8_len(t) == 0) by {
            assert(t + t =~= t);
            lemma_utf8_len_concat(t, t);
        }
    }
}

proof fn lemma_all_line_blocks_short(s: Seq<char>, b: int)
    ensures
        pieces_short(all_line_blocks(raw_lines(s), b)),
    decreases s.len(),
{
    if s.len() == 0 {
        assert(raw_lines(s) =~= Seq::<Seq<char>>::empty());
    } else {
        lemma_raw_line_split(s);
        let r = raw_lines(s)[0];
        let rest = s.skip(r.len() as int);
        lemma_line_blocks_short(r, b);
        lemma_all_line_blocks_short(rest, b + utf8_len(r));
        let x = line_blocks(r, b);
        let y = all_line_blocks(raw_lines(rest), b + utf8_len(r));
        assert forall|i: int| 0 <= i < (x + y).len() implies utf8_len(#[trigger] (x + y)[i].0) <= MAX_SAFE_LINE_BYTES by {
            if i < x.len() {
                assert((x + y)[i] == x[i]);
            } else {
                assert((x + y)[i] == y[i - x.len()]);
            }
        }
    }
}

/// The safe view loses nothing of the source: its blocks' source ranges,
/// taken in order, cover the whole source without gap or overlap; there are
/// at most `MAX_BLOCKS` of them, none longer than `MAX_SAFE_LINE_BYTES`.
pub proof fn lemma_safe_view_covers_source(source: Seq<char>)
    requires
        utf8_len(source) <= usize::MAX,
    ensures
        match safe_blocks_of(source) {
            Ok(v) => ranges_tile(v, 0, utf8_len(source) as int) && v.len() <= crate::limits::MAX_BLOCKS
                && pieces_short(v),
            Err(_) => true,
        },
{
    if source.len() == 0 {
        let v = seq![(Seq::<char>::empty(), SourceRange { start: 0, end: 0 })];
        assert(v.drop_first() =~= Seq::<(Seq<char>, SourceRange)>::empty());
        assert(ranges_tile(v.drop_first(), 0, 0));
        assert(ranges_tile(v, 0, 0));
        assert(utf8_len(source) == 0);
    } else {
        lemma_all_line_blocks_tile(source, 0);
        lemma_all_line_blocks_short(source, 0);
        let all = all_line_blocks(raw_lines(source), 0);
        if all.len() <= crate::limits::MAX_BLOCKS {
            assert(safe_blocks_of(source) == Ok::<Seq<(Seq<char>, SourceRange)>, Seq<char>>(all));
            assert(ranges_tile(all, 0, utf8_len(source) as int));
        }
    }
}

} // verus!
