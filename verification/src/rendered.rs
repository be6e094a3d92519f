//! What cutting the first bytes of a rendered block keeps: runs that stood on
//! character boundaries still do.
use vstd::prelude::*;
use crate::document::{shift_range, shifted_spans, Span};
use crate::text::{
    byte_offset, char_index, is_boundary, lemma_boundary_char_index, lemma_byte_offset_strict_mono,
    lemma_utf8_len_concat, utf8_len,
};

verus! {

/// Every run starts and ends on a character boundary of `t`.
pub open spec fn spans_on_boundaries(t: Seq<char>, spans: Seq<Span>) -> bool {
    forall|i: int|
        0 <= i < spans.len() ==> is_boundary(t, (#[trigger] spans[i]).start as int) && is_boundary(
            t,
            spans[i].end as int,
        )
}

/// A boundary at or after the cut is, moved back by the cut, a boundary of
/// what is left.
proof fn lemma_boundary_after_cut(t: Seq<char>, prefix: int, x: int)
    requires
        is_boundary(t, prefix),
        is_boundary(t, x),
        prefix <= x,
    ensures
        is_boundary(t.skip(char_index(t, prefix)), x - prefix),
{
    lemma_boundary_char_index(t, prefix);
    lemma_boundary_char_index(t, x);
    let k = char_index(t, prefix);
    let c = char_index(t, x);
    if c < k {
        lemma_byte_offset_strict_mono(t, c, k);
    }
    let rest = t.skip(k);
    assert(t.take(c) =~= t.take(k) + rest.take(c - k));
    lemma_utf8_len_concat(t.take(k), rest.take(c - k));
    assert(byte_offset(rest, c - k) == x - prefix);
}

proof fn lemma_zero_is_boundary(t: Seq<char>)
    ensures
        is_boundary(t, 0),
{
    assert(t.take(0) =~= t.take(0) + t.take(0));
    lemma_utf8_len_concat(t.take(0), t.take(0));
    assert(byte_offset(t, 0) == 0);
}

/// Cutting a prefix that ends on a character boundary keeps every remaining
/// run on character boundaries of the remaining text, as
/// `remove_rendered_prefix` cuts them.
pub proof fn lemma_cut_keeps_runs_on_boundaries(t: Seq<char>, spans: Seq<Span>, prefix: int)
    requires
        spans_on_boundaries(t, spans),
        is_boundary(t, prefix),
    ensures
        spans_on_boundaries(t.skip(char_index(t, prefix)), shifted_spans(spans, prefix)),
    decreases spans.len(),
{
    let rest = t.skip(char_index(t, prefix));
    if spans.len() > 0 {
        let sp = spans.last();
        assert(spans_on_boundaries(t, spans.drop_last())) by {
            assert forall|i: int| 0 <= i < spans.drop_last().len() implies is_boundary(
                t,
                (#[trigger] spans.drop_last()[i]).start as int,
            ) && is_boundary(t, spans.drop_last()[i].end as int) by {
                assert(spans.drop_last()[i] == spans[i]);
            }
        }
        lemma_cut_keeps_runs_on_boundaries(t, spans.drop_last(), prefix);
        assert(is_boundary(t, sp.start as int) && is_boundary(t, sp.end as int)) by {
            assert(sp == spans[spans.len() - 1]);
        }
        let head = shifted_spans(spans.drop_last(), prefix);
        let tail = match shift_range(sp.start as int, sp.end as int, prefix) {
            Some((a, b)) => seq![Span { start: a as usize, end: b as usize, ..sp }],
            None => Seq::empty(),
        };
        match shift_range(sp.start as int, sp.end as int, prefix) {
            Some((a, b)) => {
                lemma_boundary_after_cut(t, prefix, sp.end as int);
                if sp.start >= prefix {
                    lemma_boundary_after_cut(t, prefix, sp.start as int);
                } else {
                    lemma_zero_is_boundary(rest);
                }
                lemma_boundary_char_index(t, sp.end as int);
                assert(0 <= a && b <= usize::MAX);
            },
            None => {},
        }
        assert forall|i: int| 0 <= i < (head + tail).len() implies is_boundary(
            rest,
            (#[trigger] (head + tail)[i]).start as int,
        ) && is_boundary(rest, (head + tail)[i].end as int) by {
            if i < head.len() {
                assert((head + tail)[i] == head[i]);
            } else {
                assert((head + tail)[i] == tail[i - head.len()]);
            }
        }
    }
}

} // verus!
