//! Source editing model, independent of parser, layout and window.
//!
//! Markdown is edited as UTF-8 text, never re-serialised from a syntax tree,
//! so a construct the reader does not understand keeps its bytes when an edit
//! happens around it. Offsets are UTF-8 byte offsets.
use std::ops::Range;
use ropey::Rope;
use vstd::prelude::*;
use vstd::string::StringExecFns;
use crate::lines::{
    lemma_line_end, lemma_line_start, lemma_line_start_before, line_count, line_end_byte,
    line_of_byte, line_start_byte, line_start_char, line_text,
};
use crate::rope::{
    rope_byte_to_char, rope_byte_to_line, rope_char, rope_char_to_byte, rope_from_str, rope_insert,
    rope_len_bytes, rope_len_chars, rope_len_lines, rope_line_to_byte, rope_new, rope_remove,
    rope_slice_string, rope_text, rope_to_string, rope_try_byte_to_char,
};
use crate::text::{
    byte_offset, char_at_byte, char_index, is_boundary, lemma_boundary_char_index,
    lemma_byte_offset_bounds, lemma_byte_offset_step, lemma_byte_offset_strict_mono,
    lemma_char_at_boundary, lemma_char_at_byte, lemma_char_index, lemma_is_boundary_iff,
    lemma_replace_back, lemma_replace_text, lemma_utf8_len_at_least_len, replace_text, slice_text, utf8_len,
    valid_range,
};

verus! {

/// Editing error that keeps a UTF-8 sequence whole, or refuses to apply
/// history to a document that no longer is in the expected state.
#[derive(Clone, Copy, Debug, PartialEq, Eq, Structural)]
pub enum EditError {
    InvalidRange,
    InconsistentHistory,
}

/// Editable source stored as a rope. The API keeps UTF-8 byte offsets, the
/// unit that parser ranges and saving already use; character indices stay
/// inside.
#[derive(Debug)]
pub struct TextBuffer {
    rope: Rope,
}

impl View for TextBuffer {
    type V = Seq<char>;

    closed spec fn view(&self) -> Seq<char> {
        rope_text(self.rope)
    }
}

impl Default for TextBuffer {
    fn default() -> (r: Self)
        ensures
            r@ == Seq::<char>::empty(),
    {
        TextBuffer { rope: rope_new() }
    }
}

impl TextBuffer {
    pub fn new() -> (r: Self)
        ensures
            r@ == Seq::<char>::empty(),
    {
        Self::default()
    }

    pub fn from_text(source: &str) -> (r: Self)
        ensures
            r@ == source@,
    {
        TextBuffer { rope: rope_from_str(source) }
    }

    pub fn len_bytes(&self) -> (n: usize)
        ensures
            n == utf8_len(self@),
    {
        rope_len_bytes(&self.rope)
    }

    pub fn is_empty(&self) -> (b: bool)
        ensures
            b == (self@.len() == 0),
    {
        proof {
            lemma_utf8_len_at_least_len(self@);
        }
        rope_len_bytes(&self.rope) == 0
    }

    pub fn is_char_boundary(&self, byte: usize) -> (b: bool)
        ensures
            b == is_boundary(self@, byte as int),
    {
        proof {
            if is_boundary(self@, byte as int) {
                lemma_boundary_char_index(self@, byte as int);
            }
        }
        if byte > self.len_bytes() {
            return false;
        }
        proof {
            lemma_is_boundary_iff(self@, byte as int);
            lemma_char_at_byte(self@, byte as int);
        }
        match rope_try_byte_to_char(&self.rope, byte) {
            Ok(character) => rope_char_to_byte(&self.rope, character) == byte,
            Err(_) => false,
        }
    }

    pub fn slice_bytes(&self, range: Range<usize>) -> (r: Result<String, EditError>)
        ensures
            match r {
                Ok(s) => valid_range(self@, range.start as int, range.end as int) && s@ == slice_text(
                    self@,
                    range.start as int,
                    range.end as int,
                ),
                Err(e) => !valid_range(self@, range.start as int, range.end as int) && e
                    == EditError::InvalidRange,
            },
    {
        if range.start > range.end || !self.is_char_boundary(range.start) || !self.is_char_boundary(
            range.end,
        ) {
            proof {
                if is_boundary(self@, range.end as int) {
                    lemma_boundary_char_index(self@, range.end as int);
                }
            }
            return Err(EditError::InvalidRange);
        }
        proof {
            lemma_boundary_char_index(self@, range.start as int);
            lemma_boundary_char_index(self@, range.end as int);
            lemma_char_at_boundary(self@, range.start as int);
            lemma_char_at_boundary(self@, range.end as int);
            let cs = char_index(self@, range.start as int);
            let ce = char_index(self@, range.end as int);
            if ce < cs {
                lemma_byte_offset_strict_mono(self@, ce, cs);
            }
        }
        let start = rope_byte_to_char(&self.rope, range.start);
        let end = rope_byte_to_char(&self.rope, range.end);
        Ok(rope_slice_string(&self.rope, start, end))
    }

    fn replace_range(&mut self, range: Range<usize>, inserted: &str) -> (r: Result<(), EditError>)
        ensures
            match r {
                Ok(()) => {
                    &&& valid_range(old(self)@, range.start as int, range.end as int)
                    &&& final(self)@ == replace_text(
                        old(self)@,
                        range.start as int,
                        range.end as int,
                        inserted@,
                    )
                    &&& utf8_len(final(self)@) <= usize::MAX
                },
                Err(e) => !valid_range(old(self)@, range.start as int, range.end as int) && e
                    == EditError::InvalidRange && final(self)@ == old(self)@,
            },
    {
        let ghost t = self@;
        if range.start > range.end || !self.is_char_boundary(range.start) || !self.is_char_boundary(
            range.end,
        ) {
            proof {
                if is_boundary(t, range.end as int) {
                    lemma_boundary_char_index(t, range.end as int);
                }
            }
            return Err(EditError::InvalidRange);
        }
        proof {
            lemma_boundary_char_index(t, range.start as int);
            lemma_boundary_char_index(t, range.end as int);
            lemma_char_at_boundary(t, range.start as int);
            lemma_char_at_boundary(t, range.end as int);
            let cs = char_index(t, range.start as int);
            let ce = char_index(t, range.end as int);
            if ce < cs {
                lemma_byte_offset_strict_mono(t, ce, cs);
            }
        }
        let start = rope_byte_to_char(&self.rope, range.start);
        let end = rope_byte_to_char(&self.rope, range.end);
        rope_remove(&mut self.rope, start, end);
        rope_insert(&mut self.rope, start, inserted);
        proof {
            let a = t.take(start as int);
            let c = t.skip(end as int);
            assert((a + c).take(start as int) =~= a);
            assert((a + c).skip(start as int) =~= c);
        }
        Ok(())
    }

    fn previous_boundary(&self, byte: usize) -> (r: usize)
        requires
            byte <= utf8_len(self@),
        ensures
            r == byte_offset(self@, previous_char(self@, byte as int)),
    {
        proof {
            lemma_char_at_byte(self@, byte as int);
        }
        let character = rope_byte_to_char(&self.rope, byte);
        rope_char_to_byte(&self.rope, character.saturating_sub(1))
    }

    fn next_boundary(&self, byte: usize) -> (r: usize)
        requires
            byte <= utf8_len(self@),
        ensures
            r == byte_offset(self@, next_char(self@, byte as int)),
    {
        proof {
            lemma_char_at_byte(self@, byte as int);
        }
        let character = rope_byte_to_char(&self.rope, byte);
        let count = rope_len_chars(&self.rope);
        let next = if character < count {
            character + 1
        } else {
            count
        };
        rope_char_to_byte(&self.rope, next)
    }

    fn line_start(&self, byte: usize) -> (r: usize)
        requires
            byte <= utf8_len(self@),
        ensures
            r == line_start_byte(self@, line_of_byte(self@, byte as int) as int),
    {
        proof {
            lemma_char_at_byte(self@, byte as int);
            lemma_line_start_before(self@, char_at_byte(self@, byte as int));
        }
        let line = rope_byte_to_line(&self.rope, byte);
        rope_line_to_byte(&self.rope, line)
    }

    fn line_end(&self, line: usize) -> (r: usize)
        requires
            line < line_count(self@),
        ensures
            r == line_end_byte(self@, line as int),
    {
        let ghost t = self@;
        proof {
            lemma_line_start(t, line as int);
            lemma_line_start(t, line + 1);
            lemma_line_end(t, line as int);
            crate::lines::lemma_line_start_mono(t, line as int, line + 1);
        }
        let line_total = rope_len_lines(&self.rope);
        assert(line < line_total);
        let start = rope_line_to_byte(&self.rope, line);
        let next = rope_line_to_byte(&self.rope, line + 1);
        if next > start {
            let ghost cs = line_start_char(t, line as int);
            let ghost cn = line_start_char(t, line + 1);
            proof {
                lemma_byte_offset_bounds(t, cn);
                lemma_byte_offset_step(t, cn - 1);
                crate::text::lemma_char_at_byte_unique(t, next - 1, cn - 1);
            }
            let last = rope_byte_to_char(&self.rope, next - 1);
            if rope_char(&self.rope, last) == '\n' {
                return next - 1;
            }
        } else {
            proof {
                let cs = line_start_char(t, line as int);
                let cn = line_start_char(t, line + 1);
                if cs < cn {
                    lemma_byte_offset_strict_mono(t, cs, cn);
                }
            }
        }
        next
    }

    /// The lines of the source, each with its line break.
    pub fn lines(&self) -> (r: Vec<String>)
        ensures
            r.len() == line_count(self@),
            forall|i: int| 0 <= i < r.len() ==> #[trigger] r[i]@ == line_text(self@, i),
    {
        let ghost t = self@;
        let count = rope_len_lines(&self.rope);
        let mut out: Vec<String> = Vec::new();
        let mut line: usize = 0;
        while line < count
            invariant
                t == self@,
                count == line_count(t),
                line <= count,
                out.len() == line,
                forall|i: int| 0 <= i < out.len() ==> #[trigger] out[i]@ == line_text(t, i),
            decreases count - line,
        {
            proof {
                lemma_line_start(t, line as int);
                lemma_line_start(t, line + 1);
                crate::lines::lemma_line_start_mono(t, line as int, line + 1);
                lemma_char_index(t, line_start_char(t, line as int));
                lemma_char_index(t, line_start_char(t, line + 1));
                lemma_char_at_boundary(t, line_start_byte(t, line as int) as int);
                lemma_char_at_boundary(t, line_start_byte(t, line + 1) as int);
                lemma_byte_offset_bounds(t, line_start_char(t, line + 1));
            }
            let start_byte = rope_line_to_byte(&self.rope, line);
            let end_byte = rope_line_to_byte(&self.rope, line + 1);
            let start = rope_byte_to_char(&self.rope, start_byte);
            let end = rope_byte_to_char(&self.rope, end_byte);
            out.push(rope_slice_string(&self.rope, start, end));
            line = line + 1;
        }
        out
    }

    /// The whole source as a string.
    pub fn to_string(&self) -> (s: String)
        ensures
            s@ == self@,
    {
        rope_to_string(&self.rope)
    }
}

/// The character before the one that contains byte `b` (or the first one).
pub open spec fn previous_char(t: Seq<char>, b: int) -> int {
    if char_at_byte(t, b) > 0 {
        char_at_byte(t, b) - 1
    } else {
        0
    }
}

/// The character after the one that contains byte `b` (or the end).
pub open spec fn next_char(t: Seq<char>, b: int) -> int {
    if char_at_byte(t, b) < t.len() {
        char_at_byte(t, b) + 1
    } else {
        t.len() as int
    }
}


/// Memory bound of the history of one document. Reaching it drops the oldest
/// changes, never current text nor unsaved changes.
pub const MAX_HISTORY_BYTES: usize = 4 * 1024 * 1024;

/// One reversible replacement: `removed` was at byte `start`, `inserted` took its place.
#[derive(Debug)]
struct Change {
    start: usize,
    removed: String,
    inserted: String,
    before_revision: u64,
    after_revision: u64,
}

/// Mathematical view of a recorded change.
pub struct ChangeView {
    pub start: usize,
    pub removed: Seq<char>,
    pub inserted: Seq<char>,
    pub before_revision: u64,
    pub after_revision: u64,
}

impl View for Change {
    type V = ChangeView;

    closed spec fn view(&self) -> ChangeView {
        ChangeView {
            start: self.start,
            removed: self.removed@,
            inserted: self.inserted@,
            before_revision: self.before_revision,
            after_revision: self.after_revision,
        }
    }
}

/// Bytes of memory a change is charged for.
pub open spec fn change_bytes(c: ChangeView) -> int {
    (utf8_len(c.removed) + utf8_len(c.inserted)) as int
}

/// Bytes charged for a sequence of changes.
pub open spec fn total_bytes(s: Seq<ChangeView>) -> int
    decreases s.len(),
{
    if s.len() == 0 {
        0
    } else {
        change_bytes(s[0]) + total_bytes(s.drop_first())
    }
}

/// Drops the oldest changes until the rest fits the history budget.
pub open spec fn fit_budget(s: Seq<ChangeView>) -> Seq<ChangeView>
    decreases s.len(),
{
    if s.len() > 0 && total_bytes(s) > MAX_HISTORY_BYTES {
        fit_budget(s.drop_first())
    } else {
        s
    }
}

/// `start + len`, saturated at `usize::MAX`.
pub open spec fn saturating_end(start: int, len: int) -> int {
    if start + len > usize::MAX {
        usize::MAX as int
    } else {
        start + len
    }
}

/// Mathematical view of an edit history.
pub struct HistoryView {
    pub undo: Seq<ChangeView>,
    pub redo: Seq<ChangeView>,
    pub next_revision: u64,
    pub current_revision: u64,
    pub saved_revision: u64,
}

/// A revision that was handed out before `next`: below it, or anything once
/// the counter has saturated.
pub open spec fn issued_before(next: u64, r: u64) -> bool {
    r < next || next == u64::MAX
}

pub open spec fn change_issued_before(next: u64, c: ChangeView) -> bool {
    issued_before(next, c.before_revision) && issued_before(next, c.after_revision)
}

impl HistoryView {
    pub open spec fn is_dirty(self) -> bool {
        self.current_revision != self.saved_revision
    }

    /// Every revision the history holds was handed out before the next one,
    /// so the next revision is one the document never had.
    pub open spec fn revisions_fresh(self) -> bool {
        &&& issued_before(self.next_revision, self.current_revision)
        &&& issued_before(self.next_revision, self.saved_revision)
        &&& forall|i: int| 0 <= i < self.undo.len() ==> change_issued_before(self.next_revision, #[trigger] self.undo[i])
        &&& forall|i: int| 0 <= i < self.redo.len() ==> change_issued_before(self.next_revision, #[trigger] self.redo[i])
    }

    /// Replacing bytes `start..end` of `t` by `ins`: the new history, the new
    /// text and the result.
    pub open spec fn apply(self, t: Seq<char>, start: int, end: int, ins: Seq<char>) -> (
        HistoryView,
        Seq<char>,
        Result<bool, EditError>,
    ) {
        if !valid_range(t, start, end) {
            (self, t, Err(EditError::InvalidRange))
        } else if slice_text(t, start, end) == ins {
            (self, t, Ok(false))
        } else {
            let c = ChangeView {
                start: start as usize,
                removed: slice_text(t, start, end),
                inserted: ins,
                before_revision: self.current_revision,
                after_revision: self.next_revision,
            };
            (
                HistoryView {
                    undo: fit_budget(self.undo.push(c)),
                    redo: Seq::empty(),
                    next_revision: self.next_revision.saturating_add(1),
                    current_revision: self.next_revision,
                    saved_revision: self.saved_revision,
                },
                replace_text(t, start, end, ins),
                Ok(true),
            )
        }
    }

    /// Reverting the newest change.
    pub open spec fn undo_step(self, t: Seq<char>) -> (HistoryView, Seq<char>, Result<bool, EditError>) {
        if self.undo.len() == 0 {
            (self, t, Ok(false))
        } else {
            let c = self.undo.last();
            let end = saturating_end(c.start as int, utf8_len(c.inserted) as int);
            if self.current_revision != c.after_revision {
                (self, t, Err(EditError::InconsistentHistory))
            } else if !(end <= utf8_len(t) && is_boundary(t, c.start as int) && is_boundary(t, end)
                && slice_text(t, c.start as int, end) == c.inserted) {
                (self, t, Err(EditError::InconsistentHistory))
            } else {
                (
                    HistoryView {
                        undo: self.undo.drop_last(),
                        redo: self.redo.push(c),
                        current_revision: c.before_revision,
                        ..self
                    },
                    replace_text(t, c.start as int, end, c.removed),
                    Ok(true),
                )
            }
        }
    }

    /// Re-applying the newest reverted change.
    pub open spec fn redo_step(self, t: Seq<char>) -> (HistoryView, Seq<char>, Result<bool, EditError>) {
        if self.redo.len() == 0 {
            (self, t, Ok(false))
        } else {
            let c = self.redo.last();
            let end = saturating_end(c.start as int, utf8_len(c.removed) as int);
            if self.current_revision != c.before_revision {
                (self, t, Err(EditError::InconsistentHistory))
            } else if !(end <= utf8_len(t) && is_boundary(t, c.start as int) && is_boundary(t, end)
                && slice_text(t, c.start as int, end) == c.removed) {
                (self, t, Err(EditError::InconsistentHistory))
            } else {
                (
                    HistoryView {
                        undo: self.undo.push(c),
                        redo: self.redo.drop_last(),
                        current_revision: c.after_revision,
                        ..self
                    },
                    replace_text(t, c.start as int, end, c.inserted),
                    Ok(true),
                )
            }
        }
    }
}

pub proof fn lemma_total_bytes_nonneg(s: Seq<ChangeView>)
    ensures
        total_bytes(s) >= 0,
    decreases s.len(),
{
    if s.len() > 0 {
        lemma_total_bytes_nonneg(s.drop_first());
    }
}

pub proof fn lemma_total_bytes_push(s: Seq<ChangeView>, c: ChangeView)
    ensures
        total_bytes(s.push(c)) == total_bytes(s) + change_bytes(c),
    decreases s.len(),
{
    let x = s.push(c);
    if s.len() == 0 {
        assert(x.drop_first() =~= Seq::<ChangeView>::empty());
        assert(total_bytes(x.drop_first()) == 0);
        assert(x[0] == c);
    } else {
        assert(x.drop_first() =~= s.drop_first().push(c));
        assert(x[0] == s[0]);
        lemma_total_bytes_push(s.drop_first(), c);
    }
}

/// Each change in a history that fits the budget fits it on its own.
pub proof fn lemma_ends_fit(s: Seq<ChangeView>)
    requires
        s.len() > 0,
        total_bytes(s) <= MAX_HISTORY_BYTES,
    ensures
        change_bytes(s.last()) <= MAX_HISTORY_BYTES,
        change_bytes(s[0]) <= MAX_HISTORY_BYTES,
        utf8_len(s.last().removed) <= MAX_HISTORY_BYTES,
        utf8_len(s.last().inserted) <= MAX_HISTORY_BYTES,
        utf8_len(s[0].removed) <= MAX_HISTORY_BYTES,
        utf8_len(s[0].inserted) <= MAX_HISTORY_BYTES,
        total_bytes(s.drop_last()) + change_bytes(s.last()) == total_bytes(s),
        total_bytes(s.drop_first()) + change_bytes(s[0]) == total_bytes(s),
        0 <= total_bytes(s.drop_last()),
        0 <= total_bytes(s.drop_first()),
{
    lemma_total_bytes_drop_last(s);
    lemma_total_bytes_nonneg(s.drop_last());
    lemma_total_bytes_nonneg(s.drop_first());
}

pub proof fn lemma_total_bytes_drop_last(s: Seq<ChangeView>)
    requires
        s.len() > 0,
    ensures
        total_bytes(s) == total_bytes(s.drop_last()) + change_bytes(s.last()),
{
    assert(s =~= s.drop_last().push(s.last()));
    lemma_total_bytes_push(s.drop_last(), s.last());
}

/// What fits the budget stays within it.
pub proof fn lemma_fit_budget(s: Seq<ChangeView>)
    ensures
        total_bytes(fit_budget(s)) <= MAX_HISTORY_BYTES,
        fit_budget(s).len() <= s.len(),
    decreases s.len(),
{
    if s.len() > 0 && total_bytes(s) > MAX_HISTORY_BYTES {
        lemma_fit_budget(s.drop_first());
    } else if s.len() == 0 {
    }
}

/// Trimming keeps the newest changes: what is left is a suffix of what was there.
pub proof fn lemma_fit_budget_suffix(s: Seq<ChangeView>)
    ensures
        fit_budget(s).len() <= s.len(),
        fit_budget(s) == s.skip(s.len() - fit_budget(s).len()),
    decreases s.len(),
{
    if s.len() > 0 && total_bytes(s) > MAX_HISTORY_BYTES {
        lemma_fit_budget_suffix(s.drop_first());
        assert(s.drop_first().skip(s.drop_first().len() - fit_budget(s).len()) =~= s.skip(
            s.len() - fit_budget(s).len(),
        ));
    } else {
        assert(s.skip(0) =~= s);
    }
}

/// A change that fits the budget on its own survives trimming as the newest entry.
pub proof fn lemma_fit_budget_keeps_newest(s: Seq<ChangeView>, c: ChangeView)
    requires
        change_bytes(c) <= MAX_HISTORY_BYTES,
    ensures
        fit_budget(s.push(c)).len() > 0,
        fit_budget(s.push(c)).last() == c,
    decreases s.len(),
{
    let x = s.push(c);
    if total_bytes(x) > MAX_HISTORY_BYTES {
        if s.len() == 0 {
            assert(x.drop_first() =~= Seq::<ChangeView>::empty());
            lemma_total_bytes_push(s, c);
            assert(total_bytes(s) == 0);
        } else {
            assert(x.drop_first() =~= s.drop_first().push(c));
            lemma_fit_budget_keeps_newest(s.drop_first(), c);
        }
    }
}

/// Views of a sequence of stored changes.
spec fn change_views(s: Seq<Change>) -> Seq<ChangeView> {
    s.map_values(|c: Change| c@)
}

impl Change {
    /// Bytes charged for this change (saturated at `usize::MAX`).
    fn bytes(&self) -> (n: usize)
        requires
            utf8_len(self@.removed) <= usize::MAX,
            utf8_len(self@.inserted) <= usize::MAX,
        ensures
            n == (if change_bytes(self@) > usize::MAX {
                usize::MAX as int
            } else {
                change_bytes(self@)
            }),
    {
        self.removed.as_str().len().saturating_add(self.inserted.as_str().len())
    }
}

/// Reversible history for a UTF-8 source. It keeps no full copy of the
/// document: memory proportional to changes, with an explicit bound.
#[derive(Debug)]
pub struct EditHistory {
    undo: std::collections::VecDeque<Change>,
    redo: Vec<Change>,
    history_bytes: usize,
    next_revision: u64,
    current_revision: u64,
    saved_revision: u64,
}

impl View for EditHistory {
    type V = HistoryView;

    closed spec fn view(&self) -> HistoryView {
        HistoryView {
            undo: change_views(self.undo@),
            redo: change_views(self.redo@),
            next_revision: self.next_revision,
            current_revision: self.current_revision,
            saved_revision: self.saved_revision,
        }
    }
}

impl Default for EditHistory {
    fn default() -> (r: Self)
        ensures
            r.wf(),
            r@.undo.len() == 0,
            r@.redo.len() == 0,
            r@.next_revision == 1,
            r@.current_revision == 0,
            r@.saved_revision == 0,
    {
        let r = Self {
            undo: std::collections::VecDeque::new(),
            redo: Vec::new(),
            history_bytes: 0,
            next_revision: 1,
            current_revision: 0,
            saved_revision: 0,
        };
        proof {
            assert(change_views(r.undo@) =~= Seq::<ChangeView>::empty());
            assert(change_views(r.redo@) =~= Seq::<ChangeView>::empty());
        }
        r
    }
}

impl EditHistory {
    /// The memory charged for the history matches its changes and stays within budget.
    pub closed spec fn wf(&self) -> bool {
        &&& self.history_bytes == total_bytes(self@.undo) + total_bytes(self@.redo)
        &&& total_bytes(self@.undo) + total_bytes(self@.redo) <= MAX_HISTORY_BYTES
        &&& self@.revisions_fresh()
    }

    /// A well-formed history holds only revisions handed out before its next one.
    pub proof fn lemma_wf_revisions_fresh(&self)
        requires
            self.wf(),
        ensures
            self@.revisions_fresh(),
    {
    }

    pub fn new() -> (r: Self)
        ensures
            r.wf(),
            r@.undo.len() == 0,
            r@.redo.len() == 0,
            r@.next_revision == 1,
            r@.current_revision == 0,
            r@.saved_revision == 0,
    {
        Self::default()
    }

    pub fn is_dirty(&self) -> (b: bool)
        ensures
            b == self@.is_dirty(),
    {
        self.current_revision != self.saved_revision
    }

    pub fn current_revision(&self) -> (r: u64)
        ensures
            r == self@.current_revision,
    {
        self.current_revision
    }

    pub fn mark_saved(&mut self)
        requires
            old(self).wf(),
        ensures
            final(self).wf(),
            final(self)@ == (HistoryView { saved_revision: old(self)@.current_revision, ..old(self)@ }),
    {
        self.saved_revision = self.current_revision;
    }

    pub fn mark_recovered(&mut self)
        requires
            old(self).wf(),
        ensures
            final(self).wf(),
            final(self)@ == (HistoryView {
                current_revision: old(self)@.next_revision,
                next_revision: old(self)@.next_revision.saturating_add(1),
                saved_revision: 0,
                ..old(self)@
            }),
    {
        self.current_revision = self.next_revision;
        self.next_revision = self.next_revision.saturating_add(1);
        self.saved_revision = 0;
    }

    pub fn can_undo(&self) -> (b: bool)
        ensures
            b == (self@.undo.len() > 0),
    {
        self.undo.len() > 0
    }

    pub fn can_redo(&self) -> (b: bool)
        ensures
            b == (self@.redo.len() > 0),
    {
        self.redo.len() > 0
    }

    /// Replaces a byte range whose ends must fall on character boundaries.
    /// Returns `false` for a null operation, which does not dirty the document.
    pub fn apply(&mut self, source: &mut TextBuffer, range: Range<usize>, inserted: &str) -> (r:
        Result<bool, EditError>)
        requires
            old(self).wf(),
        ensures
            final(self).wf(),
            (final(self)@, final(source)@, r) == old(self)@.apply(
                old(source)@,
                range.start as int,
                range.end as int,
                inserted@,
            ),
            r == Ok::<bool, EditError>(true) ==> utf8_len(final(source)@) <= usize::MAX,
    {
        let ghost h0 = self@;
        let ghost t0 = source@;
        if range.start > range.end || range.end > source.len_bytes() || !source.is_char_boundary(
            range.start,
        ) || !source.is_char_boundary(range.end) {
            return Err(EditError::InvalidRange);
        }
        let removed = source.slice_bytes(range.start..range.end)?;
        if removed == inserted.to_owned() {
            return Ok(false);
        }
        self.clear_redo();
        let before_revision = self.current_revision;
        let after_revision = self.next_revision;
        self.next_revision = self.next_revision.saturating_add(1);
        source.replace_range(range.start..range.end, inserted)?;
        proof {
            lemma_replace_text(t0, range.start as int, range.end as int, inserted@);
        }
        let change = Change {
            start: range.start,
            removed,
            inserted: inserted.to_owned(),
            before_revision,
            after_revision,
        };
        self.current_revision = after_revision;
        self.push_new_undo(change);
        Ok(true)
    }

    pub fn undo(&mut self, source: &mut TextBuffer) -> (r: Result<bool, EditError>)
        requires
            old(self).wf(),
        ensures
            final(self).wf(),
            (final(self)@, final(source)@, r) == old(self)@.undo_step(old(source)@),
            r == Ok::<bool, EditError>(true) ==> utf8_len(final(source)@) <= usize::MAX,
    {
        let ghost h0 = self@;
        let ghost t0 = source@;
        proof {
            lemma_total_bytes_nonneg(h0.undo);
            lemma_total_bytes_nonneg(h0.redo);
        }
        let change = match self.undo.pop_back() {
            Some(change) => change,
            None => {
                return Ok(false);
            },
        };
        proof {
            assert(change_views(self.undo@) =~= h0.undo.drop_last());
            lemma_ends_fit(h0.undo);
            assert(change@ == h0.undo.last());
        }
        if self.current_revision != change.after_revision {
            self.undo.push_back(change);
            proof {
                assert(change_views(self.undo@) =~= h0.undo);
            }
            return Err(EditError::InconsistentHistory);
        }
        let end = change.start.saturating_add(change.inserted.as_str().len());
        if end > source.len_bytes() || !source.is_char_boundary(change.start)
            || !source.is_char_boundary(end) || !(source.slice_bytes(change.start..end)?
            == change.inserted) {
            self.undo.push_back(change);
            proof {
                assert(change_views(self.undo@) =~= h0.undo);
            }
            return Err(EditError::InconsistentHistory);
        }
        source.replace_range(change.start..end, change.removed.as_str())?;
        self.current_revision = change.before_revision;
        self.redo.push(change);
        proof {
            assert(change_views(self.redo@) =~= h0.redo.push(h0.undo.last()));
            lemma_total_bytes_drop_last(h0.undo);
            lemma_total_bytes_push(h0.redo, h0.undo.last());
        }
        Ok(true)
    }

    pub fn redo(&mut self, source: &mut TextBuffer) -> (r: Result<bool, EditError>)
        requires
            old(self).wf(),
        ensures
            final(self).wf(),
            (final(self)@, final(source)@, r) == old(self)@.redo_step(old(source)@),
            r == Ok::<bool, EditError>(true) ==> utf8_len(final(source)@) <= usize::MAX,
    {
        let ghost h0 = self@;
        let ghost t0 = source@;
        proof {
            lemma_total_bytes_nonneg(h0.undo);
            lemma_total_bytes_nonneg(h0.redo);
        }
        let change = match self.redo.pop() {
            Some(change) => change,
            None => {
                return Ok(false);
            },
        };
        proof {
            assert(change_views(self.redo@) =~= h0.redo.drop_last());
            lemma_ends_fit(h0.redo);
            assert(change@ == h0.redo.last());
        }
        if self.current_revision != change.before_revision {
            self.redo.push(change);
            proof {
                assert(change_views(self.redo@) =~= h0.redo);
            }
            return Err(EditError::InconsistentHistory);
        }
        let end = change.start.saturating_add(change.removed.as_str().len());
        if end > source.len_bytes() || !source.is_char_boundary(change.start)
            || !source.is_char_boundary(end) || !(source.slice_bytes(change.start..end)?
            == change.removed) {
            self.redo.push(change);
            proof {
                assert(change_views(self.redo@) =~= h0.redo);
            }
            return Err(EditError::InconsistentHistory);
        }
        source.replace_range(change.start..end, change.inserted.as_str())?;
        self.current_revision = change.after_revision;
        // The change was already charged while it sat in `redo`; moving it
        // back cannot charge twice nor evict valid undo entries.
        self.undo.push_back(change);
        proof {
            assert(change_views(self.undo@) =~= h0.undo.push(h0.redo.last()));
            lemma_total_bytes_drop_last(h0.redo);
            lemma_total_bytes_push(h0.undo, h0.redo.last());
        }
        Ok(true)
    }

    fn clear_redo(&mut self)
        requires
            old(self).wf(),
        ensures
            final(self)@ == (HistoryView { redo: Seq::empty(), ..old(self)@ }),
            final(self).history_bytes == total_bytes(final(self)@.undo),
            total_bytes(final(self)@.undo) <= MAX_HISTORY_BYTES,
    {
        let ghost h0 = self@;
        while self.redo.len() > 0
            invariant
                self.history_bytes == total_bytes(self@.undo) + total_bytes(self@.redo),
                total_bytes(self@.undo) + total_bytes(self@.redo) <= MAX_HISTORY_BYTES,
                self@.undo == h0.undo,
                self@.next_revision == h0.next_revision,
                self@.current_revision == h0.current_revision,
                self@.saved_revision == h0.saved_revision,
            decreases self.redo.len(),
        {
            let ghost r0 = self@.redo;
            let change = self.redo.pop().unwrap();
            proof {
                assert(change_views(self.redo@) =~= r0.drop_last());
                lemma_total_bytes_drop_last(r0);
                lemma_total_bytes_nonneg(self@.undo);
                lemma_total_bytes_nonneg(self@.redo);
            }
            self.history_bytes = self.history_bytes.saturating_sub(change.bytes());
        }
        proof {
            assert(self@.redo =~= Seq::<ChangeView>::empty());
        }
    }

    fn push_new_undo(&mut self, change: Change)
        requires
            old(self)@.redo.len() == 0,
            old(self).history_bytes == total_bytes(old(self)@.undo),
            utf8_len(change@.removed) <= usize::MAX,
            utf8_len(change@.inserted) <= usize::MAX,
            total_bytes(old(self)@.undo) <= MAX_HISTORY_BYTES,
            old(self)@.revisions_fresh(),
            change_issued_before(old(self)@.next_revision, change@),
        ensures
            final(self).wf(),
            final(self)@ == (HistoryView {
                undo: fit_budget(old(self)@.undo.push(change@)),
                ..old(self)@
            }),
    {
        let ghost h0 = self@;
        let ghost c = change@;
        let added = change.bytes();
        self.undo.push_back(change);
        proof {
            assert(change_views(self.undo@) =~= h0.undo.push(c));
            assert(h0.undo.push(c).drop_last() =~= h0.undo);
            assert(self.redo@.len() == 0);
        }
        // The newest change sits at the back; the oldest ones leave from the
        // front while everything together exceeds the budget.
        while self.undo.len() > 1 && added > MAX_HISTORY_BYTES - self.history_bytes
            invariant
                self.undo@.len() >= 1,
                self@.undo.last() == c,
                self.history_bytes == total_bytes(self@.undo.drop_last()),
                self.history_bytes <= MAX_HISTORY_BYTES,
                fit_budget(self@.undo) == fit_budget(h0.undo.push(c)),
                self.redo@.len() == 0,
                self@.next_revision == h0.next_revision,
                self@.current_revision == h0.current_revision,
                self@.saved_revision == h0.saved_revision,
                added == (if change_bytes(c) > usize::MAX {
                    usize::MAX as int
                } else {
                    change_bytes(c)
                }),
            decreases self.undo.len(),
        {
            let ghost u0 = self@.undo;
            let oldest = self.undo.pop_front().unwrap();
            proof {
                assert(change_views(self.undo@) =~= u0.drop_first());
                lemma_total_bytes_push(u0.drop_last(), c);
                assert(u0 =~= u0.drop_last().push(c));
                assert(u0.drop_first().drop_last() =~= u0.drop_last().drop_first());
                lemma_total_bytes_nonneg(u0.drop_last().drop_first());
            }
            self.history_bytes = self.history_bytes.saturating_sub(oldest.bytes());
        }
        proof {
            let u = self@.undo;
            assert(u =~= u.drop_last().push(c));
            lemma_total_bytes_push(u.drop_last(), c);
            lemma_total_bytes_nonneg(u.drop_last());
            assert(self@.redo =~= Seq::<ChangeView>::empty());
        }
        if added > MAX_HISTORY_BYTES - self.history_bytes {
            // Only the new change is left and it alone exceeds the budget.
            let ghost u0 = self@.undo;
            let _dropped = self.undo.pop_front();
            proof {
                assert(change_views(self.undo@) =~= u0.drop_first());
                assert(u0.drop_first() =~= Seq::<ChangeView>::empty());
                assert(total_bytes(u0) > MAX_HISTORY_BYTES);
                assert(fit_budget(u0) == fit_budget(u0.drop_first()));
                assert(fit_budget(u0.drop_first()) =~= Seq::<ChangeView>::empty());
                assert(total_bytes(self@.undo) == 0);
            }
        } else {
            self.history_bytes = self.history_bytes + added;
            proof {
                let u = self@.undo;
                assert(total_bytes(u) <= MAX_HISTORY_BYTES);
                assert(fit_budget(u) == u);
            }
        }
        proof {
            assert(self@.redo =~= h0.redo);
            let pushed = h0.undo.push(c);
            lemma_fit_budget_suffix(pushed);
            let k = pushed.len() - fit_budget(pushed).len();
            assert forall|i: int| 0 <= i < self@.undo.len() implies change_issued_before(
                self@.next_revision,
                #[trigger] self@.undo[i],
            ) by {
                assert(self@.undo[i] == pushed[i + k]);
            }
        }
    }
}

/// Undoing an edit right after applying it restores the text, the revision
/// and the saved state, provided the edit fits the history budget on its own.
pub proof fn lemma_apply_then_undo(h: HistoryView, t: Seq<char>, start: int, end: int, ins: Seq<char>)
    requires
        valid_range(t, start, end),
        slice_text(t, start, end) != ins,
        utf8_len(slice_text(t, start, end)) + utf8_len(ins) <= MAX_HISTORY_BYTES,
        utf8_len(t) - (end - start) + utf8_len(ins) <= usize::MAX,
    ensures
        ({
            let (h1, t1, r1) = h.apply(t, start, end, ins);
            let (h2, t2, r2) = h1.undo_step(t1);
            &&& r1 == Ok::<bool, EditError>(true)
            &&& r2 == Ok::<bool, EditError>(true)
            &&& t2 == t
            &&& h2.current_revision == h.current_revision
            &&& h2.saved_revision == h.saved_revision
            &&& h2.is_dirty() == h.is_dirty()
            &&& h2.redo.len() == 1
        }),
{
    let removed = slice_text(t, start, end);
    let c = ChangeView {
        start: start as usize,
        removed: removed,
        inserted: ins,
        before_revision: h.current_revision,
        after_revision: h.next_revision,
    };
    lemma_replace_text(t, start, end, ins);
    lemma_replace_back(t, start, end, ins);
    lemma_fit_budget_keeps_newest(h.undo, c);
    lemma_boundary_char_index(t, start);
    let (h1, t1, r1) = h.apply(t, start, end, ins);
    assert(h1.undo.last() == c);
    assert(saturating_end(start, utf8_len(ins) as int) == start + utf8_len(ins));
    assert(h1.redo.push(c).len() == 1);
}

/// Redoing a change right after undoing it restores the text and the whole history.
pub proof fn lemma_undo_then_redo(h: HistoryView, t: Seq<char>)
    requires
        h.undo_step(t).2 == Ok::<bool, EditError>(true),
        utf8_len(h.undo_step(t).1) <= usize::MAX,
    ensures
        ({
            let (h1, t1, r1) = h.undo_step(t);
            let (h2, t2, r2) = h1.redo_step(t1);
            &&& r2 == Ok::<bool, EditError>(true)
            &&& t2 == t
            &&& h2 == h
        }),
{
    let c = h.undo.last();
    let end = saturating_end(c.start as int, utf8_len(c.inserted) as int);
    lemma_boundary_char_index(t, c.start as int);
    lemma_boundary_char_index(t, end);
    if end < c.start {
        assert(false);
    }
    lemma_replace_text(t, c.start as int, end, c.removed);
    lemma_replace_back(t, c.start as int, end, c.removed);
    let (h1, t1, r1) = h.undo_step(t);
    assert(h1.redo.last() == c);
    assert(saturating_end(c.start as int, utf8_len(c.removed) as int) == c.start + utf8_len(
        c.removed,
    ));
    let (h2, t2, r2) = h1.redo_step(t1);
    assert(h2.undo =~= h.undo);
    assert(h2.redo =~= h.redo);
}

/// Undoing a change right after redoing it restores the text and the whole history.
pub proof fn lemma_redo_then_undo(h: HistoryView, t: Seq<char>)
    requires
        h.redo_step(t).2 == Ok::<bool, EditError>(true),
        utf8_len(h.redo_step(t).1) <= usize::MAX,
    ensures
        ({
            let (h1, t1, r1) = h.redo_step(t);
            let (h2, t2, r2) = h1.undo_step(t1);
            &&& r2 == Ok::<bool, EditError>(true)
            &&& t2 == t
            &&& h2 == h
        }),
{
    let c = h.redo.last();
    let end = saturating_end(c.start as int, utf8_len(c.removed) as int);
    lemma_boundary_char_index(t, c.start as int);
    lemma_boundary_char_index(t, end);
    lemma_replace_text(t, c.start as int, end, c.inserted);
    lemma_replace_back(t, c.start as int, end, c.inserted);
    let (h1, t1, r1) = h.redo_step(t);
    assert(h1.undo.last() == c);
    assert(saturating_end(c.start as int, utf8_len(c.inserted) as int) == c.start + utf8_len(
        c.inserted,
    ));
    let (h2, t2, r2) = h1.undo_step(t1);
    assert(h2.undo =~= h.undo);
    assert(h2.redo =~= h.redo);
}

/// Applying an edit, undoing it and redoing it gives back exactly the text and
/// the history the edit produced; after the undo there is something to redo.
pub proof fn lemma_apply_undo_redo(h: HistoryView, t: Seq<char>, start: int, end: int, ins: Seq<char>)
    requires
        valid_range(t, start, end),
        slice_text(t, start, end) != ins,
        utf8_len(slice_text(t, start, end)) + utf8_len(ins) <= MAX_HISTORY_BYTES,
        utf8_len(t) <= usize::MAX,
        utf8_len(t) - (end - start) + utf8_len(ins) <= usize::MAX,
    ensures
        ({
            let (h1, t1, r1) = h.apply(t, start, end, ins);
            let (h2, t2, r2) = h1.undo_step(t1);
            let (h3, t3, r3) = h2.redo_step(t2);
            &&& r1 == Ok::<bool, EditError>(true)
            &&& h1.undo.len() > 0
            &&& h1.redo.len() == 0
            &&& r2 == Ok::<bool, EditError>(true)
            &&& t2 == t
            &&& h2.current_revision == h.current_revision
            &&& h2.is_dirty() == h.is_dirty()
            &&& h2.redo.len() > 0
            &&& r3 == Ok::<bool, EditError>(true)
            &&& t3 == t1
            &&& h3 == h1
        }),
{
    lemma_apply_then_undo(h, t, start, end, ins);
    let (h1, t1, r1) = h.apply(t, start, end, ins);
    lemma_undo_then_redo(h1, t1);
}

/// With nothing to undo (or to redo), the step does nothing and says so.
pub proof fn lemma_empty_stacks_do_nothing(h: HistoryView, t: Seq<char>)
    ensures
        h.undo.len() == 0 ==> h.undo_step(t) == (h, t, Ok::<bool, EditError>(false)),
        h.redo.len() == 0 ==> h.redo_step(t) == (h, t, Ok::<bool, EditError>(false)),
{
}

/// A kept history is always the newest part of the changes within the budget;
/// trimming never touches the text, only which changes can be undone.
pub proof fn lemma_history_keeps_newest(h: HistoryView, t: Seq<char>, start: int, end: int, ins: Seq<char>)
    requires
        h.apply(t, start, end, ins).2 == Ok::<bool, EditError>(true),
    ensures
        ({
            let (h1, t1, r1) = h.apply(t, start, end, ins);
            let all = h.undo.push(
                ChangeView {
                    start: start as usize,
                    removed: slice_text(t, start, end),
                    inserted: ins,
                    before_revision: h.current_revision,
                    after_revision: h.next_revision,
                },
            );
            &&& h1.undo == all.skip(all.len() - h1.undo.len())
            &&& total_bytes(h1.undo) <= MAX_HISTORY_BYTES
            &&& t1 == replace_text(t, start, end, ins)
            &&& h1.is_dirty() == (h.next_revision != h.saved_revision)
        }),
{
    let (h1, t1, r1) = h.apply(t, start, end, ins);
    let c = ChangeView {
        start: start as usize,
        removed: slice_text(t, start, end),
        inserted: ins,
        before_revision: h.current_revision,
        after_revision: h.next_revision,
    };
    lemma_fit_budget_suffix(h.undo.push(c));
    lemma_fit_budget(h.undo.push(c));
}

/// The revision a history hands out next is one it never had: neither the
/// current nor the saved revision, nor one recorded in a change.
pub proof fn lemma_next_revision_is_new(h: HistoryView)
    requires
        h.revisions_fresh(),
        h.next_revision < u64::MAX,
    ensures
        h.next_revision != h.current_revision,
        h.next_revision != h.saved_revision,
        forall|i: int| 0 <= i < h.undo.len() ==> (#[trigger] h.undo[i]).before_revision != h.next_revision
            && h.undo[i].after_revision != h.next_revision,
        forall|i: int| 0 <= i < h.redo.len() ==> (#[trigger] h.redo[i]).before_revision != h.next_revision
            && h.redo[i].after_revision != h.next_revision,
{
    assert forall|i: int| 0 <= i < h.undo.len() implies (#[trigger] h.undo[i]).before_revision
        != h.next_revision && h.undo[i].after_revision != h.next_revision by {
        assert(change_issued_before(h.next_revision, h.undo[i]));
    }
    assert forall|i: int| 0 <= i < h.redo.len() implies (#[trigger] h.redo[i]).before_revision
        != h.next_revision && h.redo[i].after_revision != h.next_revision by {
        assert(change_issued_before(h.next_revision, h.redo[i]));
    }
}

/// A recovered document is dirty under a revision it never had, and its old
/// changes no longer apply: undo and redo report an inconsistent history
/// instead of rewriting text they did not produce.
pub proof fn lemma_recovered_history_refuses_steps(h: HistoryView, t: Seq<char>)
    requires
        h.revisions_fresh(),
        h.next_revision < u64::MAX,
    ensures
        ({
            let h1 = HistoryView {
                current_revision: h.next_revision,
                next_revision: h.next_revision.saturating_add(1),
                saved_revision: 0,
                ..h
            };
            &&& h1.is_dirty()
            &&& h1.current_revision != h.current_revision
            &&& h1.revisions_fresh()
            &&& h.undo.len() > 0 ==> h1.undo_step(t) == (h1, t, Err::<bool, EditError>(
                EditError::InconsistentHistory,
            ))
            &&& h.redo.len() > 0 ==> h1.redo_step(t) == (h1, t, Err::<bool, EditError>(
                EditError::InconsistentHistory,
            ))
        }),
{
    lemma_next_revision_is_new(h);
    if h.undo.len() > 0 {
        assert(change_issued_before(h.next_revision, h.undo[h.undo.len() - 1]));
    }
    if h.redo.len() > 0 {
        assert(change_issued_before(h.next_revision, h.redo[h.redo.len() - 1]));
    }
    assert(issued_before(h.next_revision, h.current_revision));
}

/// After saving, the document is dirty exactly when its revision moves away
/// from the one saved, whatever happens until the next save or recovery.
pub proof fn lemma_saved_revision_decides_dirtiness(h: HistoryView, later: HistoryView)
    requires
        later.saved_revision == h.current_revision,
    ensures
        (HistoryView { saved_revision: h.current_revision, ..h }).is_dirty() == false,
        later.is_dirty() == (later.current_revision != h.current_revision),
{
}

/// Typing over a selection and then undoing gives back the text as it was,
/// with its revision and dirtiness, when the selection lies on character
/// boundaries, the typed text differs from it and the change fits the budget.
pub proof fn lemma_insert_then_undo(e: EditorView, t: Seq<char>, ins: Seq<char>)
    requires
        valid_range(t, e.selection_start(), e.selection_end()),
        slice_text(t, e.selection_start(), e.selection_end()) != ins,
        utf8_len(slice_text(t, e.selection_start(), e.selection_end())) + utf8_len(ins) <= MAX_HISTORY_BYTES,
        utf8_len(t) - (e.selection_end() - e.selection_start()) + utf8_len(ins) <= usize::MAX,
    ensures
        ({
            let (h1, t1, r1) = e.history.apply(t, e.selection_start(), e.selection_end(), ins);
            let (h2, t2, r2) = h1.undo_step(t1);
            &&& r1 == Ok::<bool, EditError>(true)
            &&& t1 == replace_text(t, e.selection_start(), e.selection_end(), ins)
            &&& r2 == Ok::<bool, EditError>(true)
            &&& t2 == t
            &&& h2.current_revision == e.history.current_revision
            &&& h2.is_dirty() == e.history.is_dirty()
        }),
{
    lemma_apply_then_undo(e.history, t, e.selection_start(), e.selection_end(), ins);
}

/// Interaction state for a source editor. Offsets always fall on UTF-8
/// character boundaries; the renderer may later map them to lines and
/// pixels without becoming an authority over the text.
#[derive(Debug)]
pub struct SourceEditor {
    history: EditHistory,
    cursor: usize,
    anchor: usize,
    preferred_column: Option<usize>,
}

/// Mathematical view of a source editor.
pub struct EditorView {
    pub history: HistoryView,
    pub cursor: usize,
    pub anchor: usize,
    pub preferred_column: Option<usize>,
}

impl EditorView {
    pub open spec fn selection_start(self) -> int {
        if self.cursor <= self.anchor {
            self.cursor as int
        } else {
            self.anchor as int
        }
    }

    pub open spec fn selection_end(self) -> int {
        if self.cursor <= self.anchor {
            self.anchor as int
        } else {
            self.cursor as int
        }
    }

    /// The byte range an erasing key removes: the selection, or the
    /// character before (`forward == false`) or after the cursor.
    pub open spec fn erase_range(self, t: Seq<char>, forward: bool) -> (int, int) {
        if self.cursor != self.anchor {
            (self.selection_start(), self.selection_end())
        } else if forward {
            (self.cursor as int, byte_offset(t, next_char(t, self.cursor as int)) as int)
        } else {
            (byte_offset(t, previous_char(t, self.cursor as int)) as int, self.cursor as int)
        }
    }

    /// The cursor placed on `target`, moving the anchor too unless the selection is extended.
    pub open spec fn moved_to(self, target: int, extend: bool) -> EditorView {
        EditorView {
            cursor: target as usize,
            anchor: if extend {
                self.anchor
            } else {
                target as usize
            },
            preferred_column: None,
            ..self
        }
    }
}

/// Text between the selection marks, or the placeholder when nothing is selected.
pub open spec fn surround_content(t: Seq<char>, start: int, end: int, placeholder: Seq<char>) -> Seq<
    char,
> {
    if slice_text(t, start, end).len() == 0 {
        placeholder
    } else {
        slice_text(t, start, end)
    }
}

/// Visible label of an inserted link: the selection, or a guide text.
pub open spec fn link_label(t: Seq<char>, start: int, end: int) -> Seq<char> {
    if slice_text(t, start, end).len() == 0 {
        "texto"@
    } else {
        slice_text(t, start, end)
    }
}

/// Markdown of an inserted link with a guide destination.
pub open spec fn link_markdown(label: Seq<char>) -> Seq<char> {
    "["@ + label + "]("@ + "https://"@ + ")"@
}

/// Largest character boundary in `lo..=x`, found by stepping back one byte at a time.
pub open spec fn back_to_boundary(t: Seq<char>, lo: int, x: int) -> int
    decreases x - lo,
{
    if x <= lo || is_boundary(t, x) {
        x
    } else {
        back_to_boundary(t, lo, x - 1)
    }
}

/// The last character boundary at or before `byte`, the text's end when
/// `byte` lies past it.
fn boundary_at_or_before(source: &TextBuffer, byte: usize) -> (r: usize)
    ensures
        r == back_to_boundary(
            source@,
            0,
            if byte <= utf8_len(source@) {
                byte as int
            } else {
                utf8_len(source@) as int
            },
        ),
        is_boundary(source@, r as int),
        r <= utf8_len(source@),
{
    let len = source.len_bytes();
    let mut target = if byte <= len {
        byte
    } else {
        len
    };
    let ghost wanted = target;
    proof {
        crate::text::lemma_ends_are_boundaries(source@);
    }
    while target > 0 && !source.is_char_boundary(target)
        invariant
            target <= wanted,
            wanted <= len,
            len == utf8_len(source@),
            is_boundary(source@, 0),
            back_to_boundary(source@, 0, target as int) == back_to_boundary(source@, 0, wanted as int),
        decreases target,
    {
        target -= 1;
    }
    proof {
        lemma_back_to_boundary(source@, 0, wanted as int);
    }
    target
}

/// Where a vertical move from `cursor` with `column` lands on line `target_line`.
pub open spec fn vertical_target(t: Seq<char>, target_line: int, column: int) -> int {
    let start = line_start_byte(t, target_line) as int;
    let end = line_end_byte(t, target_line) as int;
    let wanted = if start + column < end {
        start + column
    } else {
        end
    };
    back_to_boundary(t, start, wanted)
}

proof fn lemma_back_to_boundary(t: Seq<char>, lo: int, x: int)
    requires
        is_boundary(t, lo),
        lo <= x,
    ensures
        lo <= back_to_boundary(t, lo, x) <= x,
        is_boundary(t, back_to_boundary(t, lo, x)),
    decreases x - lo,
{
    if x <= lo || is_boundary(t, x) {
    } else {
        lemma_back_to_boundary(t, lo, x - 1);
    }
}

/// Line ends and line starts are character boundaries.
proof fn lemma_line_bounds_are_boundaries(t: Seq<char>, l: int)
    requires
        0 <= l < line_count(t),
    ensures
        is_boundary(t, line_start_byte(t, l) as int),
        is_boundary(t, line_end_byte(t, l) as int),
        line_start_byte(t, l) <= line_end_byte(t, l) <= utf8_len(t),
{
    lemma_line_start(t, l);
    lemma_line_start(t, l + 1);
    lemma_line_end(t, l);
    crate::lines::lemma_line_start_mono(t, l, l + 1);
    lemma_char_index(t, line_start_char(t, l));
    let cs = line_start_char(t, l);
    let cn = line_start_char(t, l + 1);
    if cn > cs && t[cn - 1] == '\n' {
        lemma_byte_offset_step(t, cn - 1);
        crate::text::lemma_utf8_len_ascii(seq![t[cn - 1]]);
        lemma_char_index(t, cn - 1);
    } else {
        lemma_char_index(t, cn);
    }
}

impl View for SourceEditor {
    type V = EditorView;

    closed spec fn view(&self) -> EditorView {
        EditorView {
            history: self.history@,
            cursor: self.cursor,
            anchor: self.anchor,
            preferred_column: self.preferred_column,
        }
    }
}

impl Default for SourceEditor {
    fn default() -> (r: Self)
        ensures
            r.wf(),
            r@.cursor == 0,
            r@.anchor == 0,
            r@.preferred_column is None,
            r@.history.undo.len() == 0,
            r@.history.redo.len() == 0,
            r@.history.current_revision == 0,
            r@.history.saved_revision == 0,
            r@.history.next_revision == 1,
    {
        SourceEditor { history: EditHistory::default(), cursor: 0, anchor: 0, preferred_column: None }
    }
}

impl SourceEditor {
    pub closed spec fn wf(&self) -> bool {
        self.history.wf()
    }

    pub fn new() -> (r: Self)
        ensures
            r.wf(),
            r@.cursor == 0,
            r@.anchor == 0,
            r@.preferred_column is None,
            r@.history.undo.len() == 0,
            r@.history.redo.len() == 0,
            r@.history.current_revision == 0,
            r@.history.saved_revision == 0,
            r@.history.next_revision == 1,
    {
        Self::default()
    }

    pub fn cursor(&self) -> (r: usize)
        ensures
            r == self@.cursor,
    {
        self.cursor
    }

    pub fn anchor(&self) -> (r: usize)
        ensures
            r == self@.anchor,
    {
        self.anchor
    }

    pub fn selection(&self) -> (r: Range<usize>)
        ensures
            r.start == self@.selection_start(),
            r.end == self@.selection_end(),
    {
        if self.cursor <= self.anchor {
            self.cursor..self.anchor
        } else {
            self.anchor..self.cursor
        }
    }

    pub fn is_dirty(&self) -> (b: bool)
        ensures
            b == self@.history.is_dirty(),
    {
        self.history.is_dirty()
    }

    pub fn revision(&self) -> (r: u64)
        ensures
            r == self@.history.current_revision,
    {
        self.history.current_revision()
    }

    pub fn mark_saved(&mut self)
        requires
            old(self).wf(),
        ensures
            final(self).wf(),
            final(self)@ == (EditorView {
                history: HistoryView {
                    saved_revision: old(self)@.history.current_revision,
                    ..old(self)@.history
                },
                ..old(self)@
            }),
    {
        self.history.mark_saved();
    }

    pub fn mark_recovered(&mut self)
        requires
            old(self).wf(),
        ensures
            final(self).wf(),
            final(self)@ == (EditorView {
                history: HistoryView {
                    current_revision: old(self)@.history.next_revision,
                    next_revision: old(self)@.history.next_revision.saturating_add(1),
                    saved_revision: 0,
                    ..old(self)@.history
                },
                ..old(self)@
            }),
    {
        self.history.mark_recovered();
    }

    pub fn select_all(&mut self, source: &TextBuffer)
        requires
            old(self).wf(),
        ensures
            final(self).wf(),
            final(self)@ == (EditorView {
                anchor: 0,
                cursor: utf8_len(source@) as usize,
                preferred_column: None,
                ..old(self)@
            }),
    {
        self.anchor = 0;
        self.cursor = source.len_bytes();
        self.preferred_column = None;
    }

    pub fn set_cursor(&mut self, source: &TextBuffer, offset: usize, extend: bool) -> (r: Result<
        (),
        EditError,
    >)
        requires
            old(self).wf(),
        ensures
            final(self).wf(),
            is_boundary(source@, offset as int) ==> r is Ok && final(self)@ == old(self)@.moved_to(
                offset as int,
                extend,
            ),
            !is_boundary(source@, offset as int) ==> r == Err::<(), EditError>(
                EditError::InvalidRange,
            ) && final(self)@ == old(self)@,
    {
        proof {
            if is_boundary(source@, offset as int) {
                lemma_boundary_char_index(source@, offset as int);
            }
        }
        if offset > source.len_bytes() || !source.is_char_boundary(offset) {
            return Err(EditError::InvalidRange);
        }
        self.cursor = offset;
        self.preferred_column = None;
        if !extend {
            self.anchor = offset;
        }
        Ok(())
    }

    pub fn insert(&mut self, source: &mut TextBuffer, text: &str) -> (r: Result<bool, EditError>)
        requires
            old(self).wf(),
        ensures
            final(self).wf(),
            r == Ok::<bool, EditError>(true) ==> utf8_len(final(source)@) <= usize::MAX,
            (final(self)@.history, final(source)@, r) == old(self)@.history.apply(
                old(source)@,
                old(self)@.selection_start(),
                old(self)@.selection_end(),
                text@,
            ),
            r == Ok::<bool, EditError>(true) ==> final(self)@.cursor == old(self)@.selection_start()
                + utf8_len(text@) && final(self)@.anchor == final(self)@.cursor
                && final(self)@.preferred_column == old(self)@.preferred_column,
            r != Ok::<bool, EditError>(true) ==> final(self)@.cursor == old(self)@.cursor
                && final(self)@.anchor == old(self)@.anchor && final(self)@.preferred_column == old(
                self,
            )@.preferred_column,
    {
        let ghost t0 = source@;
        let range = self.selection();
        let changed = self.history.apply(source, range.start..range.end, text)?;
        if changed {
            proof {
                lemma_replace_text(t0, range.start as int, range.end as int, text@);
            }
            self.cursor = range.start + text.len();
            self.anchor = self.cursor;
        }
        Ok(changed)
    }

    /// Surrounds the selection with Markdown syntax as one reversible change.
    /// With no selection, inserts a guide text and leaves it selected so that
    /// typing replaces it.
    pub fn surround(&mut self, source: &mut TextBuffer, prefix: &str, suffix: &str, placeholder: &str) -> (r:
        Result<bool, EditError>)
        requires
            old(self).wf(),
        ensures
            final(self).wf(),
            r == Ok::<bool, EditError>(true) ==> utf8_len(final(source)@) <= usize::MAX,
            ({
                let e = old(self)@;
                let t = old(source)@;
                let content = surround_content(
                    t,
                    e.selection_start(),
                    e.selection_end(),
                    placeholder@,
                );
                &&& !valid_range(t, e.selection_start(), e.selection_end()) ==> r == Err::<
                    bool,
                    EditError,
                >(EditError::InvalidRange) && final(self)@ == e && final(source)@ == t
                &&& valid_range(t, e.selection_start(), e.selection_end()) ==> (
                    final(self)@.history,
                    final(source)@,
                    r,
                ) == e.history.apply(
                    t,
                    e.selection_start(),
                    e.selection_end(),
                    prefix@ + content + suffix@,
                )
                &&& r == Ok::<bool, EditError>(true) ==> final(self)@.anchor == e.selection_start()
                    + utf8_len(prefix@) && final(self)@.cursor == final(self)@.anchor + utf8_len(
                    content,
                ) && final(self)@.preferred_column is None
                &&& r != Ok::<bool, EditError>(true) ==> final(self)@.cursor == e.cursor
                    && final(self)@.anchor == e.anchor && final(self)@.preferred_column
                    == e.preferred_column
            }),
    {
        let ghost t0 = source@;
        let range = self.selection();
        let selected = source.slice_bytes(range.start..range.end)?;
        let content: &str = if selected.as_str().is_empty() {
            placeholder
        } else {
            selected.as_str()
        };
        let mut replacement = prefix.to_owned();
        replacement.append(content);
        replacement.append(suffix);
        let changed = self.history.apply(source, range.start..range.end, replacement.as_str())?;
        if changed {
            proof {
                lemma_replace_text(t0, range.start as int, range.end as int, replacement@);
                crate::text::lemma_utf8_len_concat(prefix@ + content@, suffix@);
                crate::text::lemma_utf8_len_concat(prefix@, content@);
            }
            self.anchor = range.start + prefix.len();
            self.cursor = self.anchor + content.len();
            self.preferred_column = None;
        }
        Ok(changed)
    }

    /// Inserts a Markdown link without reading the clipboard or resolving the
    /// destination. With selected text, leaves the guide URL selected; with
    /// no selection, leaves the guide label selected to be typed first.
    pub fn insert_link(&mut self, source: &mut TextBuffer) -> (r: Result<bool, EditError>)
        requires
            old(self).wf(),
        ensures
            final(self).wf(),
            r == Ok::<bool, EditError>(true) ==> utf8_len(final(source)@) <= usize::MAX,
            ({
                let e = old(self)@;
                let t = old(source)@;
                let label = link_label(t, e.selection_start(), e.selection_end());
                &&& !valid_range(t, e.selection_start(), e.selection_end()) ==> r == Err::<
                    bool,
                    EditError,
                >(EditError::InvalidRange) && final(self)@ == e && final(source)@ == t
                &&& valid_range(t, e.selection_start(), e.selection_end()) ==> (
                    final(self)@.history,
                    final(source)@,
                    r,
                ) == e.history.apply(
                    t,
                    e.selection_start(),
                    e.selection_end(),
                    link_markdown(label),
                )
                &&& r == Ok::<bool, EditError>(true) && slice_text(
                    t,
                    e.selection_start(),
                    e.selection_end(),
                ).len() > 0 ==> final(self)@.anchor == e.selection_start() + 1 + utf8_len(label)
                    + 2 && final(self)@.cursor == final(self)@.anchor + 8
                    && final(self)@.preferred_column is None
                &&& r == Ok::<bool, EditError>(true) && slice_text(
                    t,
                    e.selection_start(),
                    e.selection_end(),
                ).len() == 0 ==> final(self)@.anchor == e.selection_start() + 1
                    && final(self)@.cursor == final(self)@.anchor + 5
                    && final(self)@.preferred_column is None
                &&& r != Ok::<bool, EditError>(true) ==> final(self)@.cursor == e.cursor
                    && final(self)@.anchor == e.anchor && final(self)@.preferred_column
                    == e.preferred_column
            }),
    {
        let ghost t0 = source@;
        proof {
            reveal_strlit("texto");
            reveal_strlit("https://");
            reveal_strlit("[");
            reveal_strlit("](");
            reveal_strlit(")");
            crate::text::lemma_utf8_len_ascii("texto"@);
            crate::text::lemma_utf8_len_ascii("https://"@);
            crate::text::lemma_utf8_len_ascii("["@);
            crate::text::lemma_utf8_len_ascii("]("@);
            crate::text::lemma_utf8_len_ascii(")"@);
        }
        let range = self.selection();
        let selected = source.slice_bytes(range.start..range.end)?;
        let had_selection = !selected.as_str().is_empty();
        let label: &str = if had_selection {
            selected.as_str()
        } else {
            "texto"
        };
        let mut replacement = "[".to_owned();
        replacement.append(label);
        replacement.append("](");
        replacement.append("https://");
        replacement.append(")");
        let changed = self.history.apply(source, range.start..range.end, replacement.as_str())?;
        if changed {
            proof {
                lemma_replace_text(t0, range.start as int, range.end as int, replacement@);
                crate::text::lemma_utf8_len_concat("["@ + label@ + "]("@ + "https://"@, ")"@);
                crate::text::lemma_utf8_len_concat("["@ + label@ + "]("@, "https://"@);
                crate::text::lemma_utf8_len_concat("["@ + label@, "]("@);
                crate::text::lemma_utf8_len_concat("["@, label@);
            }
            if had_selection {
                self.anchor = range.start + 1 + label.len() + 2;
                self.cursor = self.anchor + "https://".len();
            } else {
                self.anchor = range.start + 1;
                self.cursor = self.anchor + "texto".len();
            }
            self.preferred_column = None;
        }
        Ok(changed)
    }

    pub fn backspace(&mut self, source: &mut TextBuffer) -> (r: Result<bool, EditError>)
        requires
            old(self).wf(),
            old(self)@.cursor == old(self)@.anchor ==> old(self)@.cursor <= utf8_len(old(source)@),
        ensures
            final(self).wf(),
            r == Ok::<bool, EditError>(true) ==> utf8_len(final(source)@) <= usize::MAX,
            ({
                let e = old(self)@;
                let (start, end) = e.erase_range(old(source)@, false);
                &&& (final(self)@.history, final(source)@, r) == e.history.apply(
                    old(source)@,
                    start,
                    end,
                    Seq::empty(),
                )
                &&& r == Ok::<bool, EditError>(true) ==> final(self)@.cursor == start
                    && final(self)@.anchor == start && final(self)@.preferred_column
                    == e.preferred_column
                &&& r != Ok::<bool, EditError>(true) ==> final(self)@.cursor == e.cursor
                    && final(self)@.anchor == e.anchor && final(self)@.preferred_column
                    == e.preferred_column
            }),
    {
        proof {
            reveal_strlit("");
            assert(""@ =~= Seq::<char>::empty());
        }
        let selection = self.selection();
        let range = if selection.start == selection.end {
            let previous = source.previous_boundary(self.cursor);
            previous..self.cursor
        } else {
            selection
        };
        let changed = self.history.apply(source, range.start..range.end, "")?;
        if changed {
            self.cursor = range.start;
            self.anchor = range.start;
        }
        Ok(changed)
    }

    pub fn delete(&mut self, source: &mut TextBuffer) -> (r: Result<bool, EditError>)
        requires
            old(self).wf(),
            old(self)@.cursor == old(self)@.anchor ==> old(self)@.cursor <= utf8_len(old(source)@),
        ensures
            final(self).wf(),
            r == Ok::<bool, EditError>(true) ==> utf8_len(final(source)@) <= usize::MAX,
            ({
                let e = old(self)@;
                let (start, end) = e.erase_range(old(source)@, true);
                &&& (final(self)@.history, final(source)@, r) == e.history.apply(
                    old(source)@,
                    start,
                    end,
                    Seq::empty(),
                )
                &&& final(self)@.preferred_column == e.preferred_column
                &&& r == Ok::<bool, EditError>(true) ==> final(self)@.cursor == start
                    && final(self)@.anchor == start
                &&& r == Ok::<bool, EditError>(false) ==> final(self)@.cursor == e.cursor
                    && final(self)@.anchor == e.cursor
                &&& r is Err ==> final(self)@.cursor == e.cursor && final(self)@.anchor == e.anchor
            }),
    {
        proof {
            reveal_strlit("");
            assert(""@ =~= Seq::<char>::empty());
        }
        let selection = self.selection();
        let range = if selection.start == selection.end {
            let next = source.next_boundary(self.cursor);
            self.cursor..next
        } else {
            selection
        };
        let changed = self.history.apply(source, range.start..range.end, "")?;
        if changed {
            self.cursor = range.start;
        }
        self.anchor = self.cursor;
        Ok(changed)
    }

    pub fn move_left(&mut self, source: &TextBuffer, extend: bool) -> (r: Result<(), EditError>)
        requires
            old(self).wf(),
            old(self)@.cursor <= utf8_len(source@),
        ensures
            final(self).wf(),
            r is Ok,
            final(self)@ == old(self)@.moved_to(
                byte_offset(source@, previous_char(source@, old(self)@.cursor as int)) as int,
                extend,
            ),
    {
        proof {
            lemma_char_at_byte(source@, self.cursor as int);
            lemma_char_index(source@, previous_char(source@, self.cursor as int));
        }
        let target = source.previous_boundary(self.cursor);
        self.set_cursor(source, target, extend)
    }

    pub fn move_right(&mut self, source: &TextBuffer, extend: bool) -> (r: Result<(), EditError>)
        requires
            old(self).wf(),
            old(self)@.cursor <= utf8_len(source@),
        ensures
            final(self).wf(),
            r is Ok,
            final(self)@ == old(self)@.moved_to(
                byte_offset(source@, next_char(source@, old(self)@.cursor as int)) as int,
                extend,
            ),
    {
        proof {
            lemma_char_at_byte(source@, self.cursor as int);
            lemma_char_index(source@, next_char(source@, self.cursor as int));
        }
        let target = source.next_boundary(self.cursor);
        self.set_cursor(source, target, extend)
    }

    /// Moves the cursor one line down or up, keeping the column it had when
    /// the vertical movement started; does nothing on the first or last line.
    pub fn move_line(&mut self, source: &TextBuffer, down: bool, extend: bool) -> (r: Result<
        (),
        EditError,
    >)
        requires
            old(self).wf(),
            old(self)@.cursor <= utf8_len(source@),
        ensures
            final(self).wf(),
            r is Ok,
            ({
                let t = source@;
                let e = old(self)@;
                let line = line_of_byte(t, e.cursor as int) as int;
                let column = match e.preferred_column {
                    Some(c) => c as int,
                    None => e.cursor - line_start_byte(t, line),
                };
                if (down && line + 1 >= line_count(t)) || (!down && line == 0) {
                    final(self)@ == e
                } else {
                    let target_line = if down {
                        line + 1
                    } else {
                        line - 1
                    };
                    final(self)@ == (EditorView {
                        preferred_column: Some(column as usize),
                        ..e.moved_to(vertical_target(t, target_line, column), extend)
                    })
                }
            }),
    {
        let ghost t = source@;
        proof {
            lemma_char_at_byte(t, self.cursor as int);
            lemma_line_start_before(t, char_at_byte(t, self.cursor as int));
            lemma_line_start(t, line_of_byte(t, self.cursor as int) as int);
            lemma_byte_offset_bounds(t, char_at_byte(t, self.cursor as int));
            crate::lines::lemma_line_start_mono(t, 0, line_of_byte(t, self.cursor as int) as int);
            let c = char_at_byte(t, self.cursor as int);
            let ls = line_start_char(t, line_of_byte(t, self.cursor as int) as int);
            if ls < c {
                lemma_byte_offset_strict_mono(t, ls, c);
            }
        }
        let line = rope_byte_to_line(&source.rope, self.cursor);
        let line_start = source.line_start(self.cursor);
        let column = match self.preferred_column {
            Some(column) => column,
            None => self.cursor - line_start,
        };
        let line_total = rope_len_lines(&source.rope);
        let target_line = if down {
            if line + 1 >= line_total {
                return Ok(());
            }
            line + 1
        } else if line == 0 {
            return Ok(());
        } else {
            line - 1
        };
        proof {
            lemma_line_bounds_are_boundaries(t, target_line as int);
        }
        let target_start = rope_line_to_byte(&source.rope, target_line);
        let target_end = source.line_end(target_line);
        let mut target = if column < target_end - target_start {
            target_start + column
        } else {
            target_end
        };
        let ghost wanted = target;
        while target > target_start && !source.is_char_boundary(target)
            invariant
                target_start <= target <= wanted,
                target_start == line_start_byte(t, target_line as int),
                t == source@,
                is_boundary(t, target_start as int),
                back_to_boundary(t, target_start as int, target as int) == back_to_boundary(
                    t,
                    target_start as int,
                    wanted as int,
                ),
            decreases target,
        {
            target -= 1;
        }
        proof {
            lemma_back_to_boundary(t, target_start as int, wanted as int);
        }
        self.set_cursor(source, target, extend)?;
        self.preferred_column = Some(column);
        Ok(())
    }

    /// Moves the cursor to the start or the end (before its line feed) of its line.
    pub fn move_line_boundary(&mut self, source: &TextBuffer, end: bool, extend: bool) -> (r:
        Result<(), EditError>)
        requires
            old(self).wf(),
            old(self)@.cursor <= utf8_len(source@),
        ensures
            final(self).wf(),
            r is Ok,
            ({
                let t = source@;
                let line = line_of_byte(t, old(self)@.cursor as int) as int;
                final(self)@ == old(self)@.moved_to(
                    if end {
                        line_end_byte(t, line) as int
                    } else {
                        line_start_byte(t, line) as int
                    },
                    extend,
                )
            }),
    {
        let ghost t = source@;
        proof {
            lemma_char_at_byte(t, self.cursor as int);
            lemma_line_start_before(t, char_at_byte(t, self.cursor as int));
            lemma_line_bounds_are_boundaries(t, line_of_byte(t, self.cursor as int) as int);
        }
        let target = if end {
            source.line_end(rope_byte_to_line(&source.rope, self.cursor))
        } else {
            source.line_start(self.cursor)
        };
        self.set_cursor(source, target, extend)
    }

    pub fn undo(&mut self, source: &mut TextBuffer) -> (r: Result<bool, EditError>)
        requires
            old(self).wf(),
        ensures
            final(self).wf(),
            r == Ok::<bool, EditError>(true) ==> utf8_len(final(source)@) <= usize::MAX,
            (final(self)@.history, final(source)@, r) == old(self)@.history.undo_step(old(source)@),
            r == Ok::<bool, EditError>(true) ==> final(self)@.cursor == back_to_boundary(
                final(source)@,
                0,
                if old(self)@.cursor <= utf8_len(final(source)@) {
                    old(self)@.cursor as int
                } else {
                    utf8_len(final(source)@) as int
                },
            ) && is_boundary(final(source)@, final(self)@.cursor as int) && final(self)@.anchor == final(self)@.cursor && final(self)@.preferred_column
                == old(self)@.preferred_column,
            r != Ok::<bool, EditError>(true) ==> final(self)@.cursor == old(self)@.cursor
                && final(self)@.anchor == old(self)@.anchor && final(self)@.preferred_column
                == old(self)@.preferred_column,
    {
        let changed = self.history.undo(source)?;
        if changed {
            self.cursor = boundary_at_or_before(source, self.cursor);
            self.anchor = self.cursor;
        }
        Ok(changed)
    }

    pub fn redo(&mut self, source: &mut TextBuffer) -> (r: Result<bool, EditError>)
        requires
            old(self).wf(),
        ensures
            final(self).wf(),
            r == Ok::<bool, EditError>(true) ==> utf8_len(final(source)@) <= usize::MAX,
            (final(self)@.history, final(source)@, r) == old(self)@.history.redo_step(old(source)@),
            r == Ok::<bool, EditError>(true) ==> final(self)@.cursor == back_to_boundary(
                final(source)@,
                0,
                if old(self)@.cursor <= utf8_len(final(source)@) {
                    old(self)@.cursor as int
                } else {
                    utf8_len(final(source)@) as int
                },
            ) && is_boundary(final(source)@, final(self)@.cursor as int) && final(self)@.anchor == final(self)@.cursor && final(self)@.preferred_column
                == old(self)@.preferred_column,
            r != Ok::<bool, EditError>(true) ==> final(self)@.cursor == old(self)@.cursor
                && final(self)@.anchor == old(self)@.anchor && final(self)@.preferred_column
                == old(self)@.preferred_column,
    {
        let changed = self.history.redo(source)?;
        if changed {
            self.cursor = boundary_at_or_before(source, self.cursor);
            self.anchor = self.cursor;
        }
        Ok(changed)
    }
}

} // verus!
