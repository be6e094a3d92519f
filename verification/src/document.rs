//! The flattened document model that the renderer draws, and the decisions
//! taken over it: link policy, selection across blocks, titles, searches.
use vstd::prelude::*;
use vstd::utf8::encode_utf8;
use crate::limits::{explanation_text, Degradation, MAX_BLOCKS, MAX_SAFE_LINE_BYTES};
use crate::strings::{
    ascii_lowercase, byte_len, ends_with, get, slice, str_equals, trim_end_char, trim_end_matches_char, chars_of, contains, contains_seq, find, find_byte,
    first_occurrence, lemma_find_byte, starts_with, to_ascii_lowercase, to_lowercase, trim,
    trim_ws, unicode_lowercase,
};
use crate::text::{
    byte_offset, char_index, lemma_boundary_char_index, lemma_char_index, lemma_ends_are_boundaries, lemma_utf8_len_concat,
    lemma_byte_offset_bounds, lemma_utf8_len_ascii, lemma_utf8_len_at_least_len,
    is_boundary, lemma_vstd_char_boundary, slice_text, utf8_len, valid_range,
};
use crate::theme::{Palette, Rgb};
use crate::workspace::boundary_at_or_before;

verus! {

/// Half-open byte range `start..end` of the original Markdown source.
#[derive(Clone, Copy, Debug, Default, PartialEq, Eq, Structural)]
pub struct SourceRange {
    pub start: usize,
    pub end: usize,
}

impl SourceRange {
    pub fn is_valid_for(self, source: &str) -> (b: bool)
        ensures
            b == valid_range(source@, self.start as int, self.end as int),
    {
        proof {
            lemma_vstd_char_boundary(source@, self.start as int);
            lemma_vstd_char_boundary(source@, self.end as int);
        }
        let len = byte_len(source);
        self.start <= self.end && self.end <= len && source.is_char_boundary(self.start)
            && source.is_char_boundary(self.end)
    }
}

#[derive(Clone, Copy, Debug, PartialEq, Eq, Structural)]
pub enum InlineTargetKind {
    Link,
    WikiLink,
    Image,
}

impl InlineTargetKind {
    pub fn is_navigable(self) -> (b: bool)
        ensures
            b == (self is Link || self is WikiLink),
    {
        match self {
            InlineTargetKind::Link | InlineTargetKind::WikiLink => true,
            InlineTargetKind::Image => false,
        }
    }
}

#[derive(Clone, Copy, Debug, PartialEq, Eq, Structural)]
pub enum LinkDestinationKind {
    Web,
    Mail,
    RelativeFile,
    Blocked,
}

pub open spec fn is_path_separator(c: char) -> bool {
    c == '/' || c == '\\'
}

/// A `..` path segment starts at character `i` of `s`.
pub open spec fn parent_segment_at(s: Seq<char>, i: int) -> bool {
    &&& 0 <= i
    &&& i + 2 <= s.len()
    &&& s[i] == '.'
    &&& s[i + 1] == '.'
    &&& (i == 0 || is_path_separator(s[i - 1]))
    &&& (i + 2 == s.len() || is_path_separator(s[i + 2]))
}

pub open spec fn has_parent_segment(s: Seq<char>) -> bool {
    exists|i: int| parent_segment_at(s, i)
}

pub open spec fn seq_starts_with(s: Seq<char>, p: Seq<char>) -> bool {
    p.len() <= s.len() && s.take(p.len() as int) == p
}

/// How a link destination is treated, judged on its trimmed, ASCII-lowered text.
pub open spec fn destination_kind(destination: Seq<char>) -> LinkDestinationKind {
    let lowered = ascii_lowercase(trim_ws(destination));
    if seq_starts_with(lowered, "https://"@) || seq_starts_with(lowered, "http://"@) {
        LinkDestinationKind::Web
    } else if seq_starts_with(lowered, "mailto:"@) {
        LinkDestinationKind::Mail
    } else if seq_starts_with(lowered, "file:"@) || seq_starts_with(lowered, "\\\\"@)
        || seq_starts_with(lowered, "/"@) || contains_seq(lowered, ":"@) || has_parent_segment(
        lowered,
    ) {
        LinkDestinationKind::Blocked
    } else {
        LinkDestinationKind::RelativeFile
    }
}

/// Whether some path segment of `s` is `..`.
fn contains_parent_segment(s: &str) -> (b: bool)
    ensures
        b == has_parent_segment(s@),
{
    let chars = chars_of(s);
    let n = chars.len();
    let mut i: usize = 0;
    while i < n && n - i >= 2
        invariant
            i <= n,
            chars@ == s@,
            n == chars@.len(),
            forall|j: int| 0 <= j < i ==> !parent_segment_at(s@, j),
        decreases n - i,
    {
        if chars[i] == '.' && chars[i + 1] == '.' && (i == 0 || chars[i - 1] == '/' || chars[i
            - 1] == '\\') && (i + 2 == n || chars[i + 2] == '/' || chars[i + 2] == '\\') {
            proof {
                assert(parent_segment_at(s@, i as int));
            }
            return true;
        }
        i = i + 1;
    }
    proof {
        assert forall|j: int| !parent_segment_at(s@, j) by {
            if j >= i {
                assert(!(j + 2 <= s@.len()));
            }
        }
    }
    false
}

/// Classifies a link destination without touching it: web and mail go to the
/// system, relative paths stay in the vault, everything else is blocked.
pub fn classify_link_destination(destination: &str) -> (k: LinkDestinationKind)
    ensures
        k == destination_kind(destination@),
{
    let lowered = to_ascii_lowercase(trim(destination));
    let lowered = lowered.as_str();
    if starts_with(lowered, "https://") || starts_with(lowered, "http://") {
        LinkDestinationKind::Web
    } else if starts_with(lowered, "mailto:") {
        LinkDestinationKind::Mail
    } else if starts_with(lowered, "file:") || starts_with(lowered, "\\\\") || starts_with(
        lowered,
        "/",
    ) || contains(lowered, ":") || contains_parent_segment(lowered) {
        LinkDestinationKind::Blocked
    } else {
        LinkDestinationKind::RelativeFile
    }
}

/// Text that announces what activating a target does.
pub open spec fn target_label_text(kind: InlineTargetKind, destination: Seq<char>) -> Seq<char> {
    match kind {
        InlineTargetKind::WikiLink => "enlace de bóveda"@,
        InlineTargetKind::Image => "imagen"@,
        InlineTargetKind::Link => match destination_kind(destination) {
            LinkDestinationKind::Web => "enlace web"@,
            LinkDestinationKind::Mail => "correo"@,
            LinkDestinationKind::RelativeFile => "archivo relativo"@,
            LinkDestinationKind::Blocked => "destino bloqueado"@,
        },
    }
}

pub fn target_label(kind: InlineTargetKind, destination: &str) -> (r: &'static str)
    ensures
        r@ == target_label_text(kind, destination@),
{
    match kind {
        InlineTargetKind::WikiLink => "enlace de bóveda",
        InlineTargetKind::Image => "imagen",
        InlineTargetKind::Link => match classify_link_destination(destination) {
            LinkDestinationKind::Web => "enlace web",
            LinkDestinationKind::Mail => "correo",
            LinkDestinationKind::RelativeFile => "archivo relativo",
            LinkDestinationKind::Blocked => "destino bloqueado",
        },
    }
}

/// The destination changes the visual signal but grants no capability. The
/// underline stays so that the difference does not rest on colour alone.
pub fn link_color(palette: Palette, destination: &str) -> (c: Rgb)
    ensures
        c == match destination_kind(destination@) {
            LinkDestinationKind::Web | LinkDestinationKind::Mail => palette.external_link,
            LinkDestinationKind::RelativeFile => palette.accent,
            LinkDestinationKind::Blocked => palette.dim,
        },
{
    match classify_link_destination(destination) {
        LinkDestinationKind::Web | LinkDestinationKind::Mail => palette.external_link,
        LinkDestinationKind::RelativeFile => palette.accent,
        LinkDestinationKind::Blocked => palette.dim,
    }
}

/// The trimmed destination, only when it may be handed to the system.
pub fn external_destination(destination: &str) -> (r: Option<&str>)
    ensures
        match r {
            Some(d) => d@ == trim_ws(destination@) && (destination_kind(destination@) is Web
                || destination_kind(destination@) is Mail),
            None => !(destination_kind(destination@) is Web || destination_kind(
                destination@,
            ) is Mail),
        },
{
    let trimmed = trim(destination);
    proof {
        lemma_trim_idempotent(destination@);
    }
    match classify_link_destination(trimmed) {
        LinkDestinationKind::Web | LinkDestinationKind::Mail => Some(trimmed),
        _ => None,
    }
}

proof fn lemma_trim_idempotent(s: Seq<char>)
    ensures
        trim_ws(trim_ws(s)) == trim_ws(s),
{
    crate::strings::lemma_trim_ws_idempotent(s);
}

/// Whether the document is being read or its Markdown source edited.
#[derive(Clone, Copy, Debug, PartialEq, Eq, Structural)]
pub enum DocumentMode {
    Reading,
    SourceEditing,
}

/// Entries of the context menu.
#[derive(Clone, Copy, Debug, PartialEq, Eq, Structural)]
pub enum ContextAction {
    Paste,
    CopyText,
    CopyMarkdown,
}

pub open spec fn context_action_label(action: ContextAction) -> Seq<char> {
    match action {
        ContextAction::Paste => "Pegar"@,
        ContextAction::CopyText => "Copiar texto"@,
        ContextAction::CopyMarkdown => "Copiar Markdown original"@,
    }
}

impl ContextAction {
    pub fn label(self) -> (r: &'static str)
        ensures
            r@ == context_action_label(self),
    {
        match self {
            ContextAction::Paste => "Pegar",
            ContextAction::CopyText => "Copiar texto",
            ContextAction::CopyMarkdown => "Copiar Markdown original",
        }
    }

    /// Whether the action copies the original Markdown instead of the view.
    pub fn source_markdown(self) -> (b: bool)
        ensures
            b == (self is CopyMarkdown),
    {
        match self {
            ContextAction::CopyMarkdown => true,
            _ => false,
        }
    }
}

/// The menu offers pasting only while the source is being edited.
pub open spec fn context_actions_of(mode: DocumentMode) -> Seq<ContextAction> {
    match mode {
        DocumentMode::Reading => seq![ContextAction::CopyText, ContextAction::CopyMarkdown],
        DocumentMode::SourceEditing => seq![
            ContextAction::Paste,
            ContextAction::CopyText,
            ContextAction::CopyMarkdown,
        ],
    }
}

pub fn context_actions(mode: DocumentMode) -> (v: Vec<ContextAction>)
    ensures
        v@ == context_actions_of(mode),
{
    match mode {
        DocumentMode::Reading => vec![ContextAction::CopyText, ContextAction::CopyMarkdown],
        DocumentMode::SourceEditing => vec![
            ContextAction::Paste,
            ContextAction::CopyText,
            ContextAction::CopyMarkdown,
        ],
    }
}

/// A view computed in the background is shown only if it belongs to the
/// document and revision that are still active.
pub fn is_current_view_result(
    result_document_request: u64,
    active_document_request: u64,
    result_revision: u64,
    active_revision: u64,
) -> (b: bool)
    ensures
        b == (result_document_request == active_document_request && result_revision
            == active_revision),
{
    result_document_request == active_document_request && result_revision == active_revision
}

/// Remembers the first reason for which a traversal had to degrade.
#[derive(Clone, Copy, Debug, Default, PartialEq, Eq, Structural)]
pub struct TraversalState {
    pub degradation: Option<Degradation>,
}

impl TraversalState {
    pub fn mark(&mut self, reason: Degradation)
        ensures
            final(self).degradation == match old(self).degradation {
                Some(first) => Some(first),
                None => Some(reason),
            },
    {
        if self.degradation.is_none() {
            self.degradation = Some(reason);
        }
    }
}

/// Paint attached to a run of text.
#[derive(Clone, Copy, Debug, Default, PartialEq, Eq)]
pub struct Brush {
    pub foreground: Rgb,
    pub background: Option<Rgb>,
    pub baseline_shift: i8,
}

impl Brush {
    pub fn text(foreground: Rgb) -> (b: Brush)
        ensures
            b == (Brush { foreground, background: None, baseline_shift: 0 }),
    {
        Brush { foreground, background: None, baseline_shift: 0 }
    }

    pub fn semantic(foreground: Rgb, background: Option<Rgb>, baseline_shift: i8) -> (b: Brush)
        ensures
            b == (Brush { foreground, background, baseline_shift }),
    {
        Brush { foreground, background, baseline_shift }
    }
}

/// Inline emphasis accumulated over a run of text while descending the tree.
#[derive(Clone, Copy, Debug, PartialEq, Eq, Structural)]
pub struct Emphasis {
    pub strong: bool,
    pub emph: bool,
    pub code: bool,
    pub link: bool,
    pub strike: bool,
    pub kbd: bool,
    pub mark: bool,
    pub sub: bool,
    pub sup: bool,
}

pub open spec fn plain_emphasis() -> Emphasis {
    Emphasis {
        strong: false,
        emph: false,
        code: false,
        link: false,
        strike: false,
        kbd: false,
        mark: false,
        sub: false,
        sup: false,
    }
}

impl Default for Emphasis {
    fn default() -> (e: Emphasis)
        ensures
            e == plain_emphasis(),
    {
        Emphasis {
            strong: false,
            emph: false,
            code: false,
            link: false,
            strike: false,
            kbd: false,
            mark: false,
            sub: false,
            sup: false,
        }
    }
}

impl Emphasis {
    pub fn is_plain(self) -> (b: bool)
        ensures
            b == (self == plain_emphasis()),
    {
        !self.strong && !self.emph && !self.code && !self.link && !self.strike && !self.kbd
            && !self.mark && !self.sub && !self.sup
    }
}

pub open spec fn title_text(
    path: Seq<char>,
    safe_mode: Option<Degradation>,
    dirty: bool,
    notice: Option<Seq<char>>,
) -> Seq<char> {
    let mode = match safe_mode {
        Some(Degradation::TextOnly) => " · texto inerte"@,
        Some(_) => " · modo seguro"@,
        None => Seq::<char>::empty(),
    };
    let notice = match notice {
        Some(n) => " · "@ + n,
        None => Seq::<char>::empty(),
    };
    let dirty = if dirty {
        " *"@
    } else {
        Seq::<char>::empty()
    };
    "Visor MD v2 · "@ + path + dirty + mode + notice
}

/// The window title names the document, marks unsaved changes and makes a
/// degraded view visible.
pub fn window_title(
    path: &str,
    safe_mode: Option<Degradation>,
    dirty: bool,
    notice: Option<&str>,
) -> (t: String)
    ensures
        t@ == title_text(
            path@,
            safe_mode,
            dirty,
            match notice {
                Some(n) => Some(n@),
                None => None,
            },
        ),
{
    proof {
        reveal_strlit("");
    }
    let mut title = String::from_str("Visor MD v2 · ");
    title.append(path);
    if dirty {
        title.append(" *");
    }
    match safe_mode {
        Some(Degradation::TextOnly) => title.append(" · texto inerte"),
        Some(_) => title.append(" · modo seguro"),
        None => {},
    }
    match notice {
        Some(n) => {
            title.append(" · ");
            title.append(n);
        },
        None => {},
    }
    proof {
        let ghost nt = match notice {
            Some(n) => Some(n@),
            None => None,
        };
        assert(title@ =~= title_text(path@, safe_mode, dirty, nt));
    }
    title
}

pub open spec fn safe_mode_text(reason: Degradation) -> Seq<char> {
    "Modo seguro: "@ + explanation_text(reason) + ". Se muestra la fuente inerte."@
}

pub fn safe_mode_label(reason: Degradation) -> (t: String)
    ensures
        t@ == safe_mode_text(reason),
{
    let mut label = String::from_str("Modo seguro: ");
    label.append(reason.explanation());
    label.append(". Se muestra la fuente inerte.");
    label
}

/// Where the byte that toggles a task marker lies, and what replaces it:
/// only the middle byte of the first `[ ]`, `[x]` or `[X]` is touched.
pub open spec fn task_marker_edit(text: Seq<char>) -> Option<(int, Seq<char>)> {
    match find_byte(text, "[ ]"@) {
        Some(o) => Some((o + 1, "x"@)),
        None => match find_byte(text, "[x]"@) {
            Some(o) => Some((o + 1, " "@)),
            None => match find_byte(text, "[X]"@) {
                Some(o) => Some((o + 1, " "@)),
                None => None,
            },
        },
    }
}

proof fn lemma_marker_fits(text: Seq<char>, p: Seq<char>)
    requires
        utf8_len(p) == 3,
    ensures
        find_byte(text, p) matches Some(o) ==> o + 3 <= utf8_len(text),
{
    lemma_find_byte(text, p);
    if let Some(k) = first_occurrence(text, p) {
        lemma_byte_offset_bounds(text, k + p.len());
    }
}

pub fn task_marker_replacement(text: &str) -> (r: Option<(usize, &'static str)>)
    ensures
        match r {
            Some((at, with)) => task_marker_edit(text@) == Some((at as int, with@)),
            None => task_marker_edit(text@) is None,
        },
{
    proof {
        reveal_strlit("[ ]");
        reveal_strlit("[x]");
        reveal_strlit("[X]");
        lemma_utf8_len_ascii("[ ]"@);
        lemma_utf8_len_ascii("[x]"@);
        lemma_utf8_len_ascii("[X]"@);
        lemma_marker_fits(text@, "[ ]"@);
        lemma_marker_fits(text@, "[x]"@);
        lemma_marker_fits(text@, "[X]"@);
    }
    // Every match lies inside the text, whose length fits in a `usize`.
    let _len = byte_len(text);
    match find(text, "[ ]") {
        Some(offset) => {
            return Some((offset + 1, "x"));
        },
        None => {},
    }
    match find(text, "[x]") {
        Some(offset) => {
            return Some((offset + 1, " "));
        },
        None => {},
    }
    match find(text, "[X]") {
        Some(offset) => Some((offset + 1, " ")),
        None => None,
    }
}

/// A run of a block's text with its emphasis. `start..end` are byte offsets
/// into `Block::text`; `source` is the matching range of the Markdown source.
#[derive(Clone, Copy, Debug, PartialEq, Eq, Structural)]
pub struct Span {
    pub start: usize,
    pub end: usize,
    pub source: SourceRange,
    pub style: Emphasis,
}

/// Interactive meaning that must survive the flattening to visible text.
#[derive(Clone, Debug)]
pub struct InlineTarget {
    pub kind: InlineTargetKind,
    pub start: usize,
    pub end: usize,
    pub source: SourceRange,
    pub destination: String,
    pub title: String,
}

#[derive(Clone, Copy, Debug, PartialEq, Eq, Structural)]
pub enum CellAlignment {
    /// No alignment given in the delimiter row.
    Unset,
    Left,
    Center,
    Right,
}

/// A table cell: its style and targets are relative to the cell's own text.
#[derive(Clone, Debug)]
pub struct TableCell {
    pub source: SourceRange,
    pub text: String,
    pub spans: Vec<Span>,
    pub targets: Vec<InlineTarget>,
}

/// What kind of block the renderer draws.
#[derive(Clone, Copy, Debug, PartialEq, Eq, Structural)]
pub enum Kind {
    Heading(u8),
    Para,
    Item(u8),
    Code,
    TableRow { header: bool },
    Quote,
    /// A known callout inside a quote; still local text.
    Callout,
    /// A horizontal rule, without text.
    Rule,
}

/// How a list item is marked.
#[derive(Clone, Debug, PartialEq, Eq)]
pub enum Marker {
    /// Bullet or number, laid out as text.
    Text(String),
    /// Task box, drawn rather than written.
    Task { done: bool },
}

/// One block of the flattened document.
#[derive(Clone, Debug)]
pub struct Block {
    pub text: String,
    pub spans: Vec<Span>,
    pub source: SourceRange,
    pub targets: Vec<InlineTarget>,
    pub code_info: Option<String>,
    pub table_cells: Vec<TableCell>,
    pub table_alignments: Vec<CellAlignment>,
    pub quote_depth: u8,
    pub kind: Kind,
    pub marker: Option<Marker>,
}

impl Block {
    pub fn new(
        text: String,
        spans: Vec<Span>,
        kind: Kind,
        source: SourceRange,
        targets: Vec<InlineTarget>,
    ) -> (b: Block)
        ensures
            b.text == text,
            b.spans == spans,
            b.kind == kind,
            b.source == source,
            b.targets == targets,
            b.code_info is None,
            b.table_cells@.len() == 0,
            b.table_alignments@.len() == 0,
            b.quote_depth == 0,
            b.marker is None,
    {
        Block {
            text,
            spans,
            source,
            targets,
            code_info: None,
            table_cells: Vec::new(),
            table_alignments: Vec::new(),
            quote_depth: 0,
            kind,
            marker: None,
        }
    }
}

/// Appends a block unless its text is only white space.
pub fn push(
    out: &mut Vec<Block>,
    text: String,
    spans: Vec<Span>,
    kind: Kind,
    marker: Option<Marker>,
    source: SourceRange,
    targets: Vec<InlineTarget>,
)
    ensures
        trim_ws(text@).len() == 0 ==> final(out)@ == old(out)@,
        trim_ws(text@).len() > 0 ==> {
            &&& final(out)@.len() == old(out)@.len() + 1
            &&& final(out)@.take(old(out)@.len() as int) == old(out)@
            &&& final(out)@.last().text == text
            &&& final(out)@.last().spans == spans
            &&& final(out)@.last().kind == kind
            &&& final(out)@.last().marker == marker
            &&& final(out)@.last().source == source
            &&& final(out)@.last().targets == targets
            &&& final(out)@.last().quote_depth == 0
            &&& final(out)@.last().code_info is None
            &&& final(out)@.last().table_cells@.len() == 0
            &&& final(out)@.last().table_alignments@.len() == 0
        },
{
    if !trim(text.as_str()).is_empty() {
        let mut block = Block::new(text, spans, kind, source, targets);
        block.marker = marker;
        out.push(block);
    }
}

pub open spec fn repeat_text(s: Seq<char>, n: nat) -> Seq<char>
    decreases n,
{
    if n == 0 {
        Seq::<char>::empty()
    } else {
        repeat_text(s, (n - 1) as nat) + s
    }
}

/// What a reading copy puts before a whole block so that lists, tasks and
/// quotes stay recognisable once pasted elsewhere.
pub open spec fn block_prefix(block: Block) -> Seq<char> {
    match block.marker {
        Some(Marker::Text(m)) => m@ + " "@,
        Some(Marker::Task { done }) => if done {
            "[x] "@
        } else {
            "[ ] "@
        },
        None => if block.kind is Quote {
            repeat_text("> "@, if block.quote_depth == 0 { 1 } else { block.quote_depth as nat })
        } else {
            Seq::<char>::empty()
        },
    }
}

pub fn rendered_block_prefix(block: &Block) -> (r: String)
    ensures
        r@ == block_prefix(*block),
{
    proof {
        reveal_strlit("");
    }
    match &block.marker {
        Some(Marker::Text(m)) => {
            let mut r = m.clone();
            r.append(" ");
            r
        },
        Some(Marker::Task { done }) => {
            if *done {
                String::from_str("[x] ")
            } else {
                String::from_str("[ ] ")
            }
        },
        None => {
            match block.kind {
                Kind::Quote => {
                    let n: u8 = if block.quote_depth == 0 {
                        1
                    } else {
                        block.quote_depth
                    };
                    let mut r = String::new();
                    let mut i: u8 = 0;
                    while i < n
                        invariant
                            i <= n,
                            r@ == repeat_text("> "@, i as nat),
                        decreases n - i,
                    {
                        r.append("> ");
                        i = i + 1;
                    }
                    r
                },
                _ => String::new(),
            }
        },
    }
}

/// A reading position: a byte offset inside the rendered text of a block.
#[derive(Clone, Copy, Debug, PartialEq, Eq, Structural, PartialOrd, Ord)]
pub struct BlockCursor {
    pub block: usize,
    pub offset: usize,
}

/// The order of cursors: by block, then by offset.
pub open spec fn cursor_le(a: BlockCursor, b: BlockCursor) -> bool {
    a.block < b.block || (a.block == b.block && a.offset <= b.offset)
}

fn cursor_precedes(a: BlockCursor, b: BlockCursor) -> (r: bool)
    ensures
        r == cursor_le(a, b),
{
    a.block < b.block || (a.block == b.block && a.offset <= b.offset)
}

#[derive(Clone, Copy, Debug, PartialEq, Eq, Structural)]
pub struct DocumentSelection {
    pub anchor: BlockCursor,
    pub focus: BlockCursor,
}

pub open spec fn min_int(a: int, b: int) -> int {
    if a <= b {
        a
    } else {
        b
    }
}

impl DocumentSelection {
    /// The earlier end of the selection.
    pub open spec fn first(self) -> BlockCursor {
        if cursor_le(self.anchor, self.focus) {
            self.anchor
        } else {
            self.focus
        }
    }

    /// The later end of the selection.
    pub open spec fn last(self) -> BlockCursor {
        if cursor_le(self.anchor, self.focus) {
            self.focus
        } else {
            self.anchor
        }
    }

    /// The part of block `block` (with `len` bytes of text) that is selected:
    /// blocks in between are selected whole.
    pub open spec fn range_in(self, block: int, len: int) -> Option<(int, int)> {
        if block < self.first().block || block > self.last().block {
            None
        } else {
            Some(
                (
                    if block == self.first().block {
                        min_int(self.first().offset as int, len)
                    } else {
                        0
                    },
                    if block == self.last().block {
                        min_int(self.last().offset as int, len)
                    } else {
                        len
                    },
                ),
            )
        }
    }

    /// The rendered piece that block `index` contributes to a reading copy.
    pub open spec fn piece(self, blocks: Seq<Block>, index: int) -> Option<Seq<char>> {
        if index < 0 || index >= blocks.len() {
            None
        } else {
            let text = blocks[index].text@;
            match self.range_in(index, utf8_len(text) as int) {
                None => None,
                Some((start, end)) => if !valid_range(text, start, end) {
                    None
                } else if start == 0 && end == utf8_len(text) {
                    Some(block_prefix(blocks[index]) + slice_text(text, start, end))
                } else {
                    Some(slice_text(text, start, end))
                },
            }
        }
    }

    /// The pieces of the `n` blocks from `from` on, or `None` if one is missing.
    pub open spec fn pieces(self, blocks: Seq<Block>, from: int, n: nat) -> Option<
        Seq<Seq<char>>,
    >
        decreases n,
    {
        if n == 0 {
            Some(Seq::empty())
        } else {
            match self.pieces(blocks, from, (n - 1) as nat) {
                None => None,
                Some(ps) => match self.piece(blocks, from + n - 1) {
                    None => None,
                    Some(p) => Some(ps.push(p)),
                },
            }
        }
    }

    /// The reading copy: the selected pieces, one line each; nothing when empty.
    pub open spec fn rendered(self, blocks: Seq<Block>) -> Option<Seq<char>> {
        match self.pieces(
            blocks,
            self.first().block as int,
            (self.last().block - self.first().block + 1) as nat,
        ) {
            None => None,
            Some(ps) => if join_lines(ps).len() == 0 {
                None
            } else {
                Some(join_lines(ps))
            },
        }
    }

    /// The Markdown source covered by the whole selected blocks.
    pub open spec fn source_span(self, source: Seq<char>, blocks: Seq<Block>) -> Option<
        Seq<char>,
    > {
        let first = self.first().block as int;
        let last = self.last().block as int;
        if first >= blocks.len() || last >= blocks.len() {
            None
        } else {
            let start = blocks[first].source.start as int;
            let end = blocks[last].source.end as int;
            if !valid_range(source, start, end) || slice_text(source, start, end).len() == 0 {
                None
            } else {
                Some(slice_text(source, start, end))
            }
        }
    }

    pub fn collapsed(cursor: BlockCursor) -> (s: DocumentSelection)
        ensures
            s.anchor == cursor,
            s.focus == cursor,
    {
        DocumentSelection { anchor: cursor, focus: cursor }
    }

    /// The range to paint inside one block.
    pub fn range_for(self, block: usize, text_len: usize) -> (r: Option<(usize, usize)>)
        ensures
            match r {
                Some((a, b)) => self.range_in(block as int, text_len as int) == Some(
                    (a as int, b as int),
                ),
                None => self.range_in(block as int, text_len as int) is None,
            },
    {
        let (first, last) = if cursor_precedes(self.anchor, self.focus) {
            (self.anchor, self.focus)
        } else {
            (self.focus, self.anchor)
        };
        if block < first.block || block > last.block {
            return None;
        }
        let start = if block == first.block {
            if first.offset <= text_len {
                first.offset
            } else {
                text_len
            }
        } else {
            0
        };
        let end = if block == last.block {
            if last.offset <= text_len {
                last.offset
            } else {
                text_len
            }
        } else {
            text_len
        };
        Some((start, end))
    }

    /// A readable copy of the selection: each block's visible text, a line
    /// per block, whole blocks with their structural prefix.
    pub fn rendered_text(self, blocks: &[Block]) -> (r: Option<String>)
        ensures
            match r {
                Some(t) => self.rendered(blocks@) == Some(t@),
                None => self.rendered(blocks@) is None,
            },
    {
        let (first, last) = if cursor_precedes(self.anchor, self.focus) {
            (self.anchor, self.focus)
        } else {
            (self.focus, self.anchor)
        };
        let mut text = String::new();
        let ghost mut ps: Seq<Seq<char>> = Seq::empty();
        let mut index = first.block;
        assert(self.pieces(blocks@, first.block as int, 0) == Some(ps));
        loop
            invariant_except_break
                self.pieces(blocks@, first.block as int, (index - first.block) as nat) == Some(ps),
                text@ == join_lines(ps),
                ps.len() == index - first.block,
            invariant
                first == self.first(),
                last == self.last(),
                first.block <= index <= last.block,
            ensures
                self.pieces(blocks@, first.block as int, (last.block - first.block + 1) as nat)
                    == Some(ps),
                text@ == join_lines(ps),
            decreases last.block - index,
        {
            if index >= blocks.len() {
                proof {
                    lemma_pieces_missing(self, blocks@, first.block as int, index as int, (last.block
                        - first.block + 1) as nat);
                }
                return None;
            }
            let block = &blocks[index];
            let len = byte_len(block.text.as_str());
            let (start, end) = match self.range_for(index, len) {
                Some(r) => r,
                None => {
                    proof {
                        lemma_pieces_missing(self, blocks@, first.block as int, index as int, (
                        last.block - first.block + 1) as nat);
                    }
                    return None;
                },
            };
            let visible = match get(block.text.as_str(), start, end) {
                Some(t) => t,
                None => {
                    proof {
                        lemma_pieces_missing(self, blocks@, first.block as int, index as int, (
                        last.block - first.block + 1) as nat);
                    }
                    return None;
                },
            };
            let piece = if start == 0 && end == len {
                let mut p = rendered_block_prefix(block);
                p.append(visible);
                p
            } else {
                String::from_str(visible)
            };
            if index > first.block {
                text.append("\n");
            }
            text.append(piece.as_str());
            proof {
                let ghost n = (index - first.block) as nat;
                assert(self.piece(blocks@, first.block + n) == Some(piece@));
                assert(self.pieces(blocks@, first.block as int, n + 1) == Some(ps.push(piece@)));
                if ps.len() == 0 {
                    assert(join_lines(ps.push(piece@)) =~= piece@);
                } else {
                    assert(ps.push(piece@).drop_last() =~= ps);
                }
                ps = ps.push(piece@);
            }
            if index == last.block {
                break;
            }
            index = index + 1;
        }
        if text.as_str().is_empty() {
            None
        } else {
            Some(text)
        }
    }

    /// The original Markdown spanned by the selected blocks, whole.
    pub fn source_blocks(self, source: &str, blocks: &[Block]) -> (r: Option<String>)
        ensures
            match r {
                Some(t) => self.source_span(source@, blocks@) == Some(t@),
                None => self.source_span(source@, blocks@) is None,
            },
    {
        let first = if cursor_precedes(self.anchor, self.focus) {
            self.anchor.block
        } else {
            self.focus.block
        };
        let last = if cursor_precedes(self.anchor, self.focus) {
            self.focus.block
        } else {
            self.anchor.block
        };
        if first >= blocks.len() || last >= blocks.len() {
            return None;
        }
        let start = blocks[first].source.start;
        let end = blocks[last].source.end;
        match get(source, start, end) {
            Some(text) => if text.is_empty() {
                None
            } else {
                Some(String::from_str(text))
            },
            None => None,
        }
    }
}

/// Lines joined with a line feed between each two.
pub open spec fn join_lines(ps: Seq<Seq<char>>) -> Seq<char>
    decreases ps.len(),
{
    if ps.len() == 0 {
        Seq::<char>::empty()
    } else if ps.len() == 1 {
        ps[0]
    } else {
        join_lines(ps.drop_last()) + "\n"@ + ps.last()
    }
}

/// When the piece of block `index` is missing, so is every longer run of pieces.
proof fn lemma_pieces_missing(
    sel: DocumentSelection,
    blocks: Seq<Block>,
    from: int,
    index: int,
    n: nat,
)
    requires
        from <= index < from + n,
        sel.pieces(blocks, from, (index - from) as nat) is Some,
        sel.piece(blocks, index) is None,
    ensures
        sel.pieces(blocks, from, n) is None,
    decreases n,
{
    if n - 1 > index - from {
        lemma_pieces_missing(sel, blocks, from, index, (n - 1) as nat);
    }
}

/// Whether byte `b` of `s` falls between characters.
fn on_boundary(s: &str, b: usize) -> (r: bool)
    ensures
        r == is_boundary(s@, b as int),
{
    proof {
        lemma_vstd_char_boundary(s@, b as int);
    }
    s.is_char_boundary(b)
}

pub open spec fn kind_is_navigable(kind: InlineTargetKind) -> bool {
    kind is Link || kind is WikiLink
}

/// The navigable targets among the first `n` targets of block `bi`.
pub open spec fn navigable_in_block(block: Block, bi: int, n: nat) -> Seq<(usize, usize)>
    decreases n,
{
    if n == 0 {
        Seq::empty()
    } else {
        navigable_in_block(block, bi, (n - 1) as nat) + if kind_is_navigable(
            block.targets@[n - 1].kind,
        ) {
            seq![(bi as usize, (n - 1) as usize)]
        } else {
            Seq::empty()
        }
    }
}

/// The navigable targets of the first `n` blocks, in document order.
pub open spec fn navigable_links(blocks: Seq<Block>, n: nat) -> Seq<(usize, usize)>
    decreases n,
{
    if n == 0 {
        Seq::empty()
    } else {
        navigable_links(blocks, (n - 1) as nat) + navigable_in_block(
            blocks[n - 1],
            n - 1,
            blocks[n - 1].targets@.len(),
        )
    }
}

/// The stable order in which the keyboard visits links: images and other
/// targets without a safe action stay out.
pub fn link_targets_in_document_order(blocks: &[Block]) -> (v: Vec<(usize, usize)>)
    ensures
        v@ == navigable_links(blocks@, blocks@.len()),
{
    let mut links: Vec<(usize, usize)> = Vec::new();
    let mut bi: usize = 0;
    while bi < blocks.len()
        invariant
            bi <= blocks@.len(),
            links@ == navigable_links(blocks@, bi as nat),
        decreases blocks@.len() - bi,
    {
        let block = &blocks[bi];
        let mut ti: usize = 0;
        while ti < block.targets.len()
            invariant
                bi < blocks@.len(),
                *block == blocks@[bi as int],
                ti <= block.targets@.len(),
                links@ == navigable_links(blocks@, bi as nat) + navigable_in_block(
                    *block,
                    bi as int,
                    ti as nat,
                ),
            decreases block.targets@.len() - ti,
        {
            if block.targets[ti].kind.is_navigable() {
                links.push((bi, ti));
            }
            ti = ti + 1;
        }
        bi = bi + 1;
    }
    links
}

/// Index of the first occurrence of `t` in `links` at or after `i`.
pub open spec fn position_from(links: Seq<(usize, usize)>, t: (usize, usize), i: int) -> Option<
    int,
>
    decreases links.len() - i,
{
    if i < 0 || i >= links.len() {
        None
    } else if links[i] == t {
        Some(i)
    } else {
        position_from(links, t, i + 1)
    }
}

/// The link that focus moves to from `current`, forwards or backwards,
/// wrapping around; from no known link it goes to the first or the last.
pub open spec fn next_link(
    links: Seq<(usize, usize)>,
    current: Option<(usize, usize)>,
    backwards: bool,
) -> Option<(usize, usize)> {
    let pos = match current {
        Some(t) => position_from(links, t, 0),
        None => None,
    };
    match pos {
        Some(i) => if !backwards {
            Some(links[(i + 1) % (links.len() as int)])
        } else if i == 0 {
            Some(links.last())
        } else {
            Some(links[i - 1])
        },
        None => if links.len() == 0 {
            None
        } else if !backwards {
            Some(links[0])
        } else {
            Some(links.last())
        },
    }
}

proof fn lemma_position_from(links: Seq<(usize, usize)>, t: (usize, usize), i: int)
    requires
        0 <= i,
    ensures
        position_from(links, t, i) matches Some(k) ==> i <= k < links.len() && links[k] == t,
    decreases links.len() - i,
{
    if i < links.len() && links[i] != t {
        lemma_position_from(links, t, i + 1);
    }
}

fn position_of(links: &[(usize, usize)], t: (usize, usize)) -> (r: Option<usize>)
    ensures
        position_from(links@, t, 0) == match r {
            Some(k) => Some(k as int),
            None => None::<int>,
        },
        r matches Some(k) ==> k < links@.len(),
{
    let mut i: usize = 0;
    while i < links.len()
        invariant
            i <= links@.len(),
            position_from(links@, t, 0) == position_from(links@, t, i as int),
        decreases links@.len() - i,
    {
        let link = links[i];
        if link.0 == t.0 && link.1 == t.1 {
            assert(links@[i as int] == t);
            return Some(i);
        }
        i = i + 1;
    }
    None
}

pub fn next_link_target(
    links: &[(usize, usize)],
    current: Option<(usize, usize)>,
    backwards: bool,
) -> (r: Option<(usize, usize)>)
    ensures
        r == next_link(links@, current, backwards),
{
    let position = match current {
        Some(t) => position_of(links, t),
        None => None,
    };
    let n = links.len();
    match position {
        Some(index) => if !backwards {
            Some(links[(index + 1) % n])
        } else if index == 0 {
            Some(links[n - 1])
        } else {
            Some(links[index - 1])
        },
        None => if n == 0 {
            None
        } else if !backwards {
            Some(links[0])
        } else {
            Some(links[n - 1])
        },
    }
}

/// Indices, among the first `n` blocks, of those whose lower-cased text
/// contains the lower-cased query.
pub open spec fn matching_indices(blocks: Seq<Block>, query: Seq<char>, n: nat) -> Seq<usize>
    decreases n,
{
    if n == 0 {
        Seq::empty()
    } else {
        matching_indices(blocks, query, (n - 1) as nat) + if contains_seq(
            unicode_lowercase(blocks[n - 1].text@),
            unicode_lowercase(query),
        ) {
            seq![(n - 1) as usize]
        } else {
            Seq::empty()
        }
    }
}

/// Blocks that contain the query, compared after Unicode lower-casing; an
/// empty query matches nothing.
pub fn matching_block_indices(blocks: &[Block], query: &str) -> (v: Vec<usize>)
    ensures
        query@.len() == 0 ==> v@.len() == 0,
        query@.len() > 0 ==> v@ == matching_indices(blocks@, query@, blocks@.len()),
{
    let mut found: Vec<usize> = Vec::new();
    if query.is_empty() {
        return found;
    }
    let folded_query = to_lowercase(query);
    let mut i: usize = 0;
    while i < blocks.len()
        invariant
            i <= blocks@.len(),
            folded_query@ == unicode_lowercase(query@),
            found@ == matching_indices(blocks@, query@, i as nat),
        decreases blocks@.len() - i,
    {
        let folded = to_lowercase(blocks[i].text.as_str());
        if contains(folded.as_str(), folded_query.as_str()) {
            found.push(i);
        }
        i = i + 1;
    }
    found
}

/// A range of rendered text that a span or target may cover.
pub open spec fn rendered_range_ok(text: Seq<char>, start: int, end: int) -> bool {
    start < end && end <= utf8_len(text) && is_boundary(text, start) && is_boundary(text, end)
}

pub open spec fn source_ok(source: Seq<char>, r: SourceRange) -> bool {
    valid_range(source, r.start as int, r.end as int)
}

/// The first problem among the first `n` spans of a block.
pub open spec fn spans_problem(source: Seq<char>, text: Seq<char>, spans: Seq<Span>, n: nat) -> Option<
    Seq<char>,
>
    decreases n,
{
    if n == 0 {
        None
    } else {
        match spans_problem(source, text, spans, (n - 1) as nat) {
            Some(e) => Some(e),
            None => {
                let sp = spans[n - 1];
                if !rendered_range_ok(text, sp.start as int, sp.end as int) {
                    Some("rango renderizado invalido en tramo inline"@)
                } else if !source_ok(source, sp.source) {
                    Some("rango de fuente invalido en tramo inline"@)
                } else {
                    None
                }
            },
        }
    }
}

/// The first problem among the first `n` targets of a block.
pub open spec fn targets_problem(
    source: Seq<char>,
    text: Seq<char>,
    targets: Seq<InlineTarget>,
    n: nat,
) -> Option<Seq<char>>
    decreases n,
{
    if n == 0 {
        None
    } else {
        match targets_problem(source, text, targets, (n - 1) as nat) {
            Some(e) => Some(e),
            None => {
                let t = targets[n - 1];
                if !rendered_range_ok(text, t.start as int, t.end as int) {
                    Some("rango renderizado invalido en destino inline"@)
                } else if !source_ok(source, t.source) {
                    Some("rango de fuente invalido en destino inline"@)
                } else {
                    None
                }
            },
        }
    }
}

/// What is wrong with a block of the model, checked in a fixed order.
pub open spec fn block_problem(source: Seq<char>, b: Block) -> Option<Seq<char>> {
    if !source_ok(source, b.source) {
        Some("rango de fuente invalido en bloque"@)
    } else {
        match spans_problem(source, b.text@, b.spans@, b.spans@.len()) {
            Some(e) => Some(e),
            None => match targets_problem(source, b.text@, b.targets@, b.targets@.len()) {
                Some(e) => Some(e),
                None => if exists|i: int|
                    0 <= i < b.table_cells@.len() && !source_ok(
                        source,
                        #[trigger] b.table_cells@[i].source,
                    ) {
                    Some("rango de fuente invalido en celda"@)
                } else if b.kind is TableRow && b.table_alignments@.len()
                    != b.table_cells@.len() {
                    Some("cantidad de alineaciones invalida en tabla"@)
                } else {
                    None
                },
            },
        }
    }
}

/// The first problem among the first `n` blocks.
pub open spec fn model_problem(source: Seq<char>, blocks: Seq<Block>, n: nat) -> Option<Seq<char>>
    decreases n,
{
    if n == 0 {
        None
    } else {
        match model_problem(source, blocks, (n - 1) as nat) {
            Some(e) => Some(e),
            None => block_problem(source, blocks[n - 1]),
        }
    }
}

fn check_block(source: &str, block: &Block) -> (r: Result<(), &'static str>)
    ensures
        match r {
            Ok(()) => block_problem(source@, *block) is None,
            Err(e) => block_problem(source@, *block) == Some(e@),
        },
{
    if !block.source.is_valid_for(source) {
        return Err("rango de fuente invalido en bloque");
    }
    let text = block.text.as_str();
    let len = byte_len(text);
    let mut i: usize = 0;
    while i < block.spans.len()
        invariant
            i <= block.spans@.len(),
            source_ok(source@, block.source),
            text@ == block.text@,
            len == utf8_len(text@),
            spans_problem(source@, text@, block.spans@, i as nat) is None,
        decreases block.spans@.len() - i,
    {
        let span = block.spans[i];
        if span.start >= span.end || span.end > len || !on_boundary(text, span.start)
            || !on_boundary(text, span.end) {
            proof {
                lemma_spans_problem_sticks(source@, text@, block.spans@, (i + 1) as nat, block.spans@.len());
            }
            return Err("rango renderizado invalido en tramo inline");
        }
        if !span.source.is_valid_for(source) {
            proof {
                lemma_spans_problem_sticks(source@, text@, block.spans@, (i + 1) as nat, block.spans@.len());
            }
            return Err("rango de fuente invalido en tramo inline");
        }
        i = i + 1;
    }
    let mut i: usize = 0;
    while i < block.targets.len()
        invariant
            i <= block.targets@.len(),
            source_ok(source@, block.source),
            text@ == block.text@,
            len == utf8_len(text@),
            spans_problem(source@, text@, block.spans@, block.spans@.len()) is None,
            targets_problem(source@, text@, block.targets@, i as nat) is None,
        decreases block.targets@.len() - i,
    {
        let target = &block.targets[i];
        if target.start >= target.end || target.end > len || !on_boundary(text, target.start)
            || !on_boundary(text, target.end) {
            proof {
                lemma_targets_problem_sticks(source@, text@, block.targets@, (i + 1) as nat, block.targets@.len());
            }
            return Err("rango renderizado invalido en destino inline");
        }
        if !target.source.is_valid_for(source) {
            proof {
                lemma_targets_problem_sticks(source@, text@, block.targets@, (i + 1) as nat, block.targets@.len());
            }
            return Err("rango de fuente invalido en destino inline");
        }
        i = i + 1;
    }
    let mut i: usize = 0;
    while i < block.table_cells.len()
        invariant
            i <= block.table_cells@.len(),
            source_ok(source@, block.source),
            text@ == block.text@,
            spans_problem(source@, text@, block.spans@, block.spans@.len()) is None,
            targets_problem(source@, text@, block.targets@, block.targets@.len()) is None,
            forall|j: int| 0 <= j < i ==> source_ok(source@, #[trigger] block.table_cells@[j].source),
        decreases block.table_cells@.len() - i,
    {
        if !block.table_cells[i].source.is_valid_for(source) {
            assert(!source_ok(source@, block.table_cells@[i as int].source));
            return Err("rango de fuente invalido en celda");
        }
        i = i + 1;
    }
    match block.kind {
        Kind::TableRow { .. } => {
            if block.table_alignments.len() != block.table_cells.len() {
                return Err("cantidad de alineaciones invalida en tabla");
            }
        },
        _ => {},
    }
    Ok(())
}

/// Checks the model's invariants before it reaches layout: a corrupt range
/// must neither reach the renderer nor wait for the editor.
pub fn validate_model(source: &str, blocks: &[Block]) -> (r: Result<(), &'static str>)
    ensures
        match r {
            Ok(()) => model_problem(source@, blocks@, blocks@.len()) is None,
            Err(e) => model_problem(source@, blocks@, blocks@.len()) == Some(e@),
        },
{
    let mut i: usize = 0;
    while i < blocks.len()
        invariant
            i <= blocks@.len(),
            model_problem(source@, blocks@, i as nat) is None,
        decreases blocks@.len() - i,
    {
        match check_block(source, &blocks[i]) {
            Ok(()) => {},
            Err(e) => {
                proof {
                    lemma_model_problem_sticks(source@, blocks@, (i + 1) as nat, blocks@.len());
                }
                return Err(e);
            },
        }
        i = i + 1;
    }
    Ok(())
}

proof fn lemma_spans_problem_sticks(
    source: Seq<char>,
    text: Seq<char>,
    spans: Seq<Span>,
    m: nat,
    n: nat,
)
    requires
        m <= n,
        spans_problem(source, text, spans, m) is Some,
    ensures
        spans_problem(source, text, spans, n) == spans_problem(source, text, spans, m),
    decreases n - m,
{
    if m < n {
        lemma_spans_problem_sticks(source, text, spans, m, (n - 1) as nat);
    }
}

proof fn lemma_targets_problem_sticks(
    source: Seq<char>,
    text: Seq<char>,
    targets: Seq<InlineTarget>,
    m: nat,
    n: nat,
)
    requires
        m <= n,
        targets_problem(source, text, targets, m) is Some,
    ensures
        targets_problem(source, text, targets, n) == targets_problem(source, text, targets, m),
    decreases n - m,
{
    if m < n {
        lemma_targets_problem_sticks(source, text, targets, m, (n - 1) as nat);
    }
}

/// Once a problem is found, longer prefixes report the same one.
proof fn lemma_model_problem_sticks(source: Seq<char>, blocks: Seq<Block>, m: nat, n: nat)
    requires
        m <= n,
        model_problem(source, blocks, m) is Some,
    ensures
        model_problem(source, blocks, n) == model_problem(source, blocks, m),
    decreases n - m,
{
    if m < n {
        lemma_model_problem_sticks(source, blocks, m, (n - 1) as nat);
    }
}

pub open spec fn opening_failure_text() -> Seq<char> {
    "No se pudo abrir este documento. Revisa que exista, que sea legible y que no supere el límite de apertura."@
}

/// What a session whose opening failed shows: a fixed message that carries
/// no system detail, as a single paragraph covering the whole source.
pub fn opening_failure_blocks() -> (r: (String, Vec<Block>))
    ensures
        r.0@ == opening_failure_text(),
        r.1@.len() == 1,
        r.1@[0].text@ == r.0@,
        r.1@[0].kind == Kind::Para,
        r.1@[0].source == (SourceRange { start: 0, end: utf8_len(r.0@) as usize }),
        r.1@[0].spans@.len() == 0,
        r.1@[0].targets@.len() == 0,
        r.1@[0].marker is None,
{
    let source = String::from_str(
        "No se pudo abrir este documento. Revisa que exista, que sea legible y que no supere el límite de apertura.",
    );
    let len = byte_len(source.as_str());
    let block = Block::new(
        source.clone(),
        Vec::new(),
        Kind::Para,
        SourceRange { start: 0, end: len },
        Vec::new(),
    );
    (source, vec![block])
}

/// The few HTML tags that become native text style. They create no DOM,
/// take no attributes and load nothing; any other HTML stays visible source.
#[derive(Clone, Copy, Debug, PartialEq, Eq, Structural)]
pub enum NativeHtml {
    Break,
    Open(HtmlSemantic),
    Close(HtmlSemantic),
}

#[derive(Clone, Copy, Debug, PartialEq, Eq, Structural)]
pub enum HtmlSemantic {
    Kbd,
    Mark,
    Sub,
    Sup,
}

pub open spec fn native_html_of(html: Seq<char>) -> Option<NativeHtml> {
    let t = ascii_lowercase(trim_ws(html));
    if t == "<br>"@ || t == "<br/>"@ || t == "<br />"@ {
        Some(NativeHtml::Break)
    } else if t == "<kbd>"@ {
        Some(NativeHtml::Open(HtmlSemantic::Kbd))
    } else if t == "</kbd>"@ {
        Some(NativeHtml::Close(HtmlSemantic::Kbd))
    } else if t == "<mark>"@ {
        Some(NativeHtml::Open(HtmlSemantic::Mark))
    } else if t == "</mark>"@ {
        Some(NativeHtml::Close(HtmlSemantic::Mark))
    } else if t == "<sub>"@ {
        Some(NativeHtml::Open(HtmlSemantic::Sub))
    } else if t == "</sub>"@ {
        Some(NativeHtml::Close(HtmlSemantic::Sub))
    } else if t == "<sup>"@ {
        Some(NativeHtml::Open(HtmlSemantic::Sup))
    } else if t == "</sup>"@ {
        Some(NativeHtml::Close(HtmlSemantic::Sup))
    } else {
        None
    }
}

pub fn native_html(html: &str) -> (r: Option<NativeHtml>)
    ensures
        r == native_html_of(html@),
{
    let lowered = to_ascii_lowercase(trim(html));
    let t = lowered.as_str();
    if str_equals(t, "<br>") || str_equals(t, "<br/>") || str_equals(t, "<br />") {
        Some(NativeHtml::Break)
    } else if str_equals(t, "<kbd>") {
        Some(NativeHtml::Open(HtmlSemantic::Kbd))
    } else if str_equals(t, "</kbd>") {
        Some(NativeHtml::Close(HtmlSemantic::Kbd))
    } else if str_equals(t, "<mark>") {
        Some(NativeHtml::Open(HtmlSemantic::Mark))
    } else if str_equals(t, "</mark>") {
        Some(NativeHtml::Close(HtmlSemantic::Mark))
    } else if str_equals(t, "<sub>") {
        Some(NativeHtml::Open(HtmlSemantic::Sub))
    } else if str_equals(t, "</sub>") {
        Some(NativeHtml::Close(HtmlSemantic::Sub))
    } else if str_equals(t, "<sup>") {
        Some(NativeHtml::Open(HtmlSemantic::Sup))
    } else if str_equals(t, "</sup>") {
        Some(NativeHtml::Close(HtmlSemantic::Sup))
    } else {
        None
    }
}

impl HtmlSemantic {
    /// The emphasis with this tag's flag turned on.
    pub open spec fn applied(self, style: Emphasis) -> Emphasis {
        match self {
            HtmlSemantic::Kbd => Emphasis { kbd: true, ..style },
            HtmlSemantic::Mark => Emphasis { mark: true, ..style },
            HtmlSemantic::Sub => Emphasis { sub: true, ..style },
            HtmlSemantic::Sup => Emphasis { sup: true, ..style },
        }
    }

    pub fn apply(self, style: &mut Emphasis)
        ensures
            *final(style) == self.applied(*old(style)),
    {
        match self {
            HtmlSemantic::Kbd => style.kbd = true,
            HtmlSemantic::Mark => style.mark = true,
            HtmlSemantic::Sub => style.sub = true,
            HtmlSemantic::Sup => style.sup = true,
        }
    }
}

/// Destination and visible label of an Obsidian wikilink `target|alias`;
/// nothing for an empty target or one that spans lines.
pub open spec fn wikilink_of(raw: Seq<char>) -> Option<(Seq<char>, Seq<char>)> {
    let r = trim_ws(raw);
    let (target, alias) = match first_occurrence(r, "|"@) {
        Some(k) => (trim_ws(r.take(k)), Some(trim_ws(r.skip(k + 1)))),
        None => (r, None),
    };
    if target.len() == 0 || contains_seq(target, "\r"@) || contains_seq(target, "\n"@) {
        None
    } else {
        Some(
            (
                target,
                match alias {
                    Some(a) => if a.len() > 0 {
                        a
                    } else {
                        target
                    },
                    None => target,
                },
            ),
        )
    }
}

/// The characters before and after a one-byte separator found by `find`.
pub fn wikilink_parts(raw: &str) -> (r: Option<(String, String)>)
    ensures
        match r {
            Some((target, label)) => wikilink_of(raw@) == Some((target@, label@)),
            None => wikilink_of(raw@) is None,
        },
{
    proof {
        reveal_strlit("|");
        lemma_utf8_len_ascii("|"@);
    }
    let raw = trim(raw);
    let (target, alias) = match find(raw, "|") {
        Some(at) => {
            proof {
                crate::strings::lemma_split_at(raw@, "|"@);
            }
            let len = byte_len(raw);
            (trim(slice(raw, 0, at)), Some(trim(slice(raw, at + 1, len))))
        },
        None => (raw, None),
    };
    if target.is_empty() || contains(target, "\r") || contains(target, "\n") {
        return None;
    }
    let label = match alias {
        Some(a) => if a.is_empty() {
            target
        } else {
            a
        },
        None => target,
    };
    Some((String::from_str(target), String::from_str(label)))
}

pub open spec fn heading_key_of(text: Seq<char>) -> Seq<char> {
    unicode_lowercase(trim_ws(trim_end_char(trim_ws(text), '#')))
}

/// The key under which a heading is looked up: trimmed, without closing
/// `#`s, lower-cased.
pub fn heading_key(text: &str) -> (k: String)
    ensures
        k@ == heading_key_of(text@),
{
    to_lowercase(trim(trim_end_matches_char(trim(text), '#')))
}

#[derive(Clone, Copy, Debug, PartialEq, Eq, Structural)]
pub enum CalloutKind {
    Note,
    Info,
    Tip,
    Warning,
    Danger,
}

pub open spec fn callout_label(kind: CalloutKind) -> Seq<char> {
    match kind {
        CalloutKind::Note => "Nota"@,
        CalloutKind::Info => "Info"@,
        CalloutKind::Tip => "Consejo"@,
        CalloutKind::Warning => "Atención"@,
        CalloutKind::Danger => "Peligro"@,
    }
}

impl CalloutKind {
    pub fn label(self) -> (r: &'static str)
        ensures
            r@ == callout_label(self),
    {
        match self {
            CalloutKind::Note => "Nota",
            CalloutKind::Info => "Info",
            CalloutKind::Tip => "Consejo",
            CalloutKind::Warning => "Atención",
            CalloutKind::Danger => "Peligro",
        }
    }
}

/// The callout a lower-cased name stands for, among the known ones.
pub open spec fn callout_named(name: Seq<char>) -> Option<CalloutKind> {
    if name == "note"@ {
        Some(CalloutKind::Note)
    } else if name == "info"@ {
        Some(CalloutKind::Info)
    } else if name == "tip"@ {
        Some(CalloutKind::Tip)
    } else if name == "warning"@ || name == "caution"@ {
        Some(CalloutKind::Warning)
    } else if name == "danger"@ || name == "important"@ {
        Some(CalloutKind::Danger)
    } else {
        None
    }
}

/// First byte at or after `p` that is not a space or a tab.
pub open spec fn skip_blanks(bytes: Seq<u8>, p: int) -> int
    decreases bytes.len() - p,
{
    if 0 <= p < bytes.len() && (bytes[p] == 32u8 || bytes[p] == 9u8) {
        skip_blanks(bytes, p + 1)
    } else {
        p
    }
}

/// A known callout opening `[!kind]`, and how many bytes of the first visible
/// line it takes (with an optional `+`/`-` fold mark and following blanks).
pub open spec fn callout_of(text: Seq<char>) -> Option<(CalloutKind, int)> {
    if !seq_starts_with(text, "[!"@) {
        None
    } else {
        let rest = text.skip(2);
        match first_occurrence(rest, "]"@) {
            None => None,
            Some(k) => match callout_named(ascii_lowercase(rest.take(k))) {
                None => None,
                Some(kind) => {
                    let bytes = encode_utf8(text);
                    let p0: int = byte_offset(rest, k) as int + 3;
                    let p1: int = if p0 < bytes.len() && (bytes[p0] == 43u8 || bytes[p0] == 45u8) {
                        p0 + 1
                    } else {
                        p0
                    };
                    Some((kind, skip_blanks(bytes, p1)))
                },
            },
        }
    }
}

fn callout_kind_for(name: &str) -> (r: Option<CalloutKind>)
    ensures
        r == callout_named(name@),
{
    if str_equals(name, "note") {
        Some(CalloutKind::Note)
    } else if str_equals(name, "info") {
        Some(CalloutKind::Info)
    } else if str_equals(name, "tip") {
        Some(CalloutKind::Tip)
    } else if str_equals(name, "warning") || str_equals(name, "caution") {
        Some(CalloutKind::Warning)
    } else if str_equals(name, "danger") || str_equals(name, "important") {
        Some(CalloutKind::Danger)
    } else {
        None
    }
}

pub fn callout_prefix(text: &str) -> (r: Option<(CalloutKind, usize)>)
    ensures
        match r {
            Some((kind, n)) => callout_of(text@) == Some((kind, n as int)),
            None => callout_of(text@) is None,
        },
{
    proof {
        reveal_strlit("[!");
        reveal_strlit("]");
        lemma_utf8_len_ascii("]"@);
    }
    if !starts_with(text, "[!") {
        return None;
    }
    let len = byte_len(text);
    proof {
        let t = text@;
        assert(t.take(2) =~= "[!"@);
        lemma_utf8_len_ascii("[!"@);
        assert(t =~= t.take(2) + t.skip(2));
        lemma_utf8_len_concat(t.take(2), t.skip(2));
        lemma_char_index(t, 2);
        lemma_ends_are_boundaries(t);
    }
    let rest = slice(text, 2, len);
    proof {
        assert(rest@ =~= text@.skip(2));
    }
    let close = match find(rest, "]") {
        Some(c) => c,
        None => return None,
    };
    proof {
        crate::strings::lemma_split_at(rest@, "]"@);
        lemma_find_byte(rest@, "]"@);
        let k = first_occurrence(rest@, "]"@)->0;
        lemma_byte_offset_bounds(rest@, k + 1);
    }
    let name = to_ascii_lowercase(slice(rest, 0, close));
    let kind = match callout_kind_for(name.as_str()) {
        Some(k) => k,
        None => return None,
    };
    let bytes = text.as_bytes();
    let mut prefix: usize = 2 + close + 1;
    if prefix < bytes.len() && (bytes[prefix] == 43u8 || bytes[prefix] == 45u8) {
        prefix = prefix + 1;
    }
    let ghost p1 = prefix as int;
    while prefix < bytes.len() && (bytes[prefix] == 32u8 || bytes[prefix] == 9u8)
        invariant
            bytes@ == encode_utf8(text@),
            p1 <= prefix <= bytes@.len() || prefix == p1,
            skip_blanks(bytes@, p1) == skip_blanks(bytes@, prefix as int),
        decreases bytes@.len() - prefix,
    {
        prefix = prefix + 1;
    }
    Some((kind, prefix))
}

/// A rendered range after the first `prefix` bytes are cut: ranges that end
/// inside the cut go, ranges that straddle it are clipped, empty ones go.
pub open spec fn shift_range(start: int, end: int, prefix: int) -> Option<(int, int)> {
    if end <= prefix {
        None
    } else {
        let s = if start >= prefix {
            start - prefix
        } else {
            0
        };
        if s < end - prefix {
            Some((s, end - prefix))
        } else {
            None
        }
    }
}

pub open spec fn shifted_spans(spans: Seq<Span>, prefix: int) -> Seq<Span>
    decreases spans.len(),
{
    if spans.len() == 0 {
        Seq::empty()
    } else {
        let sp = spans.last();
        shifted_spans(spans.drop_last(), prefix) + match shift_range(
            sp.start as int,
            sp.end as int,
            prefix,
        ) {
            Some((a, b)) => seq![Span { start: a as usize, end: b as usize, ..sp }],
            None => Seq::empty(),
        }
    }
}

pub open spec fn shifted_targets(targets: Seq<InlineTarget>, prefix: int) -> Seq<InlineTarget>
    decreases targets.len(),
{
    if targets.len() == 0 {
        Seq::empty()
    } else {
        let t = targets.last();
        shifted_targets(targets.drop_last(), prefix) + match shift_range(
            t.start as int,
            t.end as int,
            prefix,
        ) {
            Some((a, b)) => seq![InlineTarget { start: a as usize, end: b as usize, ..t }],
            None => Seq::empty(),
        }
    }
}

/// Cuts the first `prefix` bytes of a block's text, keeping its spans and
/// targets on the same characters; an offset that is zero, past the end or
/// inside a character leaves the block as it was.
pub fn remove_rendered_prefix(block: &mut Block, prefix: usize)
    ensures
        (prefix == 0 || prefix > utf8_len(old(block).text@) || !is_boundary(
            old(block).text@,
            prefix as int,
        )) ==> *final(block) == *old(block),
        (prefix != 0 && prefix <= utf8_len(old(block).text@) && is_boundary(
            old(block).text@,
            prefix as int,
        )) ==> {
            &&& final(block).text@ == old(block).text@.skip(char_index(old(block).text@, prefix as int))
            &&& final(block).spans@ == shifted_spans(old(block).spans@, prefix as int)
            &&& final(block).targets@ == shifted_targets(old(block).targets@, prefix as int)
            &&& final(block).source == old(block).source
            &&& final(block).code_info == old(block).code_info
            &&& final(block).table_cells == old(block).table_cells
            &&& final(block).table_alignments == old(block).table_alignments
            &&& final(block).quote_depth == old(block).quote_depth
            &&& final(block).kind == old(block).kind
            &&& final(block).marker == old(block).marker
        },
{
    let len = byte_len(block.text.as_str());
    if prefix == 0 || prefix > len || !on_boundary(block.text.as_str(), prefix) {
        return;
    }
    proof {
        lemma_ends_are_boundaries(block.text@);
        lemma_boundary_char_index(block.text@, prefix as int);
    }
    let rest = String::from_str(slice(block.text.as_str(), prefix, len));
    block.text = rest;

    let mut spans: Vec<Span> = Vec::new();
    let mut i: usize = 0;
    while i < block.spans.len()
        invariant
            i <= block.spans@.len(),
            spans@ == shifted_spans(block.spans@.take(i as int), prefix as int),
        decreases block.spans@.len() - i,
    {
        let sp = block.spans[i];
        proof {
            assert(block.spans@.take(i + 1).drop_last() =~= block.spans@.take(i as int));
        }
        if sp.end > prefix {
            let start = if sp.start >= prefix {
                sp.start - prefix
            } else {
                0
            };
            let end = sp.end - prefix;
            if start < end {
                spans.push(Span { start, end, ..sp });
            }
        }
        i = i + 1;
    }
    proof {
        assert(block.spans@.take(block.spans@.len() as int) =~= block.spans@);
    }
    block.spans = spans;

    let mut old_targets: Vec<InlineTarget> = Vec::new();
    std::mem::swap(&mut old_targets, &mut block.targets);
    let ghost all = old_targets@;
    assert(all.len() == old_targets.len());
    let mut targets: Vec<InlineTarget> = Vec::new();
    let mut i: usize = 0;
    while old_targets.len() > 0
        invariant
            i + old_targets@.len() == all.len(),
            all.len() <= usize::MAX,
            old_targets@ == all.skip(i as int),
            targets@ == shifted_targets(all.take(i as int), prefix as int),
        decreases old_targets@.len(),
    {
        let t = old_targets.remove(0);
        proof {
            assert(all.take(i + 1).drop_last() =~= all.take(i as int));
            assert(all.skip(i + 1) =~= old_targets@);
        }
        if t.end > prefix {
            let start = if t.start >= prefix {
                t.start - prefix
            } else {
                0
            };
            let end = t.end - prefix;
            if start < end {
                targets.push(InlineTarget { start, end, ..t });
            }
        }
        i = i + 1;
    }
    proof {
        assert(all.take(i as int) =~= all);
    }
    block.targets = targets;
}

/// A selection paints the same ranges whichever end is the anchor.
pub proof fn lemma_selection_direction_irrelevant(
    anchor: BlockCursor,
    focus: BlockCursor,
    block: int,
    len: int,
)
    ensures
        (DocumentSelection { anchor, focus }).range_in(block, len) == (DocumentSelection {
            anchor: focus,
            focus: anchor,
        }).range_in(block, len),
{
}

/// Moving focus forward and then backward comes back to the same link,
/// when no link appears twice.
pub proof fn lemma_next_then_previous_link(links: Seq<(usize, usize)>, i: int)
    requires
        0 <= i < links.len(),
        forall|a: int, b: int| 0 <= a < b < links.len() ==> links[a] != links[b],
    ensures
        next_link(links, next_link(links, Some(links[i]), false), true) == Some(links[i]),
{
    let n = links.len() as int;
    lemma_first_position(links, i);
    let j = (i + 1) % n;
    if i + 1 < n {
        assert(j == i + 1) by {
            vstd::arithmetic::div_mod::lemma_small_mod((i + 1) as nat, n as nat);
        }
    } else {
        assert(j == 0) by {
            vstd::arithmetic::div_mod::lemma_mod_self_0(n);
        }
    }
    lemma_first_position(links, j);
}

proof fn lemma_first_position(links: Seq<(usize, usize)>, i: int)
    requires
        0 <= i < links.len(),
        forall|a: int, b: int| 0 <= a < b < links.len() ==> links[a] != links[b],
    ensures
        position_from(links, links[i], 0) == Some(i),
{
    lemma_position_from_before(links, links[i], 0, i);
}

proof fn lemma_position_from_before(links: Seq<(usize, usize)>, t: (usize, usize), k: int, i: int)
    requires
        0 <= k <= i < links.len(),
        links[i] == t,
        forall|a: int, b: int| 0 <= a < b < links.len() ==> links[a] != links[b],
    ensures
        position_from(links, t, k) == Some(i),
    decreases i - k,
{
    if k < i {
        assert(links[k] != links[i]);
        lemma_position_from_before(links, t, k + 1, i);
    }
}

/// A line and a column, both counted from one, the column in bytes.
#[derive(Clone, Copy, Debug, PartialEq, Eq, Structural)]
pub struct LineColumn {
    pub line: usize,
    pub column: usize,
}

/// Where a node of the Markdown tree starts and ends, its end column on the
/// node's last byte.
#[derive(Clone, Copy, Debug, PartialEq, Eq, Structural)]
pub struct Sourcepos {
    pub start: LineColumn,
    pub end: LineColumn,
}

/// Byte offsets at which the lines of a source start, to turn lines and
/// columns into byte ranges without walking the file for each node.
#[derive(Clone, Debug)]
pub struct SourceIndex {
    pub line_starts: Vec<usize>,
    pub len: usize,
}

/// Offsets of line starts among the first `n` bytes: zero, then one past
/// each line feed.
pub open spec fn line_starts_of(bytes: Seq<u8>, n: nat) -> Seq<usize>
    decreases n,
{
    if n == 0 {
        seq![0usize]
    } else {
        line_starts_of(bytes, (n - 1) as nat) + if bytes[n - 1] == 10u8 {
            seq![n as usize]
        } else {
            Seq::empty()
        }
    }
}

pub open spec fn sat_add(a: int, b: int) -> int {
    if a + b <= usize::MAX {
        a + b
    } else {
        usize::MAX as int
    }
}

pub open spec fn sat_sub(a: int, b: int) -> int {
    if a >= b {
        a - b
    } else {
        0
    }
}

impl SourceIndex {
    /// The start of line `line` (counted from one), or the end of the source
    /// past the last line.
    pub open spec fn line_offset(self, line: usize) -> int {
        let i = sat_sub(line as int, 1);
        if i < self.line_starts@.len() {
            self.line_starts@[i] as int
        } else {
            self.len as int
        }
    }

    /// The half-open byte range of a position, clamped to the source.
    pub open spec fn range_of_pos(self, pos: Sourcepos) -> SourceRange {
        let start = min_int(
            sat_add(self.line_offset(pos.start.line), sat_sub(pos.start.column as int, 1)),
            self.len as int,
        );
        let end = min_int(sat_add(self.line_offset(pos.end.line), pos.end.column as int), self.len as int);
        SourceRange { start: start as usize, end: if end >= start { end as usize } else { start as usize } }
    }

    pub fn new(source: &str) -> (i: SourceIndex)
        ensures
            i.line_starts@ == line_starts_of(vstd::utf8::encode_utf8(source@), utf8_len(source@)),
            i.len == utf8_len(source@),
    {
        let bytes = source.as_bytes();
        let mut line_starts: Vec<usize> = vec![0];
        let mut i: usize = 0;
        while i < bytes.len()
            invariant
                i <= bytes@.len(),
                bytes@ == vstd::utf8::encode_utf8(source@),
                line_starts@ == line_starts_of(bytes@, i as nat),
            decreases bytes@.len() - i,
        {
            if bytes[i] == 10u8 {
                line_starts.push(i + 1);
            }
            i = i + 1;
        }
        SourceIndex { line_starts, len: bytes.len() }
    }

    fn line_offset_exec(&self, line: usize) -> (r: usize)
        ensures
            r == self.line_offset(line),
    {
        let i = line.saturating_sub(1);
        if i < self.line_starts.len() {
            self.line_starts[i]
        } else {
            self.len
        }
    }

    /// Turns a parser position into a byte range of the source; the end
    /// column points at the last byte, so it is not decremented.
    pub fn range(&self, pos: Sourcepos) -> (r: SourceRange)
        ensures
            r == self.range_of_pos(pos),
    {
        let start_line = self.line_offset_exec(pos.start.line);
        let end_line = self.line_offset_exec(pos.end.line);
        let mut start = start_line.saturating_add(pos.start.column.saturating_sub(1));
        if start > self.len {
            start = self.len;
        }
        let mut end = end_line.saturating_add(pos.end.column);
        if end > self.len {
            end = self.len;
        }
        SourceRange { start, end: if end >= start { end } else { start } }
    }
}

/// The lines of a text with their line feeds, as `str::split_inclusive('\n')`
/// gives them.
pub open spec fn raw_lines(s: Seq<char>) -> Seq<Seq<char>>
    decreases s.len(),
{
    if s.len() == 0 {
        Seq::empty()
    } else {
        match first_occurrence(s, "\n"@) {
            Some(k) => if 0 <= k < s.len() {
                seq![s.take(k + 1)] + raw_lines(s.skip(k + 1))
            } else {
                seq![s]
            },
            None => seq![s],
        }
    }
}

/// A line without its line feed and then without a carriage return.
pub open spec fn strip_line_end(r: Seq<char>) -> Seq<char> {
    let a = if r.len() > 0 && r.last() == '\n' {
        r.drop_last()
    } else {
        r
    };
    if a.len() > 0 && a.last() == '\r' {
        a.drop_last()
    } else {
        a
    }
}

/// The pieces of a line's text from byte `cs` on: as long as allowed, cut
/// back to a character boundary. `b` is where the line starts in the source
/// and `e` where its line feed ends; the last piece covers up to `e`.
pub open spec fn chunks_from(t: Seq<char>, cs: int, b: int, e: int) -> Seq<(Seq<char>, SourceRange)>
    decreases utf8_len(t) - cs,
{
    let len = utf8_len(t) as int;
    if cs >= len {
        Seq::empty()
    } else {
        let ce = boundary_at_or_before(t, min_int(cs + MAX_SAFE_LINE_BYTES, len));
        if ce <= cs || ce > len {
            Seq::empty()
        } else {
            let piece = (
                slice_text(t, cs, ce),
                SourceRange {
                    start: (b + cs) as usize,
                    end: if ce == len {
                        e as usize
                    } else {
                        (b + ce) as usize
                    },
                },
            );
            if ce == len {
                seq![piece]
            } else {
                seq![piece] + chunks_from(t, ce, b, e)
            }
        }
    }
}

/// The safe-view blocks of one raw line starting at byte `b`.
pub open spec fn line_blocks(r: Seq<char>, b: int) -> Seq<(Seq<char>, SourceRange)> {
    let t = strip_line_end(r);
    if t.len() == 0 {
        seq![(t, SourceRange { start: b as usize, end: (b + utf8_len(r)) as usize })]
    } else {
        chunks_from(t, 0, b, b + utf8_len(r))
    }
}

pub open spec fn all_line_blocks(lines: Seq<Seq<char>>, b: int) -> Seq<(Seq<char>, SourceRange)>
    decreases lines.len(),
{
    if lines.len() == 0 {
        Seq::empty()
    } else {
        line_blocks(lines[0], b) + all_line_blocks(lines.drop_first(), b + utf8_len(lines[0]))
    }
}

/// The inert safe view of a source: one code block per line, long lines cut
/// into pieces that never split a character; too many blocks is an error.
pub open spec fn safe_blocks_of(source: Seq<char>) -> Result<Seq<(Seq<char>, SourceRange)>, Seq<char>> {
    if source.len() == 0 {
        Ok(seq![(Seq::<char>::empty(), SourceRange { start: 0, end: 0 })])
    } else {
        let all = all_line_blocks(raw_lines(source), 0);
        if all.len() > MAX_BLOCKS {
            Err("demasiadas lineas para la vista segura"@)
        } else {
            Ok(all)
        }
    }
}

/// The text and source range of each block.
pub open spec fn block_texts(v: Seq<Block>) -> Seq<(Seq<char>, SourceRange)> {
    v.map_values(|b: Block| (b.text@, b.source))
}

/// A block of the safe view: inert code, no style, no target.
pub open spec fn is_inert_code(b: Block) -> bool {
    &&& b.kind == Kind::Code
    &&& b.spans@.len() == 0
    &&& b.targets@.len() == 0
    &&& b.marker is None
    &&& b.quote_depth == 0
}

proof fn lemma_boundary_at_or_before_ge(t: Seq<char>, x: int, y: int)
    requires
        0 <= y <= x,
        is_boundary(t, y),
    ensures
        boundary_at_or_before(t, x) >= y,
    decreases x,
{
    if x > 0 && !is_boundary(t, x) {
        lemma_boundary_at_or_before_ge(t, x - 1, y);
    }
}

/// From a boundary before the end, the next cut is further on.
pub(crate) proof fn lemma_chunk_progress(t: Seq<char>, cs: int)
    requires
        is_boundary(t, cs),
        cs < utf8_len(t),
    ensures
        boundary_at_or_before(t, min_int(cs + MAX_SAFE_LINE_BYTES, utf8_len(t) as int)) > cs,
        boundary_at_or_before(t, min_int(cs + MAX_SAFE_LINE_BYTES, utf8_len(t) as int)) <= utf8_len(t),
        is_boundary(t, boundary_at_or_before(t, min_int(cs + MAX_SAFE_LINE_BYTES, utf8_len(t) as int))),
{
    let c = char_index(t, cs);
    lemma_boundary_char_index(t, cs);
    if c >= t.len() {
        assert(t.take(t.len() as int) =~= t);
        assert(false);
    }
    crate::text::lemma_byte_offset_step(t, c);
    crate::text::lemma_utf8_len_single(t[c]);
    lemma_byte_offset_bounds(t, c + 1);
    lemma_char_index(t, c + 1);
    let x = min_int(cs + MAX_SAFE_LINE_BYTES, utf8_len(t) as int);
    lemma_boundary_at_or_before_ge(t, x, byte_offset(t, c + 1) as int);
    crate::workspace::lemma_boundary_at_or_before(t, x);
}

pub(crate) proof fn lemma_raw_line_split(s: Seq<char>)
    requires
        s.len() > 0,
    ensures
        raw_lines(s).len() > 0,
        s == raw_lines(s)[0] + s.skip(raw_lines(s)[0].len() as int),
        raw_lines(s).drop_first() == raw_lines(s.skip(raw_lines(s)[0].len() as int)),
        raw_lines(s)[0].len() > 0,
{
    match first_occurrence(s, "\n"@) {
        Some(k) => if 0 <= k < s.len() {
            assert(s =~= s.take(k + 1) + s.skip(k + 1));
            assert((seq![s.take(k + 1)] + raw_lines(s.skip(k + 1))).drop_first() =~= raw_lines(
                s.skip(k + 1),
            ));
        } else {
            assert(s.skip(s.len() as int) =~= Seq::<char>::empty());
            assert(s =~= s + Seq::<char>::empty());
        },
        None => {
            assert(s.skip(s.len() as int) =~= Seq::<char>::empty());
            assert(s =~= s + Seq::<char>::empty());
        },
    }
}

/// The last character of a line, a line feed or a carriage return, cut off.
proof fn lemma_cut_last(l: Seq<char>, c: char)
    requires
        c == '\n' || c == '\r',
        1 <= l.len(),
        l.skip(l.len() - 1) == seq![c],
    ensures
        l.last() == c,
        1 <= utf8_len(l),
        valid_range(l, 0, utf8_len(l) - 1),
        slice_text(l, 0, utf8_len(l) - 1) == l.drop_last(),
{
    assert(l.skip(l.len() - 1)[0] == l.last());
    assert(l =~= l.drop_last() + seq![c]);
    lemma_utf8_len_concat(l.drop_last(), seq![c]);
    lemma_utf8_len_ascii(seq![c]);
    lemma_char_index(l, l.len() - 1);
    lemma_ends_are_boundaries(l);
    assert(l.take(l.len() - 1) =~= l.drop_last());
}

proof fn lemma_not_ends_with(l: Seq<char>, c: char)
    requires
        !(1 <= l.len() && l.skip(l.len() - 1) == seq![c]),
    ensures
        !(l.len() > 0 && l.last() == c),
{
    if l.len() > 0 && l.last() == c {
        assert(l.skip(l.len() - 1) =~= seq![c]);
    }
}

/// What is still to come of the current line.
pub open spec fn line_rest(text: Seq<char>, raw: Seq<char>, cs: int, b: int, e: int) -> Seq<(Seq<char>, SourceRange)> {
    if utf8_len(text) == 0 {
        line_blocks(raw, b)
    } else {
        chunks_from(text, cs, b, e)
    }
}

/// Cuts the source into inert blocks for safe mode: one per line, so that
/// the view can stay virtualised, long lines cut into pieces that never
/// split a character.
pub fn safe_source_blocks(source: &str, source_index: &SourceIndex) -> (r: Result<Vec<Block>, &'static str>)
    ensures
        match r {
            Ok(v) => safe_blocks_of(source@) == Ok::<Seq<(Seq<char>, SourceRange)>, Seq<char>>(
                block_texts(v@),
            ) && forall|i: int| 0 <= i < v@.len() ==> is_inert_code(#[trigger] v@[i]),
            Err(e) => safe_blocks_of(source@) == Err::<Seq<(Seq<char>, SourceRange)>, Seq<char>>(e@),
        },
{
    proof {
        reveal_strlit("");
    }
    if source.is_empty() {
        let v = vec![
            Block::new(String::new(), Vec::new(), Kind::Code, SourceRange { start: 0, end: 0 }, Vec::new()),
        ];
        proof {
            assert(block_texts(v@) =~= seq![(Seq::<char>::empty(), SourceRange { start: 0, end: 0 })]);
        }
        return Ok(v);
    }
    let ghost all = all_line_blocks(raw_lines(source@), 0);
    let total = byte_len(source);
    let mut blocks: Vec<Block> = Vec::new();
    let mut start: usize = 0;
    let mut rest = source;
    proof {
        assert(block_texts(blocks@) + all_line_blocks(raw_lines(rest@), 0) =~= all);
    }
    while !rest.is_empty()
        invariant
            source@.len() > 0,
            all == all_line_blocks(raw_lines(source@), 0),
            total == utf8_len(source@),
            start + utf8_len(rest@) == total,
            all == block_texts(blocks@) + all_line_blocks(raw_lines(rest@), start as int),
            blocks@.len() <= MAX_BLOCKS,
            forall|i: int| 0 <= i < blocks@.len() ==> is_inert_code(#[trigger] blocks@[i]),
        decreases rest@.len(),
    {
        proof {
            reveal_strlit("\n");
            reveal_strlit("\r");
            assert("\n"@ =~= seq!['\n']);
            assert("\r"@ =~= seq!['\r']);
            lemma_utf8_len_ascii("\n"@);
            lemma_raw_line_split(rest@);
            lemma_ends_are_boundaries(rest@);
        }
        let rest_len = byte_len(rest);
        let raw_len = match find(rest, "\n") {
            Some(i) => {
                proof {
                    crate::strings::lemma_split_at(rest@, "\n"@);
                }
                i + 1
            },
            None => rest_len,
        };
        let ghost r = raw_lines(rest@)[0];
        proof {
            match first_occurrence(rest@, "\n"@) {
                Some(k) => {
                    crate::strings::lemma_split_at(rest@, "\n"@);
                    assert(rest@.take(k + 1) =~= rest@.take(k) + "\n"@);
                    lemma_utf8_len_concat(rest@.take(k), "\n"@);
                },
                None => {},
            }
            assert(utf8_len(r) == raw_len);
            lemma_utf8_len_concat(r, rest@.skip(r.len() as int));
            lemma_char_index(rest@, r.len() as int);
            assert(rest@.take(r.len() as int) =~= r);
            lemma_byte_offset_bounds(rest@, r.len() as int);
            assert(all_line_blocks(raw_lines(rest@), start as int) == line_blocks(r, start as int)
                + all_line_blocks(raw_lines(rest@).drop_first(), start + utf8_len(r)));
        }
        let raw = slice(rest, 0, raw_len);
        rest = slice(rest, raw_len, rest_len);
        let end = start + raw_len;
        let ghost tail = all_line_blocks(raw_lines(rest@), end as int);
        let mut text = raw;
        if ends_with(text, "\n") {
            let n = byte_len(text);
            proof {
                lemma_cut_last(text@, '\n');
            }
            text = slice(text, 0, n - 1);
        } else {
            proof {
                lemma_not_ends_with(text@, '\n');
            }
        }
        let ghost mid = text@;
        if ends_with(text, "\r") {
            let n = byte_len(text);
            proof {
                lemma_cut_last(text@, '\r');
            }
            text = slice(text, 0, n - 1);
        } else {
            proof {
                lemma_not_ends_with(text@, '\r');
            }
        }
        let len = byte_len(text);
        assert(len <= raw_len);
        proof {
            assert(text@ =~= strip_line_end(raw@));
            lemma_ends_are_boundaries(text@);
            crate::text::lemma_utf8_len_at_least_len(text@);
        }
        let mut cs: usize = 0;
        loop
            invariant_except_break
                cs < len || (len == 0 && cs == 0),
                is_boundary(text@, cs as int),
                all == block_texts(blocks@) + line_rest(text@, raw@, cs as int, start as int, end as int)
                    + tail,
            invariant
                len == utf8_len(text@),
                len <= end - start,
                text@ == strip_line_end(raw@),
                (len == 0) == (text@.len() == 0),
                end == start + utf8_len(raw@),
                tail == all_line_blocks(raw_lines(rest@), end as int),
                source@.len() > 0,
                all == all_line_blocks(raw_lines(source@), 0),
                blocks@.len() <= MAX_BLOCKS,
                forall|i: int| 0 <= i < blocks@.len() ==> is_inert_code(#[trigger] blocks@[i]),
            ensures
                all == block_texts(blocks@) + tail,
            decreases len - cs,
        {
            proof {
                if len > 0 {
                    lemma_chunk_progress(text@, cs as int);
                }
                assert(line_rest(text@, raw@, cs as int, start as int, end as int).len() > 0);
            }
            if blocks.len() >= MAX_BLOCKS {
                proof {
                    assert(all.len() > MAX_BLOCKS);
                }
                return Err("demasiadas lineas para la vista segura");
            }
            let keep = if len - cs < MAX_SAFE_LINE_BYTES {
                len
            } else {
                cs + MAX_SAFE_LINE_BYTES
            };
            let ce = crate::workspace::cut_at_boundary(text, keep);
            let is_last = ce == len;
            let range = SourceRange {
                start: start + cs,
                end: if is_last {
                    end
                } else {
                    start + ce
                },
            };
            proof {
                lemma_ends_are_boundaries(text@);
                if len == 0 {
                    assert(ce == 0);
                }
            }
            let piece = String::from_str(slice(text, cs, ce));
            let ghost prev = blocks@;
            blocks.push(Block::new(piece, Vec::new(), Kind::Code, range, Vec::new()));
            proof {
                assert(block_texts(blocks@) =~= block_texts(prev).push((piece@, range)));
                if len == 0 {
                    assert(piece@ =~= text@);
                    assert(line_rest(text@, raw@, cs as int, start as int, end as int) =~= seq![(piece@, range)]);
                    assert(all =~= block_texts(blocks@) + tail);
                } else if is_last {
                    assert(line_rest(text@, raw@, cs as int, start as int, end as int) =~= seq![(piece@, range)]);
                    assert(all =~= block_texts(blocks@) + tail);
                } else {
                    assert(line_rest(text@, raw@, cs as int, start as int, end as int) =~= seq![(piece@, range)]
                        + line_rest(text@, raw@, ce as int, start as int, end as int));
                    assert(all =~= block_texts(blocks@) + line_rest(text@, raw@, ce as int, start as int, end as int) + tail);
                }
            }
            if is_last {
                break;
            }
            cs = ce;
        }
        start = end;
    }
    proof {
        assert(raw_lines(rest@) =~= Seq::<Seq<char>>::empty());
        assert(all =~= block_texts(blocks@));
    }
    Ok(blocks)
}

/// Text, style runs and targets gathered from inline content.
#[derive(Debug)]
pub struct InlineOutput {
    pub text: String,
    pub spans: Vec<Span>,
    pub targets: Vec<InlineTarget>,
}

/// A target seen as plain values.
pub type TargetView = (InlineTargetKind, usize, usize, SourceRange, Seq<char>, Seq<char>);

/// An inline output seen as plain values.
pub type OutView = (Seq<char>, Seq<Span>, Seq<TargetView>);

pub open spec fn target_view(t: InlineTarget) -> TargetView {
    (t.kind, t.start, t.end, t.source, t.destination@, t.title@)
}

pub open spec fn target_views(v: Seq<InlineTarget>) -> Seq<TargetView> {
    v.map_values(|t: InlineTarget| target_view(t))
}

pub open spec fn out_view(o: InlineOutput) -> OutView {
    (o.text@, o.spans@, target_views(o.targets@))
}

/// Every run and target of an output lies inside its text.
pub open spec fn out_wf(o: OutView) -> bool {
    &&& forall|i: int|
        0 <= i < o.1.len() ==> (#[trigger] o.1[i]).start <= o.1[i].end <= utf8_len(o.0)
    &&& forall|i: int|
        0 <= i < o.2.len() ==> (#[trigger] o.2[i]).1 <= o.2[i].2 <= utf8_len(o.0)
}

/// An output after `text` is added in `style`; a run is recorded when the
/// style is not plain or `retain` asks for it.
pub open spec fn out_literal(o: OutView, text: Seq<char>, style: Emphasis, source: SourceRange, retain: bool) -> OutView {
    if text.len() == 0 {
        o
    } else {
        (
            o.0 + text,
            if retain || style != plain_emphasis() {
                o.1.push(
                    Span {
                        start: utf8_len(o.0) as usize,
                        end: utf8_len(o.0 + text) as usize,
                        source,
                        style,
                    },
                )
            } else {
                o.1
            },
            o.2,
        )
    }
}

pub open spec fn shift_span(s: Span, off: int) -> Span {
    Span { start: (s.start + off) as usize, end: (s.end + off) as usize, ..s }
}

pub open spec fn shift_target(t: TargetView, off: int) -> TargetView {
    (t.0, (t.1 + off) as usize, (t.2 + off) as usize, t.3, t.4, t.5)
}

/// An output with another appended, whose runs and targets move along.
pub open spec fn out_append(o: OutView, child: OutView) -> OutView {
    let off = utf8_len(o.0) as int;
    (
        o.0 + child.0,
        o.1 + child.1.map_values(|s: Span| shift_span(s, off)),
        o.2 + child.2.map_values(|t: TargetView| shift_target(t, off)),
    )
}

proof fn lemma_out_literal_wf(o: OutView, text: Seq<char>, style: Emphasis, source: SourceRange, retain: bool)
    requires
        out_wf(o),
        utf8_len(o.0 + text) <= usize::MAX,
    ensures
        out_wf(out_literal(o, text, style, source, retain)),
{
    lemma_utf8_len_concat(o.0, text);
    let r = out_literal(o, text, style, source, retain);
    if text.len() > 0 {
        assert forall|i: int| 0 <= i < r.1.len() implies (#[trigger] r.1[i]).start <= r.1[i].end
            <= utf8_len(r.0) by {
            if i < o.1.len() {
                assert(r.1[i] == o.1[i]);
            }
        }
    }
}

proof fn lemma_out_append_wf(o: OutView, child: OutView)
    requires
        out_wf(o),
        out_wf(child),
        utf8_len(o.0 + child.0) <= usize::MAX,
    ensures
        out_wf(out_append(o, child)),
{
    lemma_utf8_len_concat(o.0, child.0);
    let r = out_append(o, child);
    let off = utf8_len(o.0) as int;
    assert forall|i: int| 0 <= i < r.1.len() implies (#[trigger] r.1[i]).start <= r.1[i].end
        <= utf8_len(r.0) by {
        if i < o.1.len() {
            assert(r.1[i] == o.1[i]);
        } else {
            assert(r.1[i] == shift_span(child.1[i - o.1.len()], off));
        }
    }
    assert forall|i: int| 0 <= i < r.2.len() implies (#[trigger] r.2[i]).1 <= r.2[i].2
        <= utf8_len(r.0) by {
        if i < o.2.len() {
            assert(r.2[i] == o.2[i]);
        } else {
            assert(r.2[i] == shift_target(child.2[i - o.2.len()], off));
        }
    }
}

pub(crate) fn literal_into(out: &mut InlineOutput, text: &str, style: Emphasis, source: SourceRange, retain: bool)
    requires
        out_wf(out_view(*old(out))),
    ensures
        out_view(*final(out)) == out_literal(out_view(*old(out)), text@, style, source, retain),
        out_wf(out_view(*final(out))),
{
    if text.is_empty() {
        return;
    }
    let start = byte_len(out.text.as_str());
    out.text.append(text);
    let end = byte_len(out.text.as_str());
    proof {
        lemma_out_literal_wf(out_view(*old(out)), text@, style, source, retain);
    }
    if retain || !style.is_plain() {
        out.spans.push(Span { start, end, source, style });
    }
}

fn copy_target(t: &InlineTarget, start: usize, end: usize) -> (r: InlineTarget)
    ensures
        target_view(r) == (t.kind, start, end, t.source, t.destination@, t.title@),
{
    InlineTarget {
        kind: t.kind,
        start,
        end,
        source: t.source,
        destination: t.destination.clone(),
        title: t.title.clone(),
    }
}

pub(crate) fn append_into(out: &mut InlineOutput, child: &InlineOutput)
    requires
        out_wf(out_view(*old(out))),
        out_wf(out_view(*child)),
    ensures
        out_view(*final(out)) == out_append(out_view(*old(out)), out_view(*child)),
        out_wf(out_view(*final(out))),
{
    let ghost o = out_view(*out);
    let ghost c = out_view(*child);
    let offset = byte_len(out.text.as_str());
    out.text.append(child.text.as_str());
    let _total = byte_len(out.text.as_str());
    proof {
        lemma_utf8_len_concat(o.0, c.0);
        lemma_out_append_wf(o, c);
    }
    let ghost spans0 = out.spans@;
    let mut i: usize = 0;
    while i < child.spans.len()
        invariant
            i <= child.spans@.len(),
            offset == utf8_len(o.0),
            offset + utf8_len(c.0) <= usize::MAX,
            c == out_view(*child),
            out_wf(c),
            out.spans@ == spans0 + c.1.take(i as int).map_values(|s: Span| shift_span(s, offset as int)),
            out.text@ == o.0 + c.0,
            spans0 == o.1,
            target_views(out.targets@) == o.2,
        decreases child.spans@.len() - i,
    {
        let s = child.spans[i];
        assert(c.1[i as int] == s);
        out.spans.push(Span { start: s.start + offset, end: s.end + offset, ..s });
        proof {
            assert(c.1.take(i + 1).map_values(|s: Span| shift_span(s, offset as int)) =~= c.1.take(
                i as int,
            ).map_values(|s: Span| shift_span(s, offset as int)).push(shift_span(s, offset as int)));
        }
        i = i + 1;
    }
    proof {
        assert(c.1.take(child.spans@.len() as int) =~= c.1);
        assert(out.spans@ == o.1 + c.1.map_values(|s: Span| shift_span(s, offset as int)));
    }
    let ghost targets0 = target_views(out.targets@);
    let mut j: usize = 0;
    while j < child.targets.len()
        invariant
            j <= child.targets@.len(),
            offset == utf8_len(o.0),
            offset + utf8_len(c.0) <= usize::MAX,
            c == out_view(*child),
            out_wf(c),
            target_views(out.targets@) == targets0 + c.2.take(j as int).map_values(
                |t: TargetView| shift_target(t, offset as int),
            ),
            out.text@ == o.0 + c.0,
            out.spans@ == o.1 + c.1.map_values(|s: Span| shift_span(s, offset as int)),
            targets0 == o.2,
        decreases child.targets@.len() - j,
    {
        let t = &child.targets[j];
        assert(c.2[j as int] == target_view(*t));
        let moved = copy_target(t, t.start + offset, t.end + offset);
        let ghost before = out.targets@;
        out.targets.push(moved);
        proof {
            assert(target_views(out.targets@) =~= target_views(before).push(target_view(moved)));
            assert(c.2.take(j + 1).map_values(|t: TargetView| shift_target(t, offset as int)) =~= c.2.take(
                j as int,
            ).map_values(|t: TargetView| shift_target(t, offset as int)).push(
                shift_target(c.2[j as int], offset as int),
            ));
        }
        j = j + 1;
    }
    proof {
        assert(c.2.take(child.targets@.len() as int) =~= c.2);
        assert(out_view(*out) == out_append(o, c));
    }
}

/// An allowed HTML tag waiting for its exact closing tag, with what came
/// after it.
#[derive(Debug)]
pub struct HtmlScope {
    pub semantic: HtmlSemantic,
    pub raw_open: String,
    pub source: SourceRange,
    pub output: InlineOutput,
}

/// Collects inline output. HTML tags reach it as siblings of their text, so
/// a small stack keeps each allowed tag until its exact closing tag: a
/// malformed opening can neither hide content nor restyle the rest.
#[derive(Debug)]
pub struct InlineCollector {
    pub output: InlineOutput,
    pub scopes: Vec<HtmlScope>,
}

pub type ScopeView = (HtmlSemantic, Seq<char>, SourceRange, OutView);

pub type CollectorView = (OutView, Seq<ScopeView>);

pub open spec fn scope_view(s: HtmlScope) -> ScopeView {
    (s.semantic, s.raw_open@, s.source, out_view(s.output))
}

pub open spec fn collector_view(c: InlineCollector) -> CollectorView {
    (out_view(c.output), c.scopes@.map_values(|s: HtmlScope| scope_view(s)))
}

pub open spec fn empty_out() -> OutView {
    (Seq::empty(), Seq::empty(), Seq::empty())
}

/// The output that new content goes to: the innermost pending tag's, or
/// the main one.
pub open spec fn cv_current(cv: CollectorView) -> OutView {
    if cv.1.len() == 0 {
        cv.0
    } else {
        cv.1.last().3
    }
}

pub open spec fn cv_with_current(cv: CollectorView, o: OutView) -> CollectorView {
    if cv.1.len() == 0 {
        (o, cv.1)
    } else {
        let last = cv.1.last();
        (cv.0, cv.1.update(cv.1.len() - 1, (last.0, last.1, last.2, o)))
    }
}

pub open spec fn cv_wf(cv: CollectorView) -> bool {
    out_wf(cv.0) && forall|i: int| 0 <= i < cv.1.len() ==> out_wf(#[trigger] cv.1[i].3)
}

/// Literal text goes to the current output; inside a pending tag even plain
/// runs are kept, so that closing can style them without splitting text.
pub open spec fn cv_literal(cv: CollectorView, text: Seq<char>, style: Emphasis, source: SourceRange) -> CollectorView {
    cv_with_current(cv, out_literal(cv_current(cv), text, style, source, cv.1.len() > 0))
}

pub open spec fn cv_append(cv: CollectorView, child: OutView) -> CollectorView {
    cv_with_current(cv, out_append(cv_current(cv), child))
}

pub open spec fn cv_target(cv: CollectorView, t: TargetView) -> CollectorView {
    let o = cv_current(cv);
    cv_with_current(cv, (o.0, o.1, o.2.push(t)))
}

/// An output whose runs take a tag's native style.
pub open spec fn styled(o: OutView, semantic: HtmlSemantic) -> OutView {
    (o.0, o.1.map_values(|s: Span| Span { style: semantic.applied(s.style), ..s }), o.2)
}

/// Closing a tag: only the innermost pending tag, and only with the same
/// semantic, closes; its content then joins the enclosing output styled.
pub open spec fn cv_close(cv: CollectorView, semantic: HtmlSemantic) -> (CollectorView, bool) {
    if cv.1.len() == 0 || cv.1.last().0 != semantic {
        (cv, false)
    } else {
        let scope = cv.1.last();
        (cv_append((cv.0, cv.1.drop_last()), styled(scope.3, semantic)), true)
    }
}

pub open spec fn inert_code() -> Emphasis {
    Emphasis { code: true, ..plain_emphasis() }
}

/// Finishing: a tag never closed gets no semantics; its opening tag comes
/// back as visible code before its content, innermost first.
pub open spec fn cv_finish(cv: CollectorView) -> OutView
    decreases cv.1.len(),
{
    if cv.1.len() == 0 {
        cv.0
    } else {
        let scope = cv.1.last();
        let popped = (cv.0, cv.1.drop_last());
        cv_finish(cv_append(cv_literal(popped, scope.1, inert_code(), scope.2), scope.3))
    }
}

proof fn lemma_cv_with_current_len(cv: CollectorView, o: OutView)
    ensures
        cv_with_current(cv, o).1.len() == cv.1.len(),
{
}

proof fn lemma_cv_with_current_wf(cv: CollectorView, o: OutView)
    requires
        cv_wf(cv),
        out_wf(o),
    ensures
        cv_wf(cv_with_current(cv, o)),
        cv_with_current(cv, o).1.len() == cv.1.len(),
        cv_current(cv_with_current(cv, o)) == o,
{
    if cv.1.len() > 0 {
        let r = cv_with_current(cv, o);
        assert forall|i: int| 0 <= i < r.1.len() implies out_wf(#[trigger] r.1[i].3) by {
            if i < cv.1.len() - 1 {
                assert(r.1[i] == cv.1[i]);
            }
        }
    }
}

impl InlineCollector {
    pub open spec fn wf(&self) -> bool {
        cv_wf(collector_view(*self))
    }

    pub fn new() -> (c: InlineCollector)
        ensures
            collector_view(c) == (empty_out(), Seq::<ScopeView>::empty()),
            c.wf(),
    {
        let c = InlineCollector {
            output: InlineOutput { text: String::new(), spans: Vec::new(), targets: Vec::new() },
            scopes: Vec::new(),
        };
        proof {
            assert(target_views(c.output.targets@) =~= Seq::<TargetView>::empty());
            assert(collector_view(c).1 =~= Seq::<ScopeView>::empty());
        }
        c
    }

    /// Length in bytes of the current output's text.
    pub fn len(&self) -> (n: usize)
        ensures
            n == utf8_len(cv_current(collector_view(*self)).0),
    {
        let k = self.scopes.len();
        if k == 0 {
            byte_len(self.output.text.as_str())
        } else {
            proof {
                assert(collector_view(*self).1.last() == scope_view(self.scopes@[k - 1]));
            }
            byte_len(self.scopes[k - 1].output.text.as_str())
        }
    }

    /// Adds literal text to the current output.
    pub fn literal(&mut self, text: &str, style: Emphasis, source: SourceRange)
        requires
            old(self).wf(),
        ensures
            final(self).wf(),
            collector_view(*final(self)) == cv_literal(collector_view(*old(self)), text@, style, source),
    {
        let ghost cv = collector_view(*self);
        let retain = self.scopes.len() > 0;
        if self.scopes.len() == 0 {
            literal_into(&mut self.output, text, style, source, retain);
            proof {
                assert(collector_view(*self).1 =~= cv.1);
            }
        } else {
            let k = self.scopes.len();
            let ghost scopes0 = self.scopes@;
            let mut scope = self.scopes.pop().unwrap();
            proof {
                assert(scope_view(scope) == cv.1.last());
                assert(out_wf(cv.1[k - 1].3));
            }
            literal_into(&mut scope.output, text, style, source, retain);
            self.scopes.push(scope);
            proof {
                assert(collector_view(*self).1 =~= cv.1.update(k - 1, (cv.1.last().0, cv.1.last().1, cv.1.last().2, out_view(scope.output))));
                lemma_cv_with_current_wf(cv, out_view(scope.output));
            }
        }
    }

    /// Appends an output gathered elsewhere to the current one.
    pub fn append_output(&mut self, child: InlineOutput)
        requires
            old(self).wf(),
            out_wf(out_view(child)),
        ensures
            final(self).wf(),
            collector_view(*final(self)) == cv_append(collector_view(*old(self)), out_view(child)),
    {
        let ghost cv = collector_view(*self);
        if self.scopes.len() == 0 {
            append_into(&mut self.output, &child);
            proof {
                assert(collector_view(*self).1 =~= cv.1);
            }
        } else {
            let k = self.scopes.len();
            let mut scope = self.scopes.pop().unwrap();
            proof {
                assert(scope_view(scope) == cv.1.last());
                assert(out_wf(cv.1[k - 1].3));
            }
            append_into(&mut scope.output, &child);
            self.scopes.push(scope);
            proof {
                assert(collector_view(*self).1 =~= cv.1.update(k - 1, (cv.1.last().0, cv.1.last().1, cv.1.last().2, out_view(scope.output))));
                lemma_cv_with_current_wf(cv, out_view(scope.output));
            }
        }
    }

    /// Records a target over text already in the current output.
    pub fn push_target(&mut self, target: InlineTarget)
        requires
            old(self).wf(),
            target.start <= target.end <= utf8_len(cv_current(collector_view(*old(self))).0),
        ensures
            final(self).wf(),
            collector_view(*final(self)) == cv_target(collector_view(*old(self)), target_view(target)),
    {
        let ghost cv = collector_view(*self);
        let ghost o = cv_current(cv);
        let ghost t = target_view(target);
        proof {
            let n = (o.0, o.1, o.2.push(t));
            assert forall|i: int| 0 <= i < n.2.len() implies (#[trigger] n.2[i]).1 <= n.2[i].2 <= utf8_len(n.0) by {
                if i < o.2.len() {
                    assert(n.2[i] == o.2[i]);
                }
            }
            assert(out_wf(n));
            lemma_cv_with_current_wf(cv, n);
        }
        if self.scopes.len() == 0 {
            self.output.targets.push(target);
            proof {
                assert(target_views(self.output.targets@) =~= o.2.push(t));
                assert(collector_view(*self).1 =~= cv.1);
            }
        } else {
            let k = self.scopes.len();
            let mut scope = self.scopes.pop().unwrap();
            proof {
                assert(scope_view(scope) == cv.1.last());
            }
            scope.output.targets.push(target);
            proof {
                assert(target_views(scope.output.targets@) =~= o.2.push(t));
            }
            self.scopes.push(scope);
            proof {
                assert(collector_view(*self).1 =~= cv.1.update(k - 1, (cv.1.last().0, cv.1.last().1, cv.1.last().2, out_view(scope.output))));
            }
        }
    }

    /// Opens an allowed tag: what follows waits for its closing tag.
    pub fn open(&mut self, semantic: HtmlSemantic, raw_open: String, source: SourceRange)
        requires
            old(self).wf(),
        ensures
            final(self).wf(),
            collector_view(*final(self)) == (collector_view(*old(self)).0, collector_view(
                *old(self),
            ).1.push((semantic, raw_open@, source, empty_out()))),
    {
        let ghost cv = collector_view(*self);
        let output = InlineOutput { text: String::new(), spans: Vec::new(), targets: Vec::new() };
        proof {
            assert(target_views(output.targets@) =~= Seq::<TargetView>::empty());
        }
        self.scopes.push(HtmlScope { semantic, raw_open, source, output });
        proof {
            assert(collector_view(*self).1 =~= cv.1.push((semantic, raw_open@, source, empty_out())));
        }
    }

    /// Closes the innermost pending tag if it has this semantic; its content
    /// joins the enclosing output with the tag's native style.
    pub fn close(&mut self, semantic: HtmlSemantic) -> (closed: bool)
        requires
            old(self).wf(),
        ensures
            final(self).wf(),
            (collector_view(*final(self)), closed) == cv_close(collector_view(*old(self)), semantic),
    {
        let ghost cv = collector_view(*self);
        let k = self.scopes.len();
        if k == 0 {
            return false;
        }
        proof {
            assert(cv.1.last() == scope_view(self.scopes@[k - 1]));
        }
        if self.scopes[k - 1].semantic != semantic {
            return false;
        }
        let scope = self.scopes.pop().unwrap();
        proof {
            assert(out_wf(cv.1[k - 1].3));
            assert(collector_view(*self).1 =~= cv.1.drop_last());
            assert forall|i: int| 0 <= i < cv.1.len() - 1 implies out_wf(#[trigger] collector_view(*self).1[i].3) by {
                assert(collector_view(*self).1[i] == cv.1[i]);
            }
        }
        let mut spans: Vec<Span> = Vec::new();
        let mut i: usize = 0;
        while i < scope.output.spans.len()
            invariant
                i <= scope.output.spans@.len(),
                spans@ == scope.output.spans@.take(i as int).map_values(
                    |s: Span| Span { style: semantic.applied(s.style), ..s },
                ),
            decreases scope.output.spans@.len() - i,
        {
            let sp = scope.output.spans[i];
            let mut style = sp.style;
            semantic.apply(&mut style);
            spans.push(Span { style, ..sp });
            proof {
                assert(scope.output.spans@.take(i + 1).map_values(
                    |s: Span| Span { style: semantic.applied(s.style), ..s },
                ) =~= spans@);
            }
            i = i + 1;
        }
        proof {
            assert(scope.output.spans@.take(scope.output.spans@.len() as int) =~= scope.output.spans@);
        }
        let HtmlScope { semantic: _, raw_open: _, source: _, output } = scope;
        let InlineOutput { text, spans: _, targets } = output;
        let restyled = InlineOutput { text, spans, targets };
        proof {
            assert(out_view(restyled) == styled(cv.1.last().3, semantic));
            let o = out_view(restyled);
            assert forall|j: int| 0 <= j < o.1.len() implies (#[trigger] o.1[j]).start <= o.1[j].end <= utf8_len(o.0) by {
                assert(o.1[j].start == cv.1.last().3.1[j].start);
            }
        }
        self.append_output(restyled);
        true
    }

    /// The collected output; tags never closed come back as visible code.
    pub fn finish(self) -> (o: InlineOutput)
        requires
            self.wf(),
        ensures
            out_view(o) == cv_finish(collector_view(self)),
            out_wf(out_view(o)),
    {
        let mut c = self;
        while c.scopes.len() > 0
            invariant
                c.wf(),
                cv_finish(collector_view(c)) == cv_finish(collector_view(self)),
            decreases c.scopes@.len(),
        {
            let ghost cv = collector_view(c);
            let k = c.scopes.len();
            let scope = c.scopes.pop().unwrap();
            proof {
                assert(scope_view(scope) == cv.1.last());
                assert(out_wf(cv.1[k - 1].3));
                assert(collector_view(c).1 =~= cv.1.drop_last());
                assert forall|i: int| 0 <= i < cv.1.len() - 1 implies out_wf(#[trigger] collector_view(c).1[i].3) by {
                    assert(collector_view(c).1[i] == cv.1[i]);
                }
            }
            let HtmlScope { semantic: _, raw_open, source, output } = scope;
            let mut inert = Emphasis::default();
            inert.code = true;
            let ghost popped = collector_view(c);
            c.literal(raw_open.as_str(), inert, source);
            let ghost lit = collector_view(c);
            c.append_output(output);
            proof {
                assert(inert == inert_code());
                lemma_cv_with_current_len(popped, out_literal(cv_current(popped), raw_open@, inert, source, popped.1.len() > 0));
                lemma_cv_with_current_len(lit, out_append(cv_current(lit), out_view(output)));
                assert(collector_view(c).1.len() == c.scopes@.len());
            }
        }
        proof {
            assert(collector_view(c).1.len() == 0);
        }
        c.output
    }
}

pub open spec fn cv_len(cv: CollectorView) -> int {
    utf8_len(cv_current(cv).0) as int
}

pub proof fn lemma_cv_literal_grows(cv: CollectorView, text: Seq<char>, style: Emphasis, source: SourceRange)
    ensures
        cv_len(cv_literal(cv, text, style, source)) >= cv_len(cv),
{
    let o = out_literal(cv_current(cv), text, style, source, cv.1.len() > 0);
    if cv.1.len() > 0 {
        let last = cv.1.last();
        assert(cv_with_current(cv, o).1.last() == (last.0, last.1, last.2, o));
    }
    lemma_utf8_len_concat(cv_current(cv).0, text);
}

/// Text with `[[wikilinks]]` given to a collector: each well-formed link
/// becomes its label, styled as a link, with a vault target over it; a
/// malformed one stays as literal text; an unclosed `[[` and all after it
/// stay literal.
pub open spec fn cv_wikilinks(cv: CollectorView, rem: Seq<char>, style: Emphasis, source: SourceRange) -> CollectorView
    decreases rem.len(),
{
    match first_occurrence(rem, "[["@) {
        None => cv_literal(cv, rem, style, source),
        Some(k) => if k < 0 || k + 2 > rem.len() {
            cv_literal(cv, rem, style, source)
        } else {
            let cv1 = cv_literal(cv, rem.take(k), style, source);
            let after = rem.skip(k + 2);
            match first_occurrence(after, "]]"@) {
                None => cv_literal(cv1, rem.skip(k), style, source),
                Some(e) => if e < 0 || e + 2 > after.len() {
                    cv_literal(cv1, rem.skip(k), style, source)
                } else {
                    let cv2 = match wikilink_of(after.take(e)) {
                        Some((destination, label)) => {
                            let lit = cv_literal(cv1, label, Emphasis { link: true, ..style }, source);
                            cv_target(
                                lit,
                                (
                                    InlineTargetKind::WikiLink,
                                    cv_len(cv1) as usize,
                                    cv_len(lit) as usize,
                                    source,
                                    destination,
                                    Seq::empty(),
                                ),
                            )
                        },
                        None => cv_literal(cv1, rem.subrange(k, k + 2 + e + 2), style, source),
                    };
                    cv_wikilinks(cv2, after.skip(e + 2), style, source)
                },
            }
        },
    }
}

/// Gives text to the collector, recognising `[[wikilinks]]` only in plain
/// Markdown text; a malformed form stays visible instead of inventing a
/// destination or dropping content.
pub fn output_literal_with_wikilinks(
    output: &mut InlineCollector,
    text: &str,
    style: Emphasis,
    source: SourceRange,
)
    requires
        old(output).wf(),
    ensures
        final(output).wf(),
        collector_view(*final(output)) == cv_wikilinks(collector_view(*old(output)), text@, style, source),
{
    let mut remaining = text;
    loop
        invariant
            output.wf(),
            cv_wikilinks(collector_view(*output), remaining@, style, source) == cv_wikilinks(
                collector_view(*old(output)),
                text@,
                style,
                source,
            ),
        decreases remaining@.len(),
    {
        proof {
            reveal_strlit("[[");
            reveal_strlit("]]");
            lemma_utf8_len_ascii("[["@);
            lemma_utf8_len_ascii("]]"@);
        }
        let ghost cv0 = collector_view(*output);
        let ghost rem = remaining@;
        let open = match find(remaining, "[[") {
            Some(i) => i,
            None => {
                output.literal(remaining, style, source);
                return;
            },
        };
        proof {
            crate::strings::lemma_split_at(rem, "[["@);
            crate::strings::lemma_find_byte(rem, "[["@);
        }
        let len = byte_len(remaining);
        output.literal(slice(remaining, 0, open), style, source);
        let after_open = slice(remaining, open + 2, len);
        let close = match find(after_open, "]]") {
            Some(i) => i,
            None => {
                proof {
                    let k = first_occurrence(rem, "[["@)->0;
                    lemma_ends_are_boundaries(rem);
                    lemma_boundary_char_index(rem, open as int);
                }
                output.literal(slice(remaining, open, len), style, source);
                return;
            },
        };
        proof {
            crate::strings::lemma_split_at(after_open@, "]]"@);
        }
        let after_len = byte_len(after_open);
        let raw = slice(after_open, 0, close);
        match wikilink_parts(raw) {
            Some((destination, label)) => {
                let start = output.len();
                let mut linked = style;
                linked.link = true;
                let ghost before = collector_view(*output);
                output.literal(label.as_str(), linked, source);
                let end = output.len();
                proof {
                    lemma_cv_literal_grows(before, label@, linked, source);
                }
                let title = String::new();
                proof {
                    assert(title@ =~= Seq::<char>::empty());
                }
                output.push_target(
                    InlineTarget {
                        kind: InlineTargetKind::WikiLink,
                        start,
                        end,
                        source,
                        destination,
                        title,
                    },
                );
            },
            None => {
                proof {
                    let k = first_occurrence(rem, "[["@)->0;
                    let after = rem.skip(k + 2);
                    let e = first_occurrence(after, "]]"@)->0;
                    assert(rem =~= rem.take(k + 2) + after);
                    crate::text::lemma_byte_offset_concat(rem.take(k + 2), after, e + 2);
                    assert(rem.take(k + 2) =~= rem.take(k) + "[["@);
                    lemma_utf8_len_concat(rem.take(k), "[["@);
                    lemma_char_index(rem, k + 2 + e + 2);
                    lemma_byte_offset_bounds(rem, k + 2 + e + 2);
                    lemma_char_index(rem, k);
                }
                output.literal(slice(remaining, open, open + 2 + close + 2), style, source);
            },
        }
        remaining = slice(after_open, close + 2, after_len);
    }
}

} // verus!
