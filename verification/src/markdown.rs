//! The typed Markdown tree and its flattening into the blocks the renderer
//! draws. The parser builds the tree; what the reader keeps of each node,
//! and the bounds that keep hostile input from exhausting the stack or
//! memory, are decided here.
use vstd::prelude::*;
use crate::document::{
    callout_label, callout_of, callout_prefix, remove_rendered_prefix, literal_into, append_into, shift_range, shifted_spans, target_views, Block, CellAlignment, Kind,
    Marker, TableCell, cv_close, cv_finish, cv_len, cv_literal, cv_target, cv_wikilinks,
    collector_view, empty_out, native_html, native_html_of, output_literal_with_wikilinks,
    plain_emphasis, CollectorView, Emphasis, HtmlSemantic, InlineCollector, InlineOutput,
    InlineTarget, InlineTargetKind, NativeHtml, OutView, SourceIndex, SourceRange, Sourcepos,
    Span, TargetView, TraversalState, out_view, out_wf, raw_lines, lemma_raw_line_split, safe_blocks_of,
    block_texts, is_inert_code, model_problem, safe_source_blocks, validate_model, line_starts_of,
};
use crate::limits::{Degradation, MAX_NEST, MAX_SAFE_LINE_BYTES};
use crate::strings::{byte_len, decimal, decimal_text, find, first_occurrence, slice, trim, trim_ws};
use crate::text::{
    char_index, is_boundary, lemma_byte_offset_bounds, lemma_char_index, lemma_ends_are_boundaries,
    lemma_utf8_len_ascii, lemma_utf8_len_concat, utf8_len,
};
use crate::workspace::lines_of;
use crate::limits::MAX_BLOCKS;

verus! {

/// What a node of the Markdown tree is, with the data the reader uses.
#[derive(Debug)]
pub enum MdValue {
    Heading(u8),
    Paragraph,
    List { ordered: bool, start: usize },
    Item,
    /// A task list item with its mark, if any.
    TaskItem(Option<char>),
    CodeBlock { info: String, literal: String },
    HtmlBlock(String),
    Table(Vec<crate::document::CellAlignment>),
    TableRow(bool),
    BlockQuote,
    ThematicBreak,
    Text(String),
    Code(String),
    Emph,
    Strong,
    Strikethrough,
    Highlight,
    Link { url: String, title: String },
    Image { url: String, title: String },
    FootnoteReference(usize),
    HtmlInline(String),
    SoftBreak,
    LineBreak,
    /// Any other node: the document, footnote definitions, table cells, …
    Other,
}

/// A node of the Markdown tree.
#[derive(Debug)]
pub struct MdNode {
    pub value: MdValue,
    pub pos: Sourcepos,
    pub children: Vec<MdNode>,
}

/// The first reason a traversal degraded is the one kept.
pub open spec fn marked(d: Option<Degradation>, reason: Degradation) -> Option<Degradation> {
    match d {
        Some(first) => Some(first),
        None => Some(reason),
    }
}

pub open spec fn cv_open(cv: CollectorView, semantic: HtmlSemantic, raw: Seq<char>, source: SourceRange) -> CollectorView {
    (cv.0, cv.1.push((semantic, raw, source, empty_out())))
}

pub type InlineState = (Option<Degradation>, CollectorView);

/// The text an image stands for until images are drawn: its alternative
/// text, announced as such.
pub open spec fn image_label(alt: Seq<char>) -> Seq<char> {
    if trim_ws(alt).len() == 0 {
        "[imagen]"@
    } else {
        "[imagen: "@ + trim_ws(alt) + "]"@
    }
}

/// The inline content of a node, added to what has been collected. Emphasis
/// accumulates on the way down; depth beyond the bound stops the descent
/// and marks the traversal.
pub open spec fn inline_spec(node: MdNode, state: Emphasis, nest: u16, idx: SourceIndex, st: InlineState) -> InlineState
    decreases MAX_NEST + 1 - nest, 1int, 0int,
{
    if nest > MAX_NEST {
        (marked(st.0, Degradation::DepthLimit), st.1)
    } else {
        inline_children(node, 0, state, nest, idx, st)
    }
}

pub open spec fn inline_children(node: MdNode, i: int, state: Emphasis, nest: u16, idx: SourceIndex, st: InlineState) -> InlineState
    decreases MAX_NEST + 1 - nest, 0int, node.children@.len() - i,
{
    if nest > MAX_NEST || i < 0 || i >= node.children@.len() {
        st
    } else {
        inline_children(node, i + 1, state, nest, idx, inline_child(node.children@[i], state, nest, idx, st))
    }
}

pub open spec fn inline_child(child: MdNode, state: Emphasis, nest: u16, idx: SourceIndex, st: InlineState) -> InlineState
    decreases MAX_NEST + 1 - nest, 0int, 0int,
{
    if nest > MAX_NEST {
        st
    } else {
        let src = idx.range_of_pos(child.pos);
        let cv = st.1;
        let next = (nest + 1) as u16;
        match child.value {
            MdValue::Text(t) => (st.0, cv_wikilinks(cv, t@, state, src)),
            MdValue::Code(c) => (st.0, cv_literal(cv, c@, Emphasis { code: true, ..state }, src)),
            MdValue::Emph => inline_spec(child, Emphasis { emph: true, ..state }, next, idx, st),
            MdValue::Strong => inline_spec(child, Emphasis { strong: true, ..state }, next, idx, st),
            MdValue::Strikethrough => inline_spec(child, Emphasis { strike: true, ..state }, next, idx, st),
            MdValue::Highlight => inline_spec(child, Emphasis { mark: true, ..state }, next, idx, st),
            MdValue::Link { url, title } => {
                let start = cv_len(cv);
                let inner = inline_spec(child, Emphasis { link: true, ..state }, next, idx, st);
                let end = cv_len(inner.1);
                if start < end {
                    (
                        inner.0,
                        cv_target(
                            inner.1,
                            (InlineTargetKind::Link, start as usize, end as usize, src, url@, title@),
                        ),
                    )
                } else {
                    inner
                }
            },
            MdValue::Image { url, title } => {
                let alt = inline_spec(child, plain_emphasis(), next, idx, (st.0, (empty_out(), Seq::empty())));
                let label = image_label(cv_finish(alt.1).0);
                let lit = cv_literal(cv, label, Emphasis { code: true, ..state }, src);
                (
                    alt.0,
                    cv_target(
                        lit,
                        (InlineTargetKind::Image, cv_len(cv) as usize, cv_len(lit) as usize, src, url@, title@),
                    ),
                )
            },
            MdValue::FootnoteReference(ix) => (
                st.0,
                cv_literal(cv, "["@ + decimal_text(ix as nat) + "]"@, state, src),
            ),
            MdValue::HtmlInline(html) => {
                let inert = cv_literal(cv, html@, Emphasis { code: true, ..state }, src);
                (
                    st.0,
                    match native_html_of(html@) {
                        Some(NativeHtml::Break) => cv_literal(cv, "\n"@, state, src),
                        Some(NativeHtml::Open(semantic)) => cv_open(cv, semantic, html@, src),
                        Some(NativeHtml::Close(semantic)) => if cv_close(cv, semantic).1 {
                            cv_close(cv, semantic).0
                        } else {
                            inert
                        },
                        None => inert,
                    },
                )
            },
            MdValue::SoftBreak => (st.0, cv_literal(cv, " "@, state, src)),
            MdValue::LineBreak => (st.0, cv_literal(cv, "\n"@, state, src)),
            _ => inline_spec(child, state, next, idx, st),
        }
    }
}

proof fn lemma_inline_children_step(node: MdNode, i: int, state: Emphasis, nest: u16, idx: SourceIndex, st: InlineState)
    requires
        0 <= i < node.children@.len(),
        nest <= MAX_NEST,
    ensures
        inline_children(node, i, state, nest, idx, st) == inline_children(
            node,
            i + 1,
            state,
            nest,
            idx,
            inline_child(node.children@[i], state, nest, idx, st),
        ),
{
}

fn inline_into(
    node: &MdNode,
    state: Emphasis,
    nest: u16,
    source_index: &SourceIndex,
    traversal: &mut TraversalState,
    output: &mut InlineCollector,
)
    requires
        old(output).wf(),
    ensures
        final(output).wf(),
        (final(traversal).degradation, collector_view(*final(output))) == inline_spec(
            *node,
            state,
            nest,
            *source_index,
            (old(traversal).degradation, collector_view(*old(output))),
        ),
    decreases MAX_NEST + 1 - nest, 2int, 0int,
{
    if nest > MAX_NEST {
        traversal.mark(Degradation::DepthLimit);
        return;
    }
    let ghost start_state = (traversal.degradation, collector_view(*output));
    let mut i: usize = 0;
    while i < node.children.len()
        invariant
            output.wf(),
            nest <= MAX_NEST,
            i <= node.children@.len(),
            inline_children(*node, i as int, state, nest, *source_index, (traversal.degradation, collector_view(*output)))
                == inline_children(*node, 0, state, nest, *source_index, start_state),
        decreases node.children@.len() - i,
    {
        let ghost before = (traversal.degradation, collector_view(*output));
        let child = &node.children[i];
        inline_child_into(child, state, nest, source_index, traversal, output);
        proof {
            lemma_inline_children_step(*node, i as int, state, nest, *source_index, before);
        }
        i = i + 1;
    }
}

fn inline_child_into(
    child: &MdNode,
    state: Emphasis,
    nest: u16,
    source_index: &SourceIndex,
    traversal: &mut TraversalState,
    output: &mut InlineCollector,
)
    requires
        old(output).wf(),
        nest <= MAX_NEST,
    ensures
        final(output).wf(),
        (final(traversal).degradation, collector_view(*final(output))) == inline_child(
            *child,
            state,
            nest,
            *source_index,
            (old(traversal).degradation, collector_view(*old(output))),
        ),
    decreases MAX_NEST + 1 - nest, 1int, 0int,
{
    match &child.value {
        MdValue::Link { .. } => link_into(child, state, nest, source_index, traversal, output),
        MdValue::Image { .. } => image_into(child, state, nest, source_index, traversal, output),
        MdValue::HtmlInline(_) => {
            html_into(child, state, nest, source_index, output);
        },
        MdValue::Text(_) | MdValue::Code(_) | MdValue::FootnoteReference(_) | MdValue::SoftBreak
        | MdValue::LineBreak => {
            leaf_into(child, state, nest, source_index, output);
        },
        _ => nested_into(child, state, nest, source_index, traversal, output),
    }
}

/// Inline nodes whose content is their own text.
fn leaf_into(
    child: &MdNode,
    state: Emphasis,
    nest: u16,
    source_index: &SourceIndex,
    output: &mut InlineCollector,
)
    requires
        old(output).wf(),
        nest <= MAX_NEST,
        child.value is Text || child.value is Code || child.value is FootnoteReference
            || child.value is SoftBreak || child.value is LineBreak,
    ensures
        final(output).wf(),
        collector_view(*final(output)) == inline_child(
            *child,
            state,
            nest,
            *source_index,
            (None, collector_view(*old(output))),
        ).1,
{
    let src = source_index.range(child.pos);
    match &child.value {
        MdValue::Text(t) => output_literal_with_wikilinks(output, t.as_str(), state, src),
        MdValue::Code(c) => {
            let mut s = state;
            s.code = true;
            output.literal(c.as_str(), s, src);
        },
        MdValue::FootnoteReference(ix) => {
            let mut text = String::from_str("[");
            text.append(decimal(*ix as u128).as_str());
            text.append("]");
            output.literal(text.as_str(), state, src);
        },
        MdValue::SoftBreak => output.literal(" ", state, src),
        _ => output.literal("\n", state, src),
    }
}

/// Inline nodes that only wrap other inline content, with or without an
/// emphasis of their own.
fn nested_into(
    child: &MdNode,
    state: Emphasis,
    nest: u16,
    source_index: &SourceIndex,
    traversal: &mut TraversalState,
    output: &mut InlineCollector,
)
    requires
        old(output).wf(),
        nest <= MAX_NEST,
        !(child.value is Link || child.value is Image || child.value is HtmlInline
            || child.value is Text || child.value is Code || child.value is FootnoteReference
            || child.value is SoftBreak || child.value is LineBreak),
    ensures
        final(output).wf(),
        (final(traversal).degradation, collector_view(*final(output))) == inline_child(
            *child,
            state,
            nest,
            *source_index,
            (old(traversal).degradation, collector_view(*old(output))),
        ),
    decreases MAX_NEST + 1 - nest, 0int, 0int,
{
    let next: u16 = nest + 1;
    let mut s = state;
    match &child.value {
        MdValue::Emph => s.emph = true,
        MdValue::Strong => s.strong = true,
        MdValue::Strikethrough => s.strike = true,
        MdValue::Highlight => s.mark = true,
        _ => {},
    }
    inline_into(child, s, next, source_index, traversal, output);
}

fn link_into(
    child: &MdNode,
    state: Emphasis,
    nest: u16,
    source_index: &SourceIndex,
    traversal: &mut TraversalState,
    output: &mut InlineCollector,
)
    requires
        old(output).wf(),
        nest <= MAX_NEST,
        child.value is Link,
    ensures
        final(output).wf(),
        (final(traversal).degradation, collector_view(*final(output))) == inline_child(
            *child,
            state,
            nest,
            *source_index,
            (old(traversal).degradation, collector_view(*old(output))),
        ),
    decreases MAX_NEST + 1 - nest, 0int, 0int,
{
    let src = source_index.range(child.pos);
    let next: u16 = nest + 1;
    match &child.value {
        MdValue::Link { url, title } => {
            let mut s = state;
            s.link = true;
            let start = output.len();
            inline_into(child, s, next, source_index, traversal, output);
            let end = output.len();
            if start < end {
                output.push_target(
                    InlineTarget {
                        kind: InlineTargetKind::Link,
                        start,
                        end,
                        source: src,
                        destination: url.clone(),
                        title: title.clone(),
                    },
                );
            }
        },
        _ => {},
    }
}

fn image_into(
    child: &MdNode,
    state: Emphasis,
    nest: u16,
    source_index: &SourceIndex,
    traversal: &mut TraversalState,
    output: &mut InlineCollector,
)
    requires
        old(output).wf(),
        nest <= MAX_NEST,
        child.value is Image,
    ensures
        final(output).wf(),
        (final(traversal).degradation, collector_view(*final(output))) == inline_child(
            *child,
            state,
            nest,
            *source_index,
            (old(traversal).degradation, collector_view(*old(output))),
        ),
    decreases MAX_NEST + 1 - nest, 0int, 0int,
{
    let src = source_index.range(child.pos);
    let next: u16 = nest + 1;
    match &child.value {
        MdValue::Image { url, title } => {
            let mut alt = InlineCollector::new();
            inline_into(child, Emphasis::default(), next, source_index, traversal, &mut alt);
            let alt = alt.finish();
            let t = trim(alt.text.as_str());
            let label = if t.is_empty() {
                String::from_str("[imagen]")
            } else {
                let mut l = String::from_str("[imagen: ");
                l.append(t);
                l.append("]");
                l
            };
            let mut s = state;
            s.code = true;
            let start = output.len();
            let ghost before = collector_view(*output);
            output.literal(label.as_str(), s, src);
            let end = output.len();
            proof {
                crate::document::lemma_cv_literal_grows(before, label@, s, src);
            }
            output.push_target(
                InlineTarget {
                    kind: InlineTargetKind::Image,
                    start,
                    end,
                    source: src,
                    destination: url.clone(),
                    title: title.clone(),
                },
            );
        },
        _ => {},
    }
}

fn html_into(
    child: &MdNode,
    state: Emphasis,
    nest: u16,
    source_index: &SourceIndex,
    output: &mut InlineCollector,
)
    requires
        old(output).wf(),
        nest <= MAX_NEST,
        child.value is HtmlInline,
    ensures
        final(output).wf(),
        collector_view(*final(output)) == inline_child(
            *child,
            state,
            nest,
            *source_index,
            (None, collector_view(*old(output))),
        ).1,
{
    let src = source_index.range(child.pos);
    match &child.value {
        MdValue::HtmlInline(html) => {
            let mut inert = state;
            inert.code = true;
            match native_html(html.as_str()) {
                Some(NativeHtml::Break) => output.literal("\n", state, src),
                Some(NativeHtml::Open(semantic)) => output.open(semantic, html.clone(), src),
                Some(NativeHtml::Close(semantic)) => {
                    if !output.close(semantic) {
                        output.literal(html.as_str(), inert, src);
                    }
                },
                None => output.literal(html.as_str(), inert, src),
            }
        },
        _ => {},
    }
}

/// The text, runs and targets of a node's inline content, from no emphasis.
pub open spec fn inline_of_spec(node: MdNode, idx: SourceIndex, d: Option<Degradation>) -> (Option<Degradation>, OutView) {
    let r = inline_spec(node, plain_emphasis(), 0, idx, (d, (empty_out(), Seq::empty())));
    (r.0, cv_finish(r.1))
}

pub fn inline_of(node: &MdNode, source_index: &SourceIndex, traversal: &mut TraversalState) -> (o: InlineOutput)
    ensures
        (final(traversal).degradation, out_view(o)) == inline_of_spec(*node, *source_index, old(traversal).degradation),
        out_wf(out_view(o)),
{
    let mut output = InlineCollector::new();
    inline_into(node, Emphasis::default(), 0, source_index, traversal, &mut output);
    output.finish()
}

/// A list marker seen as plain values: a task box and its state, or text.
pub type MarkerView = (bool, bool, Seq<char>);

pub type CellView = (SourceRange, Seq<char>, Seq<Span>, Seq<TargetView>);

/// A block seen as plain values: text, runs, source, targets, code info,
/// cells, alignments, quote depth, kind and marker.
pub type BlockView = (
    Seq<char>,
    Seq<Span>,
    SourceRange,
    Seq<TargetView>,
    Option<Seq<char>>,
    Seq<CellView>,
    Seq<CellAlignment>,
    u8,
    Kind,
    Option<MarkerView>,
);

pub open spec fn marker_view(m: Marker) -> MarkerView {
    match m {
        Marker::Text(t) => (false, false, t@),
        Marker::Task { done } => (true, done, Seq::empty()),
    }
}

pub open spec fn cell_view(c: TableCell) -> CellView {
    (c.source, c.text@, c.spans@, target_views(c.targets@))
}

pub open spec fn block_view(b: Block) -> BlockView {
    (
        b.text@,
        b.spans@,
        b.source,
        target_views(b.targets@),
        match b.code_info {
            Some(i) => Some(i@),
            None => None,
        },
        b.table_cells@.map_values(|c: TableCell| cell_view(c)),
        b.table_alignments@,
        b.quote_depth,
        b.kind,
        match b.marker {
            Some(m) => Some(marker_view(m)),
            None => None,
        },
    )
}

pub open spec fn block_views(v: Seq<Block>) -> Seq<BlockView> {
    v.map_values(|b: Block| block_view(b))
}

pub open spec fn new_block_view(o: OutView, kind: Kind, source: SourceRange) -> BlockView {
    (o.0, o.1, source, o.2, None, Seq::empty(), Seq::empty(), 0u8, kind, None)
}

pub type FlatState = (Option<Degradation>, Seq<BlockView>);

/// How a list item is marked: a task box, its number in an ordered list,
/// or a bullet.
pub open spec fn item_marker(ordered: bool, start: usize, index: int, task: Option<char>) -> MarkerView {
    match task {
        Some(mark) => (true, mark != ' ', Seq::empty()),
        None => if ordered {
            (false, false, decimal_text((start + index) as nat) + "."@)
        } else {
            (false, false, "•"@)
        },
    }
}

pub open spec fn item_task(item: MdNode) -> Option<char> {
    match item.value {
        MdValue::TaskItem(mark) => Some(
            match mark {
                Some(c) => c,
                None => ' ',
            },
        ),
        _ => None,
    }
}

pub open spec fn with_marker(b: BlockView, m: MarkerView) -> BlockView {
    (b.0, b.1, b.2, b.3, b.4, b.5, b.6, b.7, b.8, Some(m))
}

pub open spec fn with_kind(b: BlockView, k: Kind) -> BlockView {
    (b.0, b.1, b.2, b.3, b.4, b.5, b.6, b.7, k, b.9)
}

/// One code block per line of a literal; the block limit stops the lines.
pub open spec fn code_lines(lines: Seq<Seq<char>>, k: int, info: Option<Seq<char>>, src: SourceRange, st: FlatState) -> FlatState
    decreases lines.len() - k,
{
    if k < 0 || k >= lines.len() {
        st
    } else if st.1.len() >= MAX_BLOCKS {
        (marked(st.0, Degradation::BlockLimit), st.1)
    } else {
        code_lines(
            lines,
            k + 1,
            info,
            src,
            (
                st.0,
                st.1.push(
                    (lines[k], Seq::empty(), src, Seq::empty(), info, Seq::empty(), Seq::empty(), 0u8, Kind::Code, None),
                ),
            ),
        )
    }
}

pub open spec fn shift_spans_by(spans: Seq<Span>, off: int) -> Seq<Span> {
    spans.map_values(|s: Span| crate::document::shift_span(s, off))
}

pub open spec fn shift_targets_by(targets: Seq<TargetView>, off: int) -> Seq<TargetView> {
    targets.map_values(|t: TargetView| crate::document::shift_target(t, off))
}

/// A table row being built: degradation, text, runs, targets and cells.
pub type RowState = (Option<Degradation>, Seq<char>, Seq<Span>, Seq<TargetView>, Seq<CellView>);

/// The cells of a row, their texts joined with a visible separator; each
/// cell keeps its own runs and targets, the row a shifted copy of them.
pub open spec fn row_cells(cells: Seq<MdNode>, k: int, idx: SourceIndex, rs: RowState) -> RowState
    decreases cells.len() - k,
{
    if k < 0 || k >= cells.len() {
        rs
    } else {
        let (d, o) = inline_of_spec(cells[k], idx, rs.0);
        let sep = if rs.1.len() > 0 {
            "  |  "@
        } else {
            Seq::empty()
        };
        let off = utf8_len(rs.1 + sep) as int;
        row_cells(
            cells,
            k + 1,
            idx,
            (
                d,
                rs.1 + sep + o.0,
                rs.2 + shift_spans_by(o.1, off),
                rs.3 + shift_targets_by(o.2, off),
                rs.4.push((idx.range_of_pos(cells[k].pos), o.0, o.1, o.2)),
            ),
        )
    }
}

pub open spec fn shifted_target_views(targets: Seq<TargetView>, prefix: int) -> Seq<TargetView>
    decreases targets.len(),
{
    if targets.len() == 0 {
        Seq::empty()
    } else {
        let t = targets.last();
        shifted_target_views(targets.drop_last(), prefix) + match shift_range(t.1 as int, t.2 as int, prefix) {
            Some((a, b)) => seq![(t.0, a as usize, b as usize, t.3, t.4, t.5)],
            None => Seq::empty(),
        }
    }
}

/// A block with its first `prefix` rendered bytes cut, as
/// `remove_rendered_prefix` does.
pub open spec fn without_prefix(b: BlockView, prefix: int) -> BlockView {
    if prefix == 0 || prefix > utf8_len(b.0) || !is_boundary(b.0, prefix) {
        b
    } else {
        (
            b.0.skip(char_index(b.0, prefix)),
            shifted_spans(b.1, prefix),
            b.2,
            shifted_target_views(b.3, prefix),
            b.4,
            b.5,
            b.6,
            b.7,
            b.8,
            b.9,
        )
    }
}

/// A quote's blocks: a known callout opening its first block becomes the
/// callout's label (dropping the block if nothing else is left in it).
pub open spec fn callout_fix(b: Seq<BlockView>, before: int) -> Seq<BlockView> {
    if before < 0 || before >= b.len() {
        b
    } else {
        match callout_of(b[before].0) {
            None => b,
            Some((kind, prefix)) => {
                let cut = without_prefix(b[before], prefix);
                let b1 = if trim_ws(cut.0).len() == 0 {
                    b.remove(before)
                } else {
                    b.update(before, cut)
                };
                let b2 = if before < b1.len() && b1[before].9 is None {
                    b1.update(before, with_marker(b1[before], (false, false, callout_label(kind))))
                } else {
                    b1
                };
                Seq::new(b2.len(), |i: int| if i >= before { with_kind(b2[i], Kind::Callout) } else { b2[i] })
            },
        }
    }
}

/// The blocks of a quote, one level deeper; plain paragraphs become quotes.
pub open spec fn quote_fix(b: Seq<BlockView>, before: int) -> Seq<BlockView> {
    Seq::new(
        b.len(),
        |i: int|
            if i >= before {
                let x = b[i];
                let depth = if x.7 < 255 { (x.7 + 1) as u8 } else { 255u8 };
                (x.0, x.1, x.2, x.3, x.4, x.5, x.6, depth, if x.8 == Kind::Para { Kind::Quote } else { x.8 }, x.9)
            } else {
                b[i]
            },
    )
}

/// Rows of a table take its column alignments.
pub open spec fn table_fix(b: Seq<BlockView>, before: int, alignments: Seq<CellAlignment>) -> Seq<BlockView> {
    Seq::new(
        b.len(),
        |i: int|
            if i >= before && b[i].8 is TableRow {
                let x = b[i];
                (x.0, x.1, x.2, x.3, x.4, x.5, alignments, x.7, x.8, x.9)
            } else {
                b[i]
            },
    )
}

/// The blocks a node's children produce, appended to what was produced.
/// Depth beyond the bound, or reaching the block limit, stops the descent
/// and marks the traversal.
pub open spec fn flatten_spec(node: MdNode, depth: u8, nest: u16, idx: SourceIndex, st: FlatState) -> FlatState
    decreases MAX_NEST + 1 - nest, 3int, 0int,
{
    if nest > MAX_NEST {
        (marked(st.0, Degradation::DepthLimit), st.1)
    } else if st.1.len() >= MAX_BLOCKS {
        (marked(st.0, Degradation::BlockLimit), st.1)
    } else {
        flatten_children(node, 0, depth, nest, idx, st)
    }
}

pub open spec fn flatten_children(node: MdNode, i: int, depth: u8, nest: u16, idx: SourceIndex, st: FlatState) -> FlatState
    decreases MAX_NEST + 1 - nest, 2int, node.children@.len() - i,
{
    if nest > MAX_NEST || i < 0 || i >= node.children@.len() {
        st
    } else if st.1.len() >= MAX_BLOCKS {
        (marked(st.0, Degradation::BlockLimit), st.1)
    } else {
        flatten_children(node, i + 1, depth, nest, idx, flatten_child(node.children@[i], depth, nest, idx, st))
    }
}

pub open spec fn list_items(list: MdNode, j: int, ordered: bool, start: usize, depth: u8, nest: u16, idx: SourceIndex, st: FlatState) -> FlatState
    decreases MAX_NEST + 1 - nest, 0int, list.children@.len() - j,
{
    if nest > MAX_NEST || j < 0 || j >= list.children@.len() {
        st
    } else {
        let item = list.children@[j];
        let before = st.1.len() as int;
        let next_depth = if depth < 255 { (depth + 1) as u8 } else { 255u8 };
        let after = flatten_spec(item, next_depth, (nest + 1) as u16, idx, st);
        let marked_blocks = if before < after.1.len() {
            after.1.update(before, with_marker(after.1[before], item_marker(ordered, start, j, item_task(item))))
        } else {
            after.1
        };
        list_items(list, j + 1, ordered, start, depth, nest, idx, (after.0, marked_blocks))
    }
}

pub open spec fn flatten_child(child: MdNode, depth: u8, nest: u16, idx: SourceIndex, st: FlatState) -> FlatState
    decreases MAX_NEST + 1 - nest, 1int, 0int,
{
    if nest > MAX_NEST {
        st
    } else {
        let src = idx.range_of_pos(child.pos);
        let next = (nest + 1) as u16;
        match child.value {
            MdValue::Heading(level) => {
                let (d, o) = inline_of_spec(child, idx, st.0);
                (d, if trim_ws(o.0).len() > 0 { st.1.push(new_block_view(o, Kind::Heading(level), src)) } else { st.1 })
            },
            MdValue::Paragraph => {
                let (d, o) = inline_of_spec(child, idx, st.0);
                let kind = if depth == 0 { Kind::Para } else { Kind::Item(depth) };
                (d, if trim_ws(o.0).len() > 0 { st.1.push(new_block_view(o, kind, src)) } else { st.1 })
            },
            MdValue::List { ordered, start } => list_items(child, 0, ordered, start, depth, nest, idx, st),
            MdValue::Item | MdValue::TaskItem(_) => flatten_spec(child, depth, next, idx, st),
            MdValue::CodeBlock { info, literal } => code_lines(
                (if literal@.len() == 0 { seq![Seq::<char>::empty()] } else { Seq::empty() }) + lines_of(literal@),
                0,
                if info@.len() == 0 { None } else { Some(info@) },
                src,
                st,
            ),
            MdValue::HtmlBlock(literal) => code_lines(lines_of(literal@), 0, None, src, st),
            MdValue::Table(alignments) => {
                let before = st.1.len() as int;
                let after = flatten_spec(child, depth, next, idx, st);
                (after.0, table_fix(after.1, before, alignments@))
            },
            MdValue::TableRow(header) => {
                let rs = row_cells(child.children@, 0, idx, (st.0, Seq::empty(), Seq::empty(), Seq::empty(), Seq::empty()));
                (rs.0, st.1.push((rs.1, rs.2, src, rs.3, None, rs.4, Seq::empty(), 0u8, Kind::TableRow { header }, None)))
            },
            MdValue::BlockQuote => {
                let before = st.1.len() as int;
                let after = flatten_spec(child, depth, next, idx, st);
                (after.0, quote_fix(callout_fix(after.1, before), before))
            },
            MdValue::ThematicBreak => (st.0, st.1.push(new_block_view(empty_out(), Kind::Rule, src))),
            _ => flatten_spec(child, depth, next, idx, st),
        }
    }
}

proof fn lemma_flatten_children_step(node: MdNode, i: int, depth: u8, nest: u16, idx: SourceIndex, st: FlatState)
    requires
        0 <= i < node.children@.len(),
        nest <= MAX_NEST,
        st.1.len() < MAX_BLOCKS,
    ensures
        flatten_children(node, i, depth, nest, idx, st) == flatten_children(
            node,
            i + 1,
            depth,
            nest,
            idx,
            flatten_child(node.children@[i], depth, nest, idx, st),
        ),
{
}

/// Flattens the children of a node into blocks.
pub fn flatten(
    node: &MdNode,
    depth: u8,
    nest: u16,
    source_index: &SourceIndex,
    traversal: &mut TraversalState,
    out: &mut Vec<Block>,
)
    ensures
        (final(traversal).degradation, block_views(final(out)@)) == flatten_spec(
            *node,
            depth,
            nest,
            *source_index,
            (old(traversal).degradation, block_views(old(out)@)),
        ),
    decreases MAX_NEST + 1 - nest, 3int, 0int,
{
    if nest > MAX_NEST {
        traversal.mark(Degradation::DepthLimit);
        return;
    }
    if out.len() >= MAX_BLOCKS {
        traversal.mark(Degradation::BlockLimit);
        return;
    }
    let ghost start_state = (traversal.degradation, block_views(out@));
    let mut i: usize = 0;
    while i < node.children.len()
        invariant
            nest <= MAX_NEST,
            i <= node.children@.len(),
            flatten_children(*node, i as int, depth, nest, *source_index, (traversal.degradation, block_views(out@)))
                == flatten_children(*node, 0, depth, nest, *source_index, start_state),
            flatten_spec(*node, depth, nest, *source_index, (old(traversal).degradation, block_views(old(out)@)))
                == flatten_children(*node, 0, depth, nest, *source_index, start_state),
        decreases node.children@.len() - i,
    {
        if out.len() >= MAX_BLOCKS {
            proof {
                assert(flatten_children(*node, i as int, depth, nest, *source_index, (traversal.degradation, block_views(out@)))
                    == (marked(traversal.degradation, Degradation::BlockLimit), block_views(out@)));
            }
            traversal.mark(Degradation::BlockLimit);
            return;
        }
        let ghost before = (traversal.degradation, block_views(out@));
        proof {
            lemma_flatten_children_step(*node, i as int, depth, nest, *source_index, before);
        }
        flatten_child_into(&node.children[i], depth, nest, source_index, traversal, out);
        i = i + 1;
    }
}

fn flatten_child_into(
    child: &MdNode,
    depth: u8,
    nest: u16,
    source_index: &SourceIndex,
    traversal: &mut TraversalState,
    out: &mut Vec<Block>,
)
    requires
        nest <= MAX_NEST,
    ensures
        (final(traversal).degradation, block_views(final(out)@)) == flatten_child(
            *child,
            depth,
            nest,
            *source_index,
            (old(traversal).degradation, block_views(old(out)@)),
        ),
    decreases MAX_NEST + 1 - nest, 2int, 0int,
{
    match &child.value {
        MdValue::Heading(_) | MdValue::Paragraph => text_block_into(child, depth, nest, source_index, traversal, out),
        MdValue::List { ordered, start } => list_into(child, *ordered, *start, depth, nest, source_index, traversal, out),
        MdValue::CodeBlock { .. } | MdValue::HtmlBlock(_) => code_into(child, nest, source_index, traversal, out),
        MdValue::Table(_) => table_into(child, depth, nest, source_index, traversal, out),
        MdValue::TableRow(_) => row_into(child, nest, source_index, traversal, out),
        MdValue::BlockQuote => quote_into(child, depth, nest, source_index, traversal, out),
        MdValue::ThematicBreak => {
            let src = source_index.range(child.pos);
            let ghost before = out@;
            let rule = Block::new(String::new(), Vec::new(), Kind::Rule, src, Vec::new());
            proof {
                assert(block_view(rule) =~= new_block_view(empty_out(), Kind::Rule, src)) by {
                    assert(rule.table_cells@.map_values(|c: TableCell| cell_view(c)) =~= Seq::<CellView>::empty());
                    assert(target_views(rule.targets@) =~= Seq::<TargetView>::empty());
                }
            }
            out.push(rule);
            proof {
                assert(block_views(out@) =~= block_views(before).push(new_block_view(empty_out(), Kind::Rule, src)));
            }
        },
        _ => {
            let next: u16 = nest + 1;
            flatten(child, depth, next, source_index, traversal, out);
        },
    }
}

fn text_block_into(
    child: &MdNode,
    depth: u8,
    nest: u16,
    source_index: &SourceIndex,
    traversal: &mut TraversalState,
    out: &mut Vec<Block>,
)
    requires
        nest <= MAX_NEST,
        child.value is Heading || child.value is Paragraph,
    ensures
        (final(traversal).degradation, block_views(final(out)@)) == flatten_child(
            *child,
            depth,
            nest,
            *source_index,
            (old(traversal).degradation, block_views(old(out)@)),
        ),
{
    let o = inline_of(child, source_index, traversal);
    let src = source_index.range(child.pos);
    let kind = match &child.value {
        MdValue::Heading(level) => Kind::Heading(*level),
        _ => if depth == 0 {
            Kind::Para
        } else {
            Kind::Item(depth)
        },
    };
    let ghost ov = out_view(o);
    let ghost before = out@;
    let InlineOutput { text, spans, targets } = o;
    crate::document::push(out, text, spans, kind, None, src, targets);
    proof {
        if trim_ws(ov.0).len() > 0 {
            assert(out@ =~= before.push(out@.last()));
            assert(block_view(out@.last()) =~= new_block_view(ov, kind, src)) by {
                assert(out@.last().table_cells@.map_values(|c: TableCell| cell_view(c)) =~= Seq::<CellView>::empty());
            }
            assert(block_views(out@) =~= block_views(before).push(new_block_view(ov, kind, src)));
        }
    }
}

fn marker_for(ordered: bool, start: usize, index: usize, task: Option<char>) -> (m: Marker)
    ensures
        marker_view(m) == item_marker(ordered, start, index as int, task),
{
    match task {
        Some(mark) => Marker::Task { done: mark != ' ' },
        None => if ordered {
            let mut t = decimal((start as u128) + (index as u128));
            t.append(".");
            Marker::Text(t)
        } else {
            Marker::Text(String::from_str("•"))
        },
    }
}

proof fn lemma_list_items_step(list: MdNode, j: int, ordered: bool, start: usize, depth: u8, nest: u16, idx: SourceIndex, st: FlatState)
    requires
        0 <= j < list.children@.len(),
        nest <= MAX_NEST,
    ensures
        ({
            let item = list.children@[j];
            let before = st.1.len() as int;
            let next_depth = if depth < 255 { (depth + 1) as u8 } else { 255u8 };
            let after = flatten_spec(item, next_depth, (nest + 1) as u16, idx, st);
            let marked_blocks = if before < after.1.len() {
                after.1.update(before, with_marker(after.1[before], item_marker(ordered, start, j, item_task(item))))
            } else {
                after.1
            };
            list_items(list, j, ordered, start, depth, nest, idx, st)
                == list_items(list, j + 1, ordered, start, depth, nest, idx, (after.0, marked_blocks))
        }),
{
}

fn list_into(
    list: &MdNode,
    ordered: bool,
    start: usize,
    depth: u8,
    nest: u16,
    source_index: &SourceIndex,
    traversal: &mut TraversalState,
    out: &mut Vec<Block>,
)
    requires
        nest <= MAX_NEST,
        list.value == (MdValue::List { ordered, start }),
    ensures
        (final(traversal).degradation, block_views(final(out)@)) == flatten_child(
            *list,
            depth,
            nest,
            *source_index,
            (old(traversal).degradation, block_views(old(out)@)),
        ),
    decreases MAX_NEST + 1 - nest, 1int, 0int,
{
    let ghost start_state = (traversal.degradation, block_views(out@));
    let next_depth: u8 = if depth < 255 {
        depth + 1
    } else {
        255
    };
    let next: u16 = nest + 1;
    let mut j: usize = 0;
    while j < list.children.len()
        invariant
            nest <= MAX_NEST,
            next == nest + 1,
            next_depth == (if depth < 255 { (depth + 1) as u8 } else { 255u8 }),
            j <= list.children@.len(),
            list_items(*list, j as int, ordered, start, depth, nest, *source_index, (traversal.degradation, block_views(out@)))
                == list_items(*list, 0, ordered, start, depth, nest, *source_index, start_state),
        decreases list.children@.len() - j,
    {
        proof {
            lemma_list_items_step(*list, j as int, ordered, start, depth, nest, *source_index, (traversal.degradation, block_views(out@)));
        }
        let item = &list.children[j];
        let task: Option<char> = match &item.value {
            MdValue::TaskItem(mark) => Some(
                match mark {
                    Some(c) => *c,
                    None => ' ',
                },
            ),
            _ => None,
        };
        let marker = marker_for(ordered, start, j, task);
        let before = out.len();
        flatten(item, next_depth, next, source_index, traversal, out);
        if before < out.len() {
            let ghost prev = out@;
            out[before].marker = Some(marker);
            proof {
                assert(out@ =~= prev.update(before as int, out@[before as int]));
                assert(block_views(out@) =~= block_views(prev).update(
                    before as int,
                    with_marker(block_views(prev)[before as int], marker_view(marker)),
                ));
            }
        }
        j = j + 1;
    }
}

fn code_into(
    child: &MdNode,
    nest: u16,
    source_index: &SourceIndex,
    traversal: &mut TraversalState,
    out: &mut Vec<Block>,
)
    requires
        nest <= MAX_NEST,
        child.value is CodeBlock || child.value is HtmlBlock,
    ensures
        (final(traversal).degradation, block_views(final(out)@)) == flatten_child(
            *child,
            0,
            nest,
            *source_index,
            (old(traversal).degradation, block_views(old(out)@)),
        ),
{
    let src = source_index.range(child.pos);
    let (all, info): (Vec<String>, Option<&String>) = match &child.value {
        MdValue::CodeBlock { info, literal } => {
            let all = if literal.as_str().is_empty() {
                vec![String::new()]
            } else {
                crate::workspace::lines(literal.as_str())
            };
            (all, if info.as_str().is_empty() {
                None
            } else {
                Some(info)
            })
        },
        MdValue::HtmlBlock(literal) => (crate::workspace::lines(literal.as_str()), None),
        _ => (Vec::new(), None),
    };
    let ghost lines = crate::workspace::texts(all@);
    let ghost info_view = match info {
        Some(i) => Some(i@),
        None => None::<Seq<char>>,
    };
    proof {
        match &child.value {
            MdValue::CodeBlock { info, literal } => {
                if literal@.len() == 0 {
                    assert(lines_of(literal@) =~= Seq::<Seq<char>>::empty());
                    assert(lines =~= seq![Seq::<char>::empty()]);
                }
                assert(lines =~= (if literal@.len() == 0 { seq![Seq::<char>::empty()] } else { Seq::empty() }) + lines_of(literal@));
            },
            _ => {},
        }
    }
    let ghost start_state = (traversal.degradation, block_views(out@));
    let mut k: usize = 0;
    while k < all.len()
        invariant
            k <= all@.len(),
            lines == crate::workspace::texts(all@),
            code_lines(lines, k as int, info_view, src, (traversal.degradation, block_views(out@)))
                == code_lines(lines, 0, info_view, src, start_state),
            flatten_child(*child, 0, nest, *source_index, (old(traversal).degradation, block_views(old(out)@)))
                == code_lines(lines, 0, info_view, src, start_state),
            info_view == match info {
                Some(i) => Some(i@),
                None => None::<Seq<char>>,
            },
        decreases all@.len() - k,
    {
        if out.len() >= MAX_BLOCKS {
            proof {
                assert(code_lines(lines, k as int, info_view, src, (traversal.degradation, block_views(out@)))
                    == (marked(traversal.degradation, Degradation::BlockLimit), block_views(out@)));
            }
            traversal.mark(Degradation::BlockLimit);
            return;
        }
        let mut block = Block::new(all[k].clone(), Vec::new(), Kind::Code, src, Vec::new());
        block.code_info = match info {
            Some(i) => Some(i.clone()),
            None => None,
        };
        let ghost prev = out@;
        out.push(block);
        proof {
            assert(block_view(block) =~= (lines[k as int], Seq::empty(), src, Seq::empty(), info_view, Seq::empty(), Seq::empty(), 0u8, Kind::Code, None)) by {
                assert(block.table_cells@.map_values(|c: TableCell| cell_view(c)) =~= Seq::<CellView>::empty());
                assert(target_views(block.targets@) =~= Seq::<TargetView>::empty());
            }
            assert(block_views(out@) =~= block_views(prev).push(block_view(block)));
        }
        k = k + 1;
    }
}

fn table_into(
    child: &MdNode,
    depth: u8,
    nest: u16,
    source_index: &SourceIndex,
    traversal: &mut TraversalState,
    out: &mut Vec<Block>,
)
    requires
        nest <= MAX_NEST,
        child.value is Table,
    ensures
        (final(traversal).degradation, block_views(final(out)@)) == flatten_child(
            *child,
            depth,
            nest,
            *source_index,
            (old(traversal).degradation, block_views(old(out)@)),
        ),
    decreases MAX_NEST + 1 - nest, 1int, 0int,
{
    let before = out.len();
    let next: u16 = nest + 1;
    flatten(child, depth, next, source_index, traversal, out);
    match &child.value {
        MdValue::Table(alignments) => {
            let ghost flat = block_views(out@);
            let mut k = before;
            while k < out.len()
                invariant
                    before <= k,
                    flat.len() == out@.len(),
                    forall|i: int| 0 <= i < out@.len() ==> block_view(#[trigger] out@[i]) == if before <= i < k {
                        table_fix(flat, before as int, alignments@)[i]
                    } else {
                        flat[i]
                    },
                decreases out@.len() - k,
            {
                let is_row = match out[k].kind {
                    Kind::TableRow { .. } => true,
                    _ => false,
                };
                if is_row {
                    let mut copy: Vec<CellAlignment> = Vec::new();
                    let mut a: usize = 0;
                    while a < alignments.len()
                        invariant
                            a <= alignments@.len(),
                            copy@ == alignments@.take(a as int),
                        decreases alignments@.len() - a,
                    {
                        copy.push(alignments[a]);
                        proof {
                            assert(alignments@.take(a + 1) =~= alignments@.take(a as int).push(alignments@[a as int]));
                        }
                        a = a + 1;
                    }
                    proof {
                        assert(alignments@.take(alignments@.len() as int) =~= alignments@);
                    }
                    let ghost prev = out@;
                    out[k].table_alignments = copy;
                    proof {
                        assert forall|i: int| 0 <= i < out@.len() implies block_view(#[trigger] out@[i]) == if before <= i < k + 1 {
                            table_fix(flat, before as int, alignments@)[i]
                        } else {
                            flat[i]
                        } by {
                            if i != k {
                                assert(out@[i] == prev[i]);
                            }
                        }
                    }
                }
                k = k + 1;
            }
            proof {
                assert(block_views(out@) =~= table_fix(flat, before as int, alignments@));
            }
        },
        _ => {},
    }
}

proof fn lemma_row_cells_step(cells: Seq<MdNode>, k: int, idx: SourceIndex, rs: RowState)
    requires
        0 <= k < cells.len(),
    ensures
        ({
            let (d, o) = inline_of_spec(cells[k], idx, rs.0);
            let sep = if rs.1.len() > 0 {
                "  |  "@
            } else {
                Seq::empty()
            };
            let off = utf8_len(rs.1 + sep) as int;
            row_cells(cells, k, idx, rs) == row_cells(
                cells,
                k + 1,
                idx,
                (
                    d,
                    rs.1 + sep + o.0,
                    rs.2 + shift_spans_by(o.1, off),
                    rs.3 + shift_targets_by(o.2, off),
                    rs.4.push((idx.range_of_pos(cells[k].pos), o.0, o.1, o.2)),
                ),
            )
        }),
{
}

fn row_into(
    child: &MdNode,
    nest: u16,
    source_index: &SourceIndex,
    traversal: &mut TraversalState,
    out: &mut Vec<Block>,
)
    requires
        nest <= MAX_NEST,
        child.value is TableRow,
    ensures
        (final(traversal).degradation, block_views(final(out)@)) == flatten_child(
            *child,
            0,
            nest,
            *source_index,
            (old(traversal).degradation, block_views(old(out)@)),
        ),
{
    let header = match &child.value {
        MdValue::TableRow(h) => *h,
        _ => false,
    };
    let mut row = InlineOutput { text: String::new(), spans: Vec::new(), targets: Vec::new() };
    let mut cells: Vec<TableCell> = Vec::new();
    let ghost init: RowState = (traversal.degradation, Seq::empty(), Seq::empty(), Seq::empty(), Seq::empty());
    proof {
        assert(target_views(row.targets@) =~= Seq::<TargetView>::empty());
        assert(cells@.map_values(|c: TableCell| cell_view(c)) =~= Seq::<CellView>::empty());
    }
    let mut k: usize = 0;
    while k < child.children.len()
        invariant
            k <= child.children@.len(),
            out_wf(out_view(row)),
            out@ == old(out)@,
            row_cells(
                child.children@,
                k as int,
                *source_index,
                (traversal.degradation, row.text@, row.spans@, target_views(row.targets@), cells@.map_values(|c: TableCell| cell_view(c))),
            ) == row_cells(child.children@, 0, *source_index, init),
        decreases child.children@.len() - k,
    {
        let ghost rs: RowState = (traversal.degradation, row.text@, row.spans@, target_views(row.targets@), cells@.map_values(|c: TableCell| cell_view(c)));
        proof {
            lemma_row_cells_step(child.children@, k as int, *source_index, rs);
        }
        let cell = &child.children[k];
        let src = source_index.range(cell.pos);
        let o = inline_of(cell, source_index, traversal);
        proof {
            reveal_strlit("  |  ");
        }
        if !row.text.as_str().is_empty() {
            literal_into(&mut row, "  |  ", Emphasis::default(), src, false);
        }
        append_into(&mut row, &o);
        let ghost ov = out_view(o);
        let ghost prev_cells = cells@;
        let InlineOutput { text, spans, targets } = o;
        cells.push(TableCell { source: src, text, spans, targets });
        proof {
            assert(cells@.map_values(|c: TableCell| cell_view(c)) =~= prev_cells.map_values(|c: TableCell| cell_view(c)).push(
                (src, ov.0, ov.1, ov.2),
            ));
        }
        k = k + 1;
    }
    let src = source_index.range(child.pos);
    let ghost rs: RowState = (traversal.degradation, row.text@, row.spans@, target_views(row.targets@), cells@.map_values(|c: TableCell| cell_view(c)));
    let InlineOutput { text, spans, targets } = row;
    let mut block = Block::new(text, spans, Kind::TableRow { header }, src, targets);
    block.table_cells = cells;
    let ghost prev = out@;
    out.push(block);
    proof {
        assert(block_view(block) =~= (rs.1, rs.2, src, rs.3, None, rs.4, Seq::empty(), 0u8, Kind::TableRow { header }, None));
        assert(block_views(out@) =~= block_views(prev).push(block_view(block)));
    }
}

proof fn lemma_target_views_concat(a: Seq<InlineTarget>, b: Seq<InlineTarget>)
    ensures
        target_views(a + b) == target_views(a) + target_views(b),
{
    assert(target_views(a + b) =~= target_views(a) + target_views(b));
}

proof fn lemma_shifted_target_views(ts: Seq<InlineTarget>, prefix: int)
    ensures
        target_views(crate::document::shifted_targets(ts, prefix)) == shifted_target_views(target_views(ts), prefix),
    decreases ts.len(),
{
    if ts.len() > 0 {
        let t = ts.last();
        lemma_shifted_target_views(ts.drop_last(), prefix);
        assert(target_views(ts).drop_last() =~= target_views(ts.drop_last()));
        let tail = match shift_range(t.start as int, t.end as int, prefix) {
            Some((a, b)) => seq![InlineTarget { start: a as usize, end: b as usize, ..t }],
            None => Seq::empty(),
        };
        lemma_target_views_concat(crate::document::shifted_targets(ts.drop_last(), prefix), tail);
        assert(target_views(tail) =~= match shift_range(t.start as int, t.end as int, prefix) {
            Some((a, b)) => seq![(t.kind, a as usize, b as usize, t.source, t.destination@, t.title@)],
            None => Seq::<TargetView>::empty(),
        });
    } else {
        assert(target_views(ts) =~= Seq::<TargetView>::empty());
        assert(target_views(crate::document::shifted_targets(ts, prefix)) =~= Seq::<TargetView>::empty());
    }
}

/// A known callout at the first block of a quote becomes its label.
fn callout_into(out: &mut Vec<Block>, before: usize)
    ensures
        block_views(final(out)@) == callout_fix(block_views(old(out)@), before as int),
{
    if before >= out.len() {
        return;
    }
    let found = callout_prefix(out[before].text.as_str());
    let (kind, prefix) = match found {
        Some(f) => f,
        None => return,
    };
    let ghost b0 = block_views(out@);
    let ghost old_block = out@[before as int];
    remove_rendered_prefix(&mut out[before], prefix);
    proof {
        lemma_shifted_target_views(old_block.targets@, prefix as int);
        assert(block_view(out@[before as int]) == without_prefix(b0[before as int], prefix as int));
        assert(block_views(out@) =~= b0.update(before as int, without_prefix(b0[before as int], prefix as int)));
    }
    let ghost b_cut = block_views(out@);
    if trim(out[before].text.as_str()).is_empty() {
        out.remove(before);
        proof {
            assert(block_views(out@) =~= b_cut.remove(before as int));
        }
    }
    let ghost b1 = block_views(out@);
    if before < out.len() && out[before].marker.is_none() {
        let label = Marker::Text(String::from_str(kind.label()));
        let ghost prev = out@;
        out[before].marker = Some(label);
        proof {
            assert(block_views(out@) =~= b1.update(before as int, with_marker(b1[before as int], (false, false, callout_label(kind)))));
        }
    }
    let ghost b2 = block_views(out@);
    let mut k = before;
    while k < out.len()
        invariant
            before <= k,
            b2.len() == out@.len(),
            forall|i: int| 0 <= i < out@.len() ==> block_view(#[trigger] out@[i]) == if before <= i < k {
                with_kind(b2[i], Kind::Callout)
            } else {
                b2[i]
            },
        decreases out@.len() - k,
    {
        let ghost prev = out@;
        out[k].kind = Kind::Callout;
        proof {
            assert forall|i: int| 0 <= i < out@.len() implies block_view(#[trigger] out@[i]) == if before <= i < k + 1 {
                with_kind(b2[i], Kind::Callout)
            } else {
                b2[i]
            } by {
                if i != k {
                    assert(out@[i] == prev[i]);
                }
            }
        }
        k = k + 1;
    }
    proof {
        assert(block_views(out@) =~= Seq::new(b2.len(), |i: int| if i >= before { with_kind(b2[i], Kind::Callout) } else { b2[i] }));
    }
}

/// Every block from `before` on goes one quote level deeper.
fn deepen_quote(out: &mut Vec<Block>, before: usize)
    ensures
        block_views(final(out)@) == quote_fix(block_views(old(out)@), before as int),
{
    let ghost flat = block_views(out@);
    let mut k = before;
    while k < out.len()
        invariant
            before <= k,
            flat.len() == out@.len(),
            forall|i: int| 0 <= i < out@.len() ==> block_view(#[trigger] out@[i]) == if before <= i < k {
                quote_fix(flat, before as int)[i]
            } else {
                flat[i]
            },
        decreases out@.len() - k,
    {
        let ghost prev = out@;
        let d = out[k].quote_depth;
        out[k].quote_depth = if d < 255 {
            d + 1
        } else {
            255
        };
        if out[k].kind == Kind::Para {
            out[k].kind = Kind::Quote;
        }
        proof {
            assert forall|i: int| 0 <= i < out@.len() implies block_view(#[trigger] out@[i]) == if before <= i < k + 1 {
                quote_fix(flat, before as int)[i]
            } else {
                flat[i]
            } by {
                if i != k {
                    assert(out@[i] == prev[i]);
                }
            }
        }
        k = k + 1;
    }
    proof {
        assert(block_views(out@) =~= quote_fix(flat, before as int));
    }
}

fn quote_into(
    child: &MdNode,
    depth: u8,
    nest: u16,
    source_index: &SourceIndex,
    traversal: &mut TraversalState,
    out: &mut Vec<Block>,
)
    requires
        nest <= MAX_NEST,
        child.value is BlockQuote,
    ensures
        (final(traversal).degradation, block_views(final(out)@)) == flatten_child(
            *child,
            depth,
            nest,
            *source_index,
            (old(traversal).degradation, block_views(old(out)@)),
        ),
    decreases MAX_NEST + 1 - nest, 1int, 0int,
{
    let before = out.len();
    let next: u16 = nest + 1;
    flatten(child, depth, next, source_index, traversal, out);
    callout_into(out, before);
    deepen_quote(out, before);
}

/// Whether some line, its line feed included, is longer than what goes to
/// the Markdown parser.
pub open spec fn any_overlong(lines: Seq<Seq<char>>) -> bool
    decreases lines.len(),
{
    lines.len() > 0 && (utf8_len(lines[0]) > MAX_SAFE_LINE_BYTES || any_overlong(lines.drop_first()))
}

/// Whether a line of the source is too long for the Markdown parser.
pub fn has_overlong_line(source: &str) -> (b: bool)
    ensures
        b == any_overlong(raw_lines(source@)),
{
    let mut rest = source;
    while !rest.is_empty()
        invariant
            any_overlong(raw_lines(rest@)) == any_overlong(raw_lines(source@)),
        decreases rest@.len(),
    {
        proof {
            reveal_strlit("\n");
            lemma_utf8_len_ascii("\n"@);
            lemma_raw_line_split(rest@);
            lemma_ends_are_boundaries(rest@);
        }
        let rest_len = byte_len(rest);
        let raw_len = match find(rest, "\n") {
            Some(i) => {
                proof {
                    crate::strings::lemma_split_at(rest@, "\n"@);
                }
                i + 1
            },
            None => rest_len,
        };
        let ghost r = raw_lines(rest@)[0];
        proof {
            match first_occurrence(rest@, "\n"@) {
                Some(k) => {
                    crate::strings::lemma_split_at(rest@, "\n"@);
                    assert(rest@.take(k + 1) =~= rest@.take(k) + "\n"@);
                    lemma_utf8_len_concat(rest@.take(k), "\n"@);
                },
                None => {},
            }
            assert(utf8_len(r) == raw_len);
            lemma_utf8_len_concat(r, rest@.skip(r.len() as int));
            lemma_char_index(rest@, r.len() as int);
            assert(rest@.take(r.len() as int) =~= r);
            lemma_byte_offset_bounds(rest@, r.len() as int);
        }
        if raw_len > MAX_SAFE_LINE_BYTES {
            return true;
        }
        rest = slice(rest, raw_len, rest_len);
    }
    proof {
        assert(raw_lines(rest@) =~= Seq::<Seq<char>>::empty());
    }
    false
}

/// The blocks a parse produced, and why the rich view fell back, if it did.
#[derive(Debug)]
pub struct ParseOutcome {
    pub blocks: Vec<Block>,
    pub degradation: Option<Degradation>,
}

/// What reading a parsed document gives: the safe view when a line is too
/// long; otherwise the flattened tree, or the safe view when flattening had
/// to stop early; every model but the first is checked before it is handed on.
pub open spec fn parse_result(source: Seq<char>, tree: MdNode, idx: SourceIndex, r: Result<ParseOutcome, &'static str>) -> bool {
    if any_overlong(raw_lines(source)) {
        match r {
            Ok(o) => o.degradation == Some(Degradation::LineLimit) && safe_blocks_of(source) == Ok::<Seq<(Seq<char>, SourceRange)>, Seq<char>>(
                block_texts(o.blocks@),
            ) && forall|i: int| 0 <= i < o.blocks@.len() ==> is_inert_code(#[trigger] o.blocks@[i]),
            Err(e) => safe_blocks_of(source) == Err::<Seq<(Seq<char>, SourceRange)>, Seq<char>>(e@),
        }
    } else {
        let flat = flatten_spec(tree, 0, 0, idx, (None, Seq::empty()));
        match flat.0 {
            None => match r {
                Ok(o) => o.degradation is None && block_views(o.blocks@) == flat.1 && model_problem(
                    source,
                    o.blocks@,
                    o.blocks@.len(),
                ) is None,
                Err(e) => exists|bs: Seq<Block>|
                    block_views(bs) == flat.1 && #[trigger] model_problem(source, bs, bs.len()) == Some(e@),
            },
            Some(reason) => match r {
                Ok(o) => o.degradation == Some(reason) && safe_blocks_of(source) == Ok::<Seq<(Seq<char>, SourceRange)>, Seq<char>>(
                    block_texts(o.blocks@),
                ) && (forall|i: int| 0 <= i < o.blocks@.len() ==> is_inert_code(#[trigger] o.blocks@[i]))
                    && model_problem(source, o.blocks@, o.blocks@.len()) is None,
                Err(e) => safe_blocks_of(source) == Err::<Seq<(Seq<char>, SourceRange)>, Seq<char>>(e@)
                    || exists|bs: Seq<Block>|
                    safe_blocks_of(source) == Ok::<Seq<(Seq<char>, SourceRange)>, Seq<char>>(block_texts(bs))
                        && #[trigger] model_problem(source, bs, bs.len()) == Some(e@),
            },
        }
    }
}

/// Reads a parsed document against the index of its source.
pub fn blocks_from_tree(source: &str, source_index: &SourceIndex, tree: &MdNode) -> (r: Result<ParseOutcome, &'static str>)
    ensures
        parse_result(source@, *tree, *source_index, r),
{
    if has_overlong_line(source) {
        let blocks = safe_source_blocks(source, source_index)?;
        return Ok(ParseOutcome { blocks, degradation: Some(Degradation::LineLimit) });
    }
    let mut traversal = TraversalState { degradation: None };
    let mut blocks: Vec<Block> = Vec::new();
    proof {
        assert(block_views(blocks@) =~= Seq::<BlockView>::empty());
    }
    flatten(tree, 0, 0, source_index, &mut traversal, &mut blocks);
    let degradation = traversal.degradation;
    if degradation.is_some() {
        blocks = safe_source_blocks(source, source_index)?;
    }
    validate_model(source, blocks.as_slice())?;
    Ok(ParseOutcome { blocks, degradation })
}

proof fn lemma_code_lines_bound(lines: Seq<Seq<char>>, k: int, info: Option<Seq<char>>, src: SourceRange, st: FlatState)
    requires
        st.1.len() <= MAX_BLOCKS,
    ensures
        code_lines(lines, k, info, src, st).1.len() <= MAX_BLOCKS,
    decreases lines.len() - k,
{
    if 0 <= k < lines.len() && st.1.len() < MAX_BLOCKS {
        let next = (st.0, st.1.push((lines[k], Seq::empty(), src, Seq::empty(), info, Seq::empty(), Seq::empty(), 0u8, Kind::Code, None)));
        lemma_code_lines_bound(lines, k + 1, info, src, next);
    }
}

/// Flattening never produces more than `MAX_BLOCKS` blocks: once the limit
/// is reached it stops, whatever the tree holds.
pub proof fn lemma_flatten_within_block_limit(node: MdNode, depth: u8, nest: u16, idx: SourceIndex, st: FlatState)
    requires
        st.1.len() <= MAX_BLOCKS,
    ensures
        flatten_spec(node, depth, nest, idx, st).1.len() <= MAX_BLOCKS,
    decreases MAX_NEST + 1 - nest, 3int, 0int,
{
    if nest <= MAX_NEST && st.1.len() < MAX_BLOCKS {
        lemma_children_bound(node, 0, depth, nest, idx, st);
    }
}

proof fn lemma_children_bound(node: MdNode, i: int, depth: u8, nest: u16, idx: SourceIndex, st: FlatState)
    requires
        st.1.len() <= MAX_BLOCKS,
    ensures
        flatten_children(node, i, depth, nest, idx, st).1.len() <= MAX_BLOCKS,
    decreases MAX_NEST + 1 - nest, 2int, node.children@.len() - i,
{
    if nest <= MAX_NEST && 0 <= i < node.children@.len() && st.1.len() < MAX_BLOCKS {
        lemma_child_bound(node.children@[i], depth, nest, idx, st);
        lemma_children_bound(node, i + 1, depth, nest, idx, flatten_child(node.children@[i], depth, nest, idx, st));
    }
}

proof fn lemma_child_bound(child: MdNode, depth: u8, nest: u16, idx: SourceIndex, st: FlatState)
    requires
        st.1.len() < MAX_BLOCKS,
    ensures
        flatten_child(child, depth, nest, idx, st).1.len() <= MAX_BLOCKS,
    decreases MAX_NEST + 1 - nest, 1int, 0int,
{
    if nest <= MAX_NEST {
        let src = idx.range_of_pos(child.pos);
        let next = (nest + 1) as u16;
        match child.value {
            MdValue::List { ordered, start } => lemma_items_bound(child, 0, ordered, start, depth, nest, idx, st),
            MdValue::Item | MdValue::TaskItem(_) => lemma_flatten_within_block_limit(child, depth, next, idx, st),
            MdValue::CodeBlock { info, literal } => lemma_code_lines_bound(
                (if literal@.len() == 0 { seq![Seq::<char>::empty()] } else { Seq::empty() }) + lines_of(literal@),
                0,
                if info@.len() == 0 { None } else { Some(info@) },
                src,
                st,
            ),
            MdValue::HtmlBlock(literal) => lemma_code_lines_bound(lines_of(literal@), 0, None, src, st),
            MdValue::Table(alignments) => lemma_flatten_within_block_limit(child, depth, next, idx, st),
            MdValue::BlockQuote => {
                let before = st.1.len() as int;
                lemma_flatten_within_block_limit(child, depth, next, idx, st);
                let after = flatten_spec(child, depth, next, idx, st);
                let c = callout_fix(after.1, before);
                assert(c.len() <= after.1.len());
                assert(quote_fix(c, before).len() == c.len());
            },
            MdValue::Heading(_) | MdValue::Paragraph | MdValue::TableRow(_) | MdValue::ThematicBreak => {},
            _ => lemma_flatten_within_block_limit(child, depth, next, idx, st),
        }
    }
}

proof fn lemma_items_bound(list: MdNode, j: int, ordered: bool, start: usize, depth: u8, nest: u16, idx: SourceIndex, st: FlatState)
    requires
        st.1.len() <= MAX_BLOCKS,
    ensures
        list_items(list, j, ordered, start, depth, nest, idx, st).1.len() <= MAX_BLOCKS,
    decreases MAX_NEST + 1 - nest, 0int, list.children@.len() - j,
{
    if nest <= MAX_NEST && 0 <= j < list.children@.len() {
        let item = list.children@[j];
        let before = st.1.len() as int;
        let next_depth = if depth < 255 { (depth + 1) as u8 } else { 255u8 };
        lemma_flatten_within_block_limit(item, next_depth, (nest + 1) as u16, idx, st);
        let after = flatten_spec(item, next_depth, (nest + 1) as u16, idx, st);
        let marked_blocks = if before < after.1.len() {
            after.1.update(before, with_marker(after.1[before], item_marker(ordered, start, j, item_task(item))))
        } else {
            after.1
        };
        lemma_items_bound(list, j + 1, ordered, start, depth, nest, idx, (after.0, marked_blocks));
    }
}

} // verus!
