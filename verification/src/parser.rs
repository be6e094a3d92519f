//! Reading a Markdown source: comrak parses it, its tree is copied into the
//! library's own tree type, and the verified reader flattens that.
use vstd::prelude::*;
use comrak::arena_tree::NodeEdge;
use comrak::nodes::{ListType, NodeValue, TableAlignment};
use comrak::{parse_document, Arena, Options};
use crate::document::{
    block_texts, is_inert_code, line_starts_of, safe_blocks_of, safe_source_blocks, CellAlignment,
    LineColumn, SourceIndex, SourceRange, Sourcepos,
};
use crate::limits::Degradation;
use crate::strings::ascii_lowercase;
use crate::workspace::{extension_of, is_markdown_extension, is_markdown_path};
use crate::markdown::{blocks_from_tree, parse_result, MdNode, MdValue, ParseOutcome};
use crate::text::utf8_len;

verus! {

/// The value of a node of comrak's tree.
#[verifier::external_type_specification]
#[verifier::external_body]
pub struct ExNodeValue(comrak::nodes::NodeValue);

/// How deep comrak's tree is copied. The reader stops after `MAX_NEST`
/// levels of blocks and again after as many of inline content under a block,
/// so nothing deeper is ever read.
pub const TREE_DEPTH: usize = 256;

/// The comrak extensions a parse turns on.
#[derive(Clone, Copy, Debug, PartialEq, Eq, Structural)]
pub struct MarkdownExtensions {
    pub table: bool,
    pub strikethrough: bool,
    pub highlight: bool,
    pub autolink: bool,
    pub tasklist: bool,
    pub footnotes: bool,
}

/// The reader's extensions: tables, strikethrough, highlight, autolinks,
/// task lists and footnotes, all on.
pub open spec fn reader_extensions_spec() -> MarkdownExtensions {
    MarkdownExtensions { table: true, strikethrough: true, highlight: true, autolink: true, tasklist: true, footnotes: true }
}

pub fn reader_extensions() -> (x: MarkdownExtensions)
    ensures
        x == reader_extensions_spec(),
{
    MarkdownExtensions { table: true, strikethrough: true, highlight: true, autolink: true, tasklist: true, footnotes: true }
}

/// One step of a walk over the parsed tree: the start of a node, with its
/// value and position, or (`None`) the end of the node last started.
pub type MdEvent = Option<(MdValue, Sourcepos)>;

/// comrak's walk (`traverse`) over `parse_document(source)` with `extensions`
/// turned on in `Options::default()`, each start carrying the library's
/// value for the node (`value_of`) and its position.
pub uninterp spec fn markdown_event_list(source: Seq<char>, extensions: MarkdownExtensions) -> Seq<MdEvent>;

/// A position from its two line and column pairs.
pub fn position(start_line: usize, start_column: usize, end_line: usize, end_column: usize) -> (p: Sourcepos)
    ensures
        p == (Sourcepos {
            start: LineColumn { line: start_line, column: start_column },
            end: LineColumn { line: end_line, column: end_column },
        }),
{
    Sourcepos {
        start: LineColumn { line: start_line, column: start_column },
        end: LineColumn { line: end_line, column: end_column },
    }
}

/// `comrak::parse_document` on `source`, with `extensions` set on
/// `Options::default()`, walked with `traverse`: the result is the name
/// `markdown_event_list` of the arguments.
///
/// Assumed, not shown: that the parse returns, without panicking, on every
/// input. comrak's parser holds `unreachable!` and `expect` calls (in
/// `parser/mod.rs`, `parser/inlines.rs` and `parser/table.rs`) that nothing
/// here shows to be out of reach, and no `requires` keeps inputs from them;
/// the library's promise that its verified functions do not panic rests on
/// this assumption wherever a document is parsed.
#[verifier::external_body]
fn markdown_events(source: &str, extensions: MarkdownExtensions) -> (events: Vec<MdEvent>)
    ensures
        events@ == markdown_event_list(source@, extensions),
{
    let mut options = Options::default();
    let e = &mut options.extension;
    (e.table, e.strikethrough, e.highlight) = (extensions.table, extensions.strikethrough, extensions.highlight);
    (e.autolink, e.tasklist, e.footnotes) = (extensions.autolink, extensions.tasklist, extensions.footnotes);
    let arena = Arena::new();
    let root = parse_document(&arena, source, &options);
    root.traverse()
        .map(|edge| match edge {
            NodeEdge::Start(node) => {
                let (ast, p) = (node.data(), node.data().sourcepos);
                Some((value_of(&ast.value), position(p.start.line, p.start.column, p.end.line, p.end.column)))
            },
            NodeEdge::End(_) => None,
        })
        .collect()
}

/// The block values comrak's `NodeValue` holds, one variant for one; `None`
/// for the others. Nothing is claimed of the result.
#[verifier::external_body]
fn block_value(value: &NodeValue) -> Option<MdValue> {
    match value {
        NodeValue::Heading(h) => Some(MdValue::Heading(h.level)),
        NodeValue::Paragraph => Some(MdValue::Paragraph),
        NodeValue::List(l) => Some(MdValue::List { ordered: matches!(l.list_type, ListType::Ordered), start: l.start }),
        NodeValue::Item(_) => Some(MdValue::Item),
        NodeValue::TaskItem(t) => Some(MdValue::TaskItem(t.symbol)),
        NodeValue::BlockQuote => Some(MdValue::BlockQuote),
        NodeValue::ThematicBreak => Some(MdValue::ThematicBreak),
        NodeValue::TableRow(header) => Some(MdValue::TableRow(*header)),
        _ => None,
    }
}

/// The literal blocks comrak's `NodeValue` holds, with their text and a
/// table's column alignments; `None` for the others. Nothing is claimed of
/// the result.
#[verifier::external_body]
fn literal_block_value(value: &NodeValue) -> Option<MdValue> {
    match value {
        NodeValue::CodeBlock(cb) => Some(MdValue::CodeBlock { info: cb.info.clone(), literal: cb.literal.clone() }),
        NodeValue::HtmlBlock(h) => Some(MdValue::HtmlBlock(h.literal.clone())),
        NodeValue::Table(t) => Some(MdValue::Table(t.alignments.iter().map(|a| match a {
            TableAlignment::None => CellAlignment::Unset,
            TableAlignment::Left => CellAlignment::Left,
            TableAlignment::Center => CellAlignment::Center,
            TableAlignment::Right => CellAlignment::Right,
        }).collect())),
        _ => None,
    }
}

/// The inline values without a destination that comrak's `NodeValue` holds;
/// `None` for the others. Nothing is claimed of the result.
#[verifier::external_body]
fn inline_value(value: &NodeValue) -> Option<MdValue> {
    match value {
        NodeValue::Text(t) => Some(MdValue::Text(t.to_string())),
        NodeValue::Code(c) => Some(MdValue::Code(c.literal.clone())),
        NodeValue::Emph => Some(MdValue::Emph),
        NodeValue::Strong => Some(MdValue::Strong),
        NodeValue::Strikethrough => Some(MdValue::Strikethrough),
        NodeValue::Highlight => Some(MdValue::Highlight),
        NodeValue::HtmlInline(h) => Some(MdValue::HtmlInline(h.clone())),
        NodeValue::SoftBreak => Some(MdValue::SoftBreak),
        NodeValue::LineBreak => Some(MdValue::LineBreak),
        _ => None,
    }
}

/// Links, images and footnote references of comrak's `NodeValue`, with
/// their destination, title or number; `None` for the others. Nothing is
/// claimed of the result.
#[verifier::external_body]
fn reference_value(value: &NodeValue) -> Option<MdValue> {
    match value {
        NodeValue::Link(l) => Some(MdValue::Link { url: l.url.clone(), title: l.title.clone() }),
        NodeValue::Image(l) => Some(MdValue::Image { url: l.url.clone(), title: l.title.clone() }),
        NodeValue::FootnoteReference(r) => Some(MdValue::FootnoteReference(r.ix as usize)),
        _ => None,
    }
}

/// The library's value for a node of comrak's tree; nodes the reader does
/// not tell apart (the document, table cells, footnote definitions, …)
/// become `Other`.
fn value_of(value: &NodeValue) -> MdValue {
    if let Some(v) = block_value(value) {
        return v;
    }
    if let Some(v) = literal_block_value(value) {
        return v;
    }
    if let Some(v) = inline_value(value) {
        return v;
    }
    if let Some(v) = reference_value(value) {
        return v;
    }
    MdValue::Other
}

/// Where the walk stands after skipping from `i`, with `open` nodes started
/// and not yet ended: one past the end of the node that started first.
pub open spec fn skip_from(events: Seq<MdEvent>, i: int, open: int) -> int
    decreases events.len() - i,
{
    if i < 0 || i >= events.len() {
        events.len() as int
    } else if events[i] is Some {
        skip_from(events, i + 1, open + 1)
    } else if open <= 1 {
        i + 1
    } else {
        skip_from(events, i + 1, open - 1)
    }
}

/// The position after a child `kid` read at `pos`, if the events there
/// describe it.
pub open spec fn kid_step(events: Seq<MdEvent>, pos: int, depth: int, kid: MdNode) -> Option<int>
    decreases kid, 2int,
{
    if 0 <= pos < events.len() && events[pos] is Some {
        match_node(events, pos, depth + 1, kid)
    } else {
        None
    }
}

/// The position after the children `kids[k..]` read from `pos`.
pub open spec fn kids_end(events: Seq<MdEvent>, pos: int, depth: int, kids: Seq<MdNode>, k: int) -> Option<int>
    decreases kids, kids.len() - k,
{
    if k < 0 || k >= kids.len() {
        Some(pos)
    } else {
        match kid_step(events, pos, depth, kids[k]) {
            Some(n) => kids_end(events, n, depth, kids, k + 1),
            None => None,
        }
    }
}

/// Whether the events from `at` describe `node`, read at tree depth `depth`,
/// and where they end: its value and position, then its children in order
/// and its end; below `TREE_DEPTH` a node keeps no children and its whole
/// subtree is skipped. A walk cut short ends with the events.
pub open spec fn match_node(events: Seq<MdEvent>, at: int, depth: int, node: MdNode) -> Option<int>
    decreases node, 1int,
{
    if !(0 <= at < events.len()) {
        None
    } else {
        match events[at] {
            None => None,
            Some((v, p)) => if node.value != v || node.pos != p {
                None
            } else if depth >= TREE_DEPTH {
                if node.children@.len() == 0 {
                    Some(skip_from(events, at, 0))
                } else {
                    None
                }
            } else {
                match kids_end(events, at + 1, depth, node.children@, 0) {
                    Some(e) => if e >= events.len() {
                        Some(events.len() as int)
                    } else if 0 <= e && events[e] is None {
                        Some(e + 1)
                    } else {
                        None
                    },
                    None => None,
                }
            },
        }
    }
}

/// The tree a walk describes: the node it starts with, or an empty
/// document when it starts with no node.
pub open spec fn events_tree_is(events: Seq<MdEvent>, tree: MdNode) -> bool {
    if events.len() > 0 && events[0] is Some {
        match_node(events, 0, 0, tree) is Some
    } else {
        &&& tree.value == MdValue::Other
        &&& tree.children@.len() == 0
        &&& tree.pos == (Sourcepos { start: LineColumn { line: 0, column: 0 }, end: LineColumn { line: 0, column: 0 } })
    }
}

proof fn lemma_kids_end_push(events: Seq<MdEvent>, pos: int, depth: int, kids: Seq<MdNode>, k: int, x: MdNode)
    requires
        0 <= k <= kids.len(),
    ensures
        kids_end(events, pos, depth, kids.push(x), k) == match kids_end(events, pos, depth, kids, k) {
            Some(p) => kid_step(events, p, depth, x),
            None => None,
        },
    decreases kids.len() - k,
{
    let s = kids.push(x);
    if k == kids.len() {
        assert(s[k] == x);
        match kid_step(events, pos, depth, x) {
            Some(n) => assert(kids_end(events, n, depth, s, k + 1) == Some(n)),
            None => {},
        }
    } else {
        assert(s[k] == kids[k]);
        match kid_step(events, pos, depth, kids[k]) {
            Some(n) => lemma_kids_end_push(events, n, depth, kids, k + 1, x),
            None => {},
        }
    }
}

/// Where the node that starts at `at` ends, one past its end event; the
/// events end with it if they are cut short.
fn skip_node(events: &Vec<MdEvent>, at: usize, Ghost(orig): Ghost<Seq<MdEvent>>) -> (next: usize)
    requires
        at < events@.len(),
        events@.len() == orig.len(),
        forall|j: int| at <= j < orig.len() ==> events@[j] == orig[j],
    ensures
        at < next <= events@.len(),
        next == skip_from(orig, at as int, 0),
{
    let mut open: usize = 0;
    let mut i = at;
    while i < events.len()
        invariant
            at <= i <= events@.len(),
            i > at || open == 0,
            open <= i - at,
            events@.len() == orig.len(),
            forall|j: int| at <= j < orig.len() ==> events@[j] == orig[j],
            skip_from(orig, i as int, open as int) == skip_from(orig, at as int, 0),
        decreases events@.len() - i,
    {
        let starts = events[i].is_some();
        assert(events@[i as int] == orig[i as int]);
        i = i + 1;
        if starts {
            open = open + 1;
        } else if open <= 1 {
            return i;
        } else {
            open = open - 1;
        }
    }
    i
}

/// The node that starts at `at`, with its children down to `TREE_DEPTH`,
/// and the position just after its end event. The values are moved out of
/// the events as they are read.
fn node_from(events: &mut Vec<MdEvent>, at: usize, depth: usize, Ghost(orig): Ghost<Seq<MdEvent>>) -> (r: (MdNode, usize))
    requires
        at < old(events)@.len(),
        orig[at as int] is Some,
        depth <= TREE_DEPTH,
        old(events)@.len() == orig.len(),
        forall|j: int| at <= j < orig.len() ==> old(events)@[j] == orig[j],
    ensures
        at < r.1 <= orig.len(),
        final(events)@.len() == orig.len(),
        forall|j: int| r.1 <= j < orig.len() ==> final(events)@[j] == orig[j],
        match_node(orig, at as int, depth as int, r.0) == Some(r.1 as int),
    decreases TREE_DEPTH - depth,
{
    let origin = LineColumn { line: 0, column: 0 };
    if depth == TREE_DEPTH {
        let next = skip_node(events, at, Ghost(orig));
        let (value, pos) = match events[at].take() {
            Some((v, p)) => (v, p),
            None => (MdValue::Other, Sourcepos { start: origin, end: origin }),
        };
        let node = MdNode { value, pos, children: Vec::new() };
        proof {
            assert(node.children@.len() == 0);
        }
        return (node, next);
    }
    let (value, pos) = match events[at].take() {
        Some((v, p)) => (v, p),
        None => (MdValue::Other, Sourcepos { start: origin, end: origin }),
    };
    let mut children: Vec<MdNode> = Vec::new();
    let n = events.len();
    let mut i = at + 1;
    assert(i <= n);
    proof {
        assert(kids_end(orig, at + 1, depth as int, children@, 0) == Some((at + 1) as int));
    }
    while i < events.len()
        invariant
            at < i <= events@.len(),
            depth < TREE_DEPTH,
            events@.len() == orig.len(),
            forall|j: int| i <= j < orig.len() ==> events@[j] == orig[j],
            orig[at as int] == Some((value, pos)),
            kids_end(orig, at + 1, depth as int, children@, 0) == Some(i as int),
        decreases events@.len() - i,
    {
        assert(events@[i as int] == orig[i as int]);
        if events[i].is_none() {
            let node = MdNode { value, pos, children };
            assert(node.children@ == children@);
            return (node, i + 1);
        }
        let ghost before = children@;
        let (child, next) = node_from(events, i, depth + 1, Ghost(orig));
        children.push(child);
        proof {
            lemma_kids_end_push(orig, at + 1, depth as int, before, 0, child);
        }
        i = next;
    }
    let node = MdNode { value, pos, children };
    assert(node.children@ == children@);
    (node, i)
}

/// Reads a document: comrak parses it with the reader's extensions, unless a
/// line is too long for the parser, and the verified reader flattens the tree
/// that the parser's walk describes.
pub fn parse_blocks(source: &str) -> (r: Result<ParseOutcome, &'static str>)
    ensures
        exists|tree: MdNode, idx: SourceIndex|
            idx.line_starts@ == line_starts_of(vstd::utf8::encode_utf8(source@), utf8_len(source@)) && idx.len
                == utf8_len(source@) && (!crate::markdown::any_overlong(crate::document::raw_lines(source@))
                ==> events_tree_is(markdown_event_list(source@, reader_extensions_spec()), tree))
                && #[trigger] parse_result(source@, tree, idx, r),
{
    let source_index = SourceIndex::new(source);
    let origin = LineColumn { line: 0, column: 0 };
    let empty = MdNode { value: MdValue::Other, pos: Sourcepos { start: origin, end: origin }, children: Vec::new() };
    if crate::markdown::has_overlong_line(source) {
        return blocks_from_tree(source, &source_index, &empty);
    }
    let mut events = markdown_events(source, reader_extensions());
    let ghost orig = events@;
    let tree = if events.len() > 0 && events[0].is_some() {
        node_from(&mut events, 0, 0, Ghost(orig)).0
    } else {
        proof {
            assert(empty.children@.len() == 0);
        }
        empty
    };
    blocks_from_tree(source, &source_index, &tree)
}

/// The view a document opens in: a Markdown file (by the extension of its
/// path) is parsed with `parse_blocks`; any other file is shown as inert
/// source, marked as a text-only degradation.
pub fn document_view(path: &str, source: &str) -> (r: Result<ParseOutcome, &'static str>)
    ensures
        (extension_of(path@) matches Some(e) && is_markdown_extension(ascii_lowercase(e))) ==> exists|
            tree: MdNode,
            idx: SourceIndex,
        |
            idx.line_starts@ == line_starts_of(vstd::utf8::encode_utf8(source@), utf8_len(source@)) && idx.len
                == utf8_len(source@) && (!crate::markdown::any_overlong(crate::document::raw_lines(source@))
                ==> events_tree_is(markdown_event_list(source@, reader_extensions_spec()), tree))
                && #[trigger] parse_result(source@, tree, idx, r),
        !(extension_of(path@) matches Some(e) && is_markdown_extension(ascii_lowercase(e))) ==> match r {
            Ok(o) => o.degradation == Some(Degradation::TextOnly) && safe_blocks_of(source@) == Ok::<
                Seq<(Seq<char>, SourceRange)>,
                Seq<char>,
            >(block_texts(o.blocks@)) && forall|i: int|
                0 <= i < o.blocks@.len() ==> is_inert_code(#[trigger] o.blocks@[i]),
            Err(e) => safe_blocks_of(source@) == Err::<Seq<(Seq<char>, SourceRange)>, Seq<char>>(e@),
        },
{
    if is_markdown_path(path) {
        parse_blocks(source)
    } else {
        let source_index = SourceIndex::new(source);
        match safe_source_blocks(source, &source_index) {
            Ok(blocks) => Ok(ParseOutcome { blocks, degradation: Some(Degradation::TextOnly) }),
            Err(e) => Err(e),
        }
    }
}

} // verus!
