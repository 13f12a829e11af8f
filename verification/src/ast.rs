//! Abstract syntax tree types produced by the parser.
//!
//! Every node carries a [`Span`] into the original input. String payloads
//! are byte strings: verbatim copies of the input bytes they stand for
//! (or synthesized ASCII text such as the default callout kind).
//!
//! The well-formedness predicates at the end of this module state the tree
//! invariants the parser guarantees:
//! - every node's span is ordered (`start <= end`);
//! - a node's span contains the span of each of its children;
//! - sibling nodes appear in source order, their spans non-overlapping;
//! - heading levels lie in `1..=6`.

use vstd::prelude::*;

use crate::span::Span;

verus! {

/// Parsing profile that selects the accepted syntax.
#[derive(Debug, Clone, Copy, PartialEq, Eq, Structural)]
pub enum Profile {
    /// Full LiteDoc syntax with explicit fencing.
    Litedoc,
    /// CommonMark plus extensions.
    Md,
    /// Strict CommonMark subset.
    MdStrict,
}

/// Opt-in capability flags declared by the `@modules` directive.
#[derive(Debug, Clone, Copy, PartialEq, Eq, Structural)]
pub enum Module {
    /// Tables with `|` delimiters.
    Tables,
    /// Footnote definitions and references.
    Footnotes,
    /// Math blocks.
    Math,
    /// Task list items.
    Tasks,
    /// `~~strikethrough~~` syntax.
    Strikethrough,
    /// Automatic URL detection.
    Autolink,
    /// Raw HTML pass-through blocks.
    Html,
}

/// List ordering style.
#[derive(Debug, Clone, Copy, PartialEq, Eq, Structural)]
pub enum ListKind {
    /// Numbered list.
    Ordered,
    /// Bulleted list.
    Unordered,
}

/// Typed attribute values for metadata entries.
#[derive(Debug, PartialEq)]
pub enum AttrValue {
    /// String value (quotes stripped).
    Str(Vec<u8>),
    /// Boolean value.
    Bool(bool),
    /// 64-bit signed integer.
    Int(i64),
    /// Float literal, kept as its source text; the library does no float
    /// arithmetic, so the numeral stays undecoded.
    Float(Vec<u8>),
    /// Nested list of values.
    List(Vec<AttrValue>),
}

/// Document metadata from the `--- meta` block.
#[derive(Debug, PartialEq)]
pub struct Metadata {
    /// Key-value entries in declaration order.
    pub entries: Vec<(Vec<u8>, AttrValue)>,
    /// Source span of the metadata block.
    pub span: Span,
}

/// Plain text content.
#[derive(Debug, PartialEq)]
pub struct Text {
    /// The text bytes.
    pub content: Vec<u8>,
    /// Source span.
    pub span: Span,
}

/// Emphasized (italic) text.
#[derive(Debug, PartialEq)]
pub struct Emphasis {
    /// Nested inline content.
    pub content: Vec<Inline>,
    /// Source span.
    pub span: Span,
}

/// Strong (bold) text.
#[derive(Debug, PartialEq)]
pub struct Strong {
    /// Nested inline content.
    pub content: Vec<Inline>,
    /// Source span.
    pub span: Span,
}

/// Strikethrough text.
#[derive(Debug, PartialEq)]
pub struct Strikethrough {
    /// Nested inline content.
    pub content: Vec<Inline>,
    /// Source span.
    pub span: Span,
}

/// Inline code span.
#[derive(Debug, PartialEq)]
pub struct CodeSpan {
    /// Code content, not parsed for formatting.
    pub content: Vec<u8>,
    /// Source span.
    pub span: Span,
}

/// Hyperlink with label and destination.
#[derive(Debug, PartialEq)]
pub struct Link {
    /// Link text.
    pub label: Vec<Inline>,
    /// Link destination URL.
    pub url: Vec<u8>,
    /// Optional title.
    pub title: Option<Vec<u8>>,
    /// Source span.
    pub span: Span,
}

/// Automatically detected URL.
#[derive(Debug, PartialEq)]
pub struct AutoLink {
    /// The URL.
    pub url: Vec<u8>,
    /// Source span.
    pub span: Span,
}

/// Reference to a footnote.
#[derive(Debug, PartialEq)]
pub struct FootnoteRef {
    /// Footnote label being referenced.
    pub label: Vec<u8>,
    /// Source span.
    pub span: Span,
}

/// Inline-level AST nodes.
#[derive(Debug, PartialEq)]
pub enum Inline {
    /// Plain text.
    Text(Text),
    /// Emphasized text (`*italic*`).
    Emphasis(Emphasis),
    /// Strong text (`**bold**`).
    Strong(Strong),
    /// Inline code.
    CodeSpan(CodeSpan),
    /// Hyperlink (`[[label|url]]`).
    Link(Link),
    /// Auto-detected URL (`<url>`).
    AutoLink(AutoLink),
    /// Strikethrough text (`~~deleted~~`).
    Strikethrough(Strikethrough),
    /// Footnote reference (`[^label]`).
    FootnoteRef(FootnoteRef),
    /// Hard line break.
    HardBreak(Span),
    /// Soft line break.
    SoftBreak(Span),
}

/// Section heading with level and inline content.
#[derive(Debug, PartialEq)]
pub struct Heading {
    /// Heading level, between 1 and 6.
    pub level: u8,
    /// Inline content.
    pub content: Vec<Inline>,
    /// Source span.
    pub span: Span,
}

/// Text paragraph containing inline elements.
#[derive(Debug, PartialEq)]
pub struct Paragraph {
    /// Inline content.
    pub content: Vec<Inline>,
    /// Source span.
    pub span: Span,
}

/// A single list item.
#[derive(Debug, PartialEq)]
pub struct ListItem {
    /// Content blocks within the item.
    pub blocks: Vec<Block>,
    /// Source span.
    pub span: Span,
}

/// A list block containing multiple items.
#[derive(Debug, PartialEq)]
pub struct List {
    /// Ordered or unordered.
    pub kind: ListKind,
    /// Starting number for ordered lists.
    pub start: Option<u64>,
    /// List items.
    pub items: Vec<ListItem>,
    /// Source span.
    pub span: Span,
}

/// Fenced code block.
#[derive(Debug, PartialEq)]
pub struct CodeBlock {
    /// Language tag, empty if absent.
    pub lang: Vec<u8>,
    /// Raw code content.
    pub content: Vec<u8>,
    /// Source span.
    pub span: Span,
}

/// Callout/admonition block.
#[derive(Debug, PartialEq)]
pub struct Callout {
    /// Callout kind (defaults to `note`).
    pub kind: Vec<u8>,
    /// Optional title.
    pub title: Option<Vec<u8>>,
    /// Content blocks.
    pub blocks: Vec<Block>,
    /// Source span.
    pub span: Span,
}

/// Block quotation.
#[derive(Debug, PartialEq)]
pub struct Quote {
    /// Quoted content blocks.
    pub blocks: Vec<Block>,
    /// Source span.
    pub span: Span,
}

/// Figure with image reference and optional caption.
#[derive(Debug, PartialEq)]
pub struct Figure {
    /// Image source URL or path.
    pub src: Vec<u8>,
    /// Alternative text.
    pub alt: Vec<u8>,
    /// Optional caption.
    pub caption: Option<Vec<u8>>,
    /// Source span.
    pub span: Span,
}

/// A single table cell.
#[derive(Debug, PartialEq)]
pub struct TableCell {
    /// Cell content.
    pub content: Vec<Inline>,
    /// Source span.
    pub span: Span,
}

/// A single table row.
#[derive(Debug, PartialEq)]
pub struct TableRow {
    /// Cells in this row.
    pub cells: Vec<TableCell>,
    /// Whether this is a header row.
    pub header: bool,
    /// Source span.
    pub span: Span,
}

/// Data table.
#[derive(Debug, PartialEq)]
pub struct Table {
    /// All rows; only the first may be a header row.
    pub rows: Vec<TableRow>,
    /// Source span.
    pub span: Span,
}

/// A single footnote definition.
#[derive(Debug, PartialEq)]
pub struct FootnoteDef {
    /// Footnote label.
    pub label: Vec<u8>,
    /// Footnote content blocks.
    pub blocks: Vec<Block>,
    /// Source span.
    pub span: Span,
}

/// Container for footnote definitions.
#[derive(Debug, PartialEq)]
pub struct Footnotes {
    /// The definitions.
    pub defs: Vec<FootnoteDef>,
    /// Source span.
    pub span: Span,
}

/// Math block.
#[derive(Debug, PartialEq)]
pub struct MathBlock {
    /// Whether this is display math.
    pub display: bool,
    /// Raw math content.
    pub content: Vec<u8>,
    /// Source span.
    pub span: Span,
}

/// Raw HTML block content.
#[derive(Debug, PartialEq)]
pub struct HtmlBlock {
    /// Raw HTML bytes.
    pub content: Vec<u8>,
    /// Source span.
    pub span: Span,
}

/// Unparsed block content kept during error recovery.
#[derive(Debug, PartialEq)]
pub struct RawBlock {
    /// Raw unparsed bytes.
    pub content: Vec<u8>,
    /// Source span.
    pub span: Span,
}

/// Block-level AST nodes.
#[derive(Debug, PartialEq)]
pub enum Block {
    /// Section heading.
    Heading(Heading),
    /// Text paragraph.
    Paragraph(Paragraph),
    /// Ordered or unordered list.
    List(List),
    /// Fenced code block.
    CodeBlock(CodeBlock),
    /// Callout block.
    Callout(Callout),
    /// Block quotation.
    Quote(Quote),
    /// Figure.
    Figure(Figure),
    /// Data table.
    Table(Table),
    /// Footnote definitions.
    Footnotes(Footnotes),
    /// Math block.
    Math(MathBlock),
    /// Thematic break.
    ThematicBreak(Span),
    /// Raw HTML block.
    Html(HtmlBlock),
    /// Unparsed content (error recovery).
    Raw(RawBlock),
}

/// A parsed document: the root of the AST.
#[derive(Debug, PartialEq)]
pub struct Document {
    /// The profile in force (the `@profile` directive overrides the
    /// parser's default).
    pub profile: Profile,
    /// Modules declared by `@modules`, in declaration order.
    pub modules: Vec<Module>,
    /// Metadata from the `--- meta` block, if present.
    pub metadata: Option<Metadata>,
    /// Content blocks in document order.
    pub blocks: Vec<Block>,
    /// Span covering the entire input.
    pub span: Span,
}

/// A span's offsets are in order.
pub open spec fn span_ordered(s: Span) -> bool {
    s.start <= s.end
}

/// `inner` lies within `outer`.
pub open spec fn span_in(inner: Span, outer: Span) -> bool {
    outer.start <= inner.start && inner.end <= outer.end
}

/// The span an inline node carries.
pub open spec fn inline_span(i: Inline) -> Span {
    match i {
        Inline::Text(t) => t.span,
        Inline::Emphasis(e) => e.span,
        Inline::Strong(s) => s.span,
        Inline::CodeSpan(c) => c.span,
        Inline::Link(l) => l.span,
        Inline::AutoLink(a) => a.span,
        Inline::Strikethrough(s) => s.span,
        Inline::FootnoteRef(f) => f.span,
        Inline::HardBreak(s) => s,
        Inline::SoftBreak(s) => s,
    }
}

/// The span a block node carries.
pub open spec fn block_span(b: Block) -> Span {
    match b {
        Block::Heading(h) => h.span,
        Block::Paragraph(p) => p.span,
        Block::List(l) => l.span,
        Block::CodeBlock(c) => c.span,
        Block::Callout(c) => c.span,
        Block::Quote(q) => q.span,
        Block::Figure(f) => f.span,
        Block::Table(t) => t.span,
        Block::Footnotes(f) => f.span,
        Block::Math(m) => m.span,
        Block::ThematicBreak(s) => s,
        Block::Html(h) => h.span,
        Block::Raw(r) => r.span,
    }
}

/// Well-formed inline node: ordered span; children well-formed, contained
/// in this node's span, and in source order.
pub open spec fn inline_wf(i: Inline) -> bool
    decreases i,
{
    &&& span_ordered(inline_span(i))
    &&& match i {
        Inline::Emphasis(e) => inlines_wf_in(e.content@, e.span),
        Inline::Strong(s) => inlines_wf_in(s.content@, s.span),
        Inline::Strikethrough(s) => inlines_wf_in(s.content@, s.span),
        Inline::Link(l) => inlines_wf_in(l.label@, l.span),
        _ => true,
    }
}

/// Well-formed inline sequence within `outer`: each node well-formed and
/// contained, and consecutive nodes non-overlapping, in source order.
pub open spec fn inlines_wf_in(s: Seq<Inline>, outer: Span) -> bool
    decreases s,
{
    &&& forall|k: int| 0 <= k < s.len() ==> inline_wf(#[trigger] s[k])
    &&& forall|k: int| 0 <= k < s.len() ==> span_in(inline_span(#[trigger] s[k]), outer)
    &&& forall|k: int|
        0 <= k < s.len() - 1 ==> inline_span(#[trigger] s[k]).end <= inline_span(s[k + 1]).start
}

/// Well-formed block node: ordered span; children well-formed, contained in
/// this node's span, in source order; heading levels between 1 and 6; only
/// a table's first row may be a header row.
pub open spec fn block_wf(b: Block) -> bool
    decreases b,
{
    &&& span_ordered(block_span(b))
    &&& match b {
        Block::Heading(h) => 1 <= h.level <= 6 && inlines_wf_in(h.content@, h.span),
        Block::Paragraph(p) => inlines_wf_in(p.content@, p.span),
        Block::List(l) => items_wf_in(l.items@, l.span),
        Block::Callout(c) => blocks_wf_in(c.blocks@, c.span),
        Block::Quote(q) => blocks_wf_in(q.blocks@, q.span),
        Block::Table(t) => rows_wf_in(t.rows@, t.span),
        Block::Footnotes(f) => defs_wf_in(f.defs@, f.span),
        _ => true,
    }
}

/// Well-formed block sequence within `outer`.
pub open spec fn blocks_wf_in(s: Seq<Block>, outer: Span) -> bool
    decreases s,
{
    &&& forall|k: int| 0 <= k < s.len() ==> block_wf(#[trigger] s[k])
    &&& forall|k: int| 0 <= k < s.len() ==> span_in(block_span(#[trigger] s[k]), outer)
    &&& forall|k: int|
        0 <= k < s.len() - 1 ==> block_span(#[trigger] s[k]).end <= block_span(s[k + 1]).start
}

/// Well-formed list items within `outer`.
pub open spec fn items_wf_in(s: Seq<ListItem>, outer: Span) -> bool
    decreases s,
{
    &&& forall|k: int|
        0 <= k < s.len() ==> {
            let it = #[trigger] s[k];
            span_ordered(it.span) && span_in(it.span, outer) && blocks_wf_in(it.blocks@, it.span)
        }
    &&& forall|k: int| 0 <= k < s.len() - 1 ==> (#[trigger] s[k]).span.end <= s[k + 1].span.start
}

/// Well-formed table rows within `outer`.
pub open spec fn rows_wf_in(s: Seq<TableRow>, outer: Span) -> bool
    decreases s,
{
    &&& forall|k: int|
        0 <= k < s.len() ==> {
            let row = #[trigger] s[k];
            span_ordered(row.span) && span_in(row.span, outer) && cells_wf_in(
                row.cells@,
                row.span,
            )
        }
    &&& forall|k: int| 0 <= k < s.len() - 1 ==> (#[trigger] s[k]).span.end <= s[k + 1].span.start
    &&& forall|k: int| 1 <= k < s.len() ==> !(#[trigger] s[k]).header
}

/// Well-formed table cells within `outer`.
pub open spec fn cells_wf_in(s: Seq<TableCell>, outer: Span) -> bool
    decreases s,
{
    &&& forall|k: int|
        0 <= k < s.len() ==> {
            let c = #[trigger] s[k];
            span_ordered(c.span) && span_in(c.span, outer) && inlines_wf_in(c.content@, c.span)
        }
    &&& forall|k: int| 0 <= k < s.len() - 1 ==> (#[trigger] s[k]).span.end <= s[k + 1].span.start
}

/// Well-formed footnote definitions within `outer`.
pub open spec fn defs_wf_in(s: Seq<FootnoteDef>, outer: Span) -> bool
    decreases s,
{
    &&& forall|k: int|
        0 <= k < s.len() ==> {
            let d = #[trigger] s[k];
            span_ordered(d.span) && span_in(d.span, outer) && blocks_wf_in(d.blocks@, d.span)
        }
    &&& forall|k: int| 0 <= k < s.len() - 1 ==> (#[trigger] s[k]).span.end <= s[k + 1].span.start
}

/// Well-formed document over an input of `n` bytes: the document span
/// covers exactly the input, the metadata (if any) and every block lie
/// within it, and the block sequence is well-formed.
pub open spec fn document_wf(doc: Document, n: int) -> bool {
    &&& doc.span.start == 0
    &&& doc.span.end == n
    &&& blocks_wf_in(doc.blocks@, doc.span)
    &&& match doc.metadata {
        Some(m) => span_ordered(m.span) && span_in(m.span, doc.span),
        None => true,
    }
}

/// Every span in the tree rooted at `b` (the node and all descendants)
/// lies within `[lo, hi]`.
pub open spec fn block_deep_in(b: Block, lo: int, hi: int) -> bool
    decreases b,
{
    &&& lo <= block_span(b).start as int
    &&& block_span(b).end as int <= hi
    &&& match b {
        Block::Heading(h) => inlines_deep_in(h.content@, lo, hi),
        Block::Paragraph(p) => inlines_deep_in(p.content@, lo, hi),
        Block::List(l) => forall|k: int|
            0 <= k < l.items@.len() ==> {
                let it = #[trigger] l.items@[k];
                lo <= it.span.start as int && it.span.end as int <= hi && blocks_deep_in(
                    it.blocks@,
                    lo,
                    hi,
                )
            },
        Block::Callout(c) => blocks_deep_in(c.blocks@, lo, hi),
        Block::Quote(q) => blocks_deep_in(q.blocks@, lo, hi),
        Block::Table(t) => forall|k: int|
            0 <= k < t.rows@.len() ==> {
                let row = #[trigger] t.rows@[k];
                lo <= row.span.start as int && row.span.end as int <= hi && cells_deep_in(
                    row.cells@,
                    lo,
                    hi,
                )
            },
        Block::Footnotes(f) => forall|k: int|
            0 <= k < f.defs@.len() ==> {
                let d = #[trigger] f.defs@[k];
                lo <= d.span.start as int && d.span.end as int <= hi && blocks_deep_in(
                    d.blocks@,
                    lo,
                    hi,
                )
            },
        _ => true,
    }
}

/// Every span in the trees of `s` lies within `[lo, hi]`.
pub open spec fn blocks_deep_in(s: Seq<Block>, lo: int, hi: int) -> bool
    decreases s,
{
    forall|k: int| 0 <= k < s.len() ==> block_deep_in(#[trigger] s[k], lo, hi)
}

/// Every span in the trees of `s` lies within `[lo, hi]`.
pub open spec fn cells_deep_in(s: Seq<TableCell>, lo: int, hi: int) -> bool
    decreases s,
{
    forall|k: int|
        0 <= k < s.len() ==> {
            let c = #[trigger] s[k];
            lo <= c.span.start as int && c.span.end as int <= hi && inlines_deep_in(
                c.content@,
                lo,
                hi,
            )
        }
}

/// Every span in the tree rooted at `i` lies within `[lo, hi]`.
pub open spec fn inline_deep_in(i: Inline, lo: int, hi: int) -> bool
    decreases i,
{
    &&& lo <= inline_span(i).start as int
    &&& inline_span(i).end as int <= hi
    &&& match i {
        Inline::Emphasis(e) => inlines_deep_in(e.content@, lo, hi),
        Inline::Strong(s) => inlines_deep_in(s.content@, lo, hi),
        Inline::Strikethrough(s) => inlines_deep_in(s.content@, lo, hi),
        Inline::Link(l) => inlines_deep_in(l.label@, lo, hi),
        _ => true,
    }
}

/// Every span in the trees of `s` lies within `[lo, hi]`.
pub open spec fn inlines_deep_in(s: Seq<Inline>, lo: int, hi: int) -> bool
    decreases s,
{
    forall|k: int| 0 <= k < s.len() ==> inline_deep_in(#[trigger] s[k], lo, hi)
}

/// Containment is hereditary for inline trees: a well-formed inline node
/// whose own span lies within `[lo, hi]` has every descendant span within
/// `[lo, hi]` as well.
pub proof fn lemma_inline_wf_deep(i: Inline, lo: int, hi: int)
    requires
        inline_wf(i),
        lo <= inline_span(i).start as int,
        inline_span(i).end as int <= hi,
    ensures
        inline_deep_in(i, lo, hi),
    decreases i,
{
    match i {
        Inline::Emphasis(e) => lemma_inlines_wf_deep(e.content@, e.span, lo, hi),
        Inline::Strong(s) => lemma_inlines_wf_deep(s.content@, s.span, lo, hi),
        Inline::Strikethrough(s) => lemma_inlines_wf_deep(s.content@, s.span, lo, hi),
        Inline::Link(l) => lemma_inlines_wf_deep(l.label@, l.span, lo, hi),
        _ => {},
    }
}

/// Containment is hereditary for inline sequences.
pub proof fn lemma_inlines_wf_deep(s: Seq<Inline>, outer: Span, lo: int, hi: int)
    requires
        inlines_wf_in(s, outer),
        lo <= outer.start as int,
        outer.end as int <= hi,
    ensures
        inlines_deep_in(s, lo, hi),
    decreases s,
{
    assert forall|k: int| 0 <= k < s.len() implies inline_deep_in(#[trigger] s[k], lo, hi) by {
        lemma_inline_wf_deep(s[k], lo, hi);
    }
}

/// Containment is hereditary for block trees: a well-formed block whose own
/// span lies within `[lo, hi]` has every descendant span within `[lo, hi]`.
/// With `lo = 0` and `hi` the input length this is the global span bound
/// for every node of a parsed document.
pub proof fn lemma_block_wf_deep(b: Block, lo: int, hi: int)
    requires
        block_wf(b),
        lo <= block_span(b).start as int,
        block_span(b).end as int <= hi,
    ensures
        block_deep_in(b, lo, hi),
    decreases b,
{
    match b {
        Block::Heading(h) => lemma_inlines_wf_deep(h.content@, h.span, lo, hi),
        Block::Paragraph(p) => lemma_inlines_wf_deep(p.content@, p.span, lo, hi),
        Block::List(l) => {
            assert forall|k: int| 0 <= k < l.items@.len() implies {
                let it = #[trigger] l.items@[k];
                lo <= it.span.start as int && it.span.end as int <= hi && blocks_deep_in(
                    it.blocks@,
                    lo,
                    hi,
                )
            } by {
                lemma_blocks_wf_deep(l.items@[k].blocks@, l.items@[k].span, lo, hi);
            }
        },
        Block::Callout(c) => lemma_blocks_wf_deep(c.blocks@, c.span, lo, hi),
        Block::Quote(q) => lemma_blocks_wf_deep(q.blocks@, q.span, lo, hi),
        Block::Table(t) => {
            assert forall|k: int| 0 <= k < t.rows@.len() implies {
                let row = #[trigger] t.rows@[k];
                lo <= row.span.start as int && row.span.end as int <= hi && cells_deep_in(
                    row.cells@,
                    lo,
                    hi,
                )
            } by {
                let row = t.rows@[k];
                assert forall|m: int| 0 <= m < row.cells@.len() implies {
                    let c = #[trigger] row.cells@[m];
                    lo <= c.span.start as int && c.span.end as int <= hi && inlines_deep_in(
                        c.content@,
                        lo,
                        hi,
                    )
                } by {
                    lemma_inlines_wf_deep(row.cells@[m].content@, row.cells@[m].span, lo, hi);
                }
            }
        },
        Block::Footnotes(f) => {
            assert forall|k: int| 0 <= k < f.defs@.len() implies {
                let d = #[trigger] f.defs@[k];
                lo <= d.span.start as int && d.span.end as int <= hi && blocks_deep_in(
                    d.blocks@,
                    lo,
                    hi,
                )
            } by {
                lemma_blocks_wf_deep(f.defs@[k].blocks@, f.defs@[k].span, lo, hi);
            }
        },
        _ => {},
    }
}

/// Containment is hereditary for block sequences.
pub proof fn lemma_blocks_wf_deep(s: Seq<Block>, outer: Span, lo: int, hi: int)
    requires
        blocks_wf_in(s, outer),
        lo <= outer.start as int,
        outer.end as int <= hi,
    ensures
        blocks_deep_in(s, lo, hi),
    decreases s,
{
    assert forall|k: int| 0 <= k < s.len() implies block_deep_in(#[trigger] s[k], lo, hi) by {
        lemma_block_wf_deep(s[k], lo, hi);
    }
}

/// Every span of a well-formed document over `n` input bytes lies within
/// `[0, n]`: the global span invariant.
pub proof fn lemma_document_spans_in_input(doc: Document, n: int)
    requires
        document_wf(doc, n),
    ensures
        blocks_deep_in(doc.blocks@, 0, n),
        match doc.metadata {
            Some(m) => 0 <= m.span.start as int && m.span.end as int <= n,
            None => true,
        },
{
    lemma_blocks_wf_deep(doc.blocks@, doc.span, 0, n);
}

/// Inline nodes all well-formed, with spans inside `[lo, hi]`, in source
/// order. This is the loop-level form of [`inlines_wf_in`], used while a
/// sequence is still being built.
pub open spec fn inlines_in_range(s: Seq<Inline>, lo: int, hi: int) -> bool {
    &&& forall|k: int| 0 <= k < s.len() ==> inline_wf(#[trigger] s[k])
    &&& forall|k: int|
        0 <= k < s.len() ==> lo <= inline_span(#[trigger] s[k]).start as int && inline_span(
            s[k],
        ).end as int <= hi
    &&& forall|k: int|
        0 <= k < s.len() - 1 ==> inline_span(#[trigger] s[k]).end <= inline_span(s[k + 1]).start
}

/// An in-range inline sequence is well-formed within any span covering the
/// range.
pub proof fn lemma_inlines_in_range_wf(s: Seq<Inline>, lo: int, hi: int, outer: Span)
    requires
        inlines_in_range(s, lo, hi),
        outer.start as int <= lo,
        hi <= outer.end as int,
    ensures
        inlines_wf_in(s, outer),
{
}

/// Block nodes all well-formed, with spans inside `[lo, hi]`, in source
/// order: the loop-level form of [`blocks_wf_in`].
pub open spec fn blocks_in_range(s: Seq<Block>, lo: int, hi: int) -> bool {
    &&& forall|k: int| 0 <= k < s.len() ==> block_wf(#[trigger] s[k])
    &&& forall|k: int|
        0 <= k < s.len() ==> lo <= block_span(#[trigger] s[k]).start as int && block_span(
            s[k],
        ).end as int <= hi
    &&& forall|k: int|
        0 <= k < s.len() - 1 ==> block_span(#[trigger] s[k]).end <= block_span(s[k + 1]).start
}

/// An in-range block sequence is well-formed within any span covering the
/// range.
pub proof fn lemma_blocks_in_range_wf(s: Seq<Block>, lo: int, hi: int, outer: Span)
    requires
        blocks_in_range(s, lo, hi),
        outer.start as int <= lo,
        hi <= outer.end as int,
    ensures
        blocks_wf_in(s, outer),
{
}

/// The loop-level form of [`items_wf_in`].
pub open spec fn items_in_range(s: Seq<ListItem>, lo: int, hi: int) -> bool {
    &&& forall|k: int|
        0 <= k < s.len() ==> {
            let it = #[trigger] s[k];
            span_ordered(it.span) && lo <= it.span.start as int && it.span.end as int <= hi
                && blocks_wf_in(it.blocks@, it.span)
        }
    &&& forall|k: int| 0 <= k < s.len() - 1 ==> (#[trigger] s[k]).span.end <= s[k + 1].span.start
}

/// An in-range item sequence is well-formed within any span covering it.
pub proof fn lemma_items_in_range_wf(s: Seq<ListItem>, lo: int, hi: int, outer: Span)
    requires
        items_in_range(s, lo, hi),
        outer.start as int <= lo,
        hi <= outer.end as int,
    ensures
        items_wf_in(s, outer),
{
}

/// The loop-level form of [`rows_wf_in`].
pub open spec fn rows_in_range(s: Seq<TableRow>, lo: int, hi: int) -> bool {
    &&& forall|k: int|
        0 <= k < s.len() ==> {
            let row = #[trigger] s[k];
            span_ordered(row.span) && lo <= row.span.start as int && row.span.end as int <= hi
                && cells_wf_in(row.cells@, row.span)
        }
    &&& forall|k: int| 0 <= k < s.len() - 1 ==> (#[trigger] s[k]).span.end <= s[k + 1].span.start
    &&& forall|k: int| 1 <= k < s.len() ==> !(#[trigger] s[k]).header
}

/// An in-range row sequence is well-formed within any span covering it.
pub proof fn lemma_rows_in_range_wf(s: Seq<TableRow>, lo: int, hi: int, outer: Span)
    requires
        rows_in_range(s, lo, hi),
        outer.start as int <= lo,
        hi <= outer.end as int,
    ensures
        rows_wf_in(s, outer),
{
}

/// The loop-level form of [`cells_wf_in`].
pub open spec fn cells_in_range(s: Seq<TableCell>, lo: int, hi: int) -> bool {
    &&& forall|k: int|
        0 <= k < s.len() ==> {
            let c = #[trigger] s[k];
            span_ordered(c.span) && lo <= c.span.start as int && c.span.end as int <= hi
                && inlines_wf_in(c.content@, c.span)
        }
    &&& forall|k: int| 0 <= k < s.len() - 1 ==> (#[trigger] s[k]).span.end <= s[k + 1].span.start
}

/// An in-range cell sequence is well-formed within any span covering it.
pub proof fn lemma_cells_in_range_wf(s: Seq<TableCell>, lo: int, hi: int, outer: Span)
    requires
        cells_in_range(s, lo, hi),
        outer.start as int <= lo,
        hi <= outer.end as int,
    ensures
        cells_wf_in(s, outer),
{
}

/// The loop-level form of [`defs_wf_in`].
pub open spec fn defs_in_range(s: Seq<FootnoteDef>, lo: int, hi: int) -> bool {
    &&& forall|k: int|
        0 <= k < s.len() ==> {
            let d = #[trigger] s[k];
            span_ordered(d.span) && lo <= d.span.start as int && d.span.end as int <= hi
                && blocks_wf_in(d.blocks@, d.span)
        }
    &&& forall|k: int| 0 <= k < s.len() - 1 ==> (#[trigger] s[k]).span.end <= s[k + 1].span.start
}

/// An in-range definition sequence is well-formed within any span covering
/// it.
pub proof fn lemma_defs_in_range_wf(s: Seq<FootnoteDef>, lo: int, hi: int, outer: Span)
    requires
        defs_in_range(s, lo, hi),
        outer.start as int <= lo,
        hi <= outer.end as int,
    ensures
        defs_wf_in(s, outer),
{
}

/// Sibling blocks come in source order: in a well-formed block sequence
/// any earlier sibling ends at or before any later one starts.
pub proof fn lemma_siblings_ordered(s: Seq<Block>, outer: Span)
    requires
        blocks_wf_in(s, outer),
    ensures
        forall|i: int, j: int|
            0 <= i < j < s.len() ==> block_span(#[trigger] s[i]).end <= block_span(
                #[trigger] s[j],
            ).start,
{
    assert forall|i: int, j: int| 0 <= i < j < s.len() implies block_span(#[trigger] s[i]).end
        <= block_span(#[trigger] s[j]).start by {
        lemma_siblings_step(s, outer, i, j);
    }
}

proof fn lemma_siblings_step(s: Seq<Block>, outer: Span, i: int, j: int)
    requires
        blocks_wf_in(s, outer),
        0 <= i < j < s.len(),
    ensures
        block_span(s[i]).end <= block_span(s[j]).start,
    decreases j - i,
{
    if i + 1 == j {
    } else {
        lemma_siblings_step(s, outer, i, j - 1);
        assert(block_wf(s[j - 1]));
        assert(block_span(s[j - 1]).end <= block_span(s[j]).start);
    }
}

} // verus!
