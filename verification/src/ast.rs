//! AST node definitions: spans into the original source plus the style facts a printer needs.
//!
//! Node taxonomy (heading / paragraph / list / html / emphasis / …),
//! sibling order and spans follow CommonMark's grammar.
//! No cooked values: consumers slice the original source through [`Span`]s.
//! Style facts a printer would otherwise re-derive by peeking at the source
//! (markers, fence chars, reference kinds, break kinds, …) are first-class fields.
use vstd::prelude::*;
use crate::pos::{Segment, Span};

verus! {

/// The document.
#[derive(Debug)]
pub struct Root {
    pub children: Vec<Block>,
    pub span: Span,
}

/// Flow (block-level) content.
#[derive(Debug)]
pub enum Block {
    Paragraph(Box<Paragraph>),
    Heading(Box<Heading>),
    ThematicBreak(ThematicBreak),
    CodeBlock(Box<CodeBlock>),
    HtmlBlock(Box<HtmlBlock>),
    Blockquote(Box<Blockquote>),
    List(Box<List>),
    Definition(Box<Definition>),
    Table(Box<Table>),
    FootnoteDefinition(Box<FootnoteDefinition>),
    MathBlock(Box<MathBlock>),
    /// `{% … %}` / `{{ … }}` standing alone at flow level;
    /// kept verbatim so it can't be absorbed into neighboring blocks.
    Liquid(Box<Liquid>),
    ContainerDirective(Box<ContainerDirective>),
    MdxEsm(MdxEsm),
    MdxExpression(MdxExpression),
    MdxJsx(Box<MdxJsxFlow>),
}

/// A block's span.
pub open spec fn block_span(b: Block) -> Span {
    match b {
        Block::Paragraph(n) => n.span,
        Block::Heading(n) => n.span,
        Block::ThematicBreak(n) => n.span,
        Block::CodeBlock(n) => n.span,
        Block::HtmlBlock(n) => n.span,
        Block::Blockquote(n) => n.span,
        Block::List(n) => n.span,
        Block::Definition(n) => n.span,
        Block::Table(n) => n.span,
        Block::FootnoteDefinition(n) => n.span,
        Block::MathBlock(n) => n.span,
        Block::Liquid(n) => n.span,
        Block::ContainerDirective(n) => n.span,
        Block::MdxEsm(n) => n.span,
        Block::MdxExpression(n) => n.span,
        Block::MdxJsx(n) => n.span,
    }
}

impl Block {
    pub fn span(&self) -> (s: Span)
        ensures
            s == block_span(*self),
    {
        match self {
            Block::Paragraph(n) => n.span,
            Block::Heading(n) => n.span,
            Block::ThematicBreak(n) => n.span,
            Block::CodeBlock(n) => n.span,
            Block::HtmlBlock(n) => n.span,
            Block::Blockquote(n) => n.span,
            Block::List(n) => n.span,
            Block::Definition(n) => n.span,
            Block::Table(n) => n.span,
            Block::FootnoteDefinition(n) => n.span,
            Block::MathBlock(n) => n.span,
            Block::Liquid(n) => n.span,
            Block::ContainerDirective(n) => n.span,
            Block::MdxEsm(n) => n.span,
            Block::MdxExpression(n) => n.span,
            Block::MdxJsx(n) => n.span,
        }
    }
}

/// Phrasing (inline) content.
#[derive(Debug)]
pub enum Inline {
    Text(Text),
    /// A soft line break (newline inside a paragraph).
    SoftBreak(SoftBreak),
    Emphasis(Box<Emphasis>),
    Strong(Box<Strong>),
    Strikethrough(Box<Strikethrough>),
    CodeSpan(Box<CodeSpan>),
    Link(Box<Link>),
    Image(Box<Image>),
    Autolink(Autolink),
    /// GFM bare URL / email, printed verbatim.
    AutolinkLiteral(AutolinkLiteral),
    HtmlInline(Box<HtmlInline>),
    HardBreak(HardBreak),
    FootnoteReference(Box<FootnoteReference>),
    /// `$$ … $$`, printed verbatim.
    MathSpan(Box<MathSpan>),
    /// `[[target]]`, printed verbatim.
    WikiLink(WikiLink),
    /// `{% … %}` / `{{ … }}` inside text, kept verbatim.
    Liquid(Box<Liquid>),
    MdxExpression(MdxExpression),
    MdxJsx(Box<MdxJsxText>),
}

/// An inline node's span.
pub open spec fn inline_span(i: Inline) -> Span {
    match i {
        Inline::Text(n) => n.span,
        Inline::SoftBreak(n) => n.span,
        Inline::Emphasis(n) => n.span,
        Inline::Strong(n) => n.span,
        Inline::Strikethrough(n) => n.span,
        Inline::CodeSpan(n) => n.span,
        Inline::Link(n) => n.span,
        Inline::Image(n) => n.span,
        Inline::Autolink(n) => n.span,
        Inline::AutolinkLiteral(n) => n.span,
        Inline::HtmlInline(n) => n.span,
        Inline::HardBreak(n) => n.span,
        Inline::FootnoteReference(n) => n.span,
        Inline::MathSpan(n) => n.span,
        Inline::WikiLink(n) => n.span,
        Inline::Liquid(n) => n.span,
        Inline::MdxExpression(n) => n.span,
        Inline::MdxJsx(n) => n.span,
    }
}

impl Inline {
    pub fn span(&self) -> (s: Span)
        ensures
            s == inline_span(*self),
    {
        match self {
            Inline::Text(n) => n.span,
            Inline::SoftBreak(n) => n.span,
            Inline::Emphasis(n) => n.span,
            Inline::Strong(n) => n.span,
            Inline::Strikethrough(n) => n.span,
            Inline::CodeSpan(n) => n.span,
            Inline::Link(n) => n.span,
            Inline::Image(n) => n.span,
            Inline::Autolink(n) => n.span,
            Inline::AutolinkLiteral(n) => n.span,
            Inline::HtmlInline(n) => n.span,
            Inline::HardBreak(n) => n.span,
            Inline::FootnoteReference(n) => n.span,
            Inline::MathSpan(n) => n.span,
            Inline::WikiLink(n) => n.span,
            Inline::Liquid(n) => n.span,
            Inline::MdxExpression(n) => n.span,
            Inline::MdxJsx(n) => n.span,
        }
    }
}

#[derive(Debug)]
pub struct Paragraph {
    pub children: Vec<Inline>,
    /// Source lines that entered this paragraph as lazy continuations
    /// (unprefixed lines inside a blockquote/list).
    /// A printer must not merge or re-wrap across these: doing so changes meaning.
    pub lazy_lines: Vec<Span>,
    pub span: Span,
}

#[derive(Debug)]
pub struct Heading {
    /// 1–6 for ATX, 1–2 for setext.
    pub level: u8,
    pub kind: HeadingKind,
    pub children: Vec<Inline>,
    pub span: Span,
}

#[derive(Debug)]
pub enum HeadingKind {
    Atx,
    /// The underline is printed verbatim (its length is preserved).
    Setext {
        underline: Span,
        /// Source lines that entered the underlying paragraph as lazy continuations.
        lazy_lines: Vec<Span>,
    },
}

#[derive(Clone, Copy, Debug)]
pub struct ThematicBreak {
    pub span: Span,
}

#[derive(Debug)]
pub struct CodeBlock {
    pub kind: CodeBlockKind,
    /// Logical content lines (container prefixes and fence/code indent stripped).
    pub lines: Vec<Segment>,
    pub span: Span,
}

#[derive(Clone, Copy, Debug)]
pub enum CodeBlockKind {
    Fenced {
        /// `` ` `` or `~`.
        fence: u8,
        /// Raw info string, if any.
        info: Option<Span>,
    },
    /// Preserved as indented.
    Indented,
}

#[derive(Clone, Copy, Debug)]
pub enum ListMarker {
    /// `-` / `*` / `+`.
    Bullet { marker: u8 },
    /// `.` / `)` after the number.
    Ordered { delimiter: u8 },
}

/// `[ ]`, `[x]` or `[X]` (the raw span keeps the case).
#[derive(Clone, Copy, Debug)]
pub struct TaskCheckbox {
    pub span: Span,
    pub checked: bool,
}

/// Column alignment of a table (from its delimiter row).
#[derive(Clone, Copy, Debug, PartialEq, Eq, Structural)]
pub enum TableAlign {
    Unspecified,
    Left,
    Center,
    Right,
}

#[derive(Clone, Copy, Debug)]
pub struct Text {
    pub span: Span,
    /// Every byte is ASCII.
    pub ascii_only: bool,
    /// Contains CJK characters.
    pub contains_cjk: bool,
}

/// Reference-link form.
#[derive(Clone, Copy, Debug, PartialEq, Eq, Structural)]
pub enum ReferenceKind {
    /// `[text][label]`
    Full,
    /// `[text][]`
    Collapsed,
    /// `[text]`
    Shortcut,
}

/// A link/image destination, excluding the title.
#[derive(Clone, Copy, Debug)]
pub struct Destination {
    /// Covers the `<`/`>` when angle-bracketed.
    pub span: Span,
    pub angle_bracketed: bool,
}

/// `<https://example.com>` / `<user@example.com>`.
#[derive(Clone, Copy, Debug)]
pub struct Autolink {
    pub span: Span,
    pub email: bool,
}

/// GFM autolink literal (`www.example.com`, bare `https://…` / email).
#[derive(Clone, Copy, Debug)]
pub struct AutolinkLiteral {
    pub span: Span,
}

#[derive(Clone, Copy, Debug)]
pub struct SoftBreak {
    /// Zero-width, at the first content byte of the following line.
    pub span: Span,
}

#[derive(Clone, Copy, Debug)]
pub struct HardBreak {
    pub kind: HardBreakKind,
    pub span: Span,
}

#[derive(Clone, Copy, Debug, PartialEq, Eq, Structural)]
pub enum HardBreakKind {
    /// Two-plus trailing spaces before the newline.
    Spaces,
    /// `\` before the newline.
    Backslash,
}

/// GFM `[^label]`.
#[derive(Clone, Copy, Debug)]
pub struct FootnoteReference {
    pub label: Span,
    pub span: Span,
}

/// `[[target]]`, alias-less.
#[derive(Clone, Copy, Debug)]
pub struct WikiLink {
    pub span: Span,
}

/// An MDX `import`/`export` statement.
#[derive(Clone, Copy, Debug)]
pub struct MdxEsm {
    pub span: Span,
}

/// An MDX `{expr}`.
#[derive(Clone, Copy, Debug)]
pub struct MdxExpression {
    pub span: Span,
}


/// A raw HTML block. Contents are never parsed or formatted.
#[derive(Debug)]
pub struct HtmlBlock {
    /// HTML block type 1–7.
    /// Type 1 (`<pre>`/`<script>`/`<style>`/ `<textarea>`) runs to its closing tag;
    /// the rest end at a blank line.
    pub kind: u8,
    /// Logical content lines, verbatim.
    pub lines: Vec<Segment>,
    /// Whether the block's final line ending belongs to its content.
    pub trailing_newline: bool,
    pub span: Span,
}

#[derive(Debug)]
pub struct Blockquote {
    pub children: Vec<Block>,
    pub span: Span,
}

#[derive(Debug)]
pub struct List {
    pub marker: ListMarker,
    /// Loose lists render children as paragraphs;
    /// blank-line placement around items decides this at parse time.
    pub tight: bool,
    pub children: Vec<ListItem>,
    pub span: Span,
}

#[derive(Debug)]
pub struct ListItem {
    /// The marker itself: `-`, or the full `123.`.
    pub marker: Span,
    /// Spaces between the marker and the content.
    pub padding: u8,
    /// GFM task list checkbox, when the item starts with one.
    pub checkbox: Option<TaskCheckbox>,
    /// A blank line separates two of this item's children.
    pub spread: bool,
    pub children: Vec<Block>,
    pub span: Span,
}

/// A link reference definition: `[label]: dest "title"`.
/// Label and title may span lines, so both are logical-line pieces.
#[derive(Debug)]
pub struct Definition {
    /// Between the brackets.
    pub label: Vec<Segment>,
    pub destination: Destination,
    /// Including the quotes.
    pub title: Option<Vec<Segment>>,
    pub span: Span,
}

#[derive(Debug)]
pub struct Table {
    /// One entry per column of the delimiter row.
    pub align: Vec<TableAlign>,
    /// The first row is the header.
    pub children: Vec<TableRow>,
    pub span: Span,
}

#[derive(Debug)]
pub struct TableRow {
    pub children: Vec<TableCell>,
    pub span: Span,
}

#[derive(Debug)]
pub struct TableCell {
    pub children: Vec<Inline>,
    pub span: Span,
}

#[derive(Debug)]
pub struct FootnoteDefinition {
    pub label: Span,
    pub children: Vec<Block>,
    pub span: Span,
}

/// `$$ … $$` display math, content is kept raw.
#[derive(Debug)]
pub struct MathBlock {
    /// Raw text after the opening fence (`$$meta`), leading whitespace stripped.
    pub meta: Option<Span>,
    /// Logical content lines, fence lines excluded.
    pub lines: Vec<Segment>,
    pub span: Span,
}

/// A container directive (`:::name` … `:::`).
#[derive(Debug)]
pub struct ContainerDirective {
    /// The whole opening fence line, kept verbatim.
    pub opening: Span,
    /// The closing fence line, if the directive was explicitly closed.
    pub closing: Option<Span>,
    pub children: Vec<Block>,
    pub span: Span,
}

#[derive(Debug)]
pub struct Emphasis {
    /// `*` or `_`.
    pub marker: u8,
    pub children: Vec<Inline>,
    pub span: Span,
}

#[derive(Debug)]
pub struct Strong {
    pub children: Vec<Inline>,
    pub span: Span,
}

/// GFM `~~x~~`.
#[derive(Debug)]
pub struct Strikethrough {
    pub children: Vec<Inline>,
    pub span: Span,
}

#[derive(Debug)]
pub struct CodeSpan {
    /// Content between the backtick runs, one segment per line.
    pub pieces: Vec<Segment>,
    pub span: Span,
}

/// `[text](dest "title")` or `[text][label]` / `[text][]` / `[text]`.
#[derive(Debug)]
pub struct Link {
    pub kind: LinkKind,
    pub children: Vec<Inline>,
    pub span: Span,
}

/// `![alt](dest "title")` and the reference forms.
#[derive(Debug)]
pub struct Image {
    pub kind: LinkKind,
    /// The alt text.
    pub children: Vec<Inline>,
    pub span: Span,
}

#[derive(Debug)]
pub enum LinkKind {
    Inline {
        destination: Destination,
        /// Including the quotes.
        title: Option<Vec<Segment>>,
    },
    Reference {
        kind: ReferenceKind,
        /// The text the reference resolves through.
        label: Vec<Segment>,
    },
}

/// A raw inline HTML tag or comment.
#[derive(Debug)]
pub struct HtmlInline {
    /// Verbatim content, one segment per line.
    pub pieces: Vec<Segment>,
    pub span: Span,
}

/// `$$ … $$` inline math, kept raw.
#[derive(Debug)]
pub struct MathSpan {
    /// Verbatim construct, one segment per line.
    pub pieces: Vec<Segment>,
    pub span: Span,
}

/// A `{% … %}` / `{{ … }}` template tag, block-level or inline, kept verbatim.
#[derive(Debug)]
pub struct Liquid {
    /// Verbatim construct, one segment per line.
    pub pieces: Vec<Segment>,
    pub span: Span,
}

/// An MDX JSX element at flow level.
#[derive(Debug)]
pub struct MdxJsxFlow {
    /// The opening (or self-closing) tag, raw.
    pub opening: Span,
    /// The closing tag, raw. `None` when self-closing.
    pub closing: Option<Span>,
    pub children: Vec<Block>,
    pub span: Span,
}

/// An MDX JSX element in text.
#[derive(Debug)]
pub struct MdxJsxText {
    pub opening: Span,
    pub closing: Option<Span>,
    pub children: Vec<Inline>,
    pub span: Span,
}

} // verus!
