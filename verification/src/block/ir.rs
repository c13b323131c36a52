//! Intermediate block tree.
//!
//! The block phase runs to completion before the inline phase
//! (the reference-definition map must be complete first),
//! so its output is this lightweight tree holding leaf content as segments.
//! The builder turns it into the AST and runs the inline phase per leaf.
use vstd::prelude::*;
use crate::ast::{Destination, TableAlign};
use crate::pos::{Segment, Span};

verus! {

/// One line of a paragraph or heading; `lazy` marks a paragraph continuation line
/// that matched none of the open containers' prefixes.
#[derive(Clone, Copy, Debug)]
pub struct IrSeg {
    pub seg: Segment,
    pub lazy: bool,
}

pub enum Ir {
    Paragraph {
        segments: Vec<IrSeg>,
        span: Span,
    },
    Heading {
        level: u8,
        /// `None` for ATX; the underline span for setext.
        underline: Option<Span>,
        segments: Vec<IrSeg>,
        span: Span,
    },
    ThematicBreak {
        span: Span,
    },
    Code {
        /// `None` for indented code.
        fenced: Option<(u8, Option<Span>)>,
        lines: Vec<Segment>,
        span: Span,
    },
    Html {
        kind: u8,
        lines: Vec<Segment>,
        /// The block's final line ending belongs to its content.
        trailing_newline: bool,
        span: Span,
    },
    Quote {
        children: Vec<Ir>,
        span: Span,
    },
    List {
        ordered: bool,
        /// Bullet char or ordered delimiter.
        marker: u8,
        items: Vec<IrItem>,
        span: Span,
    },
    Definition {
        label: Vec<Segment>,
        destination: Destination,
        title: Option<Vec<Segment>>,
        span: Span,
    },
    Table {
        align: Vec<TableAlign>,
        /// Row 0 is the header; the delimiter row leaves only `align`.
        rows: Vec<IrRow>,
        span: Span,
    },
    FootnoteDefinition {
        label: Span,
        children: Vec<Ir>,
        span: Span,
    },
    MathBlock {
        meta: Option<Span>,
        lines: Vec<Segment>,
        span: Span,
    },
    Liquid {
        pieces: Vec<Segment>,
        span: Span,
    },
    ContainerDirective {
        opening: Span,
        closing: Option<Span>,
        children: Vec<Ir>,
        span: Span,
    },
}

pub struct IrRow {
    pub span: Span,
    pub cells: Vec<Span>,
}

pub struct IrItem {
    pub marker: Span,
    pub padding: u8,
    pub children: Vec<Ir>,
    pub span: Span,
}

impl Ir {
    /// The span every variant carries.
    pub open spec fn spec_span(&self) -> Span {
        match self {
            Ir::Paragraph { span, .. } => *span,
            Ir::Heading { span, .. } => *span,
            Ir::ThematicBreak { span } => *span,
            Ir::Code { span, .. } => *span,
            Ir::Html { span, .. } => *span,
            Ir::Quote { span, .. } => *span,
            Ir::List { span, .. } => *span,
            Ir::Definition { span, .. } => *span,
            Ir::Table { span, .. } => *span,
            Ir::FootnoteDefinition { span, .. } => *span,
            Ir::MathBlock { span, .. } => *span,
            Ir::Liquid { span, .. } => *span,
            Ir::ContainerDirective { span, .. } => *span,
        }
    }

    pub fn span(&self) -> (s: Span)
        ensures
            s == self.spec_span(),
    {
        match self {
            Ir::Paragraph { span, .. } => *span,
            Ir::Heading { span, .. } => *span,
            Ir::ThematicBreak { span } => *span,
            Ir::Code { span, .. } => *span,
            Ir::Html { span, .. } => *span,
            Ir::Quote { span, .. } => *span,
            Ir::List { span, .. } => *span,
            Ir::Definition { span, .. } => *span,
            Ir::Table { span, .. } => *span,
            Ir::FootnoteDefinition { span, .. } => *span,
            Ir::MathBlock { span, .. } => *span,
            Ir::Liquid { span, .. } => *span,
            Ir::ContainerDirective { span, .. } => *span,
        }
    }
}

} // verus!
