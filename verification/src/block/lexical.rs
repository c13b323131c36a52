//! Lexical predicates: grammar facts for formatters.
//!
//! [`line_start`] runs the exact probe table the block engine uses, so the two cannot drift.
use vstd::prelude::*;
use crate::options::Constructs;
use super::probe::{probe, spec_probe, Start, StartV};
use super::scan::commonmark::{fence_close, spec_fence_close};
use crate::syntax::run_end;

verus! {

/// What a line would open at flow position.
#[derive(Clone, Copy, Debug, PartialEq, Eq, Structural)]
#[non_exhaustive]
pub enum LineStart {
    Blockquote,
    /// Only reported with `in_paragraph` (an underline needs a paragraph).
    SetextUnderline,
    ThematicBreak,
    AtxHeading,
    CodeFence,
    HtmlBlock,
    MathFence,
    Liquid,
    /// A directive fence line: an opening fence, or a bare closing run that would close an open directive.
    DirectiveFence,
    FootnoteDefinition,
    ListItem,
    /// Only reported with `in_paragraph`.
    TableDelimiterRow,
    /// A `|`-initiated line: a row if a table is open or forming.
    TableRow,
}

/// The payload-free kind of a probe result.
pub open spec fn kind_of(s: StartV) -> LineStart {
    match s {
        StartV::Quote => LineStart::Blockquote,
        StartV::Setext(_) => LineStart::SetextUnderline,
        StartV::ThematicBreak => LineStart::ThematicBreak,
        StartV::Atx { .. } => LineStart::AtxHeading,
        StartV::Fence { .. } => LineStart::CodeFence,
        StartV::Html { .. } => LineStart::HtmlBlock,
        StartV::MathFence { .. } => LineStart::MathFence,
        StartV::Liquid => LineStart::Liquid,
        StartV::Directive { .. } => LineStart::DirectiveFence,
        StartV::FootnoteDef { .. } => LineStart::FootnoteDefinition,
        StartV::ListItem { .. } => LineStart::ListItem,
        StartV::TableDelimiter(_) => LineStart::TableDelimiterRow,
    }
}

/// A space.
pub open spec fn space_pred() -> spec_fn(u8) -> bool {
    |b: u8| b == 32
}

/// What `line` would start as a block: `None` for indented code (4+ spaces, or a tab within the
/// first three columns) and for paragraph text; otherwise the probe table's verdict at the
/// flow position, then a bare `:::` run (directive close) and a `|`-initial line (table row).
pub open spec fn spec_line_start(c: Constructs, line: Seq<u8>, in_paragraph: bool) -> Option<LineStart> {
    let indent = run_end(line, 0, space_pred());
    let tail = line.skip(indent);
    if indent >= 4 || (indent < line.len() && line[indent] == 9) {
        None
    } else if spec_probe(c, tail, in_paragraph) is Some {
        Some(kind_of(spec_probe(c, tail, in_paragraph)->0))
    } else if c.container_directive && spec_fence_close(tail, 58, 3) {
        Some(LineStart::DirectiveFence)
    } else if c.gfm_table && tail.len() > 0 && tail[0] == 124 {
        Some(LineStart::TableRow)
    } else {
        None
    }
}

/// Classifies what `line` (one line, no line ending) would start as a block,
/// or `None` for paragraph text.
/// `in_paragraph` enables the constructs that only exist relative to an open paragraph.
/// Leading indent is handled here: 4+ columns of indent is indented code (never a block start).
pub fn line_start(constructs: &Constructs, line: &[u8], in_paragraph: bool) -> (r: Option<LineStart>)
    requires
        line.len() <= u32::MAX,
        line.len() <= isize::MAX,
    ensures
        r == spec_line_start(*constructs, line@, in_paragraph),
{
    let mut indent: usize = 0;
    while indent < line.len() && line[indent] == 32
        invariant
            indent <= line.len(),
            run_end(line@, indent as int, space_pred()) == run_end(line@, 0, space_pred()),
        decreases line.len() - indent,
    {
        indent = indent + 1;
    }
    if indent >= 4 || (indent < line.len() && line[indent] == 9) {
        return None;
    }
    let tail = &line[indent..line.len()];
    assert(tail@ =~= line@.skip(indent as int));
    if let Some(start) = probe(constructs, tail, in_paragraph) {
        return Some(match start {
            Start::Quote => LineStart::Blockquote,
            Start::Setext(_) => LineStart::SetextUnderline,
            Start::ThematicBreak => LineStart::ThematicBreak,
            Start::Atx { .. } => LineStart::AtxHeading,
            Start::Fence { .. } => LineStart::CodeFence,
            Start::Html { .. } => LineStart::HtmlBlock,
            Start::MathFence { .. } => LineStart::MathFence,
            Start::Liquid => LineStart::Liquid,
            Start::Directive { .. } => LineStart::DirectiveFence,
            Start::FootnoteDef { .. } => LineStart::FootnoteDefinition,
            Start::ListItem { .. } => LineStart::ListItem,
            Start::TableDelimiter(_) => LineStart::TableDelimiterRow,
        });
    }
    if constructs.container_directive && fence_close(tail, 58, 3) {
        return Some(LineStart::DirectiveFence);
    }
    if constructs.gfm_table && tail.len() > 0 && tail[0] == 124 {
        return Some(LineStart::TableRow);
    }
    None
}

} // verus!
