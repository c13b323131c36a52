//! The table of block starts: what begins at a flow position (past the ≤3-column indent),
//! in CommonMark's priority order, with construct toggles gating their rows here and nowhere else.
use std::ops::Range;
use vstd::prelude::*;
use crate::options::Constructs;
use crate::syntax::liquid;
use super::scan::{self, blank_between};
use super::scan::commonmark::{ListMarkerScan, spec_thematic_break, spec_atx_heading, spec_setext_underline, spec_fence_open, spec_list_marker};
use super::scan::html::spec_html_block_start;
use super::scan::math::spec_math_fence_open;
use super::scan::directive::spec_directive_fence_open;
use super::scan::footnote::spec_footnote_definition_start;
use super::scan::table::spec_table_delimiter_row;
use crate::ast::TableAlign;

verus! {

/// What starts at a flow position.
pub enum Start {
    Quote,
    /// Only probed while a paragraph is open in the current container.
    Setext(u8),
    ThematicBreak,
    Atx { level: u8, content: Range<usize> },
    Fence { fence: u8, len: u32, info: Range<usize> },
    Html { kind: u8 },
    ListItem { m: ListMarkerScan, empty: bool },
    /// Probed only while a paragraph is open:
    /// the header row is the paragraph's last line, validated at the open site.
    TableDelimiter(Vec<TableAlign>),
    FootnoteDef { label: Range<usize>, content: usize },
    MathFence { len: u32, meta: Range<usize> },
    /// Only the two-byte opener is checked here; the open site validates the full construct.
    Liquid,
    /// A validated directive fence line.
    Directive { len: u32 },
}

/// A block start as plain values.
pub enum StartV {
    Quote,
    Setext(u8),
    ThematicBreak,
    Atx { level: int, start: int, end: int },
    Fence { fence: u8, len: int, start: int, end: int },
    Html { kind: u8 },
    ListItem { m: ListMarkerScan, empty: bool },
    TableDelimiter(Seq<TableAlign>),
    FootnoteDef { label_start: int, label_end: int, content: int },
    MathFence { len: int, start: int, end: int },
    Liquid,
    Directive { len: int },
}

impl Start {
    pub open spec fn view(&self) -> StartV {
        match self {
            Start::Quote => StartV::Quote,
            Start::Setext(l) => StartV::Setext(*l),
            Start::ThematicBreak => StartV::ThematicBreak,
            Start::Atx { level, content } => StartV::Atx { level: *level as int, start: content.start as int, end: content.end as int },
            Start::Fence { fence, len, info } => StartV::Fence { fence: *fence, len: *len as int, start: info.start as int, end: info.end as int },
            Start::Html { kind } => StartV::Html { kind: *kind },
            Start::ListItem { m, empty } => StartV::ListItem { m: *m, empty: *empty },
            Start::TableDelimiter(a) => StartV::TableDelimiter(a@),
            Start::FootnoteDef { label, content } => StartV::FootnoteDef { label_start: label.start as int, label_end: label.end as int, content: *content as int },
            Start::MathFence { len, meta } => StartV::MathFence { len: *len as int, start: meta.start as int, end: meta.end as int },
            Start::Liquid => StartV::Liquid,
            Start::Directive { len } => StartV::Directive { len: *len as int },
        }
    }

    /// micromark's `document` constructs, which interrupt a non-`concrete` flow attempt (liquid)
    /// mid-construct: blockquote, a list item under the paragraph-interrupt restrictions,
    /// and a GFM footnote definition. Directives are flow constructs and don't count.
    pub fn is_container(&self) -> (r: bool)
        ensures
            r == spec_is_container(self.view()),
    {
        match self {
            Start::Quote | Start::FootnoteDef { .. } => true,
            Start::ListItem { m, empty } => item_interrupts(m, *empty),
            _ => false,
        }
    }
}

/// See [`Start::is_container`].
pub open spec fn spec_is_container(s: StartV) -> bool {
    match s {
        StartV::Quote | StartV::FootnoteDef { .. } => true,
        StartV::ListItem { m, empty } => spec_item_interrupts(m, empty),
        _ => false,
    }
}

/// The paragraph-interrupt restriction on list items:
/// an interrupting item must be non-empty and, if ordered, start at 1.
pub open spec fn spec_item_interrupts(m: ListMarkerScan, empty: bool) -> bool {
    !empty && (!m.ordered || m.starts_at_one)
}

/// The paragraph-interrupt restriction on list items (micromark):
/// an interrupting item must be non-empty and, if ordered, start at 1.
pub fn item_interrupts(m: &ListMarkerScan, empty: bool) -> (r: bool)
    ensures
        r == spec_item_interrupts(*m, empty),
{
    !empty && (!m.ordered || m.starts_at_one)
}

/// The block start at `s`, first match in CommonMark's priority order:
/// blockquote, setext underline (with a paragraph open), thematic break, ATX heading, code fence,
/// HTML block, math fence, liquid opener, directive fence, footnote definition, list item,
/// table delimiter row (with a paragraph open); rows of disabled constructs are skipped.
pub open spec fn spec_probe(c: Constructs, s: Seq<u8>, para_open: bool) -> Option<StartV> {
    if s.len() > 0 && s[0] == 62 {
        Some(StartV::Quote)
    } else if para_open && spec_setext_underline(s) is Some {
        Some(StartV::Setext(spec_setext_underline(s)->0))
    } else if spec_thematic_break(s) {
        Some(StartV::ThematicBreak)
    } else if spec_atx_heading(s) is Some {
        let (level, a, b) = spec_atx_heading(s)->0;
        Some(StartV::Atx { level, start: a, end: b })
    } else if spec_fence_open(s) is Some {
        let (fence, len, a, b) = spec_fence_open(s)->0;
        Some(StartV::Fence { fence, len, start: a, end: b })
    } else if c.html_flow && spec_html_block_start(s, para_open) is Some {
        Some(StartV::Html { kind: spec_html_block_start(s, para_open)->0 })
    } else if c.math_flow && spec_math_fence_open(s) is Some {
        let (len, a, b) = spec_math_fence_open(s)->0;
        Some(StartV::MathFence { len, start: a, end: b })
    } else if c.liquid && liquid::spec_open(s) is Some {
        Some(StartV::Liquid)
    } else if c.container_directive && spec_directive_fence_open(s) is Some {
        Some(StartV::Directive { len: spec_directive_fence_open(s)->0 })
    } else if c.gfm_footnote && spec_footnote_definition_start(s) is Some {
        let (a, b, content) = spec_footnote_definition_start(s)->0;
        Some(StartV::FootnoteDef { label_start: a, label_end: b, content })
    } else if spec_list_marker(s) is Some {
        let m = spec_list_marker(s)->0;
        Some(StartV::ListItem { m, empty: blank_between(s, m.len as int, s.len() as int) })
    } else if para_open && c.gfm_table && spec_table_delimiter_row(s) is Some {
        Some(StartV::TableDelimiter(spec_table_delimiter_row(s)->0))
    } else {
        None
    }
}

/// Classifies the block construct starting at `tail` (a flow position).
/// Priority order is CommonMark's (setext before thematic break before list marker).
/// `para_open` folds in the constructs that only exist relative to an open paragraph (setext)
/// or are barred by one (HTML type 7).
pub fn probe(constructs: &Constructs, tail: &[u8], para_open: bool) -> (r: Option<Start>)
    requires
        tail.len() <= u32::MAX,
        tail.len() <= isize::MAX,
    ensures
        r is None ==> spec_probe(*constructs, tail@, para_open) is None,
        r matches Some(st) ==> spec_probe(*constructs, tail@, para_open) == Some(st.view()),
{
    if tail.len() > 0 && tail[0] == 62 {
        return Some(Start::Quote);
    }
    if para_open {
        if let Some(level) = scan::commonmark::setext_underline(tail) {
            return Some(Start::Setext(level));
        }
    }
    if scan::commonmark::thematic_break(tail) {
        return Some(Start::ThematicBreak);
    }
    if let Some((level, content)) = scan::commonmark::atx_heading(tail) {
        return Some(Start::Atx { level, content });
    }
    if let Some((fence, len, info)) = scan::commonmark::fence_open(tail) {
        return Some(Start::Fence { fence, len, info });
    }
    if constructs.html_flow {
        if let Some(kind) = scan::html::html_block_start(tail, para_open) {
            return Some(Start::Html { kind });
        }
    }
    if constructs.math_flow {
        if let Some((len, meta)) = scan::math::math_fence_open(tail) {
            return Some(Start::MathFence { len, meta });
        }
    }
    if constructs.liquid && liquid::open(tail).is_some() {
        return Some(Start::Liquid);
    }
    if constructs.container_directive {
        if let Some(len) = scan::directive::directive_fence_open(tail) {
            return Some(Start::Directive { len });
        }
    }
    if constructs.gfm_footnote {
        if let Some((label, content)) = scan::footnote::footnote_definition_start(tail) {
            return Some(Start::FootnoteDef { label, content });
        }
    }
    if let Some(m) = scan::commonmark::list_marker(tail) {
        let empty = scan::is_blank_from(tail, m.len);
        return Some(Start::ListItem { m, empty });
    }
    if para_open && constructs.gfm_table {
        if let Some(align) = scan::table::table_delimiter_row(tail) {
            return Some(Start::TableDelimiter(align));
        }
    }
    None
}

} // verus!
