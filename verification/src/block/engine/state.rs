//! The engine's open state: the container stack entries, the current leaf,
//! and the blank-line tables it accumulates.
use vstd::prelude::*;
use crate::ast::TableAlign;
use crate::block::ir::{Ir, IrItem, IrRow, IrSeg};
use crate::pos::{Segment, Span};
use crate::block::scan::blank_between;

verus! {

pub enum OpenContainer {
    Quote { children: Vec<Ir>, start: u32, end: u32 },
    List { items: Vec<IrItem>, ordered: bool, marker: u8, start: u32 },
    Item {
        children: Vec<Ir>,
        marker: Span,
        padding: u8,
        /// Columns from the parent's content start to this item's content.
        content_indent: usize,
        start: u32,
        end: u32,
    },
    /// GFM footnote definition: continuation is `content_indent` (always 4) columns of indent
    /// or a blank line; it stays open across blanks, with no empty-close rule.
    Footnote { children: Vec<Ir>, label: Span, content_indent: usize, start: u32, end: u32 },
    /// A container directive (`:::name` … `:::`).
    /// Content lines need no prefix (blank lines included);
    /// up to `content_indent` columns (the opening fence's indent) are stripped.
    /// A closing-fence line (checked outermost-first, before deeper containers) or a lazy line ends it.
    Directive {
        children: Vec<Ir>,
        fence_len: u32,
        content_indent: usize,
        opening: Span,
        closing: Option<Span>,
        end: u32,
    },
}

/// `c1` is the container `c0` with `ir` appended to its children and its end raised to cover it.
pub open spec fn child_added(c0: OpenContainer, c1: OpenContainer, ir: Ir) -> bool {
    let end = ir.spec_span().end;
    match (c0, c1) {
        (
            OpenContainer::Quote { children: ch0, start: s0, end: e0 },
            OpenContainer::Quote { children: ch1, start: s1, end: e1 },
        ) => ch1@ == ch0@.push(ir) && s1 == s0 && e1 == (if e0 > end { e0 } else { end }),
        (
            OpenContainer::Item { children: ch0, marker: m0, padding: p0, content_indent: i0, start: s0, end: e0 },
            OpenContainer::Item { children: ch1, marker: m1, padding: p1, content_indent: i1, start: s1, end: e1 },
        ) => ch1@ == ch0@.push(ir) && m1 == m0 && p1 == p0 && i1 == i0 && s1 == s0 && e1 == (if e0 > end {
            e0
        } else {
            end
        }),
        (
            OpenContainer::Footnote { children: ch0, label: l0, content_indent: i0, start: s0, end: e0 },
            OpenContainer::Footnote { children: ch1, label: l1, content_indent: i1, start: s1, end: e1 },
        ) => ch1@ == ch0@.push(ir) && l1 == l0 && i1 == i0 && s1 == s0 && e1 == (if e0 > end { e0 } else { end }),
        (
            OpenContainer::Directive {
                children: ch0,
                fence_len: f0,
                content_indent: i0,
                opening: o0,
                closing: c0,
                end: e0,
            },
            OpenContainer::Directive {
                children: ch1,
                fence_len: f1,
                content_indent: i1,
                opening: o1,
                closing: c1,
                end: e1,
            },
        ) => ch1@ == ch0@.push(ir) && f1 == f0 && i1 == i0 && o1 == o0 && c1 == c0 && e1 == (if e0 > end {
            e0
        } else {
            end
        }),
        _ => false,
    }
}

/// `c1` is the list `c0` with `item` appended to its items.
pub open spec fn item_added(c0: OpenContainer, c1: OpenContainer, item: IrItem) -> bool {
    match (c0, c1) {
        (
            OpenContainer::List { items: it0, ordered: o0, marker: m0, start: s0 },
            OpenContainer::List { items: it1, ordered: o1, marker: m1, start: s1 },
        ) => it1@ == it0@.push(item) && o1 == o0 && m1 == m0 && s1 == s0,
        _ => false,
    }
}

/// A blockquote entry with its end raised to `end` (any other entry as it is).
pub open spec fn raised_quote(c: OpenContainer, end: u32) -> OpenContainer {
    match c {
        OpenContainer::Quote { children, start, end: e } => OpenContainer::Quote {
            children,
            start,
            end: if e > end {
                e
            } else {
                end
            },
        },
        other => other,
    }
}

/// The leaf `l1` is `l0` once the line ending before a container-mismatch close is handed back
/// (`opens`: the line opens a container): a raw HTML block of types 1–5 keeps it only when
/// the line opens a container; an unclosed fence drops a last empty unpadded line otherwise,
/// and then ends where that line started; any other leaf is unchanged.
pub open spec fn handed_back(l0: Option<Leaf>, l1: Option<Leaf>, opens: bool) -> bool {
    match (l0, l1) {
        (
            Some(Leaf::Html { kind, lines, trailing_newline, start, end }),
            Some(Leaf::Html { kind: k1, lines: li1, trailing_newline: t1, start: s1, end: e1 }),
        ) => k1 == kind && li1@ == lines@ && s1 == start && e1 == end && t1 == ((opens && 1 <= kind <= 5)
            || trailing_newline),
        (Some(Leaf::Html { .. }), _) => false,
        (
            Some(Leaf::FencedCode { fence, len, indent, info, lines, start, end }),
            Some(Leaf::FencedCode { fence: f1, len: n1, indent: i1, info: o1, lines: li1, start: s1, end: e1 }),
        ) => f1 == fence && n1 == len && i1 == indent && o1 == info && s1 == start && if !opens && lines@.len() > 0
            && lines@.last().span.start == lines@.last().span.end && lines@.last().padding == 0 {
            li1@ == lines@.drop_last() && e1 == lines@.last().span.start
        } else {
            li1@ == lines@ && e1 == end
        },
        (Some(Leaf::FencedCode { .. }), _) => false,
        _ => l1 == l0,
    }
}

/// The leaf `l1` is `l0` once EOF reaches it (when `applies`): a raw HTML block of types 1–5
/// takes the last line ending into its content; anything else is unchanged.
pub open spec fn html_at_eof(l0: Option<Leaf>, l1: Option<Leaf>, applies: bool) -> bool {
    match (l0, l1) {
        (
            Some(Leaf::Html { kind, lines, trailing_newline, start, end }),
            Some(Leaf::Html { kind: k1, lines: li1, trailing_newline: t1, start: s1, end: e1 }),
        ) => k1 == kind && li1@ == lines@ && s1 == start && e1 == end && t1 == ((applies && 1 <= kind <= 5)
            || trailing_newline),
        (Some(Leaf::Html { .. }), _) => false,
        _ => l1 == l0,
    }
}

/// The block children of an open container (a list holds items, so none).
pub open spec fn children_of(c: OpenContainer) -> Seq<Ir> {
    match c {
        OpenContainer::Quote { children, .. } => children@,
        OpenContainer::Item { children, .. } => children@,
        OpenContainer::Footnote { children, .. } => children@,
        OpenContainer::Directive { children, .. } => children@,
        OpenContainer::List { .. } => Seq::empty(),
    }
}

/// A fenced leaf just opened, with no content line yet; `info` as source offsets.
pub open spec fn fence_leaf(
    l: Option<Leaf>,
    fence: u8,
    len: u32,
    indent: usize,
    info: Option<(int, int)>,
    start: int,
    end: int,
) -> bool {
    match l {
        Some(Leaf::FencedCode { fence: f, len: n, indent: i, info: inf, lines, start: s, end: e }) => f == fence && n
            == len && i == indent && lines@.len() == 0 && s == start && e == end && match info {
            Some((a, b)) => inf matches Some(sp) && sp.start == a && sp.end == b,
            None => inf is None,
        },
        _ => false,
    }
}

/// A one-line leaf just opened holding the line `seg`: indented code (no pending blank lines)
/// or a raw HTML block of `kind` (its last line ending not yet content).
pub open spec fn one_line_leaf(l: Option<Leaf>, code: bool, kind: u8, seg: Segment, start: int, end: int) -> bool {
    match l {
        Some(Leaf::IndentedCode { lines, pending, start: s, end: e }) => code && lines@ == seq![seg] && pending@.len()
            == 0 && s == start && e == end,
        Some(Leaf::Html { kind: k, lines, trailing_newline, start: s, end: e }) => !code && k == kind && lines@
            == seq![seg] && !trailing_newline && s == start && e == end,
        _ => false,
    }
}

/// The open leaf `l1` after step 4b offered the line to `l0`; `seg` is the line's segment,
/// `deep` whether it carries 4+ columns of indent, `row` whether it continues a table.
/// HTML types 6–7 take the line, indented code takes a deep line (buffered blank lines first)
/// and closes otherwise, a table takes a row and closes otherwise; other leaves refuse it untouched.
pub open spec fn leaf_continued(
    l0: Option<Leaf>,
    l1: Option<Leaf>,
    consumed: bool,
    deep: bool,
    row: bool,
    seg: Segment,
    end: u32,
) -> bool {
    match l0 {
        Some(Leaf::Html { kind, lines, trailing_newline, start, .. }) => if kind == 6 || kind == 7 {
            consumed && (l1 matches Some(Leaf::Html { kind: k1, lines: li1, trailing_newline: t1, start: s1, end: e1 })
                && k1 == kind && li1@ == lines@.push(seg) && t1 == trailing_newline && s1 == start && e1 == end)
        } else {
            !consumed && l1 == l0
        },
        Some(Leaf::IndentedCode { lines, pending, start, .. }) => if deep {
            consumed && (l1 matches Some(Leaf::IndentedCode { lines: li1, pending: p1, start: s1, end: e1 })
                && li1@ == (lines@ + pending@).push(seg) && p1@.len() == 0 && s1 == start && e1 == end)
        } else {
            !consumed && l1 is None
        },
        Some(Leaf::Table { .. }) => consumed == row && (!consumed ==> l1 is None),
        _ => !consumed && l1 == l0,
    }
}

/// The paragraph `l1` is `l0` with `seg` appended as an ordinary line, its last-line depth `deep`.
pub open spec fn para_extended(l0: Option<Leaf>, l1: Option<Leaf>, seg: Segment, deep: bool) -> bool {
    match (l0, l1) {
        (Some(Leaf::Paragraph { segments: s0, .. }), Some(Leaf::Paragraph { segments: s1, last_deep: d1 })) => s1@
            == s0@.push(IrSeg { seg, lazy: false }) && d1 == deep,
        _ => false,
    }
}

/// The paragraph `l1` is `l0` with `seg` appended as a lazy line.
pub open spec fn lazy_added(l0: Option<Leaf>, l1: Option<Leaf>, seg: Segment) -> bool {
    match (l0, l1) {
        (Some(Leaf::Paragraph { segments: s0, last_deep: d0 }), Some(Leaf::Paragraph { segments: s1, last_deep: d1 })) =>
            s1@ == s0@.push(IrSeg { seg, lazy: true }) && d1 == d0,
        _ => false,
    }
}

/// The block a closing container (not an item) becomes.
pub open spec fn closed_ir(c: OpenContainer) -> Ir {
    match c {
        OpenContainer::Quote { children, start, end } => Ir::Quote { children, span: Span { start, end } },
        OpenContainer::List { items, ordered, marker, start } => Ir::List {
            ordered,
            marker,
            items,
            span: Span {
                start,
                end: if items@.len() > 0 {
                    items@.last().span.end
                } else {
                    start
                },
            },
        },
        OpenContainer::Footnote { children, label, start, end, .. } => Ir::FootnoteDefinition {
            label,
            children,
            span: Span { start, end },
        },
        OpenContainer::Directive { children, opening, closing, end, .. } => Ir::ContainerDirective {
            opening,
            closing,
            children,
            span: Span { start: opening.start, end },
        },
        OpenContainer::Item { children, start, end, .. } => Ir::Quote { children, span: Span { start, end } },
    }
}

/// Which kind of container an entry is.
/// What an open container was opened with and keeps while it stays open: its kind
/// (0 quote, 1 list, 2 item, 3 footnote, 4 directive), where it starts, and its markers,
/// label and indents; its children and end grow, and are left out.
pub open spec fn head_of(c: OpenContainer) -> (int, int, int, int, int, int) {
    match c {
        OpenContainer::Quote { start, .. } => (0, start as int, 0, 0, 0, 0),
        OpenContainer::List { ordered, marker, start, .. } => (1, start as int, if ordered { 1 } else { 0 }, marker as int, 0, 0),
        OpenContainer::Item { marker, padding, content_indent, start, .. } => (
            2,
            start as int,
            marker.start as int,
            marker.end as int,
            padding as int,
            content_indent as int,
        ),
        OpenContainer::Footnote { label, content_indent, start, .. } => (
            3,
            start as int,
            label.start as int,
            label.end as int,
            content_indent as int,
            0,
        ),
        OpenContainer::Directive { fence_len, content_indent, opening, .. } => (
            4,
            opening.start as int,
            opening.end as int,
            fence_len as int,
            content_indent as int,
            0,
        ),
    }
}

/// Two containers with one head are of one kind.
pub proof fn lemma_kind_of_head(a: OpenContainer, b: OpenContainer)
    requires
        head_of(a) == head_of(b),
    ensures
        kind_of(a) == kind_of(b),
{
}

/// The kind of an open container: 0 quote, 1 list, 2 item, 3 footnote, 4 directive.
pub open spec fn kind_of(c: OpenContainer) -> int {
    match c {
        OpenContainer::Quote { .. } => 0,
        OpenContainer::List { .. } => 1,
        OpenContainer::Item { .. } => 2,
        OpenContainer::Footnote { .. } => 3,
        OpenContainer::Directive { .. } => 4,
    }
}

pub enum Leaf {
    /// The span end is always the last segment's end.
    Paragraph {
        segments: Vec<IrSeg>,
        /// The last (non-lazy) line carried 4+ columns of indent;
        /// such a line is never stolen as a table header row.
        last_deep: bool,
    },
    IndentedCode {
        lines: Vec<Segment>,
        /// Blank lines buffered until more content arrives (trailing blanks are not part of the block).
        pending: Vec<Segment>,
        start: u32,
        end: u32,
    },
    /// A fenced verbatim leaf: code (`` ` ``/`~`) and math (`$`) share the continuation rule;
    /// they diverge only at `close_leaf`.
    /// `info` is the info string for code, the meta text for math.
    FencedCode {
        fence: u8,
        len: u32,
        /// Indent of the opening fence; up to this many columns are stripped from content lines.
        indent: usize,
        info: Option<Span>,
        lines: Vec<Segment>,
        start: u32,
        end: u32,
    },
    Html {
        kind: u8,
        lines: Vec<Segment>,
        /// The block's final line ending belongs to its content.
        trailing_newline: bool,
        start: u32,
        end: u32,
    },
    Table { align: Vec<TableAlign>, rows: Vec<IrRow>, start: u32, end: u32 },
}

/// Outcome of matching a line against the open container stack.
pub enum StackMatch {
    /// How many containers matched (prefixes consumed on the cursor).
    Prefixes(usize),
    /// The line is the closing fence of the open directive at `index`;
    /// it consumes the whole line.
    DirectiveClose { index: usize, fence: Span },
}

/// Outcome of offering a line to the open non-verbatim leaf.
pub enum Continuation {
    /// The leaf took the line.
    Consumed,
    /// The line goes on to open blocks; a paragraph that refused it stays open to be interrupted.
    Open,
}

/// The blank-line tables the line loop builds, both in source order.
pub struct BlankLines {
    /// Every logical blank line.
    pub all: Vec<Span>,
    /// The blank lines that can make a list loose:
    /// `all` minus the lines whose innermost open container is a blockquote.
    pub loosening: Vec<Span>,
}

/// A span of `b` in order, in bounds, holding only spaces and tabs.
pub open spec fn blank_span(b: Seq<u8>, s: Span) -> bool {
    s.start <= s.end <= b.len() && blank_between(b, s.start as int, s.end as int)
}

/// A blank-line table of `b`: whitespace-only spans in source order, none overlapping the next.
pub open spec fn blank_lines_ok(b: Seq<u8>, blanks: Seq<Span>) -> bool {
    &&& forall|i: int| 0 <= i < blanks.len() ==> blank_span(b, #[trigger] blanks[i])
    &&& forall|i: int, j: int| 0 <= i < j < blanks.len() ==> #[trigger] blanks[i].end <= #[trigger] blanks[j].start
}

/// Every span of the table ends by `p`.
pub open spec fn ends_by(blanks: Seq<Span>, p: int) -> bool {
    forall|i: int| 0 <= i < blanks.len() ==> #[trigger] blanks[i].end <= p
}

/// `a` is the subsequence of `b` picked by the increasing indices `f`.
pub open spec fn subsequence_by(a: Seq<Span>, b: Seq<Span>, f: Seq<int>) -> bool {
    &&& f.len() == a.len()
    &&& forall|i: int| 0 <= i < f.len() ==> 0 <= #[trigger] f[i] < b.len() && a[i] == b[f[i]]
    &&& forall|i: int, j: int| 0 <= i < j < f.len() ==> #[trigger] f[i] < #[trigger] f[j]
}

/// `a` is a subsequence of `b`.
pub open spec fn subsequence(a: Seq<Span>, b: Seq<Span>) -> bool {
    exists|f: Seq<int>| subsequence_by(a, b, f)
}

/// `new` is `old`, or `old` with one blank span of `b` recorded inside `lo..hi`.
pub open spec fn recorded(old: Seq<Span>, new: Seq<Span>, b: Seq<u8>, lo: int, hi: int) -> bool {
    ||| new == old
    ||| new.len() == old.len() + 1 && new.drop_last() == old && lo <= new.last().start && new.last().end <= hi
        && blank_span(b, new.last())
}

/// Recording a line's blank span after every earlier one keeps the table in order.
pub proof fn lemma_recorded(old: Seq<Span>, new: Seq<Span>, b: Seq<u8>, lo: int, hi: int)
    requires
        blank_lines_ok(b, old),
        ends_by(old, lo),
        recorded(old, new, b, lo, hi),
        lo <= hi,
    ensures
        blank_lines_ok(b, new),
        ends_by(new, hi),
{
    if new != old {
        let n = old.len() as int;
        assert forall|i: int| 0 <= i < n implies #[trigger] new[i] == old[i] by {
            assert(new.drop_last()[i] == new[i]);
        }
        assert forall|i: int, j: int| 0 <= i < j < new.len() implies #[trigger] new[i].end <= #[trigger] new[j].start by {
            if j == n {
                assert(new[i] == old[i]);
                assert(new[j] == new.last());
            } else {
                assert(new[i] == old[i]);
                assert(new[j] == old[j]);
            }
        }
        assert forall|i: int| 0 <= i < new.len() implies blank_span(b, #[trigger] new[i]) by {
            if i < n {
                assert(new[i] == old[i]);
            }
        }
        assert forall|i: int| 0 <= i < new.len() implies #[trigger] new[i].end <= hi by {
            if i < n {
                assert(new[i] == old[i]);
            }
        }
    }
}

impl Default for BlankLines {
    fn default() -> (b: Self)
        ensures
            b.all@.len() == 0,
            b.loosening@.len() == 0,
    {
        BlankLines { all: Vec::new(), loosening: Vec::new() }
    }
}

} // verus!
