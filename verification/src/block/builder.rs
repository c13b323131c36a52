//! IR → AST.
//!
//! Runs after the block phase completes:
//! builds the tree, running the inline phase per leaf against the reference-definition map the engine collected,
//! and computes span-derived facts the AST carries as first-class fields, currently list tightness and item spread.
use vstd::prelude::*;
use vstd::string::StringSliceAdditionalSpecFns;
use crate::ast::{
    block_span, Block, Blockquote, CodeBlock, CodeBlockKind, ContainerDirective, Definition, FootnoteDefinition, Heading,
    HeadingKind, HtmlBlock, Inline, List, ListItem, ListMarker, Liquid, MathBlock, Paragraph, Root, Table,
    TableCell, TableRow, TaskCheckbox, ThematicBreak,
};
use crate::inline::refmap::RefMap;
use crate::options::Constructs;
use crate::pos::{Segment, Span};
use super::ir::{Ir, IrItem, IrSeg};
use super::refdef::segments_fit;
use super::scan::lead_end;
use crate::syntax::is_space_tab;

verus! {

/// `blanks` sorted by start.
pub open spec fn blanks_sorted(blanks: Seq<Span>) -> bool {
    forall|i: int, j: int| 0 <= i < j < blanks.len() ==> #[trigger] blanks[i].start <= #[trigger] blanks[j].start
}

/// A listed blank line starts in `[a, b)` and ends by `b`.
pub open spec fn spec_blank_between(blanks: Seq<Span>, a: int, b: int) -> bool {
    exists|k: int| 0 <= k < blanks.len() && a <= #[trigger] blanks[k].start < b && blanks[k].end <= b
}

/// A listed blank line separates two consecutive children of `ch` (the item is spread).
pub open spec fn children_spread(blanks: Seq<Span>, ch: Seq<Ir>) -> bool {
    exists|i: int|
        0 <= i < ch.len() - 1 && #[trigger] spec_blank_between(
            blanks,
            ch[i].spec_span().end as int,
            ch[i + 1].spec_span().start as int,
        )
}

/// A listed blank line separates two consecutive items of `items`.
pub open spec fn items_gap(blanks: Seq<Span>, items: Seq<IrItem>) -> bool {
    exists|i: int|
        0 <= i < items.len() - 1 && #[trigger] spec_blank_between(
            blanks,
            items[i].span.end as int,
            items[i + 1].span.start as int,
        )
}

/// Whether a blank line lies between offsets `a` and `b`
/// (the blank-line table is in source order, so a binary search finds the first candidate).
pub fn has_blank_between(blanks: &[Span], a: u32, b: u32) -> (r: bool)
    ensures
        blanks_sorted(blanks@) ==> r == spec_blank_between(blanks@, a as int, b as int),
{
    // First entry starting at or after `a`
    let mut lo: usize = 0;
    let mut hi: usize = blanks.len();
    while lo < hi
        invariant
            lo <= hi <= blanks@.len(),
            blanks_sorted(blanks@) ==> forall|q: int| 0 <= q < lo ==> #[trigger] blanks@[q].start < a,
            blanks_sorted(blanks@) ==> forall|q: int| hi <= q < blanks@.len() ==> #[trigger] blanks@[q].start >= a,
        decreases hi - lo,
    {
        let mid = lo + (hi - lo) / 2;
        if blanks[mid].start < a {
            lo = mid + 1;
        } else {
            hi = mid;
        }
    }
    let mut k = lo;
    while k < blanks.len() && blanks[k].start < b
        invariant
            lo <= k <= blanks@.len(),
            blanks_sorted(blanks@) ==> forall|q: int| 0 <= q < lo ==> #[trigger] blanks@[q].start < a,
            blanks_sorted(blanks@) ==> forall|q: int| lo <= q < blanks@.len() ==> #[trigger] blanks@[q].start >= a,
            forall|q: int| lo <= q < k ==> #[trigger] blanks@[q].end > b,
            forall|q: int| lo <= q < k ==> #[trigger] blanks@[q].start < b,
        decreases blanks@.len() - k,
    {
        if blanks[k].end <= b {
            return true;
        }
        k = k + 1;
    }
    proof {
        if blanks_sorted(blanks@) {
            assert forall|q: int| 0 <= q < blanks@.len() && a <= #[trigger] blanks@[q].start < b implies blanks@[q].end > b by {
                if q >= k {
                    if k < blanks@.len() {
                        assert(blanks@[k as int].start >= b);
                        assert(blanks@[k as int].start <= blanks@[q].start);
                    }
                }
            }
        }
    }
    false
}

/// Whether a blank line separates two of an item's block children.
pub fn item_is_spread(blanks: &[Span], children: &[Ir]) -> (r: bool)
    ensures
        blanks_sorted(blanks@) ==> r == exists|i: int|
            0 <= i < children@.len() - 1 && #[trigger] spec_blank_between(
                blanks@,
                children@[i].spec_span().end as int,
                children@[i + 1].spec_span().start as int,
            ),
{
    let mut i: usize = 0;
    while i < children.len() && i + 1 < children.len()
        invariant
            i <= children@.len(),
            blanks_sorted(blanks@) ==> forall|q: int|
                0 <= q < i && q < children@.len() - 1 ==> !#[trigger] spec_blank_between(
                    blanks@,
                    children@[q].spec_span().end as int,
                    children@[q + 1].spec_span().start as int,
                ),
        decreases children@.len() - i,
    {
        if has_blank_between(blanks, children[i].span().end, children[i + 1].span().start) {
            return true;
        }
        i = i + 1;
    }
    false
}

/// The spans of the lines that entered a paragraph as lazy continuations, in order.
pub open spec fn lazy_spans(segs: Seq<IrSeg>) -> Seq<Span>
    decreases segs.len(),
{
    if segs.len() == 0 {
        Seq::empty()
    } else if segs.last().lazy {
        lazy_spans(segs.drop_last()).push(segs.last().seg.span)
    } else {
        lazy_spans(segs.drop_last())
    }
}

/// Whether a block is the AST counterpart of an IR block (same kind).
pub open spec fn same_kind(ir: Ir, b: Block) -> bool {
    match ir {
        Ir::Paragraph { .. } => b is Paragraph,
        Ir::Heading { level, .. } => b matches Block::Heading(h) && h.level == level,
        Ir::ThematicBreak { .. } => b is ThematicBreak,
        Ir::Code { .. } => b is CodeBlock,
        Ir::Html { .. } => b is HtmlBlock,
        Ir::Quote { .. } => b is Blockquote,
        Ir::List { .. } => b is List,
        Ir::Definition { .. } => b is Definition,
        Ir::Table { .. } => b is Table,
        Ir::FootnoteDefinition { .. } => b is FootnoteDefinition,
        Ir::MathBlock { .. } => b is MathBlock,
        Ir::Liquid { .. } => b is Liquid,
        Ir::ContainerDirective { .. } => b is ContainerDirective,
    }
}

/// A task-list checkbox at the start of a paragraph's first line `first` of `b`:
/// whether it is checked and how far the line now starts in.
/// `[ ]`, `[\t]`, `[x]` or `[X]`, then whitespace or the line's end,
/// and the paragraph must go on (same-line content, or another line).
pub open spec fn spec_checkbox(b: Seq<u8>, first: Segment, multiline: bool) -> Option<(bool, u32)> {
    let s = first.span.start as int;
    let e = first.span.end as int;
    if !(s <= e <= b.len()) || e - s < 3 || b[s] != 91 || b[s + 2] != 93 || !(b[s + 1] == 32 || b[s + 1] == 9
        || b[s + 1] == 120 || b[s + 1] == 88) {
        None
    } else if s + 3 < e && !is_space_tab(b[s + 3]) {
        None
    } else {
        let w = lead_end(b, s + 3, e);
        if !multiline && w == e {
            None
        } else {
            Some((b[s + 1] == 120 || b[s + 1] == 88, if w == e { 3u32 } else { (w - s) as u32 }))
        }
    }
}

/// A checkbox is `[`, one mark byte and `]` at the line's start; it is checked exactly when
/// the mark is `x` or `X`, and unchecked exactly when it is a space or a tab.
pub proof fn lemma_checkbox_mark(b: Seq<u8>, first: Segment, multiline: bool)
    ensures
        spec_checkbox(b, first, multiline) matches Some((checked, _)) ==> {
            let s = first.span.start as int;
            &&& s + 3 <= first.span.end <= b.len()
            &&& b[s] == 91 && b[s + 2] == 93
            &&& checked <==> (b[s + 1] == 120 || b[s + 1] == 88)
            &&& !checked <==> (b[s + 1] == 32 || b[s + 1] == 9)
        },
{
}

/// Skipping spaces and tabs from `i` stops between `i` and `e` (for `i <= e`), passing only
/// spaces and tabs, at `e` or at a byte that is neither.
proof fn lemma_lead_end(b: Seq<u8>, i: int, e: int)
    requires
        0 <= i <= e <= b.len(),
    ensures
        i <= lead_end(b, i, e) <= e,
        forall|k: int| i <= k < lead_end(b, i, e) ==> #[trigger] is_space_tab(b[k]),
        lead_end(b, i, e) < e ==> !is_space_tab(b[lead_end(b, i, e)]),
    decreases e - i,
{
    if i < e && is_space_tab(b[i]) {
        lemma_lead_end(b, i + 1, e);
    }
}

/// When a checkbox is recognized: `[`, a space, tab, `x` or `X`, `]`, then the line's end or a
/// space or tab, and the paragraph goes on (another line, or something other than spaces and
/// tabs on this one). The line then starts right after `]` when only spaces and tabs follow it
/// there, else at the first byte past `]` that is neither.
pub proof fn lemma_checkbox_recognized(b: Seq<u8>, first: Segment, multiline: bool)
    ensures
        ({
            let s = first.span.start as int;
            let e = first.span.end as int;
            let rest_blank = forall|k: int| s + 3 <= k < e ==> #[trigger] is_space_tab(b[k]);
            &&& spec_checkbox(b, first, multiline) is Some <==> (s + 3 <= e <= b.len() && b[s] == 91 && b[s + 2] == 93
                && (b[s + 1] == 32 || b[s + 1] == 9 || b[s + 1] == 120 || b[s + 1] == 88) && (s + 3 == e
                || is_space_tab(b[s + 3])) && (multiline || !rest_blank))
            &&& spec_checkbox(b, first, multiline) matches Some((_, skip)) ==> (rest_blank ==> skip == 3) && (!rest_blank
                ==> s + 3 < s + skip <= e && !is_space_tab(b[s + skip]) && forall|k: int|
                s + 3 <= k < s + skip ==> #[trigger] is_space_tab(b[k]))
        }),
{
    let s = first.span.start as int;
    let e = first.span.end as int;
    if s <= e <= b.len() && s + 3 <= e {
        lemma_lead_end(b, s + 3, e);
        let w = lead_end(b, s + 3, e);
        if w < e {
            assert(!is_space_tab(b[w]));
        }
        if forall|k: int| s + 3 <= k < e ==> #[trigger] is_space_tab(b[k]) {
            if w < e {
                assert(is_space_tab(b[w]));
            }
        }
    }
}

/// The checkbox a paragraph block would start with, per [`spec_checkbox`] on its first line.
pub open spec fn para_checkbox(b: Seq<u8>, ir: Ir) -> Option<(bool, u32)> {
    match ir {
        Ir::Paragraph { segments, .. } => if segments@.len() > 0 {
            spec_checkbox(b, segments@[0].seg, segments@.len() > 1)
        } else {
            None
        },
        _ => None,
    }
}

/// Where a paragraph block's first line starts.
pub open spec fn para_start(ir: Ir) -> int {
    match ir {
        Ir::Paragraph { segments, .. } => segments@[0].seg.span.start as int,
        _ => 0,
    }
}

/// The inputs every block of the tree is built against.
pub struct Cx<'x> {
    pub source: &'x str,
    pub blanks: &'x [Span],
    pub refs: &'x RefMap,
    pub constructs: &'x Constructs,
}

impl<'x> Cx<'x> {
    pub open spec fn wf(&self) -> bool {
        &&& self.refs.finished()
        &&& self.source.spec_bytes().len() <= u32::MAX
    }

    /// The lines of a paragraph that entered it as lazy continuations.
    fn lazy_lines(&self, segments: &[IrSeg]) -> (out: Vec<Span>)
        ensures
            out@ == lazy_spans(segments@),
    {
        let mut out: Vec<Span> = Vec::new();
        let mut i: usize = 0;
        proof {
            assert(segments@.subrange(0, 0) =~= Seq::<IrSeg>::empty());
        }
        while i < segments.len()
            invariant
                i <= segments@.len(),
                out@ == lazy_spans(segments@.subrange(0, i as int)),
            decreases segments@.len() - i,
        {
            proof {
                assert(segments@.subrange(0, i + 1).drop_last() =~= segments@.subrange(0, i as int));
            }
            if segments[i].lazy {
                out.push(segments[i].seg.span);
            }
            i = i + 1;
        }
        proof {
            assert(segments@.subrange(0, segments@.len() as int) =~= segments@);
        }
        out
    }

    /// The inline content of a leaf's lines.
    fn inlines(&self, segments: &[IrSeg]) -> (out: Vec<Inline>)
        requires
            self.wf(),
    {
        if !segments_fit(self.source, segments) {
            return Vec::new();
        }
        crate::inline::inlines(self.source, segments, self.refs, self.constructs)
    }

    fn paragraph(&self, segments: Vec<IrSeg>, span: Span) -> (b: Block)
        requires
            self.wf(),
        ensures
            b matches Block::Paragraph(p) && p.span == span && p.lazy_lines@ == lazy_spans(segments@),
    {
        let lazy_lines = self.lazy_lines(segments.as_slice());
        let children = self.inlines(segments.as_slice());
        Block::Paragraph(Box::new(Paragraph { children, lazy_lines, span }))
    }

    /// Builds blocks from the children of `parent`.
    fn blocks(&self, irs: Vec<Ir>, Ghost(parent): Ghost<Ir>) -> (out: Vec<Block>)
        requires
            self.wf(),
            forall|i: int| 0 <= i < irs@.len() ==> decreases_to!(parent => #[trigger] irs@[i]),
        ensures
            out@.len() == irs@.len(),
        decreases parent, 0int,
    {
        let ghost orig = irs@;
        let ghost total = orig.len();
        let mut rest = irs;
        let mut rev: Vec<Ir> = Vec::new();
        while rest.len() > 0
            invariant
                total == orig.len(),
                rest@ == orig.subrange(0, rest@.len() as int),
                rev@.len() + rest@.len() == total,
                forall|i: int| 0 <= i < rev@.len() ==> #[trigger] rev@[i] == orig[total - 1 - i],
            decreases rest@.len(),
        {
            let ghost t0 = rest@;
            let ghost r0 = rev@;
            let n = rest.pop().unwrap();
            proof {
                assert(n == orig[t0.len() - 1]);
                assert(rest@ =~= orig.subrange(0, rest@.len() as int));
            }
            rev.push(n);
            proof {
                assert forall|i: int| 0 <= i < rev@.len() implies #[trigger] rev@[i] == orig[total - 1 - i] by {
                    if i < r0.len() {
                        assert(rev@[i] == r0[i]);
                    }
                }
            }
        }
        let mut out: Vec<Block> = Vec::new();
        while rev.len() > 0
            invariant
                self.wf(),
                total == orig.len(),
                rev@.len() <= total,
                out@.len() + rev@.len() == total,
                forall|i: int| 0 <= i < rev@.len() ==> #[trigger] rev@[i] == orig[total - 1 - i],
                forall|i: int| 0 <= i < orig.len() ==> decreases_to!(parent => #[trigger] orig[i]),
            decreases rev@.len(),
        {
            let ghost k = total - rev@.len();
            let ghost r0 = rev@;
            let child = rev.pop().unwrap();
            proof {
                assert(child == r0[r0.len() - 1]);
                assert(child == orig[k]);
                assert forall|i: int| 0 <= i < rev@.len() implies #[trigger] rev@[i] == orig[total - 1 - i] by {
                    assert(rev@[i] == r0[i]);
                }
            }
            out.push(self.block(child));
        }
        out
    }

    fn block(&self, ir: Ir) -> (b: Block)
        requires
            self.wf(),
        ensures
            block_span(b) == ir.spec_span(),
            same_kind(ir, b),
            ir matches Ir::List { items, .. } ==> (b matches Block::List(l) && l.children@.len() == items@.len()
                && (blanks_sorted(self.blanks@) ==> (forall|k: int|
                0 <= k < items@.len() ==> #[trigger] l.children@[k].spread == children_spread(
                    self.blanks@,
                    items@[k].children@,
                )) && (l.tight <==> !items_gap(self.blanks@, items@) && forall|k: int|
                0 <= k < items@.len() ==> !children_spread(self.blanks@, #[trigger] items@[k].children@)))),
        decreases ir, 1int,
    {
        let ghost p0 = ir;
        match ir {
            Ir::Paragraph { segments, span } => self.paragraph(segments, span),
            Ir::Heading { level, underline, segments, span } => {
                let kind = match underline {
                    Some(underline) => HeadingKind::Setext { underline, lazy_lines: self.lazy_lines(segments.as_slice()) },
                    None => HeadingKind::Atx,
                };
                let children = self.inlines(segments.as_slice());
                Block::Heading(Box::new(Heading { level, kind, children, span }))
            },
            Ir::ThematicBreak { span } => Block::ThematicBreak(ThematicBreak { span }),
            Ir::Code { fenced, lines, span } => {
                let kind = match fenced {
                    Some((fence, info)) => CodeBlockKind::Fenced { fence, info },
                    None => CodeBlockKind::Indented,
                };
                Block::CodeBlock(Box::new(CodeBlock { kind, lines, span }))
            },
            Ir::Html { kind, lines, trailing_newline, span } => {
                Block::HtmlBlock(Box::new(HtmlBlock { kind, lines, trailing_newline, span }))
            },
            Ir::Quote { children, span } => {
                proof {
                    assert forall|i: int| 0 <= i < children@.len() implies decreases_to!(p0 => #[trigger] children@[i]) by {
                        assert(decreases_to!(p0 => children));
                        assert(decreases_to!(children => children@));
                        assert(decreases_to!(children@ => children@[i]));
                    }
                }
                let children = self.blocks(children, Ghost(p0));
                Block::Blockquote(Box::new(Blockquote { children, span }))
            },
            Ir::Definition { label, destination, title, span } => {
                Block::Definition(Box::new(Definition { label, destination, title, span }))
            },
            Ir::FootnoteDefinition { label, children, span } => {
                proof {
                    assert forall|i: int| 0 <= i < children@.len() implies decreases_to!(p0 => #[trigger] children@[i]) by {
                        assert(decreases_to!(p0 => children));
                        assert(decreases_to!(children => children@));
                        assert(decreases_to!(children@ => children@[i]));
                    }
                }
                let children = self.blocks(children, Ghost(p0));
                Block::FootnoteDefinition(Box::new(FootnoteDefinition { label, children, span }))
            },
            Ir::Table { align, rows, span } => {
                let mut rows = rows;
                let mut rev = Vec::new();
                while rows.len() > 0
                    invariant
                        true,
                    decreases rows@.len(),
                {
                    let r = rows.pop().unwrap();
                    rev.push(r);
                }
                let mut children: Vec<TableRow> = Vec::new();
                while rev.len() > 0
                    invariant
                        self.wf(),
                    decreases rev@.len(),
                {
                    let row = rev.pop().unwrap();
                    let mut cells: Vec<TableCell> = Vec::new();
                    let mut c: usize = 0;
                    while c < row.cells.len()
                        invariant
                            self.wf(),
                        decreases row.cells@.len() - c,
                    {
                        let cell = row.cells[c];
                        let one = vec![IrSeg { seg: Segment::new(cell, 0), lazy: false }];
                        cells.push(TableCell { children: self.inlines(one.as_slice()), span: cell });
                        c = c + 1;
                    }
                    children.push(TableRow { children: cells, span: row.span });
                }
                Block::Table(Box::new(Table { align, children, span }))
            },
            Ir::MathBlock { meta, lines, span } => Block::MathBlock(Box::new(MathBlock { meta, lines, span })),
            Ir::Liquid { pieces, span } => Block::Liquid(Box::new(Liquid { pieces, span })),
            Ir::ContainerDirective { opening, closing, children, span } => {
                proof {
                    assert forall|i: int| 0 <= i < children@.len() implies decreases_to!(p0 => #[trigger] children@[i]) by {
                        assert(decreases_to!(p0 => children));
                        assert(decreases_to!(children => children@));
                        assert(decreases_to!(children@ => children@[i]));
                    }
                }
                let children = self.blocks(children, Ghost(p0));
                Block::ContainerDirective(Box::new(ContainerDirective { opening, closing, children, span }))
            },
            Ir::List { ordered, marker, items, span } => {
                // List-wide looseness: a blank line between two items,
                // or inside any item between its children (`ListItem::spread`).
                // Blank lines inside a child (a code block, a nested list) don't count.
                let mut gap = false;
                let mut i: usize = 0;
                while i < items.len() && i + 1 < items.len()
                    invariant
                        i <= items@.len(),
                        blanks_sorted(self.blanks@) ==> gap == exists|j: int|
                            0 <= j < i && j + 1 < items@.len() && #[trigger] spec_blank_between(
                                self.blanks@,
                                items@[j].span.end as int,
                                items@[j + 1].span.start as int,
                            ),
                    decreases items@.len() - i,
                {
                    if has_blank_between(self.blanks, items[i].span.end, items[i + 1].span.start) {
                        gap = true;
                    }
                    i = i + 1;
                }
                let marker = if ordered {
                    ListMarker::Ordered { delimiter: marker }
                } else {
                    ListMarker::Bullet { marker }
                };
                let ghost orig = items@;
                let ghost total = orig.len();
                proof {
                    assert(decreases_to!(p0 => items));
                    assert(decreases_to!(items => orig));
                }
                let mut rest = items;
                let mut rev: Vec<IrItem> = Vec::new();
                while rest.len() > 0
                    invariant
                        total == orig.len(),
                        rest@ == orig.subrange(0, rest@.len() as int),
                        rev@.len() + rest@.len() == total,
                        forall|q: int| 0 <= q < rev@.len() ==> #[trigger] rev@[q] == orig[total - 1 - q],
                    decreases rest@.len(),
                {
                    let ghost t0 = rest@;
                    let ghost r0 = rev@;
                    let n = rest.pop().unwrap();
                    proof {
                        assert(n == orig[t0.len() - 1]);
                        assert(rest@ =~= orig.subrange(0, rest@.len() as int));
                    }
                    rev.push(n);
                    proof {
                        assert forall|q: int| 0 <= q < rev@.len() implies #[trigger] rev@[q] == orig[total - 1 - q] by {
                            if q < r0.len() {
                                assert(rev@[q] == r0[q]);
                            }
                        }
                    }
                }
                proof {
                    if blanks_sorted(self.blanks@) {
                        assert(i + 1 >= orig.len());
                        if items_gap(self.blanks@, orig) {
                            let j = choose|j: int|
                                0 <= j < orig.len() - 1 && #[trigger] spec_blank_between(
                                    self.blanks@,
                                    orig[j].span.end as int,
                                    orig[j + 1].span.start as int,
                                );
                            assert(j < i);
                        }
                        assert(gap == items_gap(self.blanks@, orig));
                    }
                }
                let mut children: Vec<ListItem> = Vec::new();
                let mut any_spread = false;
                while rev.len() > 0
                    invariant
                        self.wf(),
                        total == orig.len(),
                        rev@.len() <= total,
                        children@.len() == total - rev@.len(),
                        blanks_sorted(self.blanks@) ==> forall|q: int|
                            0 <= q < children@.len() ==> #[trigger] children@[q].spread == children_spread(
                                self.blanks@,
                                orig[q].children@,
                            ),
                        any_spread == exists|q: int| 0 <= q < children@.len() && #[trigger] children@[q].spread,
                        forall|q: int| 0 <= q < rev@.len() ==> #[trigger] rev@[q] == orig[total - 1 - q],
                        decreases_to!(p0 => orig),
                        p0 == ir,
                    decreases rev@.len(),
                {
                    let ghost k = total - rev@.len();
                    let ghost r0 = rev@;
                    let item = rev.pop().unwrap();
                    proof {
                        assert(item == r0[r0.len() - 1]);
                        assert(item == orig[k]);
                        assert(decreases_to!(orig => orig[k]));
                        assert forall|q: int| 0 <= q < rev@.len() implies #[trigger] rev@[q] == orig[total - 1 - q] by {
                            assert(rev@[q] == r0[q]);
                        }
                        assert forall|q: int| 0 <= q < item.children@.len() implies decreases_to!(p0 => #[trigger] item.children@[q]) by {
                            assert(decreases_to!(item => item.children));
                            assert(decreases_to!(item.children => item.children@));
                            assert(decreases_to!(item.children@ => item.children@[q]));
                        }
                    }
                    let li = self.item(item, Ghost(p0));
                    if li.spread {
                        any_spread = true;
                    }
                    let ghost c0 = children@;
                    children.push(li);
                    proof {
                        assert(children@[k] == li);
                        assert forall|q: int| 0 <= q < c0.len() implies #[trigger] children@[q] == c0[q] by {}
                        if any_spread {
                            if li.spread {
                                assert(children@[k].spread);
                            } else {
                                let q = choose|q: int| 0 <= q < c0.len() && #[trigger] c0[q].spread;
                                assert(children@[q].spread);
                            }
                        }
                    }
                }
                let tight = !gap && !any_spread;
                proof {
                    if blanks_sorted(self.blanks@) {
                        assert forall|k: int| 0 <= k < orig.len() implies !children_spread(self.blanks@, #[trigger] orig[k].children@)
                            == !children@[k].spread by {}
                    }
                }
                Block::List(Box::new(List { marker, tight, children, span }))
            },
        }
    }

    fn item(&self, item: IrItem, Ghost(parent): Ghost<Ir>) -> (li: ListItem)
        requires
            self.wf(),
            forall|i: int| 0 <= i < item.children@.len() ==> decreases_to!(parent => #[trigger] item.children@[i]),
        ensures
            li.marker == item.marker,
            li.padding == item.padding,
            li.span == item.span,
            li.children@.len() == item.children@.len(),
            blanks_sorted(self.blanks@) ==> li.spread == children_spread(self.blanks@, item.children@),
            !self.constructs.gfm_task_list_item ==> li.checkbox is None,
            li.checkbox matches Some(c) ==> c.span.end <= self.source.spec_bytes().len() && (c.checked <==> (
            self.source.spec_bytes()[c.span.start + 1] == 120 || self.source.spec_bytes()[c.span.start + 1] == 88))
                && (!c.checked <==> (self.source.spec_bytes()[c.span.start + 1] == 32 || self.source.spec_bytes()[c.span.start
                + 1] == 9)),
            self.constructs.gfm_task_list_item && item.children@.len() > 0 && item.children@[0] is Paragraph ==> (
            li.checkbox is Some <==> para_checkbox(self.source.spec_bytes(), item.children@[0]) is Some),
        decreases parent, 0int,
    {
        let IrItem { marker, padding, children, span } = item;
        let checkbox = if self.constructs.gfm_task_list_item {
            self.take_checkbox(children.as_slice())
        } else {
            None
        };
        let spread = item_is_spread(self.blanks, children.as_slice());
        let count = children.len();
        let ghost orig = children@;
        let ghost total = orig.len();
        let mut rest = children;
        let mut rev: Vec<Ir> = Vec::new();
        while rest.len() > 0
            invariant
                total == orig.len(),
                rest@ == orig.subrange(0, rest@.len() as int),
                rev@.len() + rest@.len() == total,
                forall|i: int| 0 <= i < rev@.len() ==> #[trigger] rev@[i] == orig[total - 1 - i],
            decreases rest@.len(),
        {
            let ghost t0 = rest@;
            let ghost r0 = rev@;
            let n = rest.pop().unwrap();
            proof {
                assert(n == orig[t0.len() - 1]);
                assert(rest@ =~= orig.subrange(0, rest@.len() as int));
            }
            rev.push(n);
            proof {
                assert forall|i: int| 0 <= i < rev@.len() implies #[trigger] rev@[i] == orig[total - 1 - i] by {
                    if i < r0.len() {
                        assert(rev@[i] == r0[i]);
                    }
                }
            }
        }
        let mut blocks: Vec<Block> = Vec::new();
        let mut index: usize = 0;
        while rev.len() > 0
            invariant
                self.wf(),
                total == orig.len(),
                rev@.len() <= total,
                index + rev@.len() == total,
                blocks@.len() == index,
                total == count,
                checkbox matches Some((_, at, skip)) ==> at < orig.len() && (orig[at as int] matches Ir::Paragraph {
                    segments,
                    ..
                } && segments@.len() > 0 && segments@[0].seg.span.start + skip <= segments@[0].seg.span.end),
                forall|i: int| 0 <= i < rev@.len() ==> #[trigger] rev@[i] == orig[total - 1 - i],
                forall|i: int| 0 <= i < orig.len() ==> decreases_to!(parent => #[trigger] orig[i]),
            decreases rev@.len(),
        {
            let ghost r0 = rev@;
            let child = rev.pop().unwrap();
            proof {
                assert(child == r0[r0.len() - 1]);
                assert(child == orig[index as int]);
                assert forall|i: int| 0 <= i < rev@.len() implies #[trigger] rev@[i] == orig[total - 1 - i] by {
                    assert(rev@[i] == r0[i]);
                }
            }
            let b = match checkbox {
                Some((_, at, skip)) => if at == index {
                    match child {
                        // The paragraph starts past the checkbox
                        Ir::Paragraph { mut segments, span } => {
                            let mut first = segments[0];
                            first.seg.span.start = first.seg.span.start + skip;
                            let start = first.seg.span.start;
                            segments.set(0, first);
                            self.paragraph(segments, Span::new(start, span.end))
                        },
                        other => self.block(other),
                    }
                } else {
                    self.block(child)
                },
                None => self.block(child),
            };
            blocks.push(b);
            index = index + 1;
        }
        let checkbox = match checkbox {
            Some((c, _, _)) => Some(c),
            None => None,
        };
        ListItem { marker, padding, checkbox, spread, children: blocks, span }
    }

    /// GFM task list: `[ ]` / `[\t]` / `[x]` / `[X]` at the very start of the item's first content:
    /// the first paragraph, which may sit behind definitions stripped from the same paragraph chunk,
    /// but not behind a blank line or another block.
    /// The paragraph must continue after the checkbox:
    /// non-whitespace on the same line, or a following line.
    /// The checkbox and the whitespace before same-line content leave the paragraph;
    /// when only whitespace follows on the line, the paragraph starts right after `]`.
    /// Returns the checkbox, the paragraph's index and how far its first line now starts in.
    fn take_checkbox(&self, children: &[Ir]) -> (r: Option<(TaskCheckbox, usize, u32)>)
        requires
            self.wf(),
        ensures
            r matches Some((_, at, skip)) ==> at < children@.len() && (children@[at as int] matches Ir::Paragraph {
                segments,
                ..
            } && segments@.len() > 0 && segments@[0].seg.span.start + skip <= segments@[0].seg.span.end),
            r matches Some((c, at, skip)) ==> para_checkbox(self.source.spec_bytes(), children@[at as int]) == Some(
                (c.checked, skip),
            ) && c.span.start == para_start(children@[at as int]) && c.span.end == para_start(children@[at as int]) + 3,
            r matches Some((c, _, _)) ==> c.span.end <= self.source.spec_bytes().len() && self.source.spec_bytes()[c.span.start as int] == 91
                && self.source.spec_bytes()[c.span.start + 2] == 93 && (c.checked <==> (self.source.spec_bytes()[c.span.start + 1] == 120
                || self.source.spec_bytes()[c.span.start + 1] == 88)) && (!c.checked <==> (self.source.spec_bytes()[c.span.start + 1] == 32
                || self.source.spec_bytes()[c.span.start + 1] == 9)),
            children@.len() > 0 && children@[0] is Paragraph ==> (r is Some <==> para_checkbox(
                self.source.spec_bytes(),
                children@[0],
            ) is Some),
    {
        let mut at: usize = 0;
        loop
            invariant
                at <= children@.len(),
                children@.len() > 0 && children@[0] is Paragraph ==> at == 0,
            decreases children@.len() - at,
        {
            if at >= children.len() {
                return None;
            }
            let def_end = match &children[at] {
                Ir::Definition { span, .. } => span.end,
                _ => break,
            };
            // Same chunk as the next child iff no blank line separates them
            if at + 1 >= children.len() {
                return None;
            }
            let next_start = children[at + 1].span().start;
            if has_blank_between(self.blanks, def_end, next_start) {
                return None;
            }
            at = at + 1;
        }
        if at >= children.len() {
            return None;
        }
        let (multiline, first) = match &children[at] {
            Ir::Paragraph { segments, .. } => {
                if segments.len() == 0 {
                    return None;
                }
                (segments.len() > 1, segments[0].seg)
            },
            _ => {
                return None;
            },
        };
        let bytes = self.source.as_bytes();
        let s = first.span.start as usize;
        let e = first.span.end as usize;
        if !(s <= e && e <= bytes.len()) || e - s < 3 {
            return None;
        }
        if bytes[s] != 91 || bytes[s + 2] != 93 {
            return None;
        }
        let mark = bytes[s + 1];
        let checked = if mark == 32 || mark == 9 {
            false
        } else if mark == 120 || mark == 88 {
            true
        } else {
            return None;
        };
        // The checkbox needs the paragraph to continue:
        // whitespace (not content) may follow only when something comes after it.
        if s + 3 < e && !(bytes[s + 3] == 32 || bytes[s + 3] == 9) {
            return None;
        }
        let mut w = s + 3;
        while w < e && (bytes[w] == 32 || bytes[w] == 9)
            invariant
                s + 3 <= w <= e,
                e <= bytes@.len(),
                lead_end(bytes@, w as int, e as int) == lead_end(bytes@, s + 3, e as int),
            decreases e - w,
        {
            w = w + 1;
        }
        let only_ws = w == e;
        if !multiline && only_ws {
            return None;
        }
        let checkbox = TaskCheckbox { span: Span::at(first.span.start, 0..3), checked };
        // The paragraph starts at same-line content, or right after `]` when only whitespace follows
        let skip: u32 = if only_ws {
            3
        } else {
            (w - s) as u32
        };
        Some((checkbox, at, skip))
    }
}

/// The tree of the block phase's output, inline content included.
/// `blanks` is the list-tightness table (the blank lines that can loosen a list).
pub fn build(
    source: &str,
    blanks: &[Span],
    irs: Vec<Ir>,
    span: Span,
    constructs: &Constructs,
    refs: &RefMap,
) -> (root: Root)
    requires
        refs.finished(),
        source.spec_bytes().len() <= u32::MAX,
    ensures
        root.span == span,
        root.children@.len() == irs@.len(),
        forall|i: int| 0 <= i < irs@.len() ==> block_span(#[trigger] root.children@[i]) == irs@[i].spec_span(),
        forall|i: int| 0 <= i < irs@.len() ==> same_kind(irs@[i], #[trigger] root.children@[i]),
{
    let cx = Cx { source, blanks, refs, constructs };
    let ghost orig = irs@;
    let ghost n = orig.len();
    let mut rest = irs;
    let mut rev: Vec<Ir> = Vec::new();
    while rest.len() > 0
        invariant
            orig == irs@,
            n == orig.len(),
            rest@ == orig.subrange(0, rest@.len() as int),
            rev@.len() + rest@.len() == n,
            forall|i: int| 0 <= i < rev@.len() ==> #[trigger] rev@[i] == orig[n - 1 - i],
        decreases rest@.len(),
    {
        let ghost t0 = rest@;
        let ghost r0 = rev@;
        let ir = rest.pop().unwrap();
        proof {
            assert(ir == orig[t0.len() - 1]);
            assert(rest@ =~= orig.subrange(0, rest@.len() as int));
        }
        rev.push(ir);
        proof {
            assert forall|i: int| 0 <= i < rev@.len() implies #[trigger] rev@[i] == orig[n - 1 - i] by {
                if i < r0.len() {
                    assert(rev@[i] == r0[i]);
                }
            }
        }
    }
    let mut children: Vec<Block> = Vec::new();
    while rev.len() > 0
        invariant
            cx.wf(),
            orig == irs@,
            n == orig.len(),
            children@.len() + rev@.len() == n,
            forall|i: int| 0 <= i < rev@.len() ==> #[trigger] rev@[i] == orig[n - 1 - i],
            forall|i: int|
                0 <= i < children@.len() ==> #[trigger] block_span(children@[i]) == orig[i].spec_span() && same_kind(
                    orig[i],
                    children@[i],
                ),
        decreases rev@.len(),
    {
        let ghost r0 = rev@;
        let ir = rev.pop().unwrap();
        proof {
            assert(ir == r0[r0.len() - 1]);
            assert forall|i: int| 0 <= i < rev@.len() implies #[trigger] rev@[i] == orig[n - 1 - i] by {
                assert(rev@[i] == r0[i]);
            }
        }
        children.push(cx.block(ir));
    }
    let root = Root { children, span };
    assert forall|i: int| 0 <= i < irs@.len() implies block_span(#[trigger] root.children@[i]) == irs@[i].spec_span()
        && same_kind(irs@[i], root.children@[i]) by {
        assert(block_span(root.children@[i]) == orig[i].spec_span());
    }
    root
}

} // verus!
