//! GFM tables in the line loop:
//! the delimiter row that steals a paragraph's last line as the header, and row continuation.
use vstd::prelude::*;
use crate::ast::TableAlign;
use crate::block::cursor::{advance, Cursor};
use crate::block::ir::IrRow;
use crate::block::probe::{spec_probe, Start, StartV};
use crate::block::scan::table::{spec_table_row_cells, table_row_cells};
use crate::pos::{Segment, Span};
use super::state::Leaf;
use super::{lemma_stack_kept_of, row_continues, stack_kept, Engine};

verus! {

/// The cells of a row over `line_span`: its trimmed cell ranges as source spans
/// (none when the span does not lie in `b`).
pub open spec fn row_cells_ok(b: Seq<u8>, line_span: Span, cells: Seq<Span>) -> bool {
    line_span.start <= line_span.end <= b.len() ==> cells.len() == spec_row_cells_at(b, line_span).len() && forall|
        i: int,
    |
        0 <= i < cells.len() ==> #[trigger] cells[i].start == line_span.start + spec_row_cells_at(b, line_span)[i].0
            && cells[i].end == line_span.start + spec_row_cells_at(b, line_span)[i].1
}

/// The leaf `l1` is the table `l0` with the row over `span` appended and its end moved to `end`
/// (any other leaf unchanged).
pub open spec fn row_pushed(l0: Option<Leaf>, l1: Option<Leaf>, b: Seq<u8>, span: Span, end: u32) -> bool {
    match (l0, l1) {
        (
            Some(Leaf::Table { align: a0, rows: r0, start: s0, .. }),
            Some(Leaf::Table { align: a1, rows: r1, start: s1, end: e1 }),
        ) => a1@ == a0@ && s1 == s0 && e1 == end && r1@.len() == r0@.len() + 1 && r1@.drop_last() == r0@
            && r1@.last().span == span && row_cells_ok(b, span, r1@.last().cells@),
        (Some(Leaf::Table { .. }), _) => false,
        _ => l1 == l0,
    }
}

/// The header candidate of an open paragraph: its last line, when that line is neither lazy nor deep.
pub open spec fn header_candidate(l: Option<Leaf>) -> Option<Segment> {
    match l {
        Some(Leaf::Paragraph { segments, last_deep }) => if segments@.len() > 0 && !segments@.last().lazy
            && !last_deep {
            Some(segments@.last().seg)
        } else {
            None
        },
        _ => None,
    }
}

/// How many cells a header line over `span` of `b` has.
pub open spec fn header_cells(b: Seq<u8>, span: Span) -> int {
    if span.start <= span.end <= b.len() {
        spec_row_cells_at(b, span).len() as int
    } else {
        0
    }
}

/// A table (or, for a type 7 HTML start, an HTML block) opened from a stolen header line
/// `header` and the delimiter row `row`.
pub open spec fn table_opened(l: Option<Leaf>, align: Seq<TableAlign>, header: Segment, row: Segment) -> bool {
    match l {
        Some(Leaf::Table { align: a, rows, start, end }) => a@ == align && rows@.len() == 1 && rows@[0].span
            == header.span && start == header.span.start && end == row.span.end,
        Some(Leaf::Html { kind, lines, trailing_newline, start, end }) => kind == 7 && lines@ == seq![header, row]
            && !trailing_newline && start == header.span.start && end == row.span.end,
        _ => false,
    }
}

impl<'s> Engine<'s> {
    /// Any non-blank line continues the open table as a data row unless another block construct starts there.
    /// Table continuation disables the cheap interrupt shortcut,
    /// so a liquid opener is only a maybe-start:
    /// it ends the table when the full construct validates, and stays a row otherwise.
    /// Returns whether the line was consumed.
    #[verifier::rlimit(40)]
    #[verifier::spinoff_prover]
    pub(crate) fn continue_table(&mut self, cur: Cursor<'s>, content_end: u32) -> (consumed: bool)
        requires
            old(self).wf(),
            old(self).cur_ok(cur),
            content_end <= old(self).bytes@.len(),
        ensures
            final(self).wf(),
            final(self).same_input(old(self)),
            consumed == row_continues(old(self).constructs, cur),
            !consumed ==> *final(self) == *old(self),
    {
        let c = match cur.flow_start() {
            Some(c) => match self.probe(c.tail(), false) {
                None => c,
                Some(Start::Liquid) => {
                    match self.liquid_scan(c, content_end) {
                        Some(tag) => {
                            self.close_leaf();
                            self.open_liquid(tag);
                            return true;
                        },
                        None => c,
                    }
                },
                _ => {
                    return false;
                },
            },
            None => {
                return false;
            },
        };
        self.push_table_row(c, content_end);
        true
    }

    /// Appends the rest of the line as a row of the open table.
    fn push_table_row(&mut self, c: Cursor<'s>, content_end: u32)
        requires
            old(self).wf(),
            old(self).cur_ok(c),
        ensures
            final(self).wf(),
            final(self).same_input(old(self)),
            final(self).stack@ == old(self).stack@,
            final(self).root@ == old(self).root@,
            row_pushed(
                old(self).leaf,
                final(self).leaf,
                old(self).bytes@,
                Span { start: c.spec_offset() as u32, end: content_end },
                content_end,
            ),
    {
        let span = Span::new(c.offset(), content_end);
        let cells = row_cell_spans(self.bytes, span);
        match self.leaf.take() {
            Some(Leaf::Table { align, mut rows, start, end: _ }) => {
                let ghost r0 = rows@;
                rows.push(IrRow { span, cells });
                assert(rows@.drop_last() =~= r0);
                self.leaf = Some(Leaf::Table { align, rows, start, end: content_end });
            },
            other => {
                self.leaf = other;
            },
        }
    }

    /// A delimiter row arrived while a paragraph is open.
    /// Its last line is the header candidate;
    /// on a cell-count match it is stolen and the rest of the paragraph closes.
    /// The flow constructs then retry on the stolen line (the paragraph is gone),
    /// and HTML outranks the table: a type 7 HTML start (paragraph text only because type 7 can't interrupt)
    /// opens an HTML block holding the delimiter row as its second line.
    /// `row` is the delimiter row's line (indent included).
    pub(crate) fn try_start_table(&mut self, align: Vec<TableAlign>, row: Segment) -> (started: bool)
        requires
            old(self).wf(),
        ensures
            final(self).wf(),
            final(self).same_input(old(self)),
            started == (header_candidate(old(self).leaf) matches Some(h) && header_cells(old(self).bytes@, h.span)
                == align@.len()),
            !started ==> *final(self) == *old(self),
            started ==> table_opened(final(self).leaf, align@, header_candidate(old(self).leaf).unwrap(), row),
            stack_kept(old(self).stack@, final(self).stack@),
    {
        proof {
            lemma_stack_kept_of(old(self).stack@, old(self).stack@);
        }
        let header = match &self.leaf {
            Some(Leaf::Paragraph { segments, last_deep }) => {
                let n = segments.len();
                if n == 0 || segments[n - 1].lazy || *last_deep {
                    return false;
                }
                segments[n - 1].seg
            },
            _ => {
                return false;
            },
        };
        let cells = row_cell_spans(self.bytes, header.span);
        assert(header_candidate(old(self).leaf) == Some(header));
        if cells.len() != align.len() {
            return false;
        }
        // Not deep, so the ≤3-column indent is exactly the leading spaces/tabs
        let mut html7 = false;
        let mut s = header.span.start as usize;
        let e = header.span.end as usize;
        if s <= e && e <= self.bytes.len() {
            while s < e && (self.bytes[s] == 32 || self.bytes[s] == 9)
                invariant
                    s <= e <= self.bytes@.len(),
                decreases e - s,
            {
                s = s + 1;
            }
            html7 = match self.probe(&self.bytes[s..e], false) {
                Some(Start::Html { kind }) => kind == 7,
                _ => false,
            };
        }
        match self.leaf.take() {
            Some(Leaf::Paragraph { mut segments, last_deep }) => {
                segments.pop();
                self.leaf = Some(Leaf::Paragraph { segments, last_deep });
            },
            other => {
                self.leaf = other;
            },
        }
        // close_leaf drops an emptied paragraph on its own
        self.close_leaf_and_list();
        self.leaf = Some(
            if html7 {
                Leaf::Html {
                    kind: 7,
                    lines: vec![header, row],
                    trailing_newline: false,
                    start: header.span.start,
                    end: row.span.end,
                }
            } else {
                Leaf::Table {
                    align,
                    rows: vec![IrRow { span: header.span, cells }],
                    start: header.span.start,
                    end: row.span.end,
                }
            },
        );
        true
    }
}

/// The trimmed cell ranges of the row line `line_span` of `b`, relative to its start.
pub open spec fn spec_row_cells_at(b: Seq<u8>, line_span: Span) -> Seq<(int, int)> {
    spec_table_row_cells(b.subrange(line_span.start as int, line_span.end as int))
}

/// Table row cells as source spans within `line_span`.
fn row_cell_spans(bytes: &[u8], line_span: Span) -> (cells: Vec<Span>)
    requires
        bytes@.len() <= u32::MAX,
        bytes@.len() <= isize::MAX,
    ensures
        line_span.start <= line_span.end <= bytes@.len() ==> cells@.len() == spec_row_cells_at(bytes@, line_span).len(),
        !(line_span.start <= line_span.end <= bytes@.len()) ==> cells@.len() == 0,
        line_span.start <= line_span.end <= bytes@.len() ==> forall|i: int|
            0 <= i < cells@.len() ==> #[trigger] cells@[i].start == line_span.start + spec_row_cells_at(bytes@, line_span)[i].0
                && cells@[i].end == line_span.start + spec_row_cells_at(bytes@, line_span)[i].1,
{
    let s = line_span.start as usize;
    let e = line_span.end as usize;
    let mut out: Vec<Span> = Vec::new();
    if !(s <= e && e <= bytes.len()) {
        return out;
    }
    let line = &bytes[s..e];
    assert(line@ =~= bytes@.subrange(s as int, e as int));
    let ranges = table_row_cells(line);
    let mut k: usize = 0;
    while k < ranges.len()
        invariant
            k <= ranges@.len(),
            s <= e <= bytes@.len() <= u32::MAX,
            s == line_span.start,
            e == line_span.end,
            forall|i: int|
                0 <= i < ranges@.len() ==> (#[trigger] ranges@[i].start as int, ranges@[i].end as int)
                    == spec_table_row_cells(line@)[i] && ranges@[i].start
                    <= ranges@[i].end <= line@.len(),
            line@.len() == e - s,
            line@ == bytes@.subrange(line_span.start as int, line_span.end as int),
            ranges@.len() == spec_table_row_cells(line@).len(),
            out@.len() == k,
            forall|i: int|
                0 <= i < k ==> #[trigger] out@[i].start == line_span.start + spec_table_row_cells(line@)[i].0
                    && out@[i].end == line_span.start + spec_table_row_cells(line@)[i].1,
        decreases ranges@.len() - k,
    {
        let a = ranges[k].start;
        let b = ranges[k].end;
        out.push(Span::at(line_span.start, a..b));
        k = k + 1;
    }
    assert(line@ == bytes@.subrange(line_span.start as int, line_span.end as int));
    out
}

} // verus!
