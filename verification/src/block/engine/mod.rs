//! The container-stack line loop.
//!
//! Per line:
//! - (1) match the open container stack
//! - (2) continue verbatim leaves (fenced code, HTML types 1–5)
//! - (3) handle blank lines
//! - (4) decide lazy continuation vs closing unmatched blocks
//! - (4b) continue the non-verbatim leaf (HTML types 6–7, table rows, indented code)
//! - (5) loop over new block starts (`open.rs`)
//!
//! Each step is one method of [`Engine`]; `line` only sequences them.
//! Blocks close and attach to their container in `close.rs`.
//! Extension constructs with their own continuation rules live beside it:
//! `table.rs` (header stealing, row continuation) and `liquid.rs` (multi-line validation).
use vstd::prelude::*;
use vstd::string::StringSliceAdditionalSpecFns;
use crate::inline::refmap::RefMap;
use crate::options::Constructs;
use crate::pos::{Segment, Span};
use super::cursor::{advance, ws_cols, Cursor};
use super::ir::{Ir, IrSeg};
use super::probe::{probe, spec_probe, Start, StartV};
use super::scan::commonmark::{fence_close, spec_fence_close};
use super::scan::html::{html_block_end, spec_html_block_end};
use super::scan::blank_between;
use crate::syntax::is_space_tab;

pub mod close;
pub mod liquid;
pub mod open;
pub mod state;
pub mod table;

pub use state::BlankLines;
use state::{blank_lines_ok, blank_span, ends_by, head_of, kind_of, lemma_kind_of_head, lemma_recorded, raised_quote, recorded, subsequence, subsequence_by, handed_back, html_at_eof, children_of, leaf_continued, lazy_added, para_extended, Continuation, Leaf, OpenContainer, StackMatch};

verus! {

/// Every open list item sits directly on its list.
pub open spec fn items_in_lists(stack: Seq<OpenContainer>) -> bool {
    forall|k: int| 0 <= k < stack.len() && #[trigger] kind_of(stack[k]) == 2 ==> k > 0 && kind_of(stack[k - 1]) == 1
}

/// Only an item ever opens on top of an open list.
pub open spec fn lists_topped(stack: Seq<OpenContainer>) -> bool {
    forall|k: int| 0 <= k < stack.len() - 1 && #[trigger] kind_of(stack[k]) == 1 ==> kind_of(stack[k + 1]) == 2
}

/// The entries below `n` kept their kinds.
pub open spec fn kinds_kept(a: Seq<OpenContainer>, b: Seq<OpenContainer>, n: int) -> bool {
    forall|k: int|
        #![trigger head_of(b[k])]
        #![trigger kind_of(b[k])]
        0 <= k < n ==> head_of(b[k]) == head_of(a[k]) && kind_of(b[k]) == kind_of(a[k])
}

/// Entry `k` of `a`, unless it is a list on top, stays in `b` at its place with its head.
pub open spec fn kept_at(a: Seq<OpenContainer>, b: Seq<OpenContainer>, k: int) -> bool {
    0 <= k < a.len() && !(k == a.len() - 1 && kind_of(a[k]) == 1) ==> k < b.len() && head_of(b[k]) == head_of(a[k])
}

/// Every entry of `a` but a list on top stays in `b`, at its place, with its head.
pub open spec fn stack_kept(a: Seq<OpenContainer>, b: Seq<OpenContainer>) -> bool {
    forall|k: int| #[trigger] kept_at(a, b, k)
}

/// The length and kind facts the closing steps state give `stack_kept`.
pub proof fn lemma_stack_kept_of(a: Seq<OpenContainer>, b: Seq<OpenContainer>)
    requires
        kinds_kept(a, b, b.len() as int),
        b.len() <= a.len(),
        b.len() + 1 >= a.len(),
        a.len() > 0 && kind_of(a.last()) != 1 ==> b.len() == a.len(),
    ensures
        stack_kept(a, b),
{
    assert forall|k: int| #[trigger] kept_at(a, b, k) by {
        if 0 <= k < a.len() && !(k == a.len() - 1 && kind_of(a[k]) == 1) {
            if k == a.len() - 1 {
                assert(kind_of(a.last()) != 1);
            }
            assert(k < b.len());
            assert(head_of(b[k]) == head_of(a[k]));
        }
    }
}

/// Pushing keeps every entry.
pub proof fn lemma_stack_kept_push(a: Seq<OpenContainer>, x: OpenContainer)
    ensures
        stack_kept(a, a.push(x)),
{
    assert forall|k: int| #[trigger] kept_at(a, a.push(x), k) by {
        if 0 <= k < a.len() {
            assert(a.push(x)[k] == a[k]);
        }
    }
}

/// `stack_kept` chains, a list being always topped by an item.
pub proof fn lemma_stack_kept_trans(a: Seq<OpenContainer>, b: Seq<OpenContainer>, c: Seq<OpenContainer>)
    requires
        lists_topped(a),
        stack_kept(a, b),
        stack_kept(b, c),
    ensures
        stack_kept(a, c),
{
    assert forall|k: int| #[trigger] kept_at(a, c, k) by {
        if 0 <= k < a.len() && !(k == a.len() - 1 && kind_of(a[k]) == 1) {
            assert(kept_at(a, b, k));
            lemma_kind_of_head(b[k], a[k]);
            if kind_of(a[k]) == 1 {
                assert(kind_of(a[k + 1]) == 2);
                assert(kept_at(a, b, k + 1));
            }
            assert(kept_at(b, c, k));
        }
    }
}

pub struct Engine<'s> {
    pub(crate) source: &'s str,
    pub(crate) bytes: &'s [u8],
    pub(crate) constructs: Constructs,
    pub(crate) stack: Vec<OpenContainer>,
    pub(crate) root: Vec<Ir>,
    pub(crate) leaf: Option<Leaf>,
    pub(crate) blanks: BlankLines,
    /// Normalized labels of the definitions seen so far,
    /// filled as paragraphs close (no separate collection pass).
    pub(crate) refs: RefMap,
    /// Lines ending at or before this offset were already consumed
    /// by a validated multi-line liquid tag (attached at its open site).
    pub(crate) skip_to: u32,
    /// Per closer kind (`%}` / `}}`):
    /// no flow liquid attempt whose search starts at or before this offset can succeed.
    /// A scan reached EOF without the closer (`u32::MAX`),
    /// or the first closer from there was rejected for trailing content.
    /// Skips the rescans (they are quadratic otherwise).
    pub(crate) liquid_dead: [u32; 2],
}

/// The block start the probe table sees at the cursor's flow position
/// (none when 4+ columns of indent or a split tab leave no flow position).
pub open spec fn flow_probe(c: Constructs, cur: Cursor) -> Option<StartV> {
    let adv = advance(cur.line@, cur.pos as int, cur.col as int, cur.partial as int, cur.spec_indent());
    if cur.spec_indent() < 4 && adv.2 == 0 {
        spec_probe(c, cur.line@.skip(adv.0), false)
    } else {
        None
    }
}

/// Where skipping up to `max` columns of indent leaves the cursor: (position, column, partial tab columns).
pub open spec fn indent_skip(cur: Cursor, max: int) -> (int, int, int) {
    let k = if cur.spec_indent() < max { cur.spec_indent() } else { max };
    advance(cur.line@, cur.pos as int, cur.col as int, cur.partial as int, k)
}

/// The line is a closing fence for `fence` × `len`: after up to 3 columns of indent, no split tab.
pub open spec fn closes_fence(cur: Cursor, fence: u8, len: u32) -> bool {
    let a = indent_skip(cur, 3);
    a.2 == 0 && spec_fence_close(cur.line@.skip(a.0), fence, len as int)
}

/// The segment of the line past up to `max` columns of indent, to `end`.
pub open spec fn segment_past_indent(cur: Cursor, max: int, end: u32) -> Segment {
    let a = indent_skip(cur, max);
    Segment {
        span: Span { start: if cur.line_start + a.0 <= end { (cur.line_start + a.0) as u32 } else { end }, end },
        padding: a.2 as u8,
    }
}

/// The open leaf `l1` after step 2 offered the line to a verbatim leaf `l0`:
/// a fence takes every line, closing on its closing fence; HTML types 1–5 take every line,
/// closing on their end condition; anything else refuses the line untouched.
pub open spec fn verbatim_continued(l0: Option<Leaf>, l1: Option<Leaf>, consumed: bool, cur: Cursor, end: u32) -> bool {
    match l0 {
        Some(Leaf::FencedCode { fence, len, indent, info, lines, start, .. }) => consumed && if closes_fence(
            cur,
            fence,
            len,
        ) {
            l1 is None
        } else {
            (l1 matches Some(Leaf::FencedCode { fence: f1, len: n1, indent: i1, info: o1, lines: li1, start: s1, end: e1 })
                && f1 == fence && n1 == len && i1 == indent && o1 == info && s1 == start && e1 == end && li1@
                == lines@.push(segment_past_indent(cur, indent as int, end)))
        },
        Some(Leaf::Html { kind, lines, trailing_newline, start, .. }) => if 1 <= kind <= 5 {
            consumed && if spec_html_block_end(cur.spec_tail(), kind) {
                l1 is None
            } else {
                (l1 matches Some(Leaf::Html { kind: k1, lines: li1, trailing_newline: t1, start: s1, end: e1 }) && k1
                    == kind && li1@ == lines@.push(cur.spec_segment(end)) && t1 == trailing_newline && s1 == start
                    && e1 == end)
            }
        } else {
            !consumed && l1 == l0
        },
        _ => !consumed && l1 == l0,
    }
}

/// Columns of whitespace available at cursor state `st` = (position, column, partial tab columns).
pub open spec fn st_indent(line: Seq<u8>, st: (int, int, int)) -> int {
    st.2 + ws_cols(line, st.0, st.1 + st.2)
}

/// Consuming `n` columns from cursor state `st`.
pub open spec fn st_advance(line: Seq<u8>, st: (int, int, int), n: int) -> (int, int, int) {
    advance(line, st.0, st.1, st.2, n)
}

/// The smaller of two columns counts.
pub open spec fn min_cols(a: int, b: int) -> int {
    if a < b {
        a
    } else {
        b
    }
}

/// One open container's continuation on a line at cursor state `st`:
/// `None` when the line is the container's closing fence (a directive),
/// `Some(None)` when the container does not continue, `Some(Some(next))` with the state past its prefix.
/// A blockquote needs `>` after up to 3 columns (then one optional space), a list always continues,
/// an item or footnote definition its content indent (a blank line continues either;
/// an item then gives up at most that indent), a directive continues anything but its closing fence,
/// giving up at most its content indent.
pub open spec fn continue_step(c: OpenContainer, line: Seq<u8>, st: (int, int, int)) -> Option<Option<(int, int, int)>> {
    let ind = st_indent(line, st);
    let blank = blank_between(line, st.0, line.len() as int);
    match c {
        OpenContainer::Quote { .. } => {
            let s1 = st_advance(line, st, min_cols(ind, 3));
            if s1.2 == 0 && 0 <= s1.0 < line.len() && line[s1.0] == 62 {
                let s2 = (s1.0 + 1, s1.1 + 1, 0int);
                Some(Some(if st_indent(line, s2) > 0 { st_advance(line, s2, 1) } else { s2 }))
            } else {
                Some(None)
            }
        },
        OpenContainer::List { .. } => Some(Some(st)),
        OpenContainer::Item { content_indent, .. } => if blank {
            Some(Some(st_advance(line, st, min_cols(ind, content_indent as int))))
        } else if ind >= content_indent {
            Some(Some(st_advance(line, st, content_indent as int)))
        } else {
            Some(None)
        },
        OpenContainer::Footnote { content_indent, .. } => if blank {
            Some(Some(st))
        } else if ind >= content_indent {
            Some(Some(st_advance(line, st, content_indent as int)))
        } else {
            Some(None)
        },
        OpenContainer::Directive { fence_len, content_indent, .. } => {
            let p = st_advance(line, st, min_cols(ind, 3));
            if p.2 == 0 && spec_fence_close(line.skip(p.0), 58, fence_len as int) {
                None
            } else {
                Some(Some(st_advance(line, st, min_cols(ind, content_indent as int))))
            }
        },
    }
}

/// Matching the stack from entry `i` at state `st`: (closing fence found, entries matched or the
/// directive's index, the state reached).
pub open spec fn spec_match(stack: Seq<OpenContainer>, line: Seq<u8>, i: int, st: (int, int, int)) -> (
    bool,
    int,
    (int, int, int),
)
    decreases stack.len() - i,
{
    if i < 0 || i >= stack.len() {
        (false, i, st)
    } else {
        match continue_step(stack[i], line, st) {
            None => (true, i, st),
            Some(None) => (false, i, st),
            Some(Some(next)) => spec_match(stack, line, i + 1, next),
        }
    }
}

/// A closed container directive whose closing fence is `fence` and whose block ends at `end`.
pub open spec fn directive_closed(ir: Ir, fence: Span, end: u32) -> bool {
    ir matches Ir::ContainerDirective { closing, span, .. } && closing == Some(fence) && span.end == end
}

/// A line continues an open table: it has a flow position where no block construct starts
/// (a liquid opener only maybe starts one).
pub open spec fn row_continues(c: Constructs, cur: Cursor) -> bool {
    let adv = advance(cur.line@, cur.pos as int, cur.col as int, cur.partial as int, cur.spec_indent());
    let t = spec_probe(c, cur.line@.skip(adv.0), false);
    cur.spec_indent() < 4 && adv.2 == 0 && (t is None || t == Some(StartV::Liquid))
}

/// Content end (before the line terminator) of the line starting at `start`.
pub open spec fn spec_line_content_end(b: Seq<u8>, i: int) -> int
    decreases b.len() - i,
{
    if i < 0 || i >= b.len() || b[i] == 10 || b[i] == 13 {
        i
    } else {
        spec_line_content_end(b, i + 1)
    }
}

/// The block start at the head of a line read from its first byte, when it opens a leaf or
/// container right there (not blank, under four columns of indent, no straddling tab).
pub open spec fn fresh_flow(c: Constructs, line: Seq<u8>) -> Option<StartV> {
    let indent = ws_cols(line, 0, 0);
    let st = advance(line, 0, 0, 0, indent);
    if !blank_between(line, 0, line.len() as int) && indent < 4 && st.2 == 0 {
        spec_probe(c, line.skip(st.0), false)
    } else {
        None
    }
}

/// The block start at the head of the first line of `b`, read from its first byte.
pub open spec fn first_line_start(c: Constructs, b: Seq<u8>) -> Option<StartV> {
    if b.len() > 0 {
        fresh_flow(c, b.subrange(0, spec_line_content_end(b, 0)))
    } else {
        None
    }
}

/// A top-level block list with the block the first line starts: a thematic break, or a heading
/// of the ATX level.
pub open spec fn first_block_kept(first: Option<StartV>, root: Seq<Ir>) -> bool {
    match first {
        Some(StartV::ThematicBreak) => exists|i: int| 0 <= i < root.len() && #[trigger] root[i] is ThematicBreak,
        Some(StartV::Atx { level, .. }) => exists|i: int| 0 <= i < root.len() && match #[trigger] root[i] {
            Ir::Heading { level: l, underline, .. } => l == level && underline is None,
            _ => false,
        },
        _ => true,
    }
}

/// A kept first block stays kept as more top-level blocks follow.
pub proof fn lemma_first_block_grows(first: Option<StartV>, r0: Seq<Ir>, r1: Seq<Ir>)
    requires
        first_block_kept(first, r0),
        root_grows(r0, r1),
    ensures
        first_block_kept(first, r1),
{
    match first {
        Some(StartV::ThematicBreak) => {
            let i = choose|i: int| 0 <= i < r0.len() && #[trigger] r0[i] is ThematicBreak;
            assert(r1[i] == r0[i]);
        },
        Some(StartV::Atx { level, .. }) => {
            let i = choose|i: int| 0 <= i < r0.len() && match #[trigger] r0[i] {
                Ir::Heading { level: l, underline, .. } => l == level && underline is None,
                _ => false,
            };
            assert(r1[i] == r0[i]);
        },
        _ => {},
    }
}

/// The top-level blocks `r1` keep the blocks of `r0` as a prefix: top-level blocks once
/// closed stay as they are.
pub open spec fn root_grows(r0: Seq<Ir>, r1: Seq<Ir>) -> bool {
    &&& r0.len() <= r1.len()
    &&& forall|i: int| 0 <= i < r0.len() ==> #[trigger] r1[i] == r0[i]
}

impl<'s> Engine<'s> {
    /// The engine's invariant: the source fits the offsets and column arithmetic,
    /// and the container stack nests lists and items properly.
    pub(crate) open spec fn wf(&self) -> bool {
        &&& self.bytes@ == self.source.spec_bytes()
        &&& self.bytes@.len() <= u32::MAX
        &&& self.bytes@.len() <= isize::MAX
        &&& 4 * self.bytes@.len() + 8 <= usize::MAX
        &&& items_in_lists(self.stack@)
        &&& lists_topped(self.stack@)
    }

    /// A fresh engine's state holds the invariant the line loop keeps.
    pub closed spec fn ready(&self) -> bool {
        &&& self.wf()
        &&& self.blanks.all@.len() == 0
        &&& self.blanks.loosening@.len() == 0
        &&& self.stack@.len() == 0
        &&& self.leaf is None
        &&& self.skip_to == 0
        &&& self.root@.len() == 0
    }

    /// The blocks of the innermost open container, or the document's top-level blocks.
    pub(crate) open spec fn innermost(&self) -> Seq<Ir> {
        if self.stack@.len() == 0 {
            self.root@
        } else {
            children_of(self.stack@.last())
        }
    }

    /// The source's bytes.
    pub closed spec fn text(&self) -> Seq<u8> {
        self.bytes@
    }

    /// The block start at the head of the source's first line, read from its first byte.
    pub closed spec fn first_start(&self) -> Option<StartV> {
        first_line_start(self.constructs, self.bytes@)
    }

    /// Same source and constructs.
    pub(crate) open spec fn same_text(&self, other: &Engine<'s>) -> bool {
        &&& self.source == other.source
        &&& self.bytes == other.bytes
        &&& self.constructs == other.constructs
        &&& root_grows(other.root@, self.root@)
    }

    /// Same source and constructs, and the blank-line tables untouched.
    pub(crate) open spec fn same_input(&self, other: &Engine<'s>) -> bool {
        &&& self.same_text(other)
        &&& self.blanks.all@ == other.blanks.all@
        &&& self.blanks.loosening@ == other.blanks.loosening@
    }

    /// A cursor over a line of this engine's source.
    pub(crate) open spec fn cur_ok(&self, c: Cursor) -> bool {
        c.wf() && c.line@.len() <= self.bytes@.len()
    }

    pub fn new(source: &'s str, constructs: Constructs) -> (e: Self)
        requires
            source.spec_bytes().len() <= u32::MAX,
            source.spec_bytes().len() <= isize::MAX,
            4 * source.spec_bytes().len() + 8 <= usize::MAX,
        ensures
            e.ready(),
            e.text() == source.spec_bytes(),
            e.first_start() == first_line_start(constructs, source.spec_bytes()),
    {
        Engine {
            source,
            bytes: source.as_bytes(),
            constructs,
            stack: Vec::new(),
            root: Vec::new(),
            leaf: None,
            blanks: BlankLines::default(),
            refs: RefMap::default(),
            skip_to: 0,
            liquid_dead: [0, 0],
        }
    }

    /// Runs the line loop over the whole source:
    /// the block tree, the blank-line tables and the definitions' labels (ready for lookups).
    pub fn run(self) -> (r: (Vec<Ir>, BlankLines, RefMap))
        requires
            self.ready(),
        ensures
            r.2.finished(),
            blank_lines_ok(self.text(), r.1.all@),
            blank_lines_ok(self.text(), r.1.loosening@),
            subsequence(r.1.loosening@, r.1.all@),
            first_block_kept(self.first_start(), r.0@),
            self.text().len() > 0 && blank_between(self.text(), 0, spec_line_content_end(self.text(), 0))
                ==> r.1.all@.len() > 0 && r.1.all@[0] == (Span { start: 0, end: spec_line_content_end(self.text(), 0) as u32 }),
    {
        let mut e = self;
        let ghost b = e.bytes@;
        let ghost first_span = Span { start: 0, end: spec_line_content_end(b, 0) as u32 };
        let ghost first_blank = b.len() > 0 && blank_between(b, 0, spec_line_content_end(b, 0));
        let ghost mut first_done = false;
        let ghost mut pick: Seq<int> = Seq::empty();
        let mut start: u32 = 0;
        while (start as usize) < e.bytes.len()
            invariant_except_break
                ends_by(e.blanks.all@, start as int),
                ends_by(e.blanks.loosening@, start as int),
            invariant
                e.wf(),
                e.bytes@ == b,
                blank_lines_ok(b, e.blanks.all@),
                blank_lines_ok(b, e.blanks.loosening@),
                !first_done ==> start == 0 && e.stack@.len() == 0 && e.leaf is None && e.skip_to == 0
                    && e.blanks.all@.len() == 0,
                first_done && first_blank ==> e.blanks.all@.len() > 0 && e.blanks.all@[0] == first_span,
                first_blank == (b.len() > 0 && blank_between(b, 0, spec_line_content_end(b, 0))),
                first_span == (Span { start: 0, end: spec_line_content_end(b, 0) as u32 }),
                subsequence_by(e.blanks.loosening@, e.blanks.all@, pick),
                e.constructs == self.constructs,
                b == self.bytes@,
                first_done ==> first_block_kept(self.first_start(), e.root@),
                !first_done ==> e.root@.len() == 0,
            ensures
                b.len() > 0 ==> first_done,
            decreases e.bytes@.len() - start,
        {
            let content_end = line_content_end(e.bytes, start);
            let ghost e0 = e;
            e.line(start, content_end);
            proof {
                if first_done {
                    lemma_first_block_grows(self.first_start(), e0.root@, e.root@);
                } else {
                    assert(start == 0);
                    assert(content_end == spec_line_content_end(b, 0));
                    assert(b.len() > 0);
                    assert(e0.constructs == self.constructs);
                    assert(e0.bytes@ == self.bytes@);
                    assert(e0.skip_to == 0 && e0.stack@.len() == 0 && e0.leaf is None);
                    assert(first_block_kept(
                        fresh_flow(e0.constructs, e0.bytes@.subrange(0, content_end as int)),
                        e.root@,
                    ));
                    assert(first_block_kept(self.first_start(), e.root@));
                }
                lemma_recorded(e0.blanks.all@, e.blanks.all@, b, start as int, content_end as int);
                lemma_recorded(e0.blanks.loosening@, e.blanks.loosening@, b, start as int, content_end as int);
                if first_done && first_blank && e.blanks.all@ != e0.blanks.all@ {
                    assert(e.blanks.all@.drop_last()[0] == e.blanks.all@[0]);
                }
                first_done = true;
                let a0 = e0.blanks.all@;
                let a1 = e.blanks.all@;
                if a1 != a0 {
                    assert forall|i: int| 0 <= i < a0.len() implies a1[i] == a0[i] by {
                        assert(a1.drop_last()[i] == a1[i]);
                    }
                }
                if e.blanks.loosening@ != e0.blanks.loosening@ {
                    pick = pick.push(a1.len() - 1);
                }
                assert(subsequence_by(e.blanks.loosening@, e.blanks.all@, pick));
            }
            match next_line_start(e.bytes, content_end) {
                Some(next) => start = next,
                None => break,
            }
        }
        let n = e.bytes.len();
        let ends_with_newline = n > 0 && (e.bytes[n - 1] == 10 || e.bytes[n - 1] == 13);
        let ghost r0 = e.root@;
        e.mark_html_eof(ends_with_newline);
        e.close_from(0);
        proof {
            if b.len() > 0 {
                lemma_first_block_grows(self.first_start(), r0, e.root@);
            }
        }
        e.refs.finish();
        assert(subsequence_by(e.blanks.loosening@, e.blanks.all@, pick));
        (e.root, e.blanks, e.refs)
    }

    fn line(&mut self, line_start: u32, content_end: u32)
        requires
            old(self).wf(),
            line_start <= content_end <= old(self).bytes@.len(),
        ensures
            final(self).wf(),
            final(self).same_text(old(self)),
            recorded(old(self).blanks.all@, final(self).blanks.all@, old(self).bytes@, line_start as int, content_end as int),
            recorded(
                old(self).blanks.loosening@,
                final(self).blanks.loosening@,
                old(self).bytes@,
                line_start as int,
                content_end as int,
            ),
            line_start < old(self).skip_to ==> *final(self) == *old(self),
            final(self).blanks.all@ == old(self).blanks.all@ || final(self).blanks.all@.drop_last()
                == old(self).blanks.all@,
            final(self).blanks.loosening@ == old(self).blanks.loosening@ || (final(self).blanks.all@.len()
                == old(self).blanks.all@.len() + 1 && final(self).blanks.loosening@ == old(
                self
            ).blanks.loosening@.push(final(self).blanks.all@.last())),
            line_start >= old(self).skip_to && old(self).stack@.len() == 0 && old(self).leaf is None && blank_between(
                old(self).bytes@,
                line_start as int,
                content_end as int,
            ) ==> final(self).blanks.all@ == old(self).blanks.all@.push(Span { start: line_start, end: content_end }),
            line_start >= old(self).skip_to && old(self).stack@.len() == 0 && old(self).leaf is None ==> first_block_kept(
                fresh_flow(old(self).constructs, old(self).bytes@.subrange(line_start as int, content_end as int)),
                final(self).root@,
            ),
    {
        // Lines already consumed by a validated multi-line liquid tag
        // (attached at its open site) are pure replay.
        if line_start < self.skip_to {
            return;
        }
        let mut cur = self.line_cursor(line_start, content_end);
        // 1. Match the open container stack.
        let matched = match self.match_stack(&mut cur) {
            StackMatch::DirectiveClose { index, fence } => {
                self.close_directive(index, fence, content_end);
                return;
            },
            StackMatch::Prefixes(matched) => matched,
        };
        let all_matched = matched == self.stack.len();
        // 2. Verbatim leaf continuations consume the whole line.
        if all_matched && self.continue_verbatim_leaf(cur, content_end) {
            return;
        }
        // 3. Blank lines.
        if cur.is_blank() {
            self.blank_line(cur, matched, all_matched, content_end);
            return;
        }
        // 4. Lazy continuation vs closing unmatched containers.
        if !all_matched && self.lazy_continuation(cur, matched, content_end) {
            return;
        }
        // 4b. Non-verbatim leaf continuations.
        match self.continue_leaf(&mut cur, content_end) {
            Continuation::Consumed => {
                return;
            },
            Continuation::Open => {},
        }
        // 5. New block starts.
        self.open_blocks(cur, content_end);
    }

    /// A cursor over the physical line `start..end` (content only, no terminator).
    fn line_cursor(&self, start: u32, end: u32) -> (c: Cursor<'s>)
        requires
            self.wf(),
            start <= end <= self.bytes@.len(),
        ensures
            self.cur_ok(c),
            c.line_start == start,
            c.line@.len() == end - start,
            c.line@ == self.bytes@.subrange(start as int, end as int),
            c.pos == 0,
            c.col == 0,
            c.partial == 0,
    {
        Cursor::new(&self.bytes[start as usize..end as usize], start)
    }

    /// Step 1's directive-close outcome: the line is an open directive's closing fence.
    /// It consumes the whole line, force-closing everything deeper first.
    #[verifier::rlimit(30)]
    #[verifier::spinoff_prover]
    fn close_directive(&mut self, index: usize, fence: Span, content_end: u32)
        requires
            old(self).wf(),
            index < old(self).stack@.len(),
            kind_of(old(self).stack@[index as int]) == 4,
        ensures
            final(self).wf(),
            final(self).same_input(old(self)),
            final(self).stack@.len() == index,
            final(self).leaf is None,
            final(self).innermost().len() > 0,
            directive_closed(final(self).innermost().last(), fence, content_end),
    {
        // The directive's content is a sub-document: it ends like EOF
        // (the fence sits on its own line, so the line ending before it always exists).
        self.mark_html_eof(true);
        let n = self.stack.len();
        assert(index < n);
        self.close_from(index + 1);
        let ghost s1 = self.stack@;
        match self.stack.pop() {
            Some(OpenContainer::Directive { children, fence_len, content_indent, opening, closing: _, end: _ }) => {
                self.stack.push(
                    OpenContainer::Directive {
                        children,
                        fence_len,
                        content_indent,
                        opening,
                        closing: Some(fence),
                        end: content_end,
                    },
                );
            },
            Some(other) => {
                self.stack.push(other);
            },
            None => {},
        }
        proof {
            lemma_stack_replace_top(s1, self.stack@);
        }
        self.close_from(index);
    }

    /// Step 2: fenced code / math and HTML types 1–5 take every line until their end condition.
    /// Returns whether the line was consumed.
    fn continue_verbatim_leaf(&mut self, cur: Cursor<'s>, content_end: u32) -> (consumed: bool)
        requires
            old(self).wf(),
            old(self).cur_ok(cur),
        ensures
            final(self).wf(),
            final(self).same_input(old(self)),
            !consumed ==> final(self).stack@ == old(self).stack@ && final(self).leaf == old(self).leaf,
            verbatim_continued(old(self).leaf, final(self).leaf, consumed, cur, content_end),
    {
        match self.leaf.take() {
            Some(Leaf::FencedCode { fence, len, indent, info, mut lines, start, end }) => {
                let mut c = cur;
                c.skip_indent_up_to(3);
                if c.partial == 0 && fence_close(c.tail(), fence, len) {
                    self.leaf = Some(Leaf::FencedCode { fence, len, indent, info, lines, start, end: content_end });
                    self.close_leaf();
                } else {
                    let mut c2 = cur;
                    c2.skip_indent_up_to(indent);
                    lines.push(c2.segment(content_end));
                    self.leaf = Some(Leaf::FencedCode { fence, len, indent, info, lines, start, end: content_end });
                }
                true
            },
            Some(Leaf::Html { kind, mut lines, trailing_newline, start, end }) => {
                if 1 <= kind && kind <= 5 {
                    lines.push(cur.segment(content_end));
                    self.leaf = Some(Leaf::Html { kind, lines, trailing_newline, start, end: content_end });
                    if html_block_end(cur.tail(), kind) {
                        self.close_leaf();
                    }
                    true
                } else {
                    self.leaf = Some(Leaf::Html { kind, lines, trailing_newline, start, end });
                    false
                }
            },
            other => {
                self.leaf = other;
                false
            },
        }
    }

    /// Step 3: a blank line closes non-verbatim leaves and unmatched containers,
    /// and is recorded in the blank-line tables.
    fn blank_line(&mut self, cur: Cursor<'s>, matched: usize, all_matched: bool, content_end: u32)
        requires
            old(self).wf(),
            old(self).cur_ok(cur),
            matched <= old(self).stack@.len(),
            all_matched == (matched == old(self).stack@.len()),
            cur.line_start + cur.line@.len() == content_end,
            content_end <= old(self).bytes@.len(),
            cur.line@ == old(self).bytes@.subrange(cur.line_start as int, content_end as int),
            blank_between(cur.line@, cur.pos as int, cur.line@.len() as int),
        ensures
            final(self).wf(),
            final(self).same_text(old(self)),
            final(self).blanks.all@.len() == old(self).blanks.all@.len() + 1,
            final(self).blanks.all@.drop_last() == old(self).blanks.all@,
            final(self).blanks.all@.last().start == cur.spec_offset(),
            final(self).blanks.all@.last().end == content_end,
            blank_span(old(self).bytes@, final(self).blanks.all@.last()),
            recorded(
                old(self).blanks.loosening@,
                final(self).blanks.loosening@,
                old(self).bytes@,
                cur.spec_offset(),
                content_end as int,
            ),
            final(self).blanks.loosening@ == old(self).blanks.loosening@ || final(self).blanks.loosening@ == old(
                self
            ).blanks.loosening@.push(final(self).blanks.all@.last()),
    {
        let n = self.stack.len();
        let deepest_is_quote = all_matched && n > 0 && match &self.stack[n - 1] {
            OpenContainer::Quote { .. } => true,
            _ => false,
        };
        match self.leaf.take() {
            Some(Leaf::IndentedCode { lines, mut pending, start, end }) => {
                let mut c = cur;
                c.skip_indent_up_to(4);
                pending.push(c.segment(content_end));
                self.leaf = Some(Leaf::IndentedCode { lines, pending, start, end });
            },
            Some(Leaf::FencedCode { fence, len, indent, info, lines, start, end }) => {
                // Only reachable when containers went unmatched
                self.leaf = Some(Leaf::FencedCode { fence, len, indent, info, lines, start, end });
            },
            None => {},
            other => {
                // A paragraph, an HTML block or a table ends at a blank line.
                self.leaf = other;
                self.close_leaf();
            },
        }
        if !all_matched {
            self.hand_back_line_ending(false);
            self.close_from(matched);
        }
        // The line belongs to the innermost blockquote whose `>` it carries.
        let mut k = self.stack.len();
        while k > 0
            invariant
                self.wf(),
                self.same_input(old(self)),
                k <= self.stack@.len(),
            decreases k,
        {
            k = k - 1;
            if self.raise_quote_end(k, content_end) {
                break;
            }
        }
        let blank = Span::new(cur.offset(), content_end);
        proof {
            let ls = cur.line_start as int;
            assert forall|k: int| blank.start <= k < blank.end implies is_space_tab(#[trigger] old(self).bytes@[k]) by {
                assert(old(self).bytes@.subrange(ls, content_end as int)[k - ls] == old(self).bytes@[k]);
                assert(is_space_tab(cur.line@[k - ls]));
            }
        }
        self.blanks.all.push(blank);
        // A blank line whose innermost container is a blockquote (`>` alone)
        // never loosens a surrounding list.
        let ghost lo0 = self.blanks.loosening@;
        if !deepest_is_quote {
            self.blanks.loosening.push(blank);
            assert(self.blanks.loosening@.drop_last() =~= lo0);
        }
        // A list item can begin with at most one blank line:
        // an item that is still empty when a blank line arrives closes here.
        let n = self.stack.len();
        if self.leaf.is_none() && n > 0 {
            let empty_item = match &self.stack[n - 1] {
                OpenContainer::Item { children, .. } => children.len() == 0,
                _ => false,
            };
            if empty_item {
                self.close_from(n - 1);
            }
        }
    }

    /// When entry `k` is a blockquote, its end reaches at least `end`; returns whether it was one.
    fn raise_quote_end(&mut self, k: usize, end: u32) -> (was_quote: bool)
        requires
            old(self).wf(),
            k < old(self).stack@.len(),
        ensures
            final(self).wf(),
            final(self).same_input(old(self)),
            final(self).stack@.len() == old(self).stack@.len(),
            was_quote == (kind_of(old(self).stack@[k as int]) == 0),
            final(self).stack@ == old(self).stack@.update(k as int, raised_quote(old(self).stack@[k as int], end)),
            final(self).leaf == old(self).leaf,
            final(self).root@ == old(self).root@,
    {
        let is_quote = match &self.stack[k] {
            OpenContainer::Quote { .. } => true,
            _ => false,
        };
        if !is_quote {
            return false;
        }
        let ghost s0 = self.stack@;
        let entry = self.stack.remove(k);
        let updated = match entry {
            OpenContainer::Quote { children, start, end: e } => OpenContainer::Quote {
                children,
                start,
                end: if e > end {
                    e
                } else {
                    end
                },
            },
            other => other,
        };
        self.stack.insert(k, updated);
        proof {
            assert(self.stack@ =~= s0.update(k as int, raised_quote(s0[k as int], end)));
            assert forall|q: int| 0 <= q < s0.len() implies #[trigger] kind_of(self.stack@[q]) == kind_of(s0[q]) by {
                if q != k {
                    assert(self.stack@[q] == s0[q]);
                }
            }
            assert(items_in_lists(self.stack@)) by {
                assert forall|q: int| 0 <= q < self.stack@.len() && #[trigger] kind_of(self.stack@[q]) == 2 implies q > 0
                    && kind_of(self.stack@[q - 1]) == 1 by {
                    assert(kind_of(s0[q]) == 2);
                    assert(kind_of(self.stack@[q - 1]) == kind_of(s0[q - 1]));
                }
            }
            assert(lists_topped(self.stack@)) by {
                assert forall|q: int| 0 <= q < self.stack@.len() - 1 && #[trigger] kind_of(self.stack@[q]) == 1 implies kind_of(
                    self.stack@[q + 1],
                ) == 2 by {
                    assert(kind_of(s0[q]) == 1);
                    assert(kind_of(self.stack@[q + 1]) == kind_of(s0[q + 1]));
                }
            }
        }
        true
    }

    /// Step 4, for a line that failed to match every container:
    /// the open paragraph absorbs it lazily (returns `true`),
    /// or the unmatched containers close and the line goes on to steps 4b–5.
    /// A directive in the unmatched suffix blocks laziness:
    /// its content never accepts lazy lines, so the directive (and the paragraph inside it) end instead.
    /// The probe runs with the paragraph-interrupt restrictions off:
    /// the paragraph being lazily continued sits in an unmatched deeper container,
    /// so a new block would attach beside it, not interrupt it.
    /// Setext underlines are deliberately absent, a lazy line is never an underline.
    fn lazy_continuation(&mut self, cur: Cursor<'s>, matched: usize, content_end: u32) -> (lazy: bool)
        requires
            old(self).wf(),
            old(self).cur_ok(cur),
            matched <= old(self).stack@.len(),
            content_end <= old(self).bytes@.len(),
        ensures
            final(self).wf(),
            final(self).same_input(old(self)),
            !lazy ==> final(self).leaf is None,
            lazy ==> lazy_added(old(self).leaf, final(self).leaf, cur.spec_segment(content_end)) && final(self).stack@
                == old(self).stack@ && final(self).root@ == old(self).root@,
            old(self).leaf matches Some(Leaf::Paragraph { .. }) && flow_probe(old(self).constructs, cur) is None && (
            forall|k: int| matched <= k < old(self).stack@.len() ==> #[trigger] kind_of(old(self).stack@[k]) != 4)
                ==> lazy,
    {
        let mut start: Option<Start> = match cur.flow_start() {
            Some(c) => self.probe(c.tail(), false),
            None => None,
        };
        // A liquid opener interrupts only as a complete construct
        let is_liquid = match &start {
            Some(Start::Liquid) => true,
            _ => false,
        };
        if is_liquid {
            match cur.flow_start() {
                Some(c) => {
                    if self.liquid_scan(c, content_end).is_none() {
                        start = None;
                    }
                },
                None => {},
            }
        }
        let mut directive_between = false;
        let mut k = matched;
        while k < self.stack.len()
            invariant
                matched <= k <= self.stack@.len(),
                !directive_between <==> forall|q: int| matched <= q < k ==> #[trigger] kind_of(self.stack@[q]) != 4,
            decreases self.stack@.len() - k,
        {
            match &self.stack[k] {
                OpenContainer::Directive { .. } => {
                    assert(kind_of(self.stack@[k as int]) == 4);
                    directive_between = true;
                },
                _ => {
                    assert(kind_of(self.stack@[k as int]) != 4);
                },
            }
            k = k + 1;
        }
        if !directive_between {
            match self.leaf.take() {
                Some(Leaf::Paragraph { mut segments, last_deep }) => {
                    if start.is_none() {
                        segments.push(IrSeg { seg: cur.segment(content_end), lazy: true });
                        self.leaf = Some(Leaf::Paragraph { segments, last_deep });
                        return true;
                    }
                    self.leaf = Some(Leaf::Paragraph { segments, last_deep });
                    // On a lazy line a complete type 7 tag interrupts the paragraph after all,
                    // and with a line ending after it the block opens inside the still-open container;
                    // at EOF without a line ending the container closes and the block opens outside.
                    // Only the paragraph closes here; step 5 opens the block from the raw line, indent included.
                    let has_line_ending = (content_end as usize) < self.bytes.len();
                    let html7 = match &start {
                        Some(Start::Html { kind }) => *kind == 7,
                        _ => false,
                    };
                    if has_line_ending && html7 {
                        self.close_leaf();
                        return false;
                    }
                },
                other => {
                    self.leaf = other;
                },
            }
        }
        // The line ending before a new container (list item, blockquote, footnote definition)
        // goes to the still-open flow; a flow start cuts before it.
        let opens_container = match &start {
            Some(Start::Quote) => true,
            Some(Start::ListItem { .. }) => true,
            Some(Start::FootnoteDef { .. }) => true,
            _ => false,
        };
        self.hand_back_line_ending(opens_container);
        self.close_from(matched);
        false
    }

    /// The line ending before a container-mismatch close:
    /// a raw HTML block (types 1–5) keeps it in its content only when the line opens a container;
    /// an unclosed fence loses its last, empty line to it otherwise, a blank-line close included.
    fn hand_back_line_ending(&mut self, opens_container: bool)
        requires
            old(self).wf(),
        ensures
            final(self).wf(),
            final(self).same_input(old(self)),
            final(self).stack@ == old(self).stack@,
            final(self).root@ == old(self).root@,
            handed_back(old(self).leaf, final(self).leaf, opens_container),
    {
        match self.leaf.take() {
            Some(Leaf::Html { kind, lines, trailing_newline, start, end }) => {
                let t = if opens_container && 1 <= kind && kind <= 5 {
                    true
                } else {
                    trailing_newline
                };
                self.leaf = Some(Leaf::Html { kind, lines, trailing_newline: t, start, end });
            },
            Some(Leaf::FencedCode { fence, len, indent, info, mut lines, start, end }) => {
                let mut end = end;
                if !opens_container && lines.len() > 0 {
                    let last = lines[lines.len() - 1];
                    if last.span.start == last.span.end && last.padding == 0 {
                        lines.pop();
                        end = last.span.start;
                    }
                }
                self.leaf = Some(Leaf::FencedCode { fence, len, indent, info, lines, start, end });
            },
            other => {
                self.leaf = other;
            },
        }
    }

    /// EOF (real, or a directive's closing fence) with a raw HTML block (types 1–5) still open:
    /// every line ending up to here is content, the last one included.
    /// Not under a blockquote at any depth: its prefix match owns the line ending there.
    #[verifier::loop_isolation(false)]
    fn mark_html_eof(&mut self, has_line_ending: bool)
        requires
            old(self).wf(),
        ensures
            final(self).wf(),
            final(self).same_input(old(self)),
            final(self).stack@ == old(self).stack@,
            final(self).root@ == old(self).root@,
            html_at_eof(
                old(self).leaf,
                final(self).leaf,
                has_line_ending && forall|k: int| 0 <= k < old(self).stack@.len() ==> #[trigger] kind_of(
                    old(self).stack@[k],
                ) != 0,
            ),
    {
        if !has_line_ending {
            return;
        }
        let mut k: usize = 0;
        while k < self.stack.len()
            invariant
                k <= self.stack@.len(),
                forall|q: int| 0 <= q < k ==> #[trigger] kind_of(self.stack@[q]) != 0,
            decreases self.stack@.len() - k,
        {
            match &self.stack[k] {
                OpenContainer::Quote { .. } => {
                    assert(kind_of(self.stack@[k as int]) == 0);
                    return;
                },
                _ => {},
            }
            k = k + 1;
        }
        match self.leaf.take() {
            Some(Leaf::Html { kind, lines, trailing_newline, start, end }) => {
                let t = if 1 <= kind && kind <= 5 {
                    true
                } else {
                    trailing_newline
                };
                self.leaf = Some(Leaf::Html { kind, lines, trailing_newline: t, start, end });
            },
            other => {
                self.leaf = other;
            },
        }
    }

    /// Step 4b: offers the line to the open non-verbatim leaf.
    /// HTML types 6–7 take every line, a table any line that is not another block start,
    /// indented code any line with 4+ columns of indent (buffered blank lines become content first).
    /// A leaf that refuses the line closes here.
    fn continue_leaf(&mut self, cur: &mut Cursor<'s>, content_end: u32) -> (c: Continuation)
        requires
            old(self).wf(),
            old(self).cur_ok(*old(cur)),
            content_end <= old(self).bytes@.len(),
        ensures
            final(self).wf(),
            final(self).same_input(old(self)),
            final(self).cur_ok(*final(cur)),
            final(cur).same_line(*old(cur)),
            leaf_continued(
                old(self).leaf,
                final(self).leaf,
                c is Consumed,
                old(cur).spec_indent() >= 4,
                row_continues(old(self).constructs, *old(cur)),
                final(cur).spec_segment(content_end),
                content_end,
            ),
            !(old(self).leaf matches Some(Leaf::IndentedCode { .. }) && old(cur).spec_indent() >= 4) ==> *final(cur)
                == *old(cur),
            old(self).leaf is None ==> final(self).stack@ == old(self).stack@,
    {
        match self.leaf.take() {
            Some(Leaf::Html { kind, mut lines, trailing_newline, start, end }) => {
                if kind == 6 || kind == 7 {
                    lines.push(cur.segment(content_end));
                    self.leaf = Some(Leaf::Html { kind, lines, trailing_newline, start, end: content_end });
                    Continuation::Consumed
                } else {
                    self.leaf = Some(Leaf::Html { kind, lines, trailing_newline, start, end });
                    Continuation::Open
                }
            },
            Some(Leaf::IndentedCode { mut lines, mut pending, start, end }) => {
                if cur.indent_cols() >= 4 {
                    cur.advance_cols(4);
                    lines.append(&mut pending);
                    lines.push(cur.segment(content_end));
                    self.leaf = Some(Leaf::IndentedCode { lines, pending, start, end: content_end });
                    Continuation::Consumed
                } else {
                    // Any non-indented line ends indented code; nothing is interrupted.
                    self.leaf = Some(Leaf::IndentedCode { lines, pending, start, end });
                    self.close_leaf();
                    Continuation::Open
                }
            },
            Some(Leaf::Table { align, rows, start, end }) => {
                self.leaf = Some(Leaf::Table { align, rows, start, end });
                if self.continue_table(*cur, content_end) {
                    Continuation::Consumed
                } else {
                    self.close_leaf();
                    Continuation::Open
                }
            },
            other => {
                self.leaf = other;
                Continuation::Open
            },
        }
    }

    /// Appends the rest of the line to the open paragraph, or opens one.
    /// Continuation lines keep their leading whitespace raw,
    /// text rendering strips it in the inline phase, but code spans crossing the line ending must see it.
    /// A new paragraph starts at its first content byte.
    fn paragraph_text(&mut self, cur: Cursor<'s>, content_end: u32, deep: bool)
        requires
            old(self).wf(),
            old(self).cur_ok(cur),
        ensures
            final(self).wf(),
            final(self).same_input(old(self)),
            final(self).leaf is Some,
            old(self).leaf matches Some(Leaf::Paragraph { .. }) ==> para_extended(
                old(self).leaf,
                final(self).leaf,
                cur.spec_segment(content_end),
                deep,
            ) && final(self).stack@ == old(self).stack@ && final(self).root@ == old(self).root@,
            !(old(self).leaf matches Some(Leaf::Paragraph { .. })) ==> (final(self).leaf matches Some(
                Leaf::Paragraph { segments, last_deep },
            ) && segments@.len() == 1 && last_deep == deep && !segments@[0].lazy),
            stack_kept(old(self).stack@, final(self).stack@),
    {
        proof {
            lemma_stack_kept_of(old(self).stack@, old(self).stack@);
        }
        match self.leaf.take() {
            Some(Leaf::Paragraph { mut segments, last_deep: _ }) => {
                segments.push(IrSeg { seg: cur.segment(content_end), lazy: false });
                self.leaf = Some(Leaf::Paragraph { segments, last_deep: deep });
            },
            other => {
                self.leaf = other;
                self.close_list_top();
                let mut c = cur;
                c.skip_all_ws();
                let seg = IrSeg { seg: c.segment(content_end), lazy: false };
                let segments = vec![seg];
                assert(segments@ =~= seq![seg]);
                self.leaf = Some(Leaf::Paragraph { segments, last_deep: deep });
            },
        }
    }

    /// Matches the open container stack against a line, consuming the prefixes it recognizes.
    /// Directive closing fences are checked outermost-first, before anything deeper sees the line.
    fn match_stack(&self, cur: &mut Cursor<'s>) -> (m: StackMatch)
        requires
            self.wf(),
            self.cur_ok(*old(cur)),
        ensures
            self.cur_ok(*final(cur)),
            final(cur).same_line(*old(cur)),
            m matches StackMatch::Prefixes(k) ==> k <= self.stack@.len(),
            m matches StackMatch::DirectiveClose { index, .. } ==> index < self.stack@.len() && kind_of(
                self.stack@[index as int],
            ) == 4,
            ({
                let r = spec_match(
                    self.stack@,
                    old(cur).line@,
                    0,
                    (old(cur).pos as int, old(cur).col as int, old(cur).partial as int),
                );
                &&& (m is DirectiveClose) == r.0
                &&& m matches StackMatch::Prefixes(k) ==> k == r.1 && (final(cur).pos as int, final(cur).col as int, final(cur).partial as int) == r.2
                &&& m matches StackMatch::DirectiveClose { index, .. } ==> index == r.1
            }),
    {
        let mut matched: usize = 0;
        let mut i: usize = 0;
        let ghost c0 = *cur;
        let ghost r0 = spec_match(self.stack@, c0.line@, 0, (c0.pos as int, c0.col as int, c0.partial as int));
        while i < self.stack.len()
            invariant
                self.wf(),
                self.cur_ok(*cur),
                c0 == *old(cur),
                cur.same_line(c0),
                i <= self.stack@.len(),
                matched == i,
                r0 == spec_match(self.stack@, c0.line@, 0, (c0.pos as int, c0.col as int, c0.partial as int)),
                r0 == spec_match(self.stack@, c0.line@, i as int, (cur.pos as int, cur.col as int, cur.partial as int)),
            ensures
                !r0.0 && r0.1 == matched && r0.2 == (cur.pos as int, cur.col as int, cur.partial as int),
                self.cur_ok(*cur),
                cur.same_line(c0),
                matched <= self.stack@.len(),
            decreases self.stack@.len() - i,
        {
            let ok = match &self.stack[i] {
                OpenContainer::Quote { .. } => {
                    let save = *cur;
                    cur.skip_indent_up_to(3);
                    let t = cur.tail();
                    if cur.partial == 0 && t.len() > 0 && t[0] == 62 {
                        cur.bump(1);
                        cur.eat_one_space();
                        true
                    } else {
                        *cur = save;
                        false
                    }
                },
                OpenContainer::List { .. } => true,
                OpenContainer::Item { content_indent, .. } => {
                    // A blank line still gives up the item's indent, at most what it has,
                    // so whitespace-only lines inside a fence or HTML block lose it.
                    if cur.is_blank() {
                        let avail = cur.indent_cols();
                        cur.advance_cols(if avail < *content_indent { avail } else { *content_indent });
                        true
                    } else if cur.indent_cols() >= *content_indent {
                        cur.advance_cols(*content_indent);
                        true
                    } else {
                        false
                    }
                },
                OpenContainer::Footnote { content_indent, .. } => {
                    // Footnote definitions take a blank line as-is.
                    if cur.is_blank() {
                        true
                    } else if cur.indent_cols() >= *content_indent {
                        cur.advance_cols(*content_indent);
                        true
                    } else {
                        false
                    }
                },
                OpenContainer::Directive { fence_len, content_indent, .. } => {
                    // Measure the indent once; probe the close on a copy
                    let avail = cur.indent_cols();
                    let mut p = *cur;
                    p.advance_cols(if avail < 3 { avail } else { 3 });
                    let t = p.tail();
                    if p.partial == 0 && fence_close(t, 58, *fence_len) {
                        let fence = Span::at(p.offset(), 0..t.len());
                        return StackMatch::DirectiveClose { index: i, fence };
                    }
                    cur.advance_cols(if avail < *content_indent { avail } else { *content_indent });
                    true
                },
            };
            if !ok {
                break;
            }
            matched = i + 1;
            i = i + 1;
        }
        StackMatch::Prefixes(matched)
    }

    /// See [`probe`]; forwards the engine's constructs.
    pub(crate) fn probe(&self, tail: &[u8], para_open: bool) -> (r: Option<Start>)
        requires
            self.wf(),
            tail@.len() <= self.bytes@.len(),
        ensures
            r is None ==> spec_probe(self.constructs, tail@, para_open) is None,
            r matches Some(st) ==> spec_probe(self.constructs, tail@, para_open) == Some(st.view()),
    {
        probe(&self.constructs, tail, para_open)
    }
}

/// Replacing the top entry by one of the same kind keeps the stack's shape.
proof fn lemma_stack_replace_top(a: Seq<OpenContainer>, b: Seq<OpenContainer>)
    requires
        a.len() == b.len(),
        items_in_lists(a),
        lists_topped(a),
        kinds_kept(a, b, a.len() as int),
    ensures
        items_in_lists(b),
        lists_topped(b),
{
    assert forall|q: int| 0 <= q < b.len() && #[trigger] kind_of(b[q]) == 2 implies q > 0 && kind_of(b[q - 1]) == 1 by {
        assert(kind_of(a[q]) == 2);
        assert(kind_of(b[q - 1]) == kind_of(a[q - 1]));
    }
    assert forall|q: int| 0 <= q < b.len() - 1 && #[trigger] kind_of(b[q]) == 1 implies kind_of(b[q + 1]) == 2 by {
        assert(kind_of(a[q]) == 1);
        assert(kind_of(b[q + 1]) == kind_of(a[q + 1]));
    }
}

/// Content end (before the line terminator) of the line starting at `start`.
pub fn line_content_end(bytes: &[u8], start: u32) -> (e: u32)
    requires
        start <= bytes@.len() <= u32::MAX,
    ensures
        start <= e <= bytes@.len(),
        e == spec_line_content_end(bytes@, start as int),
{
    let mut i = start as usize;
    while i < bytes.len() && bytes[i] != 10 && bytes[i] != 13
        invariant
            start <= i <= bytes@.len(),
            spec_line_content_end(bytes@, i as int) == spec_line_content_end(bytes@, start as int),
        decreases bytes@.len() - i,
    {
        i = i + 1;
    }
    i as u32
}

/// Start of the line past the terminator at `content_end`;
/// `None` when no further line exists (a trailing terminator opens no empty line).
pub fn next_line_start(bytes: &[u8], content_end: u32) -> (r: Option<u32>)
    requires
        content_end <= bytes@.len() <= u32::MAX,
    ensures
        r matches Some(n) ==> content_end < n < bytes@.len(),
        r is None ==> content_end as int >= bytes@.len() || content_end + 1 >= bytes@.len() || (
        content_end + 2 >= bytes@.len() && bytes@[content_end as int] == 13 && bytes@[content_end + 1] == 10),
{
    let i = content_end as usize;
    if i >= bytes.len() {
        return None;
    }
    let next = i + if bytes[i] == 13 && i + 1 < bytes.len() && bytes[i + 1] == 10 { 2 } else { 1 };
    if next < bytes.len() {
        Some(next as u32)
    } else {
        None
    }
}

} // verus!
