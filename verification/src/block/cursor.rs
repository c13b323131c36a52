//! A cursor over one physical line.
//!
//! Tracks byte position and logical column together.
//! Tabs advance to the next 4-column stop measured from the physical line start (container prefixes included),
//! so consuming a prefix can stop inside a tab;
//! the leftover columns live in `partial` as virtual spaces in front of `pos`.
use vstd::prelude::*;
use crate::pos::{Segment, Span};
use crate::syntax::is_space_tab;
use super::scan::{is_blank_from, blank_between, trail_end};

verus! {

#[derive(Clone, Copy)]
pub struct Cursor<'s> {
    /// The physical line (content only, no terminator).
    pub line: &'s [u8],
    /// Source offset of the line's first byte.
    pub line_start: u32,
    /// Byte position within the line.
    pub pos: usize,
    /// Logical column (tabs expanded).
    pub col: usize,
    /// Virtual spaces pending in front of `pos` from a partially consumed tab.
    pub partial: u8,
}

/// The width of a tab starting at column `col`.
pub open spec fn tab_width(col: int) -> int {
    4 - col % 4
}

/// Columns of whitespace from byte `pos` at column `col`, tabs expanded to 4-column stops.
pub open spec fn ws_cols(line: Seq<u8>, pos: int, col: int) -> int
    decreases line.len() - pos,
{
    if pos < 0 || pos >= line.len() {
        0
    } else if line[pos] == 32 {
        1 + ws_cols(line, pos + 1, col + 1)
    } else if line[pos] == 9 {
        tab_width(col) + ws_cols(line, pos + 1, col + tab_width(col))
    } else {
        0
    }
}

/// Consuming `n` columns from (`pos`, `col`, `partial`): the resulting (`pos`, `col`, `partial`).
/// Pending partial columns go first; a tab wider than what is left is split, its rest becoming `partial`;
/// a non-whitespace byte stops the consumption.
pub open spec fn advance(line: Seq<u8>, pos: int, col: int, partial: int, n: int) -> (int, int, int)
    decreases n, line.len() - pos,
{
    if n <= 0 {
        (pos, col, partial)
    } else if partial > 0 {
        let take = if partial < n { partial } else { n };
        advance(line, pos, col + take, partial - take, n - take)
    } else if 0 <= pos < line.len() && line[pos] == 32 {
        advance(line, pos + 1, col + 1, 0, n - 1)
    } else if 0 <= pos < line.len() && line[pos] == 9 {
        let w = tab_width(col);
        if w > n {
            (pos + 1, col + n, w - n)
        } else {
            advance(line, pos + 1, col + w, 0, n - w)
        }
    } else {
        (pos, col, partial)
    }
}

impl<'s> Cursor<'s> {
    /// The cursor's own bounds: position within the line, partial-tab columns below a tab's width,
    /// columns no more than four per consumed byte, the line inside a `u32`-addressable source.
    pub open spec fn wf(&self) -> bool {
        &&& self.pos <= self.line@.len()
        &&& self.partial < 4
        &&& self.col + self.partial <= 4 * self.pos
        &&& self.line_start + self.line@.len() <= u32::MAX
        &&& 4 * self.line@.len() + 8 <= usize::MAX
    }

    /// Columns of whitespace available at the cursor.
    pub open spec fn spec_indent(&self) -> int {
        self.partial + ws_cols(self.line@, self.pos as int, self.col + self.partial)
    }

    /// The cursor's source offset.
    pub open spec fn spec_offset(&self) -> int {
        self.line_start + self.pos
    }

    /// The bytes from the cursor to the end of the line.
    pub open spec fn spec_tail(&self) -> Seq<u8> {
        self.line@.skip(self.pos as int)
    }

    /// The segment from the cursor to `line_content_end` (empty at it when the cursor is past it),
    /// pending tab columns as padding.
    pub open spec fn spec_segment(&self, line_content_end: u32) -> Segment {
        Segment {
            span: Span {
                start: if self.spec_offset() <= line_content_end {
                    self.spec_offset() as u32
                } else {
                    line_content_end
                },
                end: line_content_end,
            },
            padding: self.partial,
        }
    }

    /// Same line and origin.
    pub open spec fn same_line(&self, other: Cursor) -> bool {
        self.line@ == other.line@ && self.line_start == other.line_start
    }

    pub fn new(line: &'s [u8], line_start: u32) -> (c: Self)
        requires
            line_start + line@.len() <= u32::MAX,
            4 * line@.len() + 8 <= usize::MAX,
        ensures
            c.wf(),
            c.line@ == line@,
            c.line_start == line_start,
            c.pos == 0 && c.col == 0 && c.partial == 0,
    {
        Cursor { line, line_start, pos: 0, col: 0, partial: 0 }
    }

    pub fn tail(&self) -> (t: &'s [u8])
        requires
            self.wf(),
        ensures
            t@ == self.spec_tail(),
    {
        let t = &self.line[self.pos..self.line.len()];
        assert(t@ =~= self.spec_tail());
        t
    }

    /// Byte offset in the source.
    pub fn offset(&self) -> (o: u32)
        requires
            self.wf(),
        ensures
            o == self.spec_offset(),
    {
        self.line_start + self.pos as u32
    }

    /// The span from here to the end of the line, trailing spaces/tabs excluded
    /// (the extent of a heading, thematic break or setext underline).
    pub fn trimmed_span(&self) -> (s: Span)
        requires
            self.wf(),
        ensures
            s.start == self.spec_offset(),
            s.end == self.line_start + trail_end(self.line@, self.pos as int, self.line@.len() as int),
    {
        let mut end = self.line.len();
        while end > self.pos && (self.line[end - 1] == 32 || self.line[end - 1] == 9)
            invariant
                self.wf(),
                self.pos <= end <= self.line.len(),
                trail_end(self.line@, self.pos as int, end as int) == trail_end(
                    self.line@,
                    self.pos as int,
                    self.line@.len() as int,
                ),
            decreases end,
        {
            end = end - 1;
        }
        Span::at(self.offset(), 0..end - self.pos)
    }

    /// The rest of the line as a leaf-content segment ending at `line_content_end`.
    pub fn segment(&self, line_content_end: u32) -> (s: Segment)
        requires
            self.wf(),
        ensures
            s.span.start == if self.spec_offset() <= line_content_end { self.spec_offset() } else { line_content_end as int },
            s.span.end == line_content_end,
            s.padding == self.partial,
            s == self.spec_segment(line_content_end),
    {
        let o = self.offset();
        let start = if o <= line_content_end { o } else { line_content_end };
        Segment::new(Span::new(start, line_content_end), self.partial)
    }

    /// Columns of whitespace available at the cursor (without consuming).
    pub fn indent_cols(&self) -> (n: usize)
        requires
            self.wf(),
        ensures
            n == self.spec_indent(),
    {
        let mut cols: usize = self.partial as usize;
        let mut col: usize = self.col + cols;
        let mut p = self.pos;
        proof {
            lemma_ws_cols_bound(self.line@, p as int, col as int);
        }
        while p < self.line.len() && (self.line[p] == 32 || self.line[p] == 9)
            invariant
                self.wf(),
                self.pos <= p <= self.line.len(),
                col <= 4 * p + 4,
                cols + ws_cols(self.line@, p as int, col as int) == self.spec_indent(),
                cols <= 4 * p + 4,
            decreases self.line.len() - p,
        {
            let b = self.line[p];
            if b == 32 {
                cols = cols + 1;
                col = col + 1;
            } else {
                let width = 4 - col % 4;
                cols = cols + width;
                col = col + width;
            }
            p = p + 1;
        }
        cols
    }

    /// Consumes `n` columns of whitespace (at most what is available).
    pub fn advance_cols(&mut self, n: usize)
        requires
            old(self).wf(),
        ensures
            final(self).wf(),
            final(self).same_line(*old(self)),
            (final(self).pos as int, final(self).col as int, final(self).partial as int) == advance(
                old(self).line@,
                old(self).pos as int,
                old(self).col as int,
                old(self).partial as int,
                n as int,
            ),
            n <= old(self).spec_indent() ==> final(self).col == old(self).col + n
                && final(self).spec_indent() == old(self).spec_indent() - n,
            final(self).pos >= old(self).pos,
            final(self).col >= old(self).col,
    {
        let mut n = n;
        let ghost n0 = n;
        while n > 0 && (self.partial > 0 || (self.pos < self.line.len() && (self.line[self.pos] == 32
            || self.line[self.pos] == 9)))
            invariant
                self.wf(),
                self.same_line(*old(self)),
                advance(self.line@, self.pos as int, self.col as int, self.partial as int, n as int)
                    == advance(old(self).line@, old(self).pos as int, old(self).col as int, old(self).partial as int, n0 as int),
                n <= n0,
                self.pos >= old(self).pos,
                self.col >= old(self).col,
                n0 <= old(self).spec_indent() ==> self.col + n == old(self).col + n0
                    && n <= self.spec_indent() && self.spec_indent() - n == old(self).spec_indent() - n0,
            decreases n, self.line.len() - self.pos,
        {
            if self.partial > 0 {
                let take = if (self.partial as usize) < n { self.partial as usize } else { n };
                self.partial = self.partial - take as u8;
                self.col = self.col + take;
                n = n - take;
                continue;
            }
            if self.line[self.pos] == 32 {
                self.pos = self.pos + 1;
                self.col = self.col + 1;
                n = n - 1;
            } else {
                let width = 4 - self.col % 4;
                self.pos = self.pos + 1;
                if width > n {
                    self.partial = (width - n) as u8;
                    self.col = self.col + n;
                    n = 0;
                } else {
                    self.col = self.col + width;
                    n = n - width;
                }
            }
        }
    }

    /// Consumes up to `max` columns of leading whitespace.
    pub fn skip_indent_up_to(&mut self, max: usize)
        requires
            old(self).wf(),
        ensures
            final(self).wf(),
            final(self).same_line(*old(self)),
            ({
                let k = if old(self).spec_indent() < max { old(self).spec_indent() } else { max as int };
                &&& final(self).col == old(self).col + k
                &&& final(self).spec_indent() == old(self).spec_indent() - k
                &&& (final(self).pos as int, final(self).col as int, final(self).partial as int) == advance(
                    old(self).line@, old(self).pos as int, old(self).col as int, old(self).partial as int, k)
            }),
            final(self).pos >= old(self).pos,
    {
        let indent = self.indent_cols();
        let available = if indent < max { indent } else { max };
        self.advance_cols(available);
    }

    /// The position where a flow construct could start on this line:
    /// past up-to-3 columns of indent, with no partial tab straddling the boundary.
    /// `None` when the line is indented-code-deep.
    pub fn flow_start(self) -> (r: Option<Self>)
        requires
            self.wf(),
        ensures
            r is Some <==> (self.spec_indent() < 4 && advance(self.line@, self.pos as int, self.col as int, self.partial as int, self.spec_indent()).2 == 0),
            r matches Some(c) ==> c.wf() && c.same_line(self) && c.partial == 0 && c.col == self.col + self.spec_indent()
                && c.spec_indent() == 0
                && (c.pos as int, c.col as int, c.partial as int) == advance(self.line@, self.pos as int, self.col as int, self.partial as int, self.spec_indent()),
    {
        if self.indent_cols() >= 4 {
            return None;
        }
        let mut c = self;
        c.skip_indent_up_to(3);
        if c.partial == 0 {
            Some(c)
        } else {
            None
        }
    }

    /// Consumes all leading whitespace (dropping any partial-tab padding).
    pub fn skip_all_ws(&mut self)
        requires
            old(self).wf(),
        ensures
            final(self).wf(),
            final(self).same_line(*old(self)),
            final(self).partial == 0,
            final(self).col == old(self).col + old(self).spec_indent(),
            final(self).pos == advance(old(self).line@, old(self).pos as int, old(self).col as int, old(self).partial as int, old(self).spec_indent()).0,
            final(self).pos >= old(self).pos,
    {
        let available = self.indent_cols();
        self.advance_cols(available);
        self.partial = 0;
    }

    /// Advances over `n` bytes of known-ASCII content.
    pub fn bump(&mut self, n: usize)
        requires
            old(self).wf(),
            old(self).partial == 0,
            old(self).pos + n <= old(self).line@.len(),
        ensures
            final(self).wf(),
            final(self).same_line(*old(self)),
            final(self).pos == old(self).pos + n,
            final(self).col == old(self).col + n,
            final(self).partial == 0,
    {
        self.pos = self.pos + n;
        self.col = self.col + n;
    }

    /// Consumes one column of whitespace if present (the optional space after `>`).
    pub fn eat_one_space(&mut self)
        requires
            old(self).wf(),
        ensures
            final(self).wf(),
            final(self).same_line(*old(self)),
            if old(self).spec_indent() > 0 {
                final(self).col == old(self).col + 1 && final(self).spec_indent() == old(self).spec_indent() - 1
                    && (final(self).pos as int, final(self).col as int, final(self).partial as int) == advance(
                        old(self).line@, old(self).pos as int, old(self).col as int, old(self).partial as int, 1)
            } else {
                *final(self) == *old(self)
            },
            final(self).pos >= old(self).pos,
            final(self).col >= old(self).col,
    {
        proof {
            lemma_indent_positive(*self);
        }
        if self.partial > 0 || (self.pos < self.line.len() && (self.line[self.pos] == 32 || self.line[self.pos] == 9)) {
            self.advance_cols(1);
        }
    }

    /// Only spaces and tabs remain on the line.
    pub fn is_blank(&self) -> (b: bool)
        requires
            self.wf(),
        ensures
            b == blank_between(self.line@, self.pos as int, self.line@.len() as int),
    {
        is_blank_from(self.line, self.pos)
    }
}

proof fn lemma_ws_cols_bound(line: Seq<u8>, pos: int, col: int)
    requires
        0 <= pos <= line.len(),
        col >= 0,
    ensures
        0 <= ws_cols(line, pos, col) <= 4 * (line.len() - pos),
    decreases line.len() - pos,
{
    if pos < line.len() {
        if line[pos] == 32 {
            lemma_ws_cols_bound(line, pos + 1, col + 1);
        } else if line[pos] == 9 {
            lemma_ws_cols_bound(line, pos + 1, col + tab_width(col));
        }
    }
}

proof fn lemma_indent_positive(c: Cursor)
    requires
        c.wf(),
    ensures
        c.spec_indent() > 0 <==> (c.partial > 0 || (c.pos < c.line@.len() && is_space_tab(c.line@[c.pos as int]))),
{
    lemma_ws_cols_bound(c.line@, c.pos as int, c.col + c.partial);
    if c.pos < c.line@.len() && c.line@[c.pos as int] == 9 {
        lemma_ws_cols_bound(c.line@, c.pos + 1, c.col + c.partial + tab_width(c.col + c.partial));
    }
    if c.pos < c.line@.len() && c.line@[c.pos as int] == 32 {
        lemma_ws_cols_bound(c.line@, c.pos + 1, c.col + c.partial + 1);
    }
}

} // verus!
