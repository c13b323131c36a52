//! The inline phase's view of a leaf's content:
//! the logical lines joined with `\n`, plus a per-line map back to source offsets.
//!
//! Within a line the joined bytes are the source bytes;
//! across lines (container prefixes, padding) only the map is exact,
//! so node spans always go through it.
use std::ops::Range;
use vstd::prelude::*;
use vstd::string::StringExecFns;
use vstd::string::StringSliceAdditionalSpecFns;
use vstd::utf8::*;
use crate::block::ir::IrSeg;
use crate::pos::{join_pieces, piece_text, pieces_on_boundaries, spaces, span_bytes, Segment, Span};
use crate::utf::{lemma_encode_ascii, lemma_encode_utf8_concat};

verus! {

broadcast use {encode_utf8_valid_utf8, is_char_boundary_start_end_of_seq, valid_utf8_split};

/// Where one joined line sits in the joined text and in the source.
#[derive(Clone, Copy, Debug)]
pub struct Line {
    /// Joined offset of its first byte (padding first, then the content).
    pub joined: usize,
    /// Virtual padding bytes at its head (a partially consumed tab).
    pub padding: u8,
    /// Source offset of its content.
    pub source: u32,
}

pub struct Input {
    pub text: String,
    lines: Vec<Line>,
}

/// Joined offset of the first content byte of a line (past its padding).
pub open spec fn content_of(line: Line) -> int {
    line.joined + line.padding
}

/// Joined offset of line `i`'s separator (or the text's end).
pub open spec fn line_end_of(lines: Seq<Line>, text_len: int, i: int) -> int {
    if i + 1 < lines.len() {
        lines[i + 1].joined - 1
    } else {
        text_len
    }
}

/// The line table describes a joined text of `text_len` bytes: the first line starts at 0,
/// lines are in order, each line's padding fits before its end,
/// and every source offset the table maps to fits in a `u32`.
pub open spec fn lines_wf(lines: Seq<Line>, text_len: int) -> bool {
    &&& text_len <= usize::MAX
    &&& lines.len() > 0 ==> lines[0].joined == 0
    &&& forall|i: int| 0 <= i < lines.len() ==> content_of(#[trigger] lines[i]) <= line_end_of(lines, text_len, i)
    &&& forall|i: int| 0 <= i < lines.len() ==> #[trigger] lines[i].source + (line_end_of(lines, text_len, i)
        - content_of(lines[i])) <= u32::MAX
    &&& forall|i: int, k: int| 0 <= i < k < lines.len() ==> #[trigger] lines[i].joined < #[trigger] lines[k].joined
}

/// The first index at or after `k` whose line starts after `j`.
pub open spec fn first_above(lines: Seq<Line>, j: int, k: int) -> int
    decreases lines.len() - k,
{
    if k < 0 || k >= lines.len() || lines[k].joined > j {
        k
    } else {
        first_above(lines, j, k + 1)
    }
}

/// The line holding joined offset `j` (the first line for offsets before it).
pub open spec fn spec_line_of(lines: Seq<Line>, j: int) -> int {
    let p = first_above(lines, j, 0);
    if p > 0 {
        p - 1
    } else {
        0
    }
}

/// Source offset of joined offset `j`: a separator (and the byte before the next line's start)
/// maps to the next line's source start; padding maps to its line's content start;
/// content maps byte for byte.
pub open spec fn spec_offset(lines: Seq<Line>, text_len: int, j: int) -> int {
    let i = spec_line_of(lines, j);
    if i + 1 < lines.len() && j + 1 >= lines[i + 1].joined {
        lines[i + 1].source as int
    } else {
        let c = content_of(lines[i]);
        lines[i].source + if j > c {
            j - c
        } else {
            0
        }
    }
}

/// The part of the joined range `r` on line `i`: padding inside it becomes the segment's padding,
/// the rest its span.
pub open spec fn spec_piece(lines: Seq<Line>, text_len: int, i: int, r: Range<usize>) -> Segment {
    let line = lines[i];
    let start = if r.start >= line.joined {
        r.start as int
    } else {
        line.joined as int
    };
    let capped = if r.end <= line_end_of(lines, text_len, i) {
        r.end as int
    } else {
        line_end_of(lines, text_len, i)
    };
    let end = if capped >= start {
        capped
    } else {
        start
    };
    let content = content_of(line);
    let pad_room = if content > start {
        content - start
    } else {
        0
    };
    let padding = if pad_room <= end - start {
        pad_room
    } else {
        end - start
    };
    let source = spec_offset(lines, text_len, start + padding);
    Segment {
        span: Span { start: source as u32, end: (source + (end - start - padding)) as u32 },
        padding: padding as u8,
    }
}

/// Content byte `m` of `line` in the joined text is the source byte it maps to.
pub open spec fn byte_maps(bytes: Seq<u8>, source: Seq<u8>, line: Line, m: int) -> bool {
    &&& 0 <= line.source + m < source.len()
    &&& 0 <= content_of(line) + m < bytes.len()
    &&& bytes[content_of(line) + m] == source[line.source + m]
}

/// The line-table entry of segment `k`: joined after the `\n` that follows the earlier segments.
pub open spec fn line_of_seg(source: Seq<u8>, segs: Seq<Segment>, k: int) -> Line {
    Line {
        joined: (if k == 0 { 0 } else { join_pieces(source, segs.subrange(0, k)).len() + 1 }) as usize,
        padding: segs[k].padding,
        source: segs[k].span.start,
    }
}

/// The line table of the joined segments.
pub open spec fn lines_of(source: Seq<u8>, segs: Seq<Segment>) -> Seq<Line> {
    Seq::new(segs.len(), |k: int| line_of_seg(source, segs, k))
}

/// The pieces of a joined range, one per line it touches.
pub open spec fn spec_pieces(lines: Seq<Line>, text_len: int, r: Range<usize>) -> Seq<Segment> {
    let first = spec_line_of(lines, r.start as int);
    let last = spec_line_of(lines, r.end as int);
    Seq::new((last - first + 1) as nat, |k: int| spec_piece(lines, text_len, first + k, r))
}

/// The segments of a leaf's lines.
pub open spec fn segs_of(segments: Seq<IrSeg>) -> Seq<Segment> {
    segments.map_values(|s: IrSeg| s.seg)
}

impl Input {
    /// The line table.
    pub closed spec fn line_seq(&self) -> Seq<Line> {
        self.lines@
    }

    /// The joined text as bytes.
    pub closed spec fn bytes(&self) -> Seq<u8> {
        encode_utf8(self.text@)
    }

    /// The joined text.
    pub fn text_str(&self) -> (t: &str)
        ensures
            t.spec_bytes() == self.bytes(),
    {
        self.text.as_str()
    }

    /// The joined text as bytes.
    pub fn text_bytes(&self) -> (b: &[u8])
        ensures
            b@ == self.bytes(),
    {
        self.text.as_str().as_bytes()
    }

    pub open spec fn wf(&self) -> bool {
        lines_wf(self.line_seq(), self.bytes().len() as int)
    }

    /// Every content byte of every line is the source byte it maps to.
    pub open spec fn built_from(&self, source: Seq<u8>) -> bool {
        forall|i: int, m: int|
            0 <= i < self.line_seq().len() && 0 <= m < line_end_of(self.line_seq(), self.bytes().len() as int, i)
                - content_of(self.line_seq()[i]) ==> #[trigger] byte_maps(self.bytes(), source, self.line_seq()[i], m)
    }

    pub fn new(source: &str, segments: &[IrSeg]) -> (r: Self)
        requires
            pieces_on_boundaries(source.spec_bytes(), segs_of(segments@)),
            source.spec_bytes().len() <= u32::MAX,
            join_pieces(source.spec_bytes(), segs_of(segments@)).len() <= usize::MAX,
        ensures
            r.wf(),
            r.bytes() == join_pieces(source.spec_bytes(), segs_of(segments@)),
            r.built_from(source.spec_bytes()),
            r.line_seq().len() == segments@.len(),
            r.line_seq() == lines_of(source.spec_bytes(), segs_of(segments@)),
            forall|i: int|
                0 <= i < segments@.len() ==> {
                    &&& #[trigger] r.line_seq()[i].padding == segments@[i].seg.padding
                    &&& r.line_seq()[i].source == segments@[i].seg.span.start
                    &&& line_end_of(r.line_seq(), r.bytes().len() as int, i) - content_of(r.line_seq()[i])
                        == segments@[i].seg.span.end - segments@[i].seg.span.start
                },
    {
        let ghost src = source.spec_bytes();
        let ghost segs = segs_of(segments@);
        let mut text = String::new();
        let mut lines: Vec<Line> = Vec::new();
        proof {
            assert(encode_utf8(text@) =~= Seq::<u8>::empty());
        }
        let mut i: usize = 0;
        while i < segments.len()
            invariant
                i <= segments@.len(),
                src == source.spec_bytes(),
                segs == segs_of(segments@),
                pieces_on_boundaries(src, segs),
                src.len() <= u32::MAX,
                join_pieces(src, segs).len() <= usize::MAX,
                encode_utf8(text@) == join_pieces(src, segs.subrange(0, i as int)),
                lines@.len() == i,
                lines@ == Seq::new(i as nat, |k: int| line_of_seg(src, segs, k)),
                lines_wf(lines@, encode_utf8(text@).len() as int),
                forall|k: int|
                    0 <= k < i ==> {
                        &&& #[trigger] lines@[k].padding == segs[k].padding
                        &&& lines@[k].source == segs[k].span.start
                        &&& line_end_of(lines@, encode_utf8(text@).len() as int, k) - content_of(lines@[k])
                            == segs[k].span.end - segs[k].span.start
                    },
                forall|k: int, m: int|
                    0 <= k < i && 0 <= m < segs[k].span.end - segs[k].span.start ==> #[trigger] byte_maps(
                        encode_utf8(text@),
                        src,
                        lines@[k],
                        m,
                    ),
            decreases segments.len() - i,
        {
            let ghost before = encode_utf8(text@);
            let ghost old_lines = lines@;
            let seg = segments[i].seg;
            assert(seg == segs[i as int]);
            proof {
                lemma_join_prefix_len(src, segs, i + 1);
                let next = segs.subrange(0, i + 1);
                assert(next.drop_last() =~= segs.subrange(0, i as int));
                assert(next.last() == segs[i as int]);
            }
            if i > 0 {
                let ghost b0 = text@;
                text.append("\n");
                proof {
                    reveal_strlit("\n");
                    lemma_encode_utf8_concat(b0, "\n"@);
                    assert("\n"@ =~= seq!['\n']);
                    lemma_encode_ascii('\n');
                }
            }
            let joined = text.as_str().len();
            let ghost mid = encode_utf8(text@);
            assert(joined as int == mid.len());
            lines.push(Line { joined, padding: seg.padding, source: seg.span.start });
            push_spaces(&mut text, seg.padding);
            let ghost mid2 = text@;
            let s = seg.span.slice(source);
            text.append(s);
            proof {
                lemma_encode_utf8_concat(mid2, s@);
                let now = encode_utf8(text@);
                let prefix = segs.subrange(0, i as int);
                if i == 0 {
                    assert(mid =~= Seq::<u8>::empty());
                    assert(now =~= piece_text(src, segs[0]));
                } else {
                    assert(now =~= join_pieces(src, prefix) + seq![10u8] + piece_text(src, segs[i as int]));
                }
                assert(now.len() == mid.len() + seg.padding + (seg.span.end - seg.span.start));
                // earlier bytes are unchanged
                assert forall|q: int| 0 <= q < before.len() implies now[q] == before[q] by {
                    if i > 0 {
                        assert(now[q] == (before + seq![10u8])[q]);
                    }
                }
                // the new line's content is the source slice
                let newline = lines@[i as int];
                assert(content_of(newline) == mid.len() + seg.padding);
                assert forall|m: int| 0 <= m < seg.span.end - seg.span.start implies #[trigger] byte_maps(
                    now,
                    src,
                    newline,
                    m,
                ) by {
                    assert(now[mid.len() + seg.padding + m] == span_bytes(src, seg.span)[m]);
                }
                let nl = lines@;
                assert(nl.drop_last() =~= old_lines);
                assert(nl =~= Seq::new((i + 1) as nat, |k: int| line_of_seg(src, segs, k))) by {
                    assert(segs.subrange(0, i as int) == prefix);
                    if i > 0 {
                        assert(mid.len() == before.len() + 1);
                    }
                }
                assert forall|k: int| 0 <= k < i implies line_end_of(nl, now.len() as int, k) == line_end_of(
                    old_lines,
                    before.len() as int,
                    k,
                ) && old_lines[k].joined <= before.len() by {
                    lemma_line_end_bound(old_lines, before.len() as int, k);
                }
                assert forall|k: int| 0 <= k < nl.len() implies content_of(#[trigger] nl[k]) <= line_end_of(
                    nl,
                    now.len() as int,
                    k,
                ) by {
                    if k < i {
                        assert(nl[k] == old_lines[k]);
                    }
                }
                assert forall|k: int| 0 <= k < nl.len() implies #[trigger] nl[k].source + (line_end_of(
                    nl,
                    now.len() as int,
                    k,
                ) - content_of(nl[k])) <= u32::MAX by {
                    if k < i {
                        assert(nl[k] == old_lines[k]);
                    }
                }
                assert forall|a: int, c: int| 0 <= a < c < nl.len() implies #[trigger] nl[a].joined
                    < #[trigger] nl[c].joined by {
                    if c < i {
                        assert(nl[a] == old_lines[a] && nl[c] == old_lines[c]);
                    } else {
                        assert(nl[a] == old_lines[a]);
                    }
                }
                assert forall|k: int| 0 <= k < i + 1 implies {
                    &&& #[trigger] nl[k].padding == segs[k].padding
                    &&& nl[k].source == segs[k].span.start
                    &&& line_end_of(nl, now.len() as int, k) - content_of(nl[k]) == segs[k].span.end
                        - segs[k].span.start
                } by {
                    if k < i {
                        assert(nl[k] == old_lines[k]);
                    }
                }
                assert forall|k: int, m: int|
                    0 <= k < i + 1 && 0 <= m < segs[k].span.end - segs[k].span.start implies #[trigger] byte_maps(
                        now,
                        src,
                        nl[k],
                        m,
                    ) by {
                    if k < i {
                        assert(nl[k] == old_lines[k]);
                        lemma_line_end_bound(old_lines, before.len() as int, k);
                        assert(byte_maps(before, src, old_lines[k], m));
                    }
                }
                assert(lines_wf(nl, now.len() as int));
            }
            i = i + 1;
        }
        proof {
            assert(segs.subrange(0, segments@.len() as int) =~= segs);
            assert(lines@ =~= lines_of(src, segs));
        }
        Input { text, lines }
    }
}

/// What `first_above` finds: every line before it starts at or before `j`, the line at it after `j`.
pub proof fn lemma_first_above_props(lines: Seq<Line>, j: int, k: int)
    requires
        0 <= k <= lines.len(),
    ensures
        k <= first_above(lines, j, k) <= lines.len(),
        forall|q: int| k <= q < first_above(lines, j, k) ==> lines[q].joined <= j,
        first_above(lines, j, k) < lines.len() ==> lines[first_above(lines, j, k)].joined > j,
    decreases lines.len() - k,
{
    if k < lines.len() && lines[k].joined <= j {
        lemma_first_above_props(lines, j, k + 1);
    }
}

/// `first_above` is the boundary between the lines at or before `j` and those after it.
pub proof fn lemma_first_above(lines: Seq<Line>, j: int, k: int, p: int)
    requires
        0 <= k <= p <= lines.len(),
        forall|q: int| k <= q < p ==> lines[q].joined <= j,
        p < lines.len() ==> lines[p].joined > j,
    ensures
        first_above(lines, j, k) == p,
    decreases p - k,
{
    if k < p {
        lemma_first_above(lines, j, k + 1, p);
    }
}

/// The line of a later offset is no earlier.
pub proof fn lemma_line_of_monotone(lines: Seq<Line>, j1: int, j2: int)
    requires
        j1 <= j2,
    ensures
        spec_line_of(lines, j1) <= spec_line_of(lines, j2),
{
    lemma_first_above_props(lines, j1, 0);
    lemma_first_above_props(lines, j2, 0);
    let p1 = first_above(lines, j1, 0);
    let p2 = first_above(lines, j2, 0);
    if p2 < p1 {
        assert(lines[p2].joined <= j1);
    }
}

/// The source span of a joined range: exact for ranges that do not end on a separator
/// (the end past the last byte stays within `u32`, which only a separator at the very end could reach).
pub open spec fn spec_span(lines: Seq<Line>, text_len: int, r: Range<usize>) -> Span {
    if r.start >= r.end {
        Span { start: spec_offset(lines, text_len, r.start as int) as u32, end: spec_offset(lines, text_len, r.start as int) as u32 }
    } else {
        let last = spec_offset(lines, text_len, r.end - 1);
        Span {
            start: spec_offset(lines, text_len, r.start as int) as u32,
            end: if last < u32::MAX { (last + 1) as u32 } else { last as u32 },
        }
    }
}

impl Input {
    /// The number of lines that start at or before `bound` (`inclusive`) or before it.
    fn partition(&self, j: usize, inclusive: bool) -> (p: usize)
        requires
            self.wf(),
        ensures
            p as int == first_above(self.line_seq(), if inclusive { j as int } else { j - 1 }, 0),
    {
        let ghost bound: int = if inclusive { j as int } else { j - 1 };
        let ghost lines = self.lines@;
        let mut lo: usize = 0;
        let mut hi: usize = self.lines.len();
        while lo < hi
            invariant
                lo <= hi <= lines.len(),
                lines == self.lines@,
                lines_wf(lines, self.bytes().len() as int),
                bound == if inclusive { j as int } else { j - 1 },
                forall|k: int| 0 <= k < lo ==> lines[k].joined <= bound,
                forall|k: int| hi <= k < lines.len() ==> lines[k].joined > bound,
            decreases hi - lo,
        {
            let mid = lo + (hi - lo) / 2;
            let joined = self.lines[mid].joined;
            let below = if inclusive { joined <= j } else { joined < j };
            if below {
                proof {
                    assert forall|k: int| 0 <= k <= mid implies lines[k].joined <= bound by {
                        if k < mid {
                            assert(lines[k].joined < lines[mid as int].joined);
                        }
                    }
                }
                lo = mid + 1;
            } else {
                proof {
                    assert forall|k: int| mid <= k < lines.len() implies lines[k].joined > bound by {
                        if k > mid {
                            assert(lines[mid as int].joined < lines[k].joined);
                        }
                    }
                }
                hi = mid;
            }
        }
        proof {
            lemma_first_above(lines, bound, 0, lo as int);
        }
        lo
    }

    /// The line holding joined offset `joined`.
    fn line_of(&self, joined: usize) -> (i: usize)
        requires
            self.wf(),
            self.line_seq().len() > 0,
        ensures
            i as int == spec_line_of(self.line_seq(), joined as int),
            i < self.line_seq().len(),
            self.line_seq()[i as int].joined <= joined,
            i + 1 < self.line_seq().len() ==> joined < self.line_seq()[i + 1].joined,
    {
        let p = self.partition(joined, true);
        proof {
            lemma_first_above_props(self.line_seq(), joined as int, 0);
            assert(self.line_seq()[0].joined == 0);
        }
        p - 1
    }

    /// Joined offset of line `i`'s separator (or the text's end).
    fn line_end(&self, i: usize) -> (e: usize)
        requires
            self.wf(),
            i < self.line_seq().len(),
        ensures
            e as int == line_end_of(self.line_seq(), self.bytes().len() as int, i as int),
    {
        if self.lines.len() - i > 1 {
            proof {
                assert(self.line_seq()[0].joined < self.line_seq()[i + 1].joined);
            }
            self.lines[i + 1].joined - 1
        } else {
            self.text.as_str().len()
        }
    }

    /// Source offset of a joined byte; a separator `\n` maps to the next line's start,
    /// the end of the text to the end of the last line.
    pub fn offset(&self, joined: usize) -> (o: u32)
        requires
            self.wf(),
            self.line_seq().len() > 0,
            joined <= self.bytes().len(),
        ensures
            o as int == spec_offset(self.line_seq(), self.bytes().len() as int, joined as int),
    {
        let ghost lines = self.line_seq();
        let ghost tl = self.bytes().len() as int;
        let i = self.line_of(joined);
        if self.lines.len() - i > 1 {
            let next = self.lines[i + 1];
            proof {
                assert(lines[0].joined < lines[i + 1].joined);
                assert(content_of(lines[i + 1]) <= line_end_of(lines, tl, i + 1));
            }
            if joined >= next.joined - 1 {
                return next.source;
            }
        }
        let line = self.lines[i];
        proof {
            assert(content_of(lines[i as int]) <= line_end_of(lines, tl, i as int));
            lemma_line_end_bound(lines, tl, i as int);
        }
        let content = line.joined + line.padding as usize;
        let d = if joined > content { joined - content } else { 0 };
        line.source + d as u32
    }

    /// Source span of a joined range.
    /// Exact for ranges that do not end on a separator (which node ranges never do).
    pub fn span(&self, r: Range<usize>) -> (s: Span)
        requires
            self.wf(),
            self.line_seq().len() > 0,
            r.start <= r.end <= self.bytes().len(),
        ensures
            s == spec_span(self.line_seq(), self.bytes().len() as int, r),
    {
        if r.start >= r.end {
            return Span::empty(self.offset(r.start));
        }
        let last = self.offset(r.end - 1);
        Span::new(self.offset(r.start), if last < u32::MAX { last + 1 } else { last })
    }

    /// How many joined lines start before `joined`.
    pub fn lines_before(&self, joined: usize) -> (n: usize)
        requires
            self.wf(),
        ensures
            n as int == first_above(self.line_seq(), joined - 1, 0),
    {
        self.partition(joined, false)
    }

    /// One piece per line the range touches
    /// (a range ending right after a separator has an empty piece on the next line).
    pub fn pieces(&self, r: Range<usize>) -> (v: Vec<Segment>)
        requires
            self.wf(),
            self.line_seq().len() > 0,
            r.start <= r.end <= self.bytes().len(),
        ensures
            spec_line_of(self.line_seq(), r.start as int) <= spec_line_of(self.line_seq(), r.end as int),
            v@ == spec_pieces(self.line_seq(), self.bytes().len() as int, r),
            v@.len() == spec_line_of(self.line_seq(), r.end as int) - spec_line_of(self.line_seq(), r.start as int) + 1,
            forall|k: int| 0 <= k < v@.len() ==> #[trigger] v@[k] == spec_piece(
                self.line_seq(),
                self.bytes().len() as int,
                spec_line_of(self.line_seq(), r.start as int) + k,
                r,
            ),
    {
        let first = self.line_of(r.start);
        let last = self.line_of(r.end);
        proof {
            lemma_line_of_monotone(self.line_seq(), r.start as int, r.end as int);
        }
        let mut v: Vec<Segment> = Vec::new();
        let mut i = first;
        let n_lines = self.lines.len();
        while i <= last
            invariant
                first <= i <= last + 1,
                last < self.line_seq().len(),
                n_lines == self.line_seq().len(),
                self.wf(),
                self.line_seq().len() > 0,
                r.start <= r.end <= self.bytes().len(),
                v@.len() == i - first,
                forall|k: int| 0 <= k < v@.len() ==> #[trigger] v@[k] == spec_piece(
                    self.line_seq(),
                    self.bytes().len() as int,
                    first + k,
                    r,
                ),
            decreases last + 1 - i,
        {
            let p = self.piece(i, r.start..r.end);
            v.push(p);
            i = i + 1;
        }
        proof {
            assert(v@ =~= spec_pieces(self.line_seq(), self.bytes().len() as int, r));
        }
        v
    }

    /// The part of `r` on line `i`:
    /// joined padding bytes inside it become [`Segment::padding`] instead of span content.
    fn piece(&self, i: usize, r: Range<usize>) -> (s: Segment)
        requires
            self.wf(),
            i < self.line_seq().len(),
            r.start <= r.end <= self.bytes().len(),
        ensures
            s == spec_piece(self.line_seq(), self.bytes().len() as int, i as int, r),
    {
        let ghost lines = self.line_seq();
        let ghost tl = self.bytes().len() as int;
        let line = self.lines[i];
        let line_end = self.line_end(i);
        proof {
            assert(content_of(lines[i as int]) <= line_end_of(lines, tl, i as int));
            lemma_line_end_bound(lines, tl, i as int);
        }
        let start = if r.start >= line.joined { r.start } else { line.joined };
        let capped = if r.end <= line_end { r.end } else { line_end };
        let end = if capped >= start { capped } else { start };
        let content = line.joined + line.padding as usize;
        let pad_room = if content > start { content - start } else { 0 };
        let padding = if pad_room <= end - start { pad_room } else { end - start };
        let source = self.offset(start + padding);
        proof {
            lemma_offset_bound(lines, tl, start + padding);
            if padding < end - start {
                lemma_piece_fits(lines, tl, i as int, start + padding, end as int);
            }
        }
        Segment::new(Span::new(source, source + (end - start - padding) as u32), padding as u8)
    }
}

/// Every offset within the text fits in a `u32`.
proof fn lemma_offset_bound(lines: Seq<Line>, tl: int, p: int)
    requires
        lines_wf(lines, tl),
        lines.len() > 0,
        0 <= p <= tl,
    ensures
        spec_offset(lines, tl, p) <= u32::MAX,
{
    let j = spec_line_of(lines, p);
    lemma_first_above_props(lines, p, 0);
    assert(lines[0].joined == 0);
    assert(lines[j].source + (line_end_of(lines, tl, j) - content_of(lines[j])) <= u32::MAX);
    if j + 1 < lines.len() {
        assert(content_of(lines[j + 1]) <= line_end_of(lines, tl, j + 1));
        assert(lines[j + 1].source + (line_end_of(lines, tl, j + 1) - content_of(lines[j + 1])) <= u32::MAX);
    }
}

/// A non-empty piece's content lies on its own line, so its span fits in a `u32`.
#[verifier::rlimit(40)]
proof fn lemma_piece_fits(lines: Seq<Line>, tl: int, i: int, p: int, end: int)
    requires
        lines_wf(lines, tl),
        0 <= i < lines.len(),
        content_of(lines[i]) <= p < end <= line_end_of(lines, tl, i),
    ensures
        spec_offset(lines, tl, p) + (end - p) <= u32::MAX,
{
    assert forall|q: int| 0 <= q < i + 1 implies lines[q].joined <= p by {
        if q < i {
            assert(lines[q].joined < lines[i].joined);
        }
    }
    assert forall|q: int| i + 1 <= q < lines.len() implies lines[q].joined > p by {
        if q > i + 1 {
            assert(lines[i + 1].joined < lines[q].joined);
        }
    }
    lemma_first_above(lines, p, 0, i + 1);
    assert(lines[i].source + (line_end_of(lines, tl, i) - content_of(lines[i])) <= u32::MAX);
}

/// Within a line the joined bytes are the source bytes: the offset of content byte `m`
/// of line `i` is that line's source start plus `m`, and the joined byte there is the
/// source byte at that offset.
pub proof fn lemma_offset_maps_back(input: &Input, source: Seq<u8>, i: int, m: int)
    requires
        input.wf(),
        input.built_from(source),
        0 <= i < input.line_seq().len(),
        0 <= m < line_end_of(input.line_seq(), input.bytes().len() as int, i) - content_of(input.line_seq()[i]),
    ensures
        spec_offset(input.line_seq(), input.bytes().len() as int, content_of(input.line_seq()[i]) + m)
            == input.line_seq()[i].source + m,
        input.bytes()[content_of(input.line_seq()[i]) + m] == source[input.line_seq()[i].source + m],
{
    let lines = input.line_seq();
    let tl = input.bytes().len() as int;
    let p = content_of(lines[i]) + m;
    assert forall|q: int| 0 <= q < i + 1 implies lines[q].joined <= p by {
        if q < i {
            assert(lines[q].joined < lines[i].joined);
        }
    }
    assert forall|q: int| i + 1 <= q < lines.len() implies lines[q].joined > p by {
        if q > i + 1 {
            assert(lines[i + 1].joined < lines[q].joined);
        }
    }
    lemma_first_above(lines, p, 0, i + 1);
    assert(byte_maps(input.bytes(), source, lines[i], m));
}

/// A line's end never passes the text's end.
proof fn lemma_line_end_bound(lines: Seq<Line>, text_len: int, i: int)
    requires
        lines_wf(lines, text_len),
        0 <= i < lines.len(),
    ensures
        line_end_of(lines, text_len, i) <= text_len,
    decreases lines.len() - i,
{
    if i + 1 < lines.len() {
        lemma_line_end_bound(lines, text_len, i + 1);
        assert(content_of(lines[i + 1]) <= line_end_of(lines, text_len, i + 1));
    }
}

/// A prefix of the pieces joins to no more bytes than all of them.
pub proof fn lemma_join_prefix_len(source: Seq<u8>, pieces: Seq<Segment>, i: int)
    requires
        0 <= i <= pieces.len(),
    ensures
        join_pieces(source, pieces.subrange(0, i)).len() <= join_pieces(source, pieces).len(),
    decreases pieces.len(),
{
    if i < pieces.len() {
        let d = pieces.drop_last();
        assert(d.subrange(0, i) =~= pieces.subrange(0, i));
        lemma_join_prefix_len(source, d, i);
        if pieces.len() >= 2 {
            assert(join_pieces(source, pieces) == join_pieces(source, d) + seq![10u8] + piece_text(
                source,
                pieces.last(),
            ));
        } else {
            assert(d.len() == 0);
            assert(join_pieces(source, d) =~= Seq::<u8>::empty());
        }
    } else {
        assert(pieces.subrange(0, i) =~= pieces);
    }
}

/// Appends `n` spaces.
fn push_spaces(out: &mut String, n: u8)
    ensures
        encode_utf8(final(out)@) == encode_utf8(old(out)@) + spaces(n as nat),
{
    let mut k: u8 = 0;
    proof {
        assert(encode_utf8(out@) =~= encode_utf8(old(out)@) + spaces(0));
    }
    while k < n
        invariant
            k <= n,
            encode_utf8(out@) == encode_utf8(old(out)@) + spaces(k as nat),
        decreases n - k,
    {
        let ghost before = out@;
        out.append(" ");
        proof {
            reveal_strlit(" ");
            lemma_encode_utf8_concat(before, " "@);
            assert(" "@ =~= seq![' ']);
            lemma_encode_ascii(' ');
            assert(spaces(k as nat) + seq![32u8] =~= spaces((k + 1) as nat));
        }
        k = k + 1;
    }
}

} // verus!
