//! Link reference definition stripping.
//!
//! Runs when a paragraph closes:
//! leading `[label]: dest "title"` runs are peeled off into `Definition` nodes and the rest stays a paragraph.
//! A single forward pass with a 999-character label cap (the spec's own DoS guard);
//! a failed candidate leaves everything from its first line intact.
use vstd::prelude::*;
use vstd::string::StringSliceAdditionalSpecFns;
use crate::ast::Destination;
use crate::inline::input::{first_above, lines_of, segs_of, spec_pieces, spec_span, Input};
use crate::pos::{join_pieces, pieces_on_boundaries, Segment, Span};
use crate::syntax::{is_space_tab, skip_ws, spec_skip_ws};
use crate::block::scan::blank_between;
use crate::syntax::link_target::{destination, label_end, spec_destination, spec_label_end, spec_title, title};
use super::ir::{Ir, IrSeg};

verus! {

/// Where a reference definition sits in the joined text of a paragraph.
#[derive(Clone, Copy, Debug)]
pub struct DefScan {
    /// The `[` opening the label.
    pub start: usize,
    /// The label, between its brackets.
    pub label_start: usize,
    pub label_end: usize,
    /// The destination, angle brackets included.
    pub dest_start: usize,
    pub dest_end: usize,
    pub angle: bool,
    /// The title, quotes included.
    pub title: Option<(usize, usize)>,
    /// The end of the definition's content (its title, or else its destination).
    pub content_end: usize,
    /// Just past the line ending that closes it.
    pub end: usize,
}

/// If only spaces and tabs remain until the next line ending (or the end),
/// the position just past that line ending.
pub open spec fn spec_at_line_end(b: Seq<u8>, p: int) -> Option<int>
    decreases b.len() - p,
{
    if p < 0 {
        None
    } else if p >= b.len() {
        Some(p)
    } else if b[p] == 32 || b[p] == 9 {
        spec_at_line_end(b, p + 1)
    } else if b[p] == 10 {
        Some(p + 1)
    } else {
        None
    }
}

/// One definition at line start `pos`: leading spaces and tabs, `[label]`, `:`, whitespace with
/// at most one line ending, a non-empty destination, then optionally whitespace and a title;
/// only spaces and tabs may follow on the last line. A title that fails this falls back to a
/// definition without it, ending on the destination's line.
pub open spec fn spec_parse_one(b: Seq<u8>, pos: int) -> Option<DefScan> {
    let start = spec_skip_ws(b, pos, 0);
    if start >= b.len() || b[start] != 91 {
        None
    } else {
        match spec_label_end(b, start) {
            None => None,
            Some(lc) => if lc >= b.len() || b[lc] != 58 {
                None
            } else {
                let p = spec_skip_ws(b, lc + 1, 1);
                match spec_destination(b, p) {
                    None => None,
                    Some((de, angle)) => if de == p {
                        None
                    } else {
                        let ts = spec_skip_ws(b, de, 1);
                        let titled = if ts > de {
                            match spec_title(b, ts) {
                                Some(te) => match spec_at_line_end(b, te) {
                                    Some(le) => Some((te, le)),
                                    None => None,
                                },
                                None => None,
                            }
                        } else {
                            None
                        };
                        match titled {
                            Some((te, le)) => Some(
                                DefScan {
                                    start: start as usize,
                                    label_start: (start + 1) as usize,
                                    label_end: (lc - 1) as usize,
                                    dest_start: p as usize,
                                    dest_end: de as usize,
                                    angle,
                                    title: Some((ts as usize, te as usize)),
                                    content_end: te as usize,
                                    end: le as usize,
                                },
                            ),
                            None => match spec_at_line_end(b, de) {
                                Some(le) => Some(
                                    DefScan {
                                        start: start as usize,
                                        label_start: (start + 1) as usize,
                                        label_end: (lc - 1) as usize,
                                        dest_start: p as usize,
                                        dest_end: de as usize,
                                        angle,
                                        title: None,
                                        content_end: de as usize,
                                        end: le as usize,
                                    },
                                ),
                                None => None,
                            },
                        }
                    },
                }
            },
        }
    }
}

/// The joined range of a definition's title (quotes included).
pub open spec fn title_span(d: DefScan) -> std::ops::Range<usize> {
    match d.title {
        Some((ts, te)) => ts..te,
        None => 0..0,
    }
}

/// `ir` is the definition node of `d`, its label, destination, title and span
/// mapped through the line table.
pub open spec fn is_def_ir(ir: Ir, lines: Seq<crate::inline::input::Line>, tl: int, d: DefScan) -> bool {
    match ir {
        Ir::Definition { label, destination, title, span } => {
            &&& label@ == spec_pieces(lines, tl, d.label_start..d.label_end)
            &&& destination == Destination {
                span: spec_span(lines, tl, d.dest_start..d.dest_end),
                angle_bracketed: d.angle,
            }
            &&& (title is Some <==> d.title is Some)
            &&& (title matches Some(t) ==> t@ == spec_pieces(lines, tl, title_span(d)))
            &&& span == spec_span(lines, tl, d.start..d.content_end)
        },
        _ => false,
    }
}

/// The definitions parsed one after another from `pos`, each from where the last ended.
pub open spec fn def_chain(b: Seq<u8>, pos: int) -> Seq<DefScan>
    decreases b.len() - pos,
{
    if pos < 0 || pos >= b.len() {
        Seq::empty()
    } else {
        match spec_parse_one(b, pos) {
            Some(d) => if pos < d.end <= b.len() {
                seq![d] + def_chain(b, d.end as int)
            } else {
                Seq::empty()
            },
            None => Seq::empty(),
        }
    }
}

/// Where the chain of definitions from `pos` stops.
pub open spec fn chain_end(b: Seq<u8>, pos: int) -> int
    decreases b.len() - pos,
{
    if pos < 0 || pos >= b.len() {
        pos
    } else {
        match spec_parse_one(b, pos) {
            Some(d) => if pos < d.end <= b.len() {
                chain_end(b, d.end as int)
            } else {
                pos
            },
            None => pos,
        }
    }
}

/// Where a run of spaces and tabs from `p` ends, no later than `end`.
pub open spec fn blank_run_end(s: Seq<u8>, p: int, end: int) -> int
    decreases end - p,
{
    if p < end && p < s.len() && (s[p] == 32 || s[p] == 9) {
        blank_run_end(s, p + 1, end)
    } else {
        p
    }
}

/// The paragraph lines left after `consumed` lines went to definitions:
/// a continuation line that becomes the first loses its leading whitespace and padding.
pub open spec fn remaining_lines(source: Seq<u8>, segs: Seq<IrSeg>, consumed: int) -> Seq<IrSeg> {
    let rest = segs.subrange(consumed, segs.len() as int);
    if consumed > 0 && rest.len() > 0 {
        let first = rest[0];
        let trimmed = IrSeg {
            seg: Segment {
                span: Span {
                    start: blank_run_end(source, first.seg.span.start as int, first.seg.span.end as int) as u32,
                    end: first.seg.span.end,
                },
                padding: 0,
            },
            lazy: first.lazy,
        };
        rest.update(0, trimmed)
    } else {
        rest
    }
}

/// Skipping spaces and tabs from `p` stops between `p` and `end` (when `p <= end`), passing
/// only spaces and tabs, and at `end`, the end of `s` or a byte that is neither.
pub proof fn lemma_blank_run_end(s: Seq<u8>, p: int, end: int)
    requires
        0 <= p <= end,
    ensures
        p <= blank_run_end(s, p, end) <= end,
        blank_between(s, p, blank_run_end(s, p, end)),
        blank_run_end(s, p, end) < end && blank_run_end(s, p, end) < s.len() ==> !is_space_tab(
            s[blank_run_end(s, p, end)],
        ),
    decreases end - p,
{
    if p < end && p < s.len() && (s[p] == 32 || s[p] == 9) {
        lemma_blank_run_end(s, p + 1, end);
    }
}

/// The lines a definition chain leaves are the lines after the consumed ones, in order and
/// unchanged, except that a continuation line that becomes the first drops its leading spaces
/// and tabs and its padding.
pub proof fn lemma_remaining_lines_suffix(source: Seq<u8>, segs: Seq<IrSeg>, consumed: int)
    requires
        0 <= consumed <= segs.len(),
        forall|k: int| 0 <= k < segs.len() ==> (#[trigger] segs[k]).seg.span.start <= segs[k].seg.span.end,
    ensures
        remaining_lines(source, segs, consumed).len() == segs.len() - consumed,
        forall|k: int|
            0 <= k < remaining_lines(source, segs, consumed).len() && (k > 0 || consumed == 0) ==> #[trigger] remaining_lines(
                source,
                segs,
                consumed,
            )[k] == segs[consumed + k],
        consumed > 0 && consumed < segs.len() ==> ({
            let old_first = segs[consumed];
            let first = remaining_lines(source, segs, consumed)[0];
            &&& first.lazy == old_first.lazy
            &&& first.seg.padding == 0
            &&& first.seg.span.end == old_first.seg.span.end
            &&& old_first.seg.span.start <= first.seg.span.start <= old_first.seg.span.end
            &&& blank_between(source, old_first.seg.span.start as int, first.seg.span.start as int)
            &&& (first.seg.span.start < old_first.seg.span.end && first.seg.span.start < source.len()
                ==> !is_space_tab(source[first.seg.span.start as int]))
        }),
{
    if consumed > 0 && consumed < segs.len() {
        let f = segs[consumed];
        lemma_blank_run_end(source, f.seg.span.start as int, f.seg.span.end as int);
    }
}

/// If only spaces/tabs remain until the next newline (or EOF),
/// returns the position just past that line ending.
fn at_line_end(b: &[u8], p0: usize) -> (r: Option<usize>)
    requires
        p0 <= b.len(),
    ensures
        r matches Some(e) ==> spec_at_line_end(b@, p0 as int) == Some(e as int) && p0 <= e <= b.len(),
        r is None ==> spec_at_line_end(b@, p0 as int) is None,
{
    let mut p = p0;
    while p < b.len()
        invariant
            p0 <= p <= b.len(),
            spec_at_line_end(b@, p as int) == spec_at_line_end(b@, p0 as int),
        decreases b.len() - p,
    {
        let c = b[p];
        if c == 32 || c == 9 {
            p = p + 1;
        } else if c == 10 {
            return Some(p + 1);
        } else {
            return None;
        }
    }
    Some(p)
}

/// Parses one definition starting at `pos` (which is a line start).
/// Returns the node and the joined position just past its final line ending.
pub fn parse_one(input: &Input, pos: usize) -> (r: Option<(Ir, usize)>)
    requires
        input.wf(),
        input.line_seq().len() > 0,
        pos <= input.bytes().len(),
    ensures
        r is Some <==> spec_parse_one(input.bytes(), pos as int) is Some,
        r matches Some((ir, e)) ==> {
            let d = spec_parse_one(input.bytes(), pos as int)->0;
            &&& e == d.end
            &&& pos < e <= input.bytes().len()
            &&& is_def_ir(ir, input.line_seq(), input.bytes().len() as int, d)
        },
{
    let b = input.text_bytes();
    // Any amount of leading spaces/tabs:
    // the line already sits inside the content chunk,
    // and micromark's definition factory strips its prefix without a column limit
    // (`    [b]: /u` after a definition is a second definition, not code);
    // the joined view renders partial-tab padding as spaces, which this skips too.
    // The ≤3-column rule only picks which lines enter the chunk.
    // The node starts at the `[`, never at a continuation line's raw indent.
    let start = skip_ws(b, pos, 0);
    // later candidates must open a label themselves
    // (`-|-]:` after a definition is paragraph text, not a label).
    if start >= b.len() || b[start] != 91 {
        return None;
    }
    let label_start = start + 1;
    let label_close = label_end(b, start)?;
    let label_stop = label_close - 1;
    if label_close >= b.len() || b[label_close] != 58 {
        return None;
    }
    let p = skip_ws(b, label_close + 1, 1);
    let (dest, angle) = destination(b, p)?;
    if dest.start >= dest.end {
        return None;
    }
    let dest_start = dest.start;
    let dest_end = dest.end;

    // Optional title, requiring whitespace after the destination;
    // on failure fall back to a title-less definition ending at the destination's line.
    let mut title_range: Option<(usize, usize)> = None;
    let mut content_end = dest_end;
    let mut end: Option<usize> = None;
    let title_start = skip_ws(b, dest_end, 1);
    if title_start > dest_end {
        if let Some(t) = title(b, title_start) {
            if let Some(line_end) = at_line_end(b, t.end) {
                title_range = Some((t.start, t.end));
                content_end = t.end;
                end = Some(line_end);
            }
        }
    }
    let end = match end {
        Some(end) => end,
        None => at_line_end(b, dest_end)?,
    };
    let title_pieces = match title_range {
        Some((ts, te)) => Some(input.pieces(ts..te)),
        None => None,
    };
    let def = Ir::Definition {
        label: input.pieces(label_start..label_stop),
        destination: Destination { span: input.span(dest_start..dest_end), angle_bracketed: angle },
        title: title_pieces,
        span: input.span(start..content_end),
    };
    Some((def, end))
}

/// The lines of a closing paragraph left once its leading reference definitions are split off.
pub open spec fn stripped_rest(src: Seq<u8>, segments: Seq<IrSeg>) -> Seq<IrSeg> {
    let segs = segs_of(segments);
    let starts = segments.len() > 0 && segs[0].span.start < segs[0].span.end && src[segs[0].span.start as int] == 91;
    let b = join_pieces(src, segs);
    let lines = lines_of(src, segs);
    let e = chain_end(b, 0);
    let consumed = if e >= b.len() { segments.len() as int } else { first_above(lines, e - 1, 0) };
    if starts {
        remaining_lines(src, segments, consumed)
    } else {
        segments
    }
}

/// Splits leading reference definitions off a closing paragraph's segments.
#[verifier::loop_isolation(false)]
#[verifier::rlimit(80)]
#[verifier::spinoff_prover]
pub fn strip(source: &str, segments: Vec<IrSeg>) -> (r: (Vec<Ir>, Vec<IrSeg>))
    requires
        pieces_on_boundaries(source.spec_bytes(), segs_of(segments@)),
        source.spec_bytes().len() <= u32::MAX,
        join_pieces(source.spec_bytes(), segs_of(segments@)).len() <= usize::MAX,
    ensures
        ({
            let src = source.spec_bytes();
            let segs = segs_of(segments@);
            let starts = segments@.len() > 0 && segs[0].span.start < segs[0].span.end
                && src[segs[0].span.start as int] == 91;
            let b = join_pieces(src, segs);
            let lines = lines_of(src, segs);
            let chain = def_chain(b, 0);
            let e = chain_end(b, 0);
            let consumed = if e >= b.len() { segments@.len() as int } else { first_above(lines, e - 1, 0) };
            &&& !starts ==> r.0@.len() == 0 && r.1@ == segments@
            &&& starts ==> {
                &&& r.0@.len() == chain.len()
                &&& forall|k: int| 0 <= k < chain.len() ==> is_def_ir(#[trigger] r.0@[k], lines, b.len() as int, chain[k])
                &&& 0 <= consumed <= segments@.len()
                &&& r.1@ == remaining_lines(src, segments@, consumed)
            }
        }),
{
    let ghost src = source.spec_bytes();
    let ghost segs = segs_of(segments@);
    let starts = if segments.len() > 0 && segments[0].seg.span.start < segments[0].seg.span.end {
        proof {
            assert(segs[0] == segments@[0].seg);
        }
        first_byte(source, segments[0].seg.span) == 91
    } else {
        false
    };
    if !starts {
        return (Vec::new(), segments);
    }
    // The same joined view the inline phase uses (`\n` separators, exact per-byte offsets)
    let input = Input::new(source, segments.as_slice());
    let b = input.text_bytes();
    let ghost chain = def_chain(b@, 0);
    let ghost stop = chain_end(b@, 0);
    let ghost lines = input.line_seq();
    let ghost tl = b@.len() as int;
    let mut defs: Vec<Ir> = Vec::new();
    let mut pos: usize = 0;
    while pos < b.len()
        invariant
            input.wf(),
            input.line_seq().len() > 0,
            lines == input.line_seq(),
            b@ == input.bytes(),
            tl == b@.len(),
            pos <= b@.len(),
            chain == def_chain(b@, 0),
            stop == chain_end(b@, 0),
            defs@.len() + def_chain(b@, pos as int).len() == chain.len(),
            chain.subrange(defs@.len() as int, chain.len() as int) == def_chain(b@, pos as int),
            chain_end(b@, pos as int) == stop,
            forall|k: int| 0 <= k < defs@.len() ==> is_def_ir(#[trigger] defs@[k], lines, tl, chain[k]),
        decreases b@.len() - pos,
    {
        match parse_one(&input, pos) {
            Some((def, end)) => {
                let ghost n = defs@.len() as int;
                proof {
                    let d = spec_parse_one(b@, pos as int)->0;
                    assert(def_chain(b@, pos as int) == seq![d] + def_chain(b@, end as int));
                    assert(chain[n] == d) by {
                        assert(chain.subrange(n, chain.len() as int)[0] == chain[n]);
                    }
                    assert(chain.subrange(n + 1, chain.len() as int) =~= chain.subrange(n, chain.len() as int).drop_first());
                    assert((seq![d] + def_chain(b@, end as int)).drop_first() =~= def_chain(b@, end as int));
                }
                defs.push(def);
                pos = end;
            },
            None => {
                break;
            },
        }
    }
    proof {
        assert(def_chain(b@, pos as int).len() == 0);
        assert(chain_end(b@, pos as int) == pos);
    }
    // A definition always ends at a line ending,
    // so `pos` sits at a line start (or past the end); everything before it was consumed.
    let consumed = if pos >= b.len() { segments.len() } else { input.lines_before(pos) };
    proof {
        crate::inline::input::lemma_first_above_props(lines, pos - 1, 0);
    }
    let mut rest: Vec<IrSeg> = Vec::new();
    let mut k = consumed;
    while k < segments.len()
        invariant
            consumed <= k <= segments@.len(),
            rest@ == segments@.subrange(consumed as int, k as int),
        decreases segments.len() - k,
    {
        rest.push(segments[k]);
        proof {
            assert(segments@.subrange(consumed as int, k + 1) =~= segments@.subrange(consumed as int, k as int).push(segments@[k as int]));
        }
        k = k + 1;
    }
    // A raw continuation line promoted to first line starts the remaining paragraph;
    // its leading whitespace is not content.
    if consumed > 0 && rest.len() > 0 {
        let first = rest[0];
        let sb = source.as_bytes();
        let mut q = first.seg.span.start as usize;
        let stop_at = first.seg.span.end as usize;
        proof {
            assert(segs[consumed as int] == first.seg);
        }
        while q < stop_at && q < sb.len() && (sb[q] == 32 || sb[q] == 9)
            invariant
                first.seg.span.start <= q <= stop_at,
                stop_at == first.seg.span.end,
                sb@ == src,
                blank_run_end(src, q as int, stop_at as int) == blank_run_end(
                    src,
                    first.seg.span.start as int,
                    stop_at as int,
                ),
            decreases stop_at - q,
        {
            q = q + 1;
        }
        let trimmed = IrSeg {
            seg: Segment { span: Span { start: q as u32, end: first.seg.span.end }, padding: 0 },
            lazy: first.lazy,
        };
        rest.set(0, trimmed);
    }
    (defs, rest)
}

fn first_byte(source: &str, span: Span) -> (b: u8)
    requires
        span.start < source.spec_bytes().len(),
    ensures
        b == source.spec_bytes()[span.start as int],
{
    source.as_bytes()[span.start as usize]
}

/// Whether a leaf's lines are well-formed spans of `source` on character boundaries
/// whose joined text fits an allocation.
pub fn segments_fit(source: &str, segments: &[IrSeg]) -> (r: bool)
    ensures
        r == (pieces_on_boundaries(source.spec_bytes(), segs_of(segments@)) && join_pieces(
            source.spec_bytes(),
            segs_of(segments@),
        ).len() <= isize::MAX),
{
    let mut v: Vec<Segment> = Vec::new();
    let mut i: usize = 0;
    while i < segments.len()
        invariant
            i <= segments@.len(),
            v@ =~= segs_of(segments@).subrange(0, i as int),
        decreases segments.len() - i,
    {
        v.push(segments[i].seg);
        i = i + 1;
    }
    proof {
        assert(v@ =~= segs_of(segments@));
    }
    crate::pos::pieces_fit(source, v.as_slice())
}

} // verus!
