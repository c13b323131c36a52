//! Bracket handling: links and images (cmark's bracket stack).
//!
//! `[` / `![` only records a bracket;
//! `]` tries, in order, the inline suffix `(dest "title")`, a full reference label,
//! then collapsed / shortcut resolution against the [`super::RefMap`].
//! On success the inner delimiters are processed
//! and the nodes since the opener become the link's children;
//! a successful link deactivates every earlier `[` (links don't nest in links; images do).
use std::ops::Range;
use vstd::prelude::*;
use crate::syntax::{lemma_skip_ws_bounds, skip_ws, spec_skip_ws};
use crate::syntax::link_target::{destination, label_end, spec_destination, spec_label_end, spec_title, title};
use crate::syntax::label::normalize;
use crate::ast::ReferenceKind;
use crate::utf::{lemma_ascii_boundaries, substr};
use super::{extent, kind_within, lemma_pn_within_mono, pn_within, PLinkKind, PN};
use super::emphasis::{build, delims_wf, is_empty_text, runs_within, Formed};
use super::tokenizer::{bracket_ok, brackets_wf, flushed, label_key, nodes_ordered, Tokenizer};
use vstd::string::StringSliceAdditionalSpecFns;
use vstd::utf8::*;

verus! {

broadcast use {encode_utf8_valid_utf8, encode_utf8_decode_utf8};

#[derive(Clone, Copy, Debug)]
pub struct Bracket {
    pub node: usize,
    pub delim_len: usize,
    pub image: bool,
    pub active: bool,
    /// Joined start of the `[` / `![` text.
    pub text_start: usize,
}

/// Width of a bracket's opening text: `[` or `![`.
pub open spec fn open_width(b: Bracket) -> int {
    if b.image {
        2
    } else {
        1
    }
}

impl Bracket {
    /// Joined position just past the `[`.
    pub fn after_open(self) -> (p: usize)
        requires
            self.text_start + open_width(self) <= usize::MAX,
        ensures
            p == self.text_start + open_width(self),
    {
        self.text_start + 1 + if self.image { 1 } else { 0 }
    }
}

/// The inline suffix `(ws dest ws "title" ws)` starting at the `(` at `open`:
/// (destination range, angle-bracketed flag, title range including its quotes, position past `)`).
/// A title needs whitespace after the destination; one that fails to parse is skipped over
/// only as whitespace, and then the `)` must follow.
pub open spec fn spec_inline_suffix(b: Seq<u8>, open: int) -> Option<((int, int), bool, Option<(int, int)>, int)> {
    let p0 = spec_skip_ws(b, open + 1, usize::MAX as int);
    match spec_destination(b, p0) {
        None => None,
        Some((dend, angle)) => {
            let p1 = spec_skip_ws(b, dend, usize::MAX as int);
            let titled = p1 > dend && spec_title(b, p1) is Some;
            let p2 = if titled {
                spec_skip_ws(b, spec_title(b, p1)->0, usize::MAX as int)
            } else {
                p1
            };
            if p2 < b.len() && b[p2] == 41 {
                Some(
                    (
                        (p0, dend),
                        angle,
                        if titled {
                            Some((p1, spec_title(b, p1)->0))
                        } else {
                            None
                        },
                        p2 + 1,
                    ),
                )
            } else {
                None
            }
        },
    }
}

/// What a `]` at `p` makes of the innermost open bracket `b` over `t`, given the defined link
/// labels: a link (an image, for `![`) ending at `end`, with its reference kind (none for an
/// inline link), or nothing. Inline first, then full or collapsed reference when `[` follows,
/// else shortcut.
pub open spec fn spec_bracket_close(t: Seq<u8>, labels: Set<Seq<char>>, b: Bracket, p: int) -> Option<
    (Option<ReferenceKind>, int),
> {
    let inner = label_key(t, b.text_start + open_width(b), p);
    if !b.active {
        None
    } else if p + 1 < t.len() && t[p + 1] == 40 && spec_inline_suffix(t, p + 1) is Some {
        match spec_inline_suffix(t, p + 1) {
            Some((_, _, _, e)) => Some((None, e)),
            None => None,
        }
    } else if p + 1 < t.len() && t[p + 1] == 91 {
        if p + 2 < t.len() && t[p + 2] == 93 {
            if labels.contains(inner) {
                Some((Some(ReferenceKind::Collapsed), p + 3))
            } else {
                None
            }
        } else {
            match spec_label_end(t, p + 1) {
                Some(e) => if labels.contains(label_key(t, p + 2, e - 1)) {
                    Some((Some(ReferenceKind::Full), e))
                } else {
                    None
                },
                None => None,
            }
        }
    } else if labels.contains(inner) {
        Some((Some(ReferenceKind::Shortcut), p + 1))
    } else {
        None
    }
}

/// `nodes` ends with the link of bracket `b` in place of its opening text: its image flag, its
/// span from the bracket to `end`, and `kind`.
pub open spec fn link_made(nodes: Seq<PN>, b: Bracket, end: int, kind: PLinkKind) -> bool {
    &&& nodes.len() == b.node + 1
    &&& match nodes[b.node as int] {
        PN::Link { image, kind: k, r, .. } => image == b.image && k == kind && r.start == b.text_start && r.end == end,
        _ => false,
    }
}

/// `kind` is what `spec_bracket_close` found for a `]` at `p` closing `b` over `t`.
pub open spec fn kind_found(t: Seq<u8>, b: Bracket, p: int, rk: Option<ReferenceKind>, kind: PLinkKind) -> bool {
    match kind {
        PLinkKind::Inline { dest, angle_bracketed, title } => rk is None && match spec_inline_suffix(t, p + 1) {
            Some((d, a, ti, _)) => d == (dest.start as int, dest.end as int) && a == angle_bracketed && ti == match title {
                Some(x) => Some((x.start as int, x.end as int)),
                None => None,
            },
            None => false,
        },
        PLinkKind::Reference { kind: k, label } => rk == Some(k) && (if k == ReferenceKind::Full {
            label.start == p + 2 && label.end == spec_label_end(t, p + 1)->0 - 1
        } else {
            label.start == b.text_start + open_width(b) && label.end == p
        }),
    }
}

/// Scans `(ws dest ws "title" ws)` starting at the `(`.
/// Returns (destination range (empty when absent), angle-bracketed flag,
/// title range including its quotes, position past `)`).
pub fn scan_inline_suffix(t: &[u8], open: usize) -> (r: Option<(Range<usize>, bool, Option<Range<usize>>, usize)>)
    requires
        open < t.len(),
    ensures
        r is Some <==> spec_inline_suffix(t@, open as int) is Some,
        r matches Some((dest, angle, tr, end)) ==> spec_inline_suffix(t@, open as int) == Some(
            (
                (dest.start as int, dest.end as int),
                angle,
                match tr {
                    Some(x) => Some((x.start as int, x.end as int)),
                    None => None,
                },
                end as int,
            ),
        ) && open < dest.start <= dest.end < end <= t.len() && match tr {
            Some(x) => x.start <= x.end < end,
            None => true,
        },
{
    proof {
        lemma_skip_ws_bounds(t@, open + 1, usize::MAX as int);
    }
    let mut p = skip_ws(t, open + 1, usize::MAX);
    // An empty bare destination keeps its (zero-width) position inside the parens
    let (dest, angle_bracketed) = match destination(t, p) {
        Some(d) => d,
        None => return None,
    };
    p = dest.end;
    // Optional title, requiring whitespace after the destination
    let mut title_range: Option<Range<usize>> = None;
    let after_dest = p;
    proof {
        lemma_skip_ws_bounds(t@, p as int, usize::MAX as int);
    }
    p = skip_ws(t, p, usize::MAX);
    if p > after_dest {
        match title(t, p) {
            Some(tr) => {
                proof {
                    lemma_skip_ws_bounds(t@, tr.end as int, usize::MAX as int);
                }
                p = skip_ws(t, tr.end, usize::MAX);
                title_range = Some(tr);
            },
            None => {},
        }
    }
    if p < t.len() && t[p] == 41 {
        Some((dest, angle_bracketed, title_range, p + 1))
    } else {
        None
    }
}

/// A bracket stack without its top entry is still in place.
proof fn lemma_pop_bracket(nodes: Seq<PN>, delims: Seq<super::emphasis::Delim>, bytes: Seq<u8>, end: int, bs: Seq<Bracket>)
    requires
        bs.len() > 0,
        brackets_wf(nodes, delims, bytes, end, bs),
    ensures
        brackets_wf(nodes, delims, bytes, end, bs.drop_last()),
{
    let d = bs.drop_last();
    assert forall|k: int| 0 <= k < d.len() implies bracket_ok(nodes, delims, bytes, end, #[trigger] d[k]) by {
        assert(d[k] == bs[k]);
    }
    assert forall|i: int, j: int| 0 <= i < j < d.len() implies #[trigger] d[i].node < #[trigger] d[j].node
        && d[i].delim_len <= d[j].delim_len && d[i].text_start + open_width(d[i]) <= d[j].text_start by {
        assert(d[i] == bs[i] && d[j] == bs[j]);
    }
}

impl<'i, 'r> Tokenizer<'i, 'r> {
    /// A `]`: with no open bracket it is literal text; otherwise the innermost bracket becomes the
    /// link or image that `spec_bracket_close` finds, or fails and its text stays literal.
    pub(crate) fn close_bracket(&mut self)
        requires
            old(self).wf(),
            old(self).pos < old(self).bytes().len(),
            old(self).bytes()[old(self).pos as int] == 93,
        ensures
            final(self).wf(),
            old(self).pos < final(self).pos,
            final(self).t == old(self).t,
            old(self).brackets@.len() == 0 ==> final(self).pos == old(self).pos + 1 && final(self).nodes@ == flushed(
                old(self).nodes@,
                old(self).text_start,
                old(self).pos,
            ).push(PN::Text(old(self).pos..(old(self).pos + 1) as usize)),
            old(self).brackets@.len() > 0 ==> match spec_bracket_close(
                old(self).bytes(),
                old(self).refs.labels_view(),
                old(self).brackets@.last(),
                old(self).pos as int,
            ) {
                Some((rk, end)) => final(self).pos == end && exists|kind: PLinkKind|
                    link_made(final(self).nodes@, old(self).brackets@.last(), end, kind) && #[trigger] kind_found(
                        old(self).bytes(),
                        old(self).brackets@.last(),
                        old(self).pos as int,
                        rk,
                        kind,
                    ),
                None => final(self).nodes@.last() == (PN::Text(old(self).pos..(old(self).pos + 1) as usize))
                    || final(self).nodes@.last() is FootnoteRef,
            },
    {
        proof {
            reveal(Tokenizer::wf);
        }
        let p = self.pos;
        self.flush_text(p);
        if self.brackets.len() == 0 {
            self.literal_close(p);
            return;
        }
        let b = self.brackets[self.brackets.len() - 1];
        proof {
            assert(bracket_ok(self.nodes@, self.delims@, self.bytes(), self.text_start as int, b));
        }
        if !b.active {
            self.fail_bracket(p);
            return;
        }
        let bytes = self.t.as_bytes();
        // Inline: `](dest "title")`
        if p + 1 < bytes.len() && bytes[p + 1] == 40 {
            match scan_inline_suffix(bytes, p + 1) {
                Some((dest, angle_bracketed, title, end)) => {
                    let kind = PLinkKind::Inline { dest, angle_bracketed, title };
                    self.make_link(b, kind, end);
                    proof {
                        assert(kind_found(old(self).bytes(), b, p as int, None, kind));
                    }
                    return;
                },
                None => {},
            }
        }
        // `][…`: only full (`][label]`) or collapsed (`][]`) resolution;
        // a shortcut never applies when a `[` follows,
        // whether the second label is undefined or fails to parse at all.
        if p + 1 < bytes.len() && bytes[p + 1] == 91 {
            // Collapsed is literally `][]`;
            // `[a][ ]` is a full reference whose label fails to parse.
            if p + 2 < bytes.len() && bytes[p + 2] == 93 {
                let inner = b.after_open()..p;
                if self.lookup(&inner) {
                    let kind = PLinkKind::Reference { kind: ReferenceKind::Collapsed, label: inner };
                    self.make_link(b, kind, p + 3);
                    proof {
                        assert(kind_found(old(self).bytes(), b, p as int, Some(ReferenceKind::Collapsed), kind));
                    }
                    return;
                }
                self.fail_bracket(p);
                return;
            }
            let label_close = match label_end(bytes, p + 1) {
                Some(e) => e,
                None => {
                    self.fail_bracket(p);
                    return;
                },
            };
            let label = p + 2..label_close - 1;
            if self.lookup(&label) {
                let kind = PLinkKind::Reference { kind: ReferenceKind::Full, label };
                self.make_link(b, kind, label_close);
                proof {
                    assert(kind_found(old(self).bytes(), b, p as int, Some(ReferenceKind::Full), kind));
                }
                return;
            }
            // A present-but-undefined label fails the bracket;
            // the label re-scans on its own.
            self.fail_bracket(p);
            return;
        }
        // Shortcut: `]`.
        // No emptiness guard: a whitespace-only label normalizes to `""`,
        // which no definition can ever register.
        let inner = b.after_open()..p;
        if self.lookup(&inner) {
            let kind = PLinkKind::Reference { kind: ReferenceKind::Shortcut, label: inner };
            self.make_link(b, kind, p + 1);
            proof {
                assert(kind_found(old(self).bytes(), b, p as int, Some(ReferenceKind::Shortcut), kind));
            }
            return;
        }
        // GFM: `![^label]` that failed to become an image
        // resolves to a literal `!` plus a footnote call.
        if b.image {
            match self.footnote_label(b.text_start + 1) {
                Some((label, end)) => {
                    if end == p + 1 {
                        self.footnote_after_image(b, label, end);
                        return;
                    }
                },
                None => {},
            }
        }
        self.fail_bracket(p);
    }

    /// The failed image `![^label]` becomes a literal `!` and a footnote call over the rest.
    fn footnote_after_image(&mut self, b: Bracket, label: Range<usize>, end: usize)
        requires
            old(self).wf(),
            old(self).brackets@.len() > 0,
            b == old(self).brackets@.last(),
            b.image,
            b.text_start + 1 < label.start <= label.end <= end <= old(self).bytes().len(),
            old(self).pos < end,
            old(self).pos == old(self).text_start,
        ensures
            final(self).wf(),
            final(self).pos == end,
            final(self).t == old(self).t,
            final(self).nodes@.last() == (PN::FootnoteRef { label, r: (b.text_start + 1) as usize..end }),
    {
        proof {
            reveal(Tokenizer::wf);
        }
        let ghost n0 = self.nodes@;
        let ghost d0 = self.delims@;
        let ghost bs0 = self.brackets@;
        proof {
            assert(bracket_ok(n0, d0, self.bytes(), self.text_start as int, b));
        }
        assert(b.node < self.nodes.len());
        self.nodes.truncate(b.node + 1);
        self.delims.truncate(b.delim_len);
        self.nodes.set(b.node, PN::Text(b.text_start..b.text_start + 1));
        self.brackets.pop();
        self.text_start = b.text_start + 1;
        proof {
            let nodes = self.nodes@;
            let delims = self.delims@;
            let ts = self.text_start as int;
            assert forall|q: int| 0 <= q < delims.len() implies #[trigger] delims[q] == d0[q] && d0[q].node < b.node by {}
            assert forall|i: int| 0 <= i < b.node implies #[trigger] nodes[i] == n0[i] by {}
            assert(delims_wf(nodes, delims)) by {
                assert forall|k: int| 0 <= k < delims.len() implies nodes[#[trigger] delims[k].node as int]
                    == n0[delims[k].node as int] by {
                    assert(delims[k] == d0[k]);
                }
            }
            assert(runs_within(nodes, delims, ts)) by {
                assert forall|k: int| 0 <= k < delims.len() implies super::emphasis::dtext(nodes, #[trigger] delims[k]).1
                    <= ts by {
                    assert(delims[k] == d0[k]);
                    assert(nodes[d0[k].node as int] == n0[d0[k].node as int]);
                    assert(extent(n0[d0[k].node as int]).1 <= b.text_start);
                }
            }
            assert(nodes_ordered(nodes, ts)) by {
                assert forall|i: int| 0 <= i < nodes.len() implies extent(#[trigger] nodes[i]).0 <= extent(nodes[i]).1
                    <= ts by {
                    if i < b.node {
                        assert(extent(n0[i]).1 <= b.text_start);
                    }
                }
                assert forall|i: int, j: int| 0 <= i < j < nodes.len() implies extent(#[trigger] nodes[i]).1
                    <= extent(#[trigger] nodes[j]).0 by {
                    assert(extent(n0[i]).1 <= b.text_start);
                    if j < b.node {
                        assert(extent(n0[i]).1 <= extent(n0[j]).0);
                    }
                }
            }
            let bs = self.brackets@;
            assert(bs =~= bs0.drop_last());
            assert forall|k: int| 0 <= k < bs.len() implies bracket_ok(nodes, delims, self.bytes(), ts, #[trigger] bs[k]) by {
                let bk = bs0[k];
                assert(bs[k] == bk);
                assert(bracket_ok(n0, d0, self.bytes(), old(self).text_start as int, bk));
                assert(bk.node < b.node && bk.delim_len <= b.delim_len && bk.text_start + open_width(bk) <= b.text_start);
                assert forall|i: int| 0 <= i < bk.node implies extent(#[trigger] nodes[i]).1 <= bk.text_start by {
                    assert(nodes[i] == n0[i]);
                }
                assert forall|i: int| bk.node < i < nodes.len() implies extent(#[trigger] nodes[i]).0 >= bk.text_start
                    + open_width(bk) by {
                    if i < b.node {
                        assert(nodes[i] == n0[i]);
                    }
                }
                assert forall|q: int| 0 <= q < bk.delim_len implies #[trigger] delims[q].node < bk.node by {
                    assert(delims[q] == d0[q]);
                }
                assert forall|q: int| bk.delim_len <= q < delims.len() implies #[trigger] delims[q].node > bk.node by {
                    assert(delims[q] == d0[q]);
                }
            }
            assert forall|i: int, j: int| 0 <= i < j < bs.len() implies #[trigger] bs[i].node < #[trigger] bs[j].node
                && bs[i].delim_len <= bs[j].delim_len && bs[i].text_start + open_width(bs[i]) <= bs[j].text_start by {
                assert(bs[i] == bs0[i] && bs[j] == bs0[j]);
            }
        }
        self.push_footnote_call(label, b.text_start + 1, end);
    }

    /// Definition-map probe;
    /// skips normalization entirely when the document has no definitions.
    pub(crate) fn lookup(&self, label: &Range<usize>) -> (r: bool)
        requires
            self.wf(),
            0 < label.start <= label.end < self.bytes().len(),
            self.bytes()[label.start - 1] == 91,
            self.bytes()[label.end as int] == 93,
        ensures
            r == self.refs.labels_view().contains(label_key(self.bytes(), label.start as int, label.end as int)),
    {
        proof {
            reveal(Tokenizer::wf);
        }
        if self.refs.is_empty() {
            return false;
        }
        let bytes = self.t.as_bytes();
        proof {
            lemma_ascii_boundaries(bytes@, label.start - 1);
            lemma_ascii_boundaries(bytes@, label.end as int);
        }
        let raw = substr(self.t, label.start, label.end);
        let key = normalize(raw);
        proof {
            assert(raw@ == decode_utf8(bytes@.subrange(label.start as int, label.end as int)));
        }
        match &key {
            std::borrow::Cow::Borrowed(k) => self.refs.contains(k),
            std::borrow::Cow::Owned(k) => self.refs.contains(k.as_str()),
        }
    }

    /// The shared failure tail: drop the bracket, keep the `]` as text.
    pub(crate) fn fail_bracket(&mut self, p: usize)
        requires
            old(self).wf(),
            old(self).brackets@.len() > 0,
            p == old(self).pos == old(self).text_start,
            p < old(self).bytes().len(),
        ensures
            final(self).wf(),
            final(self).pos == p + 1,
            final(self).t == old(self).t,
            final(self).nodes@ == old(self).nodes@.push(PN::Text(p..(p + 1) as usize)),
    {
        proof {
            reveal(Tokenizer::wf);
        }
        proof {
            lemma_pop_bracket(self.nodes@, self.delims@, self.bytes(), self.text_start as int, self.brackets@);
        }
        self.brackets.pop();
        proof {
            assert(self.brackets@ =~= old(self).brackets@.drop_last());
        }
        self.literal_close(p);
    }

    pub(crate) fn literal_close(&mut self, p: usize)
        requires
            old(self).wf(),
            p == old(self).pos == old(self).text_start,
            p < old(self).bytes().len(),
        ensures
            final(self).wf(),
            final(self).pos == p + 1,
            final(self).t == old(self).t,
            final(self).nodes@ == old(self).nodes@.push(PN::Text(p..(p + 1) as usize)),
    {
        proof {
            reveal(Tokenizer::wf);
        }
        self.emit(PN::Text(p..p + 1), p + 1);
    }

    /// Drains `nodes[from..]` (dropping delimiter text nodes emptied by emphasis processing)
    /// as a new node's children.
    pub(crate) fn take_children(&mut self, from: usize) -> (children: Vec<PN>)
        requires
            from <= old(self).nodes@.len(),
        ensures
            final(self).nodes@ == old(self).nodes@.subrange(0, from as int),
            children@ == old(self).nodes@.subrange(from as int, old(self).nodes@.len() as int).filter(
                |n: PN| !is_empty_text(n),
            ),
            final(self).t == old(self).t,
            final(self).pos == old(self).pos,
            final(self).text_start == old(self).text_start,
            final(self).delims@ == old(self).delims@,
            final(self).brackets@ == old(self).brackets@,
            final(self).formed@ == old(self).formed@,
            final(self).refs == old(self).refs,
    {
        let mut tail = self.nodes.split_off(from);
        let ghost orig = tail@;
        let ghost len = orig.len();
        let mut rev: Vec<PN> = Vec::new();
        while tail.len() > 0
            invariant
                len == orig.len(),
                tail@ == orig.subrange(0, tail@.len() as int),
                rev@.len() + tail@.len() == len,
                forall|i: int| 0 <= i < rev@.len() ==> #[trigger] rev@[i] == orig[len - 1 - i],
            decreases tail@.len(),
        {
            let ghost t0 = tail@;
            let ghost r0 = rev@;
            let n = tail.pop().unwrap();
            proof {
                assert(n == orig[t0.len() - 1]);
                assert(tail@ =~= orig.subrange(0, tail@.len() as int));
            }
            rev.push(n);
            proof {
                assert forall|i: int| 0 <= i < rev@.len() implies #[trigger] rev@[i] == orig[len - 1 - i] by {
                    if i < r0.len() {
                        assert(rev@[i] == r0[i]);
                    }
                }
            }
        }
        let mut children: Vec<PN> = Vec::new();
        proof {
            reveal(Seq::filter);
            assert(orig.subrange(0, 0) =~= Seq::<PN>::empty());
        }
        while rev.len() > 0
            invariant
                len == orig.len(),
                rev@.len() <= len,
                forall|i: int| 0 <= i < rev@.len() ==> #[trigger] rev@[i] == orig[len - 1 - i],
                children@ == orig.subrange(0, len - rev@.len()).filter(|n: PN| !is_empty_text(n)),
            decreases rev@.len(),
        {
            let ghost k = len - rev@.len();
            let ghost r0 = rev@;
            let n = rev.pop().unwrap();
            proof {
                assert(0 <= k < len);
                assert(n == r0[r0.len() - 1]);
                assert(n == orig[k]);
                assert forall|i: int| 0 <= i < rev@.len() implies #[trigger] rev@[i] == orig[len - 1 - i] by {
                    assert(rev@[i] == r0[i]);
                }
                reveal(Seq::filter);
                assert(orig.subrange(0, k + 1).drop_last() =~= orig.subrange(0, k));
                assert(orig.subrange(0, k + 1).last() == n);
            }
            let empty = match &n {
                PN::Text(r) => r.start >= r.end,
                _ => false,
            };
            proof {
                assert((|x: PN| !is_empty_text(x))(n) == !empty);
            }
            if !empty {
                children.push(n);
            }
        }
        proof {
            assert(orig.subrange(0, len as int) =~= orig);
        }
        children
    }

    pub(crate) fn make_link(&mut self, b: Bracket, kind: PLinkKind, end: usize)
        requires
            old(self).wf(),
            old(self).brackets@.len() > 0,
            b == old(self).brackets@.last(),
            old(self).pos == old(self).text_start,
            old(self).pos < end <= old(self).bytes().len(),
            kind_within(kind, end as int),
        ensures
            final(self).wf(),
            final(self).pos == end,
            final(self).t == old(self).t,
            link_made(final(self).nodes@, b, end as int, kind),
    {
        proof {
            reveal(Tokenizer::wf);
        }
        let p = self.pos;
        let ghost bs0 = self.brackets@;
        proof {
            assert(bracket_ok(self.nodes@, self.delims@, self.bytes(), self.text_start as int, b));
        }
        self.process_emphasis(b.delim_len);
        let ghost n0 = self.nodes@;
        let ghost d0 = self.delims@;
        proof {
            assert(bracket_ok(n0, d0, self.bytes(), self.text_start as int, b));
        }
        assert(b.node < self.nodes.len());
        proof {
            assert forall|i: int| 0 <= i < n0.len() implies pn_within(#[trigger] n0[i], p as int) by {
                assert(pn_within(n0[i], extent(n0[i]).1));
                lemma_pn_within_mono(n0[i], extent(n0[i]).1, p as int);
            }
        }
        let inner = self.take_children(b.node + 1);
        proof {
            let sub = n0.subrange(b.node + 1, n0.len() as int);
            let keep = |n: PN| !is_empty_text(n);
            assert forall|k: int| 0 <= k < inner@.len() implies pn_within(#[trigger] inner@[k], p as int) by {
                assert(sub.filter(keep)[k] == inner@[k]);
                assert(sub.filter(keep).contains(inner@[k]));
                sub.lemma_filter_contains_rev(keep, inner@[k]);
                let j = choose|j: int| 0 <= j < sub.len() && sub[j] == inner@[k];
                assert(sub[j] == n0[b.node + 1 + j]);
            }
        }
        let mut pairs: Vec<Formed> = Vec::new();
        std::mem::swap(&mut self.formed, &mut pairs);
        let children = build(inner, &mut pairs, Ghost(p as int));
        self.delims.truncate(b.delim_len);
        let text = b.after_open()..p;
        let ghost ch = children@;
        self.nodes.set(b.node, PN::Link { image: b.image, kind, children, text, r: b.text_start..end });
        proof {
            assert forall|i: int| 0 <= i < ch.len() implies pn_within(#[trigger] ch[i], end as int) by {
                lemma_pn_within_mono(ch[i], p as int, end as int);
            }
            assert(pn_within(self.nodes@[b.node as int], extent(self.nodes@[b.node as int]).1));
        }
        self.brackets.pop();
        self.pos = end;
        self.text_start = end;
        proof {
            let nodes = self.nodes@;
            let delims = self.delims@;
            let ts = end as int;
            assert forall|q: int| 0 <= q < delims.len() implies #[trigger] delims[q] == d0[q] && d0[q].node < b.node by {}
            assert forall|i: int| 0 <= i < b.node implies #[trigger] nodes[i] == n0[i] by {}
            assert(delims_wf(nodes, delims)) by {
                assert forall|k: int| 0 <= k < delims.len() implies nodes[#[trigger] delims[k].node as int]
                    == n0[delims[k].node as int] by {
                    assert(delims[k] == d0[k]);
                }
            }
            assert(runs_within(nodes, delims, ts)) by {
                assert forall|k: int| 0 <= k < delims.len() implies super::emphasis::dtext(nodes, #[trigger] delims[k]).1
                    <= ts by {
                    assert(delims[k] == d0[k]);
                    assert(nodes[d0[k].node as int] == n0[d0[k].node as int]);
                }
            }
            assert(nodes_ordered(nodes, ts)) by {
                assert forall|i: int| 0 <= i < nodes.len() implies extent(#[trigger] nodes[i]).0 <= extent(nodes[i]).1
                    <= ts by {
                    if i < b.node {
                        assert(extent(n0[i]).1 <= b.text_start);
                    }
                }
                assert forall|i: int, j: int| 0 <= i < j < nodes.len() implies extent(#[trigger] nodes[i]).1
                    <= extent(#[trigger] nodes[j]).0 by {
                    assert(extent(n0[i]).1 <= b.text_start);
                    if j < b.node {
                        assert(extent(n0[i]).1 <= extent(n0[j]).0);
                    }
                }
            }
            let bs = self.brackets@;
            assert(bs =~= bs0.drop_last());
            assert forall|k: int| 0 <= k < bs.len() implies bracket_ok(nodes, delims, self.bytes(), ts, #[trigger] bs[k]) by {
                let bk = bs0[k];
                assert(bs[k] == bk);
                assert(bracket_ok(n0, d0, self.bytes(), p as int, bk));
                assert(bk.node < b.node && bk.delim_len <= b.delim_len && bk.text_start + open_width(bk) <= b.text_start);
                assert forall|i: int| 0 <= i < bk.node implies extent(#[trigger] nodes[i]).1 <= bk.text_start by {
                    assert(nodes[i] == n0[i]);
                }
                assert forall|i: int| bk.node < i < nodes.len() implies extent(#[trigger] nodes[i]).0 >= bk.text_start
                    + open_width(bk) by {
                    if i < b.node {
                        assert(nodes[i] == n0[i]);
                    }
                }
                assert forall|q: int| 0 <= q < bk.delim_len implies #[trigger] delims[q].node < bk.node by {
                    assert(delims[q] == d0[q]);
                }
                assert forall|q: int| bk.delim_len <= q < delims.len() implies #[trigger] delims[q].node > bk.node by {
                    assert(delims[q] == d0[q]);
                }
            }
            assert forall|i: int, j: int| 0 <= i < j < bs.len() implies #[trigger] bs[i].node < #[trigger] bs[j].node
                && bs[i].delim_len <= bs[j].delim_len && bs[i].text_start + open_width(bs[i]) <= bs[j].text_start by {
                assert(bs[i] == bs0[i] && bs[j] == bs0[j]);
            }
        }
        if !b.image {
            self.deactivate_links();
        }
    }

    /// A link's text can't hold another link: every earlier `[` (not `![`) goes inactive.
    fn deactivate_links(&mut self)
        requires
            old(self).wf(),
        ensures
            final(self).wf(),
            final(self).pos == old(self).pos,
            final(self).t == old(self).t,
            final(self).nodes@ == old(self).nodes@,
            final(self).delims@ == old(self).delims@,
            final(self).text_start == old(self).text_start,
            final(self).brackets@.len() == old(self).brackets@.len(),
            forall|i: int|
                0 <= i < old(self).brackets@.len() ==> #[trigger] final(self).brackets@[i] == (Bracket {
                    active: old(self).brackets@[i].active && old(self).brackets@[i].image,
                    ..old(self).brackets@[i]
                }),
    {
        proof {
            reveal(Tokenizer::wf);
        }
        let ghost bs0 = self.brackets@;
        let mut k: usize = 0;
        while k < self.brackets.len()
            invariant
                k <= self.brackets@.len() == bs0.len(),
                forall|i: int| 0 <= i < bs0.len() ==> (#[trigger] self.brackets@[i]).node == bs0[i].node
                    && self.brackets@[i].delim_len == bs0[i].delim_len && self.brackets@[i].image == bs0[i].image
                    && self.brackets@[i].text_start == bs0[i].text_start,
                forall|i: int| 0 <= i < k ==> #[trigger] self.brackets@[i] == (Bracket {
                    active: bs0[i].active && bs0[i].image,
                    ..bs0[i]
                }),
                forall|i: int| k <= i < bs0.len() ==> #[trigger] self.brackets@[i] == bs0[i],
                self.nodes@ == old(self).nodes@,
                self.delims@ == old(self).delims@,
                self.pos == old(self).pos,
                self.text_start == old(self).text_start,
                self.t == old(self).t,
                self.refs == old(self).refs,
                self.formed@ == old(self).formed@,
            decreases bs0.len() - k,
        {
            let mut br = self.brackets[k];
            if !br.image {
                br.active = false;
                self.brackets.set(k, br);
            }
            k = k + 1;
        }
        proof {
            let bs = self.brackets@;
            assert forall|i: int| 0 <= i < bs.len() implies bracket_ok(self.nodes@, self.delims@, self.bytes(),
                self.text_start as int, #[trigger] bs[i]) by {
                assert(bracket_ok(self.nodes@, self.delims@, self.bytes(), self.text_start as int, bs0[i]));
            }
            assert forall|i: int, j: int| 0 <= i < j < bs.len() implies #[trigger] bs[i].node < #[trigger] bs[j].node
                && bs[i].delim_len <= bs[j].delim_len && bs[i].text_start + open_width(bs[i]) <= bs[j].text_start by {
                assert(bs0[i].node < bs0[j].node);
            }
        }
    }
}

} // verus!
