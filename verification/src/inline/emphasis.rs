//! Emphasis and strikethrough via the CommonMark delimiter stack.
//!
//! `*`/`_`/`~` runs are pushed as text nodes plus a [`Delim`] carrying their flanking classification,
//! then resolved in two family passes (attention vs strikethrough) following micromark's resolver mechanics:
//!
//! - At the end of a text run, the family whose first delimiter appeared first resolves first
//!   (micromark registers resolvers in first-use order);
//!   inside brackets and inside every formed pair,
//!   strikethrough resolves before attention (micromark's fixed `insideSpan` order).
//! - When a pair forms, live delimiters of the *other* family between the pair are re-resolved recursively
//!   within the new node's children;
//!   the pair's own family between them is dead (the spec's rule).
//!
//! Resolution never moves a node: a pair only trims its two delimiter runs and is recorded as a [`Formed`],
//! so every index stays valid; [`build`] makes the tree once at the end.
//! Exhausted delimiters stay in place with `remaining == 0`.
//! Node spans come straight from the delimiter runs' own ranges, never from arithmetic over child spans.
use std::ops::Range;
use vstd::prelude::*;
use crate::options::Constructs;
use crate::syntax::unicode::{is_punctuation, is_whitespace, spec_is_punctuation, spec_is_whitespace};
use crate::syntax::{run_from, run_len};
use crate::syntax::unicode::{char_at, char_before, spec_char_at, spec_char_before};
use super::{extent, pn_within, PN};
use super::link::Bracket;
use super::tokenizer::{bracket_ok, flushed, lemma_resolve_keeps, Tokenizer};

verus! {

/// A delimiter run on the stack: its text node, marker, unconsumed characters and flanking.
#[derive(Clone, Copy, Debug)]
pub struct Delim {
    pub node: usize,
    pub marker: u8,
    /// Unconsumed delimiter characters (0 = dead entry).
    pub remaining: usize,
    pub can_open: bool,
    pub can_close: bool,
}

/// A pair the resolver formed:
/// the node's extent (markers included), its marker and marker length.
#[derive(Debug)]
pub struct Formed {
    pub r: Range<usize>,
    pub marker: u8,
    pub len: u8,
}

/// The current text of a delimiter's run.
pub open spec fn dtext(nodes: Seq<PN>, d: Delim) -> (int, int) {
    extent(nodes[d.node as int])
}

/// The delimiter stack describes text nodes: each entry's node is a text run holding at least
/// its unconsumed characters, a `~` entry holds at most two, and entries and their runs are in
/// order without overlap.
pub open spec fn delims_wf(nodes: Seq<PN>, delims: Seq<Delim>) -> bool {
    &&& forall|k: int|
        0 <= k < delims.len() ==> {
            &&& #[trigger] delims[k].node < nodes.len()
            &&& nodes[delims[k].node as int] is Text
            &&& dtext(nodes, delims[k]).0 + delims[k].remaining <= dtext(nodes, delims[k]).1
            &&& (delims[k].marker == 126 ==> delims[k].remaining <= 2)
        }
    &&& forall|i: int, j: int|
        0 <= i < j < delims.len() ==> #[trigger] delims[i].node < #[trigger] delims[j].node && dtext(
            nodes,
            delims[i],
        ).1 <= dtext(nodes, delims[j]).0
}

/// Every formed pair covers a non-empty range ending within `len`.
pub open spec fn formed_wf(formed: Seq<Formed>, len: int) -> bool {
    forall|f: int| 0 <= f < formed.len() ==> #[trigger] formed[f].r.start < formed[f].r.end <= len
}

/// Every delimiter run lies within `len`.
pub open spec fn runs_within(nodes: Seq<PN>, delims: Seq<Delim>, len: int) -> bool {
    forall|k: int| 0 <= k < delims.len() ==> dtext(nodes, #[trigger] delims[k]).1 <= len
}

/// `f1` is `f0` with more pairs appended, each taking at least one marker character per side.
pub open spec fn formed_grows(f0: Seq<Formed>, f1: Seq<Formed>) -> bool {
    &&& f0.len() <= f1.len()
    &&& forall|k: int| 0 <= k < f0.len() ==> #[trigger] f1[k] == f0[k]
    &&& forall|k: int| f0.len() <= k < f1.len() ==> #[trigger] f1[k].len >= 1
}

/// Growth composes.
proof fn lemma_formed_grows_trans(f0: Seq<Formed>, f1: Seq<Formed>, f2: Seq<Formed>)
    requires
        formed_grows(f0, f1),
        formed_grows(f1, f2),
    ensures
        formed_grows(f0, f2),
{
    assert forall|k: int| 0 <= k < f0.len() implies #[trigger] f2[k] == f0[k] by {
        assert(f2[k] == f1[k]);
    }
    assert forall|k: int| f0.len() <= k < f2.len() implies #[trigger] f2[k].len >= 1 by {
        if k < f1.len() {
            assert(f2[k] == f1[k]);
        }
    }
}

/// Entries `lo` and `lo + 1` are all of `[lo, hi)`: a live opener and a live closer of one marker
/// of the family the pass handles, with sizes the pairing rules allow.
pub open spec fn adjacent_ready(d: Seq<Delim>, lo: int, hi: int, tilde_pass: bool) -> bool {
    &&& 0 <= lo
    &&& hi == lo + 2
    &&& hi <= d.len()
    &&& d[lo].can_open
    &&& d[lo].remaining > 0
    &&& d[lo + 1].can_close
    &&& d[lo + 1].remaining > 0
    &&& d[lo].marker == d[lo + 1].marker
    &&& (d[lo + 1].marker == 126) == tilde_pass
    &&& tilde_pass ==> d[lo].remaining == d[lo + 1].remaining
    &&& !tilde_pass ==> !rule_of_three_forbids(
        d[lo].can_close || d[lo + 1].can_open,
        d[lo].remaining as int,
        d[lo + 1].remaining as int,
    )
}

/// Two ranges are apart or one holds the other.
pub open spec fn nest_or_apart(a: Range<usize>, b: Range<usize>) -> bool {
    ||| a.end <= b.start
    ||| b.end <= a.start
    ||| (a.start <= b.start && b.end <= a.end)
    ||| (b.start <= a.start && a.end <= b.end)
}

/// Pair `f` lies between the runs of entries `o` and `c` of `d` over `n`, and every entry
/// strictly between them is used up.
pub open spec fn anchored(n: Seq<PN>, d: Seq<Delim>, f: Formed, o: int, c: int) -> bool {
    &&& 0 <= o < c < d.len()
    &&& dtext(n, d[o]).1 <= f.r.start
    &&& f.r.end <= dtext(n, d[c]).0
    &&& forall|q: int| o < q < c ==> #[trigger] d[q].remaining == 0
}

/// Pair `f` is anchored between some two entries.
pub open spec fn held(n: Seq<PN>, d: Seq<Delim>, f: Formed) -> bool {
    exists|o: int, c: int| #[trigger] anchored(n, d, f, o, c)
}

/// The pairs of `fs` from `base` on are anchored over `d`, and any two of them nest or lie apart.
pub open spec fn pairs_held(n: Seq<PN>, d: Seq<Delim>, fs: Seq<Formed>, base: int) -> bool {
    &&& forall|k: int| base <= k < fs.len() ==> #[trigger] held(n, d, fs[k])
    &&& forall|i: int, j: int| base <= i < j < fs.len() ==> nest_or_apart(#[trigger] fs[i].r, #[trigger] fs[j].r)
}

/// Anchoring survives any step that only narrows runs and uses characters up.
proof fn lemma_held_frame(n0: Seq<PN>, d0: Seq<Delim>, n1: Seq<PN>, d1: Seq<Delim>, lo: int, hi: int, f: Formed)
    requires
        frame(n0, d0, n1, d1, lo, hi),
        held(n0, d0, f),
    ensures
        held(n1, d1, f),
{
    let (o, c) = choose|o: int, c: int| #[trigger] anchored(n0, d0, f, o, c);
    if !(lo <= o < hi) {
        assert(d1[o] == d0[o]);
    } else {
        assert(d1[o].node == d0[o].node);
    }
    if !(lo <= c < hi) {
        assert(d1[c] == d0[c]);
    } else {
        assert(d1[c].node == d0[c].node);
    }
    assert forall|q: int| o < q < c implies #[trigger] d1[q].remaining == 0 by {
        assert(d0[q].remaining == 0);
        if !(lo <= q < hi) {
            assert(d1[q] == d0[q]);
        }
    }
    assert(anchored(n1, d1, f, o, c));
}

proof fn lemma_pairs_held_frame(
    n0: Seq<PN>,
    d0: Seq<Delim>,
    n1: Seq<PN>,
    d1: Seq<Delim>,
    lo: int,
    hi: int,
    fs: Seq<Formed>,
    base: int,
)
    requires
        frame(n0, d0, n1, d1, lo, hi),
        pairs_held(n0, d0, fs, base),
    ensures
        pairs_held(n1, d1, fs, base),
{
    assert forall|k: int| base <= k < fs.len() implies #[trigger] held(n1, d1, fs[k]) by {
        lemma_held_frame(n0, d0, n1, d1, lo, hi, fs[k]);
    }
}

/// A pair taking `m` characters from the ends of two live runs nests with, or lies apart from,
/// any anchored pair.
proof fn lemma_new_pair_nests(n: Seq<PN>, d: Seq<Delim>, f: Formed, o2: int, c2: int, m: int, r: Range<usize>)
    requires
        delims_wf(n, d),
        held(n, d, f),
        0 <= o2 < c2 < d.len(),
        1 <= m <= d[o2].remaining,
        m <= d[c2].remaining,
        r.start == dtext(n, d[o2]).1 - m,
        r.end == dtext(n, d[c2]).0 + m,
    ensures
        nest_or_apart(f.r, r),
{
    let (o, c) = choose|o: int, c: int| #[trigger] anchored(n, d, f, o, c);
    assert(d[o2].node < n.len() && d[c2].node < n.len());
    if o < o2 && o2 < c {
        assert(d[o2].remaining == 0);
    }
    if o < c2 && c2 < c {
        assert(d[c2].remaining == 0);
    }
    if c2 < o {
        assert(dtext(n, d[c2]).1 <= dtext(n, d[o]).0);
    }
    if o2 < o {
        assert(dtext(n, d[o2]).1 <= dtext(n, d[o]).0);
    }
    if c < c2 {
        assert(dtext(n, d[c]).1 <= dtext(n, d[c2]).0);
    }
    if c < o2 {
        assert(dtext(n, d[c]).1 <= dtext(n, d[o2]).0);
    }
    assert(dtext(n, d[o]).0 + d[o].remaining <= dtext(n, d[o]).1);
    assert(dtext(n, d[c]).0 + d[c].remaining <= dtext(n, d[c]).1);
    assert(dtext(n, d[o2]).0 + d[o2].remaining <= dtext(n, d[o2]).1);
    assert(dtext(n, d[c2]).0 + d[c2].remaining <= dtext(n, d[c2]).1);
}

/// After a pair forms between two live entries with everything between them used up, the pairs
/// stay anchored and pairwise nested or apart.
proof fn lemma_pairs_held_trim(
    n2: Seq<PN>,
    d2: Seq<Delim>,
    n3: Seq<PN>,
    d3: Seq<Delim>,
    fb: Seq<Formed>,
    fa: Seq<Formed>,
    base: int,
    o: int,
    c: int,
    m: int,
)
    requires
        delims_wf(n2, d2),
        pairs_held(n2, d2, fb, base),
        0 <= base <= fb.len(),
        frame(n2, d2, n3, d3, o, c + 1),
        0 <= o < c < d2.len(),
        1 <= m <= d2[o].remaining,
        m <= d2[c].remaining,
        forall|q: int| o < q < c ==> #[trigger] d2[q].remaining == 0,
        fa.len() == fb.len() + 1,
        forall|k: int| 0 <= k < fb.len() ==> #[trigger] fa[k] == fb[k],
        fa.last().r.start == dtext(n2, d2[o]).1 - m,
        fa.last().r.end == dtext(n2, d2[c]).0 + m,
        dtext(n3, d3[o]).1 == fa.last().r.start,
        dtext(n3, d3[c]).0 == fa.last().r.end,
    ensures
        pairs_held(n3, d3, fa, base),
{
    let f = fa.last();
    assert forall|k: int| base <= k < fa.len() implies #[trigger] held(n3, d3, fa[k]) by {
        if k < fb.len() {
            assert(fa[k] == fb[k]);
            assert(held(n2, d2, fb[k]));
            lemma_held_frame(n2, d2, n3, d3, o, c + 1, fb[k]);
        } else {
            assert forall|q: int| o < q < c implies #[trigger] d3[q].remaining == 0 by {
                assert(d2[q].remaining == 0);
            }
            assert(anchored(n3, d3, f, o, c));
        }
    }
    assert forall|i: int, j: int| base <= i < j < fa.len() implies nest_or_apart(#[trigger] fa[i].r, #[trigger] fa[j].r) by {
        if j < fb.len() {
            assert(fa[i] == fb[i] && fa[j] == fb[j]);
        } else {
            assert(fa[i] == fb[i]);
            assert(held(n2, d2, fb[i]));
            lemma_new_pair_nests(n2, d2, fb[i], o, c, m, f.r);
        }
    }
}

/// Characters a pair takes from each side, given what remains of the opener (`ro`) and the
/// closer (`rc`): a strikethrough pair takes the whole run, emphasis two (strong) when both
/// sides have two, else one.
pub open spec fn taken(marker: u8, ro: int, rc: int) -> int {
    if marker == 126 {
        rc
    } else if ro >= 2 && rc >= 2 {
        2
    } else {
        1
    }
}

/// The rule of three, on the current sizes: when either side can both open and close, the
/// sizes may not sum to a multiple of three unless both are multiples of three.
pub open spec fn rule_of_three_forbids(both_ways: bool, ro: int, rc: int) -> bool {
    both_ways && rc % 3 != 0 && (ro + rc) % 3 == 0
}

/// Pair `f` was formed from the opener entry `o` and the closer entry `c` of `d` over `n`:
/// same marker, flanking that allows it, its range starting inside the opener's run and ending
/// inside the closer's, one or two characters per side.
pub open spec fn pair_from(n: Seq<PN>, d: Seq<Delim>, f: Formed, o: int, c: int, ro: int, rc: int) -> bool {
    &&& 0 <= o < c < d.len()
    &&& 1 <= ro <= d[o].remaining
    &&& 1 <= rc <= d[c].remaining
    &&& f.len == taken(f.marker, ro, rc)
    &&& f.marker == 126 ==> ro == rc
    &&& f.marker != 126 ==> !rule_of_three_forbids(d[o].can_close || d[c].can_open, ro, rc)
    &&& d[o].marker == d[c].marker
    &&& f.marker == d[o].marker
    &&& d[o].can_open
    &&& d[c].can_close
    &&& dtext(n, d[o]).0 <= f.r.start < dtext(n, d[o]).1
    &&& dtext(n, d[c]).0 <= f.r.end - 1 < dtext(n, d[c]).1
    &&& 1 <= f.len <= 2
}

/// Pair `f` was formed from an opener and a closer entry in `[lo, hi)` of `d` over `n`.
pub open spec fn formed_in(n: Seq<PN>, d: Seq<Delim>, f: Formed, lo: int, hi: int) -> bool {
    exists|o: int, c: int, ro: int, rc: int| lo <= o && c < hi && #[trigger] pair_from(n, d, f, o, c, ro, rc)
}

/// Every pair `f1` gained over `f0` was formed from entries in `[lo, hi)` of `d` over `n`.
pub open spec fn pairs_from(n: Seq<PN>, d: Seq<Delim>, f0: Seq<Formed>, f1: Seq<Formed>, lo: int, hi: int) -> bool {
    forall|k: int| f0.len() <= k < f1.len() ==> #[trigger] formed_in(n, d, f1[k], lo, hi)
}

/// A pair formed over a later state was formed over an earlier one, when a frame links them.
proof fn lemma_formed_in_back(
    n0: Seq<PN>,
    d0: Seq<Delim>,
    n1: Seq<PN>,
    d1: Seq<Delim>,
    f: Formed,
    lo: int,
    hi: int,
    a: int,
    b: int,
)
    requires
        frame(n0, d0, n1, d1, lo, hi),
        formed_in(n1, d1, f, a, b),
        lo <= a,
        b <= hi,
    ensures
        formed_in(n0, d0, f, lo, hi),
{
    let (o, c, ro, rc) = choose|o: int, c: int, ro: int, rc: int| a <= o && c < b && #[trigger] pair_from(n1, d1, f, o, c, ro, rc);
    assert(d1[o].node == d0[o].node);
    assert(d1[c].node == d0[c].node);
    assert(pair_from(n0, d0, f, o, c, ro, rc));
}

/// Pairs gained over a later state were formed over an earlier one, when a frame links them.
proof fn lemma_pairs_from_back(
    n0: Seq<PN>,
    d0: Seq<Delim>,
    n1: Seq<PN>,
    d1: Seq<Delim>,
    f0: Seq<Formed>,
    f1: Seq<Formed>,
    lo: int,
    hi: int,
    a: int,
    b: int,
)
    requires
        frame(n0, d0, n1, d1, lo, hi),
        pairs_from(n1, d1, f0, f1, a, b),
        lo <= a,
        b <= hi,
    ensures
        pairs_from(n0, d0, f0, f1, lo, hi),
{
    assert forall|k: int| f0.len() <= k < f1.len() implies #[trigger] formed_in(n0, d0, f1[k], lo, hi) by {
        lemma_formed_in_back(n0, d0, n1, d1, f1[k], lo, hi, a, b);
    }
}

/// Pairs gained in two steps, each traced back to the first state.
proof fn lemma_pairs_from_trans(
    n0: Seq<PN>,
    d0: Seq<Delim>,
    f0: Seq<Formed>,
    f1: Seq<Formed>,
    f2: Seq<Formed>,
    lo: int,
    hi: int,
)
    requires
        formed_grows(f1, f2),
        f0.len() <= f1.len(),
        pairs_from(n0, d0, f0, f1, lo, hi),
        pairs_from(n0, d0, f1, f2, lo, hi),
    ensures
        pairs_from(n0, d0, f0, f2, lo, hi),
{
    assert forall|k: int| f0.len() <= k < f2.len() implies #[trigger] formed_in(n0, d0, f2[k], lo, hi) by {
        if k < f1.len() {
            assert(f2[k] == f1[k]);
            assert(formed_in(n0, d0, f1[k], lo, hi));
        } else {
            assert(formed_in(n0, d0, f2[k], lo, hi));
        }
    }
}

/// In `[lo, hi)`, every run of the pass's family that can close but not open is used up.
pub open spec fn closers_exhausted(d0: Seq<Delim>, d1: Seq<Delim>, lo: int, hi: int, tilde: bool) -> bool {
    forall|k: int|
        lo <= k < hi && (d0[k].marker == 126) == tilde && d0[k].can_close && !d0[k].can_open ==> #[trigger] d1[k].remaining
            == 0
}

/// Outside `[lo, hi)` the stack entries and their runs are as they were.
pub open spec fn frame(
    nodes0: Seq<PN>,
    delims0: Seq<Delim>,
    nodes1: Seq<PN>,
    delims1: Seq<Delim>,
    lo: int,
    hi: int,
) -> bool {
    &&& nodes1.len() == nodes0.len()
    &&& delims1.len() == delims0.len()
    &&& forall|k: int|
        #![trigger delims1[k]]
        0 <= k < delims0.len() && !(lo <= k < hi) ==> delims1[k] == delims0[k]
            && nodes1[delims0[k].node as int] == nodes0[delims0[k].node as int]
    &&& forall|k: int|
        #![trigger delims1[k]]
        lo <= k < hi ==> delims1[k].node == delims0[k].node && delims1[k].marker
            == delims0[k].marker && delims1[k].remaining <= delims0[k].remaining && delims1[k].can_open
            == delims0[k].can_open && delims1[k].can_close == delims0[k].can_close
            && dtext(nodes0, delims0[k]).0 <= dtext(nodes1, delims1[k]).0 && dtext(nodes1, delims1[k]).1
            <= dtext(nodes0, delims0[k]).1
    &&& forall|i: int|
        0 <= i < nodes0.len() && !(nodes0[i] is Text) ==> #[trigger] nodes1[i] == nodes0[i]
}

/// Every node is as it was, or a text run narrowed within its old range.
pub open spec fn shrinks(n0: Seq<PN>, n1: Seq<PN>) -> bool {
    &&& n1.len() == n0.len()
    &&& forall|i: int|
        0 <= i < n0.len() ==> #[trigger] n1[i] == n0[i] || (n0[i] is Text && n1[i] is Text && extent(n0[i]).0
            <= extent(n1[i]).0 <= extent(n1[i]).1 <= extent(n0[i]).1)
}

/// Narrowing composes.
pub proof fn lemma_shrinks_trans(n0: Seq<PN>, n1: Seq<PN>, n2: Seq<PN>)
    requires
        shrinks(n0, n1),
        shrinks(n1, n2),
    ensures
        shrinks(n0, n2),
{
    assert forall|i: int| 0 <= i < n0.len() implies #[trigger] n2[i] == n0[i] || (n0[i] is Text && n2[i] is Text
        && extent(n0[i]).0 <= extent(n2[i]).0 <= extent(n2[i]).1 <= extent(n0[i]).1) by {
        assert(n1[i] == n0[i] || (n0[i] is Text && n1[i] is Text));
        assert(n2[i] == n1[i] || (n1[i] is Text && n2[i] is Text));
    }
}

impl<'i, 'r> Tokenizer<'i, 'r> {
    pub(crate) fn delimiter_run(&mut self)
        requires
            old(self).wf(),
            old(self).pos < old(self).bytes().len(),
            old(self).bytes()[old(self).pos as int] == 42 || old(self).bytes()[old(self).pos as int] == 95
                || old(self).bytes()[old(self).pos as int] == 126,
        ensures
            final(self).wf(),
            old(self).pos < final(self).pos,
            final(self).t == old(self).t,
            ({
                let b = old(self).bytes();
                let p = old(self).pos as int;
                let n = final(self).pos - p;
                let m = b[p];
                let fl = spec_classify(m, spec_char_before(b, p), spec_char_at(b, p + n), old(self).constructs.gfm_strikethrough);
                let registers = run_valid(m, n as usize, *old(self).constructs) && (fl.0 || fl.1);
                &&& run_from(b, p, m, n)
                &&& final(self).nodes@ == flushed(old(self).nodes@, old(self).text_start, old(self).pos).push(
                    PN::Text(old(self).pos..final(self).pos),
                )
                &&& registers ==> final(self).delims@ == old(self).delims@.push(
                    Delim {
                        node: (final(self).nodes@.len() - 1) as usize,
                        marker: m,
                        remaining: n as usize,
                        can_open: fl.0,
                        can_close: fl.1,
                    },
                )
                &&& !registers ==> final(self).delims@ == old(self).delims@
            }),
    {
        proof {
            reveal(Tokenizer::wf);
        }
        let bytes = self.t.as_bytes();
        let marker = bytes[self.pos];
        let start = self.pos;
        let len = run_len(bytes, start, marker);
        let prev = char_before(bytes, start);
        let next = match char_at(bytes, start + len) {
            Some((c, _)) => Some(c),
            None => None,
        };
        let run = Run::new(marker, len, prev, next, self.constructs);
        self.flush_text(start);
        let ghost n0 = self.nodes@;
        let ghost ts0 = self.text_start;
        self.emit(PN::Text(start..start + len), start + len);
        // A family's resolver registers when its construct succeeds,
        // which is every `*`/`_` run and every valid-length `~` run,
        // regardless of whether the run can open or close.
        if run.valid && self.first_delim_tilde.is_none() {
            self.first_delim_tilde = Some(marker == 126);
        }
        if run.can_open || run.can_close {
            let ghost d0 = self.delims@;
            let d = Delim {
                node: self.nodes.len() - 1,
                marker,
                remaining: len,
                can_open: run.can_open,
                can_close: run.can_close,
            };
            self.delims.push(d);
            proof {
                let nodes = self.nodes@;
                let delims = self.delims@;
                assert(delims[d0.len() as int] == d);
                assert forall|k: int| 0 <= k < d0.len() implies #[trigger] delims[k] == d0[k] && d0[k].node < n0.len()
                    && nodes[d0[k].node as int] == n0[d0[k].node as int] && dtext(nodes, d0[k]).1 <= start by {
                    assert(dtext(n0, d0[k]).1 <= ts0);
                }
                assert forall|k: int| 0 <= k < delims.len() implies {
                    &&& #[trigger] delims[k].node < nodes.len()
                    &&& nodes[delims[k].node as int] is Text
                    &&& dtext(nodes, delims[k]).0 + delims[k].remaining <= dtext(nodes, delims[k]).1
                    &&& (delims[k].marker == 126 ==> delims[k].remaining <= 2)
                } by {
                    if k < d0.len() {
                        assert(delims[k] == d0[k]);
                    }
                }
                assert forall|i: int, j: int| 0 <= i < j < delims.len() implies #[trigger] delims[i].node
                    < #[trigger] delims[j].node && dtext(nodes, delims[i]).1 <= dtext(nodes, delims[j]).0 by {
                    assert(delims[i] == d0[i]);
                    if j < d0.len() {
                        assert(delims[j] == d0[j]);
                    }
                }
                assert(delims_wf(nodes, delims));
                assert forall|k: int| 0 <= k < delims.len() implies dtext(nodes, #[trigger] delims[k]).1
                    <= self.text_start by {
                    if k < d0.len() {
                        assert(delims[k] == d0[k]);
                    }
                }
                let bs = self.brackets@;
                assert forall|k: int| 0 <= k < bs.len() implies bracket_ok(
                    nodes,
                    delims,
                    self.bytes(),
                    self.text_start as int,
                    #[trigger] bs[k],
                ) by {
                    let b = bs[k];
                    assert(bracket_ok(nodes, d0, self.bytes(), self.text_start as int, b));
                    assert forall|q: int| 0 <= q < b.delim_len implies #[trigger] delims[q].node < b.node by {
                        assert(delims[q] == d0[q]);
                    }
                    assert forall|q: int| b.delim_len <= q < delims.len() implies #[trigger] delims[q].node > b.node by {
                        if q < d0.len() {
                            assert(delims[q] == d0[q]);
                        }
                    }
                }
            }
        }
    }

    /// Resolution inside a bracket label:
    /// the fixed inside-a-span order (strikethrough, then attention).
    pub(crate) fn process_emphasis(&mut self, bottom: usize)
        requires
            old(self).inv(),
            bottom <= old(self).delims@.len(),
        ensures
            final(self).inv(),
            final(self).t == old(self).t,
            final(self).pos == old(self).pos,
            final(self).text_start == old(self).text_start,
            final(self).brackets@ == old(self).brackets@,
            final(self).nodes@.len() == old(self).nodes@.len(),
            final(self).delims@.len() == old(self).delims@.len(),
            forall|q: int| 0 <= q < bottom ==> #[trigger] final(self).delims@[q] == old(self).delims@[q],
            forall|q: int| 0 <= q < old(self).delims@.len() ==> #[trigger] final(self).delims@[q].node
                == old(self).delims@[q].node,
            formed_grows(old(self).formed@, final(self).formed@),
            pairs_from(old(self).nodes@, old(self).delims@, old(self).formed@, final(self).formed@, bottom as int,
                old(self).delims@.len() as int),
            forall|i: int, j: int|
                old(self).formed@.len() <= i < j < final(self).formed@.len() ==> nest_or_apart(
                    #[trigger] final(self).formed@[i].r,
                    #[trigger] final(self).formed@[j].r,
                ),
            closers_exhausted(old(self).delims@, final(self).delims@, bottom as int, old(self).delims@.len() as int, true),
            closers_exhausted(old(self).delims@, final(self).delims@, bottom as int, old(self).delims@.len() as int, false),
    {
        proof {
            reveal(Tokenizer::wf);
        }
        let hi = self.delims.len();
        let ghost n0 = self.nodes@;
        let ghost d0 = self.delims@;
        let ghost fbase = self.formed@.len() as int;
        resolve(&mut self.nodes, &mut self.delims, bottom, hi, true, &mut self.formed, Ghost(self.text_start as int),
            Ghost(fbase));
        proof {
            lemma_resolve_keeps(n0, self.nodes@, d0, self.delims@, self.bytes(), self.text_start as int, self.brackets@,
                bottom as int, hi as int);
            assert forall|q: int| 0 <= q < d0.len() implies #[trigger] self.delims@[q].node == d0[q].node by {
                if q < bottom {
                    assert(self.delims@[q] == d0[q]);
                }
            }
        }
    }

    /// End-of-run resolution: the first-used family resolves first.
    pub(crate) fn process_emphasis_final(&mut self)
        requires
            old(self).inv(),
        ensures
            final(self).inv(),
            final(self).t == old(self).t,
            final(self).pos == old(self).pos,
            final(self).text_start == old(self).text_start,
            final(self).delims@.len() == old(self).delims@.len(),
            formed_grows(old(self).formed@, final(self).formed@),
            pairs_from(old(self).nodes@, old(self).delims@, old(self).formed@, final(self).formed@, 0,
                old(self).delims@.len() as int),
            forall|i: int, j: int|
                old(self).formed@.len() <= i < j < final(self).formed@.len() ==> nest_or_apart(
                    #[trigger] final(self).formed@[i].r,
                    #[trigger] final(self).formed@[j].r,
                ),
            closers_exhausted(old(self).delims@, final(self).delims@, 0, old(self).delims@.len() as int, true),
            closers_exhausted(old(self).delims@, final(self).delims@, 0, old(self).delims@.len() as int, false),
    {
        proof {
            reveal(Tokenizer::wf);
        }
        let tilde_first = match self.first_delim_tilde {
            Some(t) => t,
            None => false,
        };
        let hi = self.delims.len();
        let ghost n0 = self.nodes@;
        let ghost d0 = self.delims@;
        let ghost fbase = self.formed@.len() as int;
        resolve(&mut self.nodes, &mut self.delims, 0, hi, tilde_first, &mut self.formed, Ghost(self.text_start as int),
            Ghost(fbase));
        proof {
            lemma_resolve_keeps(n0, self.nodes@, d0, self.delims@, self.bytes(), self.text_start as int, self.brackets@,
                0, hi as int);
        }
    }
}

/// Resolution of the delimiter entries `[lo, hi)`, both families, `~` first when `tilde_first`.
fn resolve(
    nodes: &mut Vec<PN>,
    delims: &mut Vec<Delim>,
    lo: usize,
    hi: usize,
    tilde_first: bool,
    formed: &mut Vec<Formed>,
    Ghost(len): Ghost<int>,
    Ghost(base): Ghost<int>,
)
    requires
        lo <= hi <= old(delims)@.len(),
        delims_wf(old(nodes)@, old(delims)@),
        runs_within(old(nodes)@, old(delims)@, len),
        formed_wf(old(formed)@, len),
        0 <= base <= old(formed)@.len(),
        pairs_held(old(nodes)@, old(delims)@, old(formed)@, base),
    ensures
        pairs_held(final(nodes)@, final(delims)@, final(formed)@, base),
        delims_wf(final(nodes)@, final(delims)@),
        runs_within(final(nodes)@, final(delims)@, len),
        formed_wf(final(formed)@, len),
        frame(old(nodes)@, old(delims)@, final(nodes)@, final(delims)@, lo as int, hi as int),
        shrinks(old(nodes)@, final(nodes)@),
        formed_grows(old(formed)@, final(formed)@),
        pairs_from(old(nodes)@, old(delims)@, old(formed)@, final(formed)@, lo as int, hi as int),
        closers_exhausted(old(delims)@, final(delims)@, lo as int, hi as int, true),
        closers_exhausted(old(delims)@, final(delims)@, lo as int, hi as int, false),
        adjacent_ready(old(delims)@, lo as int, hi as int, true) || adjacent_ready(old(delims)@, lo as int, hi as int, false)
            ==> final(formed)@.len() > old(formed)@.len(),
    decreases hi - lo, 1int,
{
    let order_first = tilde_first;
    let mut round: usize = 0;
    let ghost nodes0 = nodes@;
    let ghost delims0 = delims@;
    while round < 2
        invariant
            round <= 2,
            lo <= hi <= delims@.len(),
            delims_wf(nodes@, delims@),
            runs_within(nodes@, delims@, len),
            formed_wf(formed@, len),
            frame(nodes0, delims0, nodes@, delims@, lo as int, hi as int),
            shrinks(nodes0, nodes@),
            formed_grows(old(formed)@, formed@),
            delims0 == old(delims)@,
            nodes0 == old(nodes)@,
            pairs_from(nodes0, delims0, old(formed)@, formed@, lo as int, hi as int),
            0 <= base <= formed@.len(),
            pairs_held(nodes@, delims@, formed@, base),
            round >= 1 ==> closers_exhausted(delims0, delims@, lo as int, hi as int, order_first),
            round >= 2 ==> closers_exhausted(delims0, delims@, lo as int, hi as int, !order_first),
            (adjacent_ready(delims0, lo as int, hi as int, true) || adjacent_ready(delims0, lo as int, hi as int, false))
                && formed@.len() == old(formed)@.len() ==> delims@ == delims0 && round < 2 && !(round >= 1
                && adjacent_ready(delims0, lo as int, hi as int, order_first)),
        decreases 2 - round,
    {
        let tilde_pass = if round == 0 { order_first } else { !order_first };
        let mut any = false;
        let mut k = lo;
        while k < hi
            invariant
                lo <= k <= hi <= delims@.len(),
                !any ==> forall|q: int|
                    lo <= q < k ==> !(#[trigger] delims@[q].remaining > 0 && delims@[q].can_close && (delims@[q].marker
                        == 126) == tilde_pass),
                adjacent_ready(delims@, lo as int, hi as int, !tilde_pass) ==> !any,
            decreases hi - k,
        {
            let d = delims[k];
            if d.remaining > 0 && d.can_close && (d.marker == 126) == tilde_pass {
                any = true;
            }
            k = k + 1;
        }
        proof {
            if adjacent_ready(delims@, lo as int, hi as int, tilde_pass) {
                assert(delims@[lo + 1].remaining > 0 && delims@[lo + 1].can_close);
            }
        }
        if any {
            let ghost n1 = nodes@;
            let ghost d1 = delims@;
            let ghost f1 = formed@;
            pass(nodes, delims, lo, hi, tilde_pass, formed, Ghost(len), Ghost(base));
            proof {
                lemma_formed_grows_trans(old(formed)@, f1, formed@);
                assert forall|q: int| lo <= q < hi implies d1[q].marker == delims0[q].marker && d1[q].can_open
                    == delims0[q].can_open && d1[q].can_close == delims0[q].can_close && #[trigger] delims@[q].remaining
                    <= d1[q].remaining by {}
                lemma_frame_trans(nodes0, delims0, n1, d1, nodes@, delims@, lo as int, hi as int);
                lemma_shrinks_trans(nodes0, n1, nodes@);
                lemma_pairs_from_back(nodes0, delims0, n1, d1, f1, formed@, lo as int, hi as int, lo as int, hi as int);
                lemma_pairs_from_trans(nodes0, delims0, old(formed)@, f1, formed@, lo as int, hi as int);
            }
        }
        round = round + 1;
    }
}

/// Frames compose.
proof fn lemma_frame_trans(
    n0: Seq<PN>,
    d0: Seq<Delim>,
    n1: Seq<PN>,
    d1: Seq<Delim>,
    n2: Seq<PN>,
    d2: Seq<Delim>,
    lo: int,
    hi: int,
)
    requires
        frame(n0, d0, n1, d1, lo, hi),
        frame(n1, d1, n2, d2, lo, hi),
    ensures
        frame(n0, d0, n2, d2, lo, hi),
{
    assert forall|k: int| 0 <= k < d0.len() && !(lo <= k < hi) implies #[trigger] d2[k] == d0[k]
        && n2[d0[k].node as int] == n0[d0[k].node as int] by {
        assert(d1[k] == d0[k]);
        assert(n1[d0[k].node as int] == n0[d0[k].node as int]);
        assert(d2[k] == d1[k]);
        assert(n2[d1[k].node as int] == n1[d1[k].node as int]);
    }
    assert forall|k: int| lo <= k < hi implies #[trigger] d2[k].node == d0[k].node && d2[k].marker
        == d0[k].marker && d2[k].remaining <= d0[k].remaining && dtext(n0, d0[k]).0 <= dtext(n2, d2[k]).0
        && dtext(n2, d2[k]).1 <= dtext(n0, d0[k]).1 && d2[k].can_open == d0[k].can_open && d2[k].can_close
        == d0[k].can_close by {
        assert(d1[k].node == d0[k].node);
        assert(d2[k].node == d1[k].node);
    }
    assert forall|i: int| 0 <= i < n0.len() && !(n0[i] is Text) implies #[trigger] n2[i] == n0[i] by {
        assert(n1[i] == n0[i]);
    }
}

/// Index of the opener-bottom slot for a closer: its marker, size mod 3 and whether it can open.
fn bottom_slot(underscore: bool, rem: usize, can_open: bool) -> (s: usize)
    ensures
        s == (if underscore { 6int } else { 0int }) + (rem % 3) * 2 + (if can_open { 1int } else { 0int }),
        s < 12,
{
    (if underscore { 6 } else { 0 }) + (rem % 3) * 2 + (if can_open { 1 } else { 0 })
}

/// Entry `d` can open a pair with closer `c` in this pass: one marker, `d` can open and has
/// characters left, and the sizes suit the family (equal for `~`, the rule of three otherwise).
pub open spec fn allowed_opener(d: Delim, c: Delim, tilde_pass: bool) -> bool {
    &&& d.marker == c.marker
    &&& d.can_open
    &&& d.remaining > 0
    &&& tilde_pass ==> d.remaining == c.remaining
    &&& !tilde_pass ==> !rule_of_three_forbids(d.can_close || c.can_open, d.remaining as int, c.remaining as int)
}

/// The nearest allowed opener below `closer`, scanning down to `scan_bottom` (and no lower than
/// `lo`).
fn find_opener(nodes: &Vec<PN>, delims: &Vec<Delim>, closer: usize, lo: usize, scan_bottom: usize, tilde_pass: bool) -> (r: Option<usize>)
    requires
        lo <= closer < delims@.len(),
        delims_wf(nodes@, delims@),
    ensures
        r matches Some(o) ==> lo <= o < closer && scan_bottom <= o && allowed_opener(
            delims@[o as int],
            delims@[closer as int],
            tilde_pass,
        ) && forall|q: int| o < q < closer ==> !allowed_opener(#[trigger] delims@[q], delims@[closer as int], tilde_pass),
        r is None ==> forall|q: int|
            lo <= q < closer && scan_bottom <= q ==> !allowed_opener(#[trigger] delims@[q], delims@[closer as int], tilde_pass),
{
    let c = delims[closer];
    let mut i = closer;
    while i > scan_bottom
        invariant
            i <= closer < delims@.len(),
            c == delims@[closer as int],
            delims_wf(nodes@, delims@),
            forall|q: int| i <= q < closer ==> !allowed_opener(#[trigger] delims@[q], c, tilde_pass),
        decreases i,
    {
        i = i - 1;
        if i < lo {
            return None;
        }
        let o = delims[i];
        if o.marker != c.marker || !o.can_open || o.remaining == 0 {
            continue;
        }
        if tilde_pass {
            if o.remaining == c.remaining {
                return Some(i);
            }
            continue;
        }
        proof {
            assert(dtext(nodes@, delims@[i as int]).1 <= dtext(nodes@, delims@[closer as int]).0);
            assert(delims@[closer as int].node < nodes@.len());
            assert(extent(nodes@[delims@[closer as int].node as int]).1 <= usize::MAX);
        }
        // Rule of three, micromark's exact form:
        // current (partially consumed) sizes, not original run lengths.
        let forbidden = (o.can_close || c.can_open) && c.remaining % 3 != 0 && (o.remaining + c.remaining) % 3 == 0;
        if !forbidden {
            return Some(i);
        }
    }
    None
}

/// One family pass of the spec's "process emphasis" over the entries `[lo, hi)`.
#[verifier::loop_isolation(false)]
#[verifier::rlimit(100)]
#[verifier::spinoff_prover]
fn pass(
    nodes: &mut Vec<PN>,
    delims: &mut Vec<Delim>,
    lo: usize,
    hi: usize,
    tilde_pass: bool,
    formed: &mut Vec<Formed>,
    Ghost(len): Ghost<int>,
    Ghost(base): Ghost<int>,
)
    requires
        lo <= hi <= old(delims)@.len(),
        delims_wf(old(nodes)@, old(delims)@),
        runs_within(old(nodes)@, old(delims)@, len),
        formed_wf(old(formed)@, len),
        0 <= base <= old(formed)@.len(),
        pairs_held(old(nodes)@, old(delims)@, old(formed)@, base),
    ensures
        pairs_held(final(nodes)@, final(delims)@, final(formed)@, base),
        delims_wf(final(nodes)@, final(delims)@),
        runs_within(final(nodes)@, final(delims)@, len),
        formed_wf(final(formed)@, len),
        frame(old(nodes)@, old(delims)@, final(nodes)@, final(delims)@, lo as int, hi as int),
        shrinks(old(nodes)@, final(nodes)@),
        formed_grows(old(formed)@, final(formed)@),
        pairs_from(old(nodes)@, old(delims)@, old(formed)@, final(formed)@, lo as int, hi as int),
        closers_exhausted(old(delims)@, final(delims)@, lo as int, hi as int, tilde_pass),
        adjacent_ready(old(delims)@, lo as int, hi as int, tilde_pass) ==> final(formed)@.len() > old(formed)@.len(),
    decreases hi - lo, 0int,
{
    let ghost nodes0 = nodes@;
    let ghost delims0 = delims@;
    // Lowest index worth scanning per closer class:
    // [marker is `_`][closer len % 3][closer can also open].
    let mut openers_bottom: Vec<usize> = vec![lo; 12];
    // Strikethrough pairs equal-sized runs only:
    // a failed scan rules out every opener of that size below.
    let mut tilde_bottom: Vec<usize> = vec![lo; 3];
    let mut closer = lo;
    while closer < hi
        invariant
            lo <= closer <= hi <= delims@.len(),
            openers_bottom@.len() == 12,
            tilde_bottom@.len() == 3,
            delims_wf(nodes@, delims@),
            runs_within(nodes@, delims@, len),
            formed_wf(formed@, len),
            frame(nodes0, delims0, nodes@, delims@, lo as int, hi as int),
            shrinks(nodes0, nodes@),
            formed_grows(old(formed)@, formed@),
            delims0 == old(delims)@,
            nodes0 == old(nodes)@,
            pairs_from(nodes0, delims0, old(formed)@, formed@, lo as int, hi as int),
            0 <= base <= formed@.len(),
            pairs_held(nodes@, delims@, formed@, base),
            closers_exhausted(delims0, delims@, lo as int, closer as int, tilde_pass),
            adjacent_ready(delims0, lo as int, hi as int, tilde_pass) && formed@.len() == old(formed)@.len() ==> closer
                <= lo + 1 && delims@[lo as int] == delims0[lo as int] && delims@[lo + 1] == delims0[lo + 1]
                && (forall|k: int| 0 <= k < 12 ==> #[trigger] openers_bottom@[k] == lo) && (forall|k: int|
                0 <= k < 3 ==> #[trigger] tilde_bottom@[k] == lo),
        decreases hi - closer, delims@[closer as int].remaining,
    {
        let ghost n_it = nodes@;
        let ghost d_it = delims@;
        let ghost f_it = formed@;
        let c = delims[closer];
        if (c.marker == 126) != tilde_pass || !c.can_close || c.remaining == 0 {
            closer = closer + 1;
            continue;
        }
        let slot = bottom_slot(c.marker == 95, c.remaining, c.can_open);
        let scan_bottom = if tilde_pass {
            tilde_bottom[c.remaining]
        } else {
            openers_bottom[slot]
        };
        let opener = find_opener(nodes, delims, closer, lo, scan_bottom, tilde_pass);
        let opener = match opener {
            Some(o) => o,
            None => {
                if tilde_pass {
                    tilde_bottom.set(c.remaining, closer);
                } else {
                    openers_bottom.set(slot, closer);
                }
                if !c.can_open {
                    let mut dead = c;
                    dead.remaining = 0;
                    delims.set(closer, dead);
                    proof {
                        assert(frame(n_it, d_it, nodes@, delims@, closer as int, closer + 1));
                        lemma_pairs_held_frame(n_it, d_it, nodes@, delims@, closer as int, closer + 1, formed@, base);
                    }
                }
                closer = closer + 1;
                continue;
            },
        };
        let o = delims[opener];
        let use_n = if tilde_pass {
            c.remaining
        } else if o.remaining >= 2 && c.remaining >= 2 {
            2
        } else {
            1
        };
        // Live delimiters of the other family between the pair resolve
        // within the new node's children (micromark's `insideSpan`);
        // the pair's own family between them is dead either way.
        let mut other_live = false;
        let mut k = opener + 1;
        while k < closer
            invariant
                opener + 1 <= k <= closer,
            decreases closer - k,
        {
            let d = delims[k];
            if d.remaining > 0 && (d.marker == 126) != tilde_pass {
                other_live = true;
            }
            k = k + 1;
        }
        if other_live {
            let ghost n0k = nodes@;
            let ghost d0k = delims@;
            kill(nodes, delims, opener + 1, closer, true, tilde_pass);
            let ghost n1 = nodes@;
            let ghost d1 = delims@;
            let ghost fb = formed@;
            proof {
                lemma_pairs_held_frame(n0k, d0k, n1, d1, opener + 1, closer as int, fb, base);
            }
            resolve(nodes, delims, opener + 1, closer, true, formed, Ghost(len), Ghost(base));
            proof {
                lemma_frame_widen(n0k, d0k, n1, d1, opener + 1, closer as int, lo as int, hi as int);
                lemma_frame_trans(nodes0, delims0, n0k, d0k, n1, d1, lo as int, hi as int);
                lemma_pairs_from_back(nodes0, delims0, n1, d1, fb, formed@, lo as int, hi as int, opener + 1, closer as int);
                lemma_pairs_from_trans(nodes0, delims0, old(formed)@, fb, formed@, lo as int, hi as int);
                lemma_frame_trans(n0k, d0k, n1, d1, nodes@, delims@, opener + 1, closer as int);
                lemma_frame_widen(n0k, d0k, nodes@, delims@, opener + 1, closer as int, lo as int, hi as int);
                lemma_frame_trans(nodes0, delims0, n0k, d0k, nodes@, delims@, lo as int, hi as int);
                lemma_shrinks_trans(nodes0, n0k, nodes@);
            }
        }
        let ghost nk = nodes@;
        let ghost dk = delims@;
        kill(nodes, delims, opener + 1, closer, false, tilde_pass);
        proof {
            lemma_pairs_held_frame(nk, dk, nodes@, delims@, opener + 1, closer as int, formed@, base);
            lemma_frame_widen(nk, dk, nodes@, delims@, opener + 1, closer as int, lo as int, hi as int);
            lemma_frame_trans(nodes0, delims0, nk, dk, nodes@, delims@, lo as int, hi as int);
        }
        let ghost n2 = nodes@;
        let ghost d2 = delims@;
        let ghost fb = formed@;
        trim_pair(nodes, delims, opener, closer, use_n, formed, Ghost(len));
        proof {
            lemma_pairs_held_trim(n2, d2, nodes@, delims@, fb, formed@, base, opener as int, closer as int, use_n as int);
            assert(formed_in(n2, d2, formed@.last(), opener as int, closer + 1));
            lemma_formed_in_back(nodes0, delims0, n2, d2, formed@.last(), lo as int, hi as int, opener as int, closer + 1);
            assert forall|k: int| old(formed)@.len() <= k < formed@.len() implies #[trigger] formed_in(nodes0, delims0, formed@[k], lo as int, hi as int) by {
                if k < fb.len() {
                    assert(formed@[k] == fb[k]);
                    assert(formed_in(nodes0, delims0, fb[k], lo as int, hi as int));
                }
            }
            lemma_frame_widen(n2, d2, nodes@, delims@, opener as int, closer + 1, lo as int, hi as int);
            lemma_frame_trans(nodes0, delims0, n2, d2, nodes@, delims@, lo as int, hi as int);
            lemma_shrinks_trans(nodes0, n2, nodes@);
        }
        let o2 = delims[opener];
        let c2 = delims[closer];
        // The opener's size changed mod 3,
        // so rule-of-three verdicts recorded in the bottoms above it are stale:
        // rewind same-marker bottoms down to the opener.
        // A used-up opener needs no rewind, it can never pair again.
        if !tilde_pass && o2.remaining > 0 {
            let base: usize = if o2.marker == 95 { 6 } else { 0 };
            let mut s: usize = 0;
            while s < 6
                invariant
                    s <= 6,
                    base <= 6,
                    openers_bottom@.len() == 12,
                decreases 6 - s,
            {
                if openers_bottom[base + s] > opener {
                    openers_bottom.set(base + s, opener);
                }
                s = s + 1;
            }
        }
        if c2.remaining == 0 {
            closer = closer + 1;
        }
    }
}

/// A frame over a sub-range is a frame over any range holding it.
proof fn lemma_frame_widen(
    n0: Seq<PN>,
    d0: Seq<Delim>,
    n1: Seq<PN>,
    d1: Seq<Delim>,
    a: int,
    b: int,
    lo: int,
    hi: int,
)
    requires
        frame(n0, d0, n1, d1, a, b),
        0 <= lo <= a <= b <= hi <= d0.len(),
    ensures
        frame(n0, d0, n1, d1, lo, hi),
{
    assert forall|k: int| lo <= k < hi implies #[trigger] d1[k].node == d0[k].node && d1[k].marker
        == d0[k].marker && d1[k].remaining <= d0[k].remaining && dtext(n0, d0[k]).0 <= dtext(n1, d1[k]).0
        && dtext(n1, d1[k]).1 <= dtext(n0, d0[k]).1 && d1[k].can_open == d0[k].can_open && d1[k].can_close
        == d0[k].can_close by {
        if !(a <= k < b) && 0 <= k < d0.len() {
            assert(d1[k] == d0[k]);
        }
    }
}

/// The range of a delimiter's text node.
fn text_range(nodes: &Vec<PN>, node: usize) -> (r: (usize, usize))
    requires
        node < nodes@.len(),
        nodes@[node as int] is Text,
    ensures
        (r.0 as int, r.1 as int) == extent(nodes@[node as int]),
{
    match &nodes[node] {
        PN::Text(r) => (r.start, r.end),
        _ => (0, 0),
    }
}

/// Sets `remaining` to 0 for every entry in `[a, b)` (of `tilde`'s family only, when `family`).
fn kill(nodes: &Vec<PN>, delims: &mut Vec<Delim>, a: usize, b: usize, family: bool, tilde: bool)
    requires
        a <= b <= old(delims)@.len(),
        delims_wf(nodes@, old(delims)@),
    ensures
        delims_wf(nodes@, final(delims)@),
        frame(nodes@, old(delims)@, nodes@, final(delims)@, a as int, b as int),
        forall|k: int|
            a <= k < b ==> #[trigger] final(delims)@[k].remaining == (if !family || (old(delims)@[k].marker == 126)
                == tilde {
                0
            } else {
                old(delims)@[k].remaining
            }) && final(delims)@[k].can_open == old(delims)@[k].can_open && final(delims)@[k].can_close
                == old(delims)@[k].can_close,
{
    let ghost d0 = delims@;
    let mut k = a;
    while k < b
        invariant
            a <= k <= b <= delims@.len(),
            delims@.len() == d0.len(),
            delims_wf(nodes@, delims@),
            frame(nodes@, d0, nodes@, delims@, a as int, b as int),
            forall|q: int| k <= q < b ==> #[trigger] delims@[q] == d0[q],
            forall|q: int|
                a <= q < k ==> #[trigger] delims@[q].remaining == (if !family || (d0[q].marker == 126) == tilde {
                    0
                } else {
                    d0[q].remaining
                }) && delims@[q].can_open == d0[q].can_open && delims@[q].can_close == d0[q].can_close,
        decreases b - k,
    {
        let d = delims[k];
        if !family || (d.marker == 126) == tilde {
            let mut dead = d;
            dead.remaining = 0;
            delims.set(k, dead);
        }
        k = k + 1;
    }
}

/// Forms a pair from `use_n` characters of the opener's tail and the closer's head.
fn trim_pair(
    nodes: &mut Vec<PN>,
    delims: &mut Vec<Delim>,
    opener: usize,
    closer: usize,
    use_n: usize,
    formed: &mut Vec<Formed>,
    Ghost(len): Ghost<int>,
)
    requires
        opener < closer < old(delims)@.len(),
        delims_wf(old(nodes)@, old(delims)@),
        runs_within(old(nodes)@, old(delims)@, len),
        formed_wf(old(formed)@, len),
        1 <= use_n <= 2,
        use_n <= old(delims)@[opener as int].remaining,
        use_n <= old(delims)@[closer as int].remaining,
        old(delims)@[opener as int].marker == old(delims)@[closer as int].marker,
        old(delims)@[opener as int].can_open,
        old(delims)@[closer as int].can_close,
        use_n == taken(
            old(delims)@[opener as int].marker,
            old(delims)@[opener as int].remaining as int,
            old(delims)@[closer as int].remaining as int,
        ),
        old(delims)@[opener as int].marker == 126 ==> old(delims)@[opener as int].remaining == old(
            delims,
        )@[closer as int].remaining,
        old(delims)@[opener as int].marker != 126 ==> !rule_of_three_forbids(
            old(delims)@[opener as int].can_close || old(delims)@[closer as int].can_open,
            old(delims)@[opener as int].remaining as int,
            old(delims)@[closer as int].remaining as int,
        ),
    ensures
        delims_wf(final(nodes)@, final(delims)@),
        runs_within(final(nodes)@, final(delims)@, len),
        formed_wf(final(formed)@, len),
        frame(old(nodes)@, old(delims)@, final(nodes)@, final(delims)@, opener as int, closer + 1),
        shrinks(old(nodes)@, final(nodes)@),
        final(delims)@[closer as int].remaining == old(delims)@[closer as int].remaining - use_n,
        final(delims)@[opener as int].remaining == old(delims)@[opener as int].remaining - use_n,
        formed_grows(old(formed)@, final(formed)@),
        final(formed)@.len() == old(formed)@.len() + 1,
        final(formed)@.last().r.start == dtext(old(nodes)@, old(delims)@[opener as int]).1 - use_n,
        final(formed)@.last().r.end == dtext(old(nodes)@, old(delims)@[closer as int]).0 + use_n,
        dtext(final(nodes)@, final(delims)@[opener as int]).1 == final(formed)@.last().r.start,
        dtext(final(nodes)@, final(delims)@[closer as int]).0 == final(formed)@.last().r.end,
        pair_from(
            old(nodes)@,
            old(delims)@,
            final(formed)@.last(),
            opener as int,
            closer as int,
            old(delims)@[opener as int].remaining as int,
            old(delims)@[closer as int].remaining as int,
        ),
{
    let ghost n0 = nodes@;
    let ghost d0 = delims@;
    let o = delims[opener];
    let c = delims[closer];
    let (os, oe) = text_range(nodes, o.node);
    let (cs, ce) = text_range(nodes, c.node);
    proof {
        assert(o.node < c.node && oe <= cs);
    }
    nodes.set(o.node, PN::Text(os..oe - use_n));
    nodes.set(c.node, PN::Text(cs + use_n..ce));
    formed.push(Formed { r: oe - use_n..cs + use_n, marker: o.marker, len: use_n as u8 });
    let mut o2 = o;
    o2.remaining = o.remaining - use_n;
    delims.set(opener, o2);
    let mut c2 = c;
    c2.remaining = c.remaining - use_n;
    delims.set(closer, c2);
    proof {
        let n1 = nodes@;
        let d1 = delims@;
        assert forall|k: int| 0 <= k < d1.len() && k != opener && k != closer implies n1[d1[k].node as int]
            == n0[d0[k].node as int] by {
            assert(d1[k] == d0[k]);
            if k < opener {
                assert(d0[k].node < d0[opener as int].node);
            } else if k < closer {
                assert(d0[opener as int].node < d0[k].node < d0[closer as int].node);
            } else {
                assert(d0[closer as int].node < d0[k].node);
            }
        }
        assert forall|i: int, j: int| 0 <= i < j < d1.len() implies #[trigger] d1[i].node < #[trigger] d1[j].node
            && dtext(n1, d1[i]).1 <= dtext(n1, d1[j]).0 by {
            assert(d0[i].node < d0[j].node && dtext(n0, d0[i]).1 <= dtext(n0, d0[j]).0);
        }
        assert forall|k: int| 0 <= k < d1.len() implies dtext(n1, #[trigger] d1[k]).1 <= len by {
            assert(dtext(n0, d0[k]).1 <= len);
        }
        assert forall|i: int| 0 <= i < n0.len() && !(n0[i] is Text) implies #[trigger] n1[i] == n0[i] by {
            assert(i != o.node && i != c.node);
        }
        assert forall|i: int| 0 <= i < n0.len() implies #[trigger] n1[i] == n0[i] || (n0[i] is Text && n1[i] is Text
            && extent(n0[i]).0 <= extent(n1[i]).0 <= extent(n1[i]).1 <= extent(n0[i]).1) by {
            if i != o.node && i != c.node {
                assert(n1[i] == n0[i]);
            }
        }
    }
}

/// 1 = whitespace (sequence boundaries included), 2 = punctuation, 0 = other.
pub open spec fn spec_group(c: Option<char>) -> u8 {
    match c {
        None => 1,
        Some(c) => if spec_is_whitespace(c) {
            1
        } else if spec_is_punctuation(c) {
            2
        } else {
            0
        },
    }
}

/// A neighbor that is itself an attention marker (`*`, `_`, and `~` with strikethrough on),
/// for a `*`/`_` run.
pub open spec fn is_marker_neighbor(marker: u8, c: Option<char>, tilde: bool) -> bool {
    marker != 126 && (c == Some('*') || c == Some('_') || (tilde && c == Some('~')))
}

/// Flanking: `(can_open, can_close)` of a run of `marker` between `prev` and `next`.
pub open spec fn spec_classify(marker: u8, prev: Option<char>, next: Option<char>, tilde: bool) -> (bool, bool) {
    let before = spec_group(prev);
    let after = spec_group(next);
    let open = after == 0 || (after == 2 && before != 0) || is_marker_neighbor(marker, next, tilde);
    let close = before == 0 || (before == 2 && after != 0) || is_marker_neighbor(marker, prev, tilde);
    if marker == 95 {
        (open && (before != 0 || !close), close && (after != 0 || !open))
    } else {
        (open, close)
    }
}

/// A side of a run is whitespace: a boundary or a Unicode whitespace character.
pub open spec fn side_ws(c: Option<char>) -> bool {
    match c {
        None => true,
        Some(c) => spec_is_whitespace(c),
    }
}

/// A side of a run is a punctuation character (not whitespace).
pub open spec fn side_punct(c: Option<char>) -> bool {
    match c {
        None => false,
        Some(c) => !spec_is_whitespace(c) && spec_is_punctuation(c),
    }
}

/// Left-flanking (CommonMark 6.2): not followed by whitespace, and not followed by
/// punctuation unless preceded by whitespace or punctuation.
pub open spec fn left_flanking(prev: Option<char>, next: Option<char>) -> bool {
    !side_ws(next) && (!side_punct(next) || side_ws(prev) || side_punct(prev))
}

/// Right-flanking (CommonMark 6.2): the mirror image of left-flanking.
pub open spec fn right_flanking(prev: Option<char>, next: Option<char>) -> bool {
    !side_ws(prev) && (!side_punct(prev) || side_ws(next) || side_punct(next))
}

/// The flanking rules of CommonMark 6.2 for a run whose neighbors are no attention markers:
/// a run can open exactly when it is left-flanking, and an `_` run moreover only when it is
/// not also right-flanking or it follows punctuation; closing is the mirror image. In
/// particular an `_` run between two letters or digits (intraword) neither opens nor closes,
/// while a `*` run there does both.
pub proof fn lemma_flanking_rules(marker: u8, prev: Option<char>, next: Option<char>, tilde: bool)
    requires
        prev != Some('*') && prev != Some('_') && prev != Some('~'),
        next != Some('*') && next != Some('_') && next != Some('~'),
    ensures
        spec_classify(marker, prev, next, tilde).0 == (left_flanking(prev, next) && (marker != 95 || !right_flanking(
            prev,
            next,
        ) || side_punct(prev))),
        spec_classify(marker, prev, next, tilde).1 == (right_flanking(prev, next) && (marker != 95 || !left_flanking(
            prev,
            next,
        ) || side_punct(next))),
        marker == 95 && !side_ws(prev) && !side_punct(prev) && !side_ws(next) && !side_punct(next) ==> !spec_classify(
            marker,
            prev,
            next,
            tilde,
        ).0 && !spec_classify(marker, prev, next, tilde).1,
{
}

/// Flanking with micromark's relaxation, for every neighbor: a `*`/`_` run next to another
/// attention marker (`*`, `_`, or `~` with strikethrough on) counts as able to open (marker
/// after it) or close (marker before it) on top of left/right-flanking; an `_` run then opens
/// only if it could not close or follows whitespace or punctuation, and closes only if it
/// could not open or precedes whitespace or punctuation. A `~` run gets plain flanking.
pub proof fn lemma_flanking_relaxed(marker: u8, prev: Option<char>, next: Option<char>, tilde: bool)
    ensures
        ({
            let nb_next = marker != 126 && (next == Some('*') || next == Some('_') || (tilde && next == Some('~')));
            let nb_prev = marker != 126 && (prev == Some('*') || prev == Some('_') || (tilde && prev == Some('~')));
            let may_open = left_flanking(prev, next) || nb_next;
            let may_close = right_flanking(prev, next) || nb_prev;
            &&& spec_classify(marker, prev, next, tilde).0 == (may_open && (marker != 95 || !may_close || side_ws(prev)
                || side_punct(prev)))
            &&& spec_classify(marker, prev, next, tilde).1 == (may_close && (marker != 95 || !may_open || side_ws(next)
                || side_punct(next)))
        }),
{
}

/// 1 = whitespace (sequence boundaries included), 2 = punctuation, 0 = other.
///
/// Whitespace is micromark's `unicodeWhitespace` (JS `\s`),
/// not Rust's `char::is_whitespace`: U+0085 is "other", U+FEFF is whitespace.
fn group(c: Option<char>) -> (g: u8)
    ensures
        g == spec_group(c),
{
    match c {
        None => 1,
        Some(c) => if is_whitespace(c) {
            1
        } else if is_punctuation(c) {
            2
        } else {
            0
        },
    }
}

/// Flanking classification, micromark's `attention.js` version.
///
/// This deliberately follows micromark rather than the spec's prose:
/// on top of the left/right-flanking rules,
/// a `*`/`_` run whose neighboring character is itself an attention marker
/// (`*` `_`, and `~` with strikethrough on) may always open (next) / close (prev).
/// A `~` run gets the plain attention rules,
/// no marker relaxation, no `_` adjustment (micromark's `gfm-strikethrough`).
///
/// `prev` / `next` are the characters around the run; `None` is a boundary (whitespace class).
/// Returns `(can_open, can_close)`.
pub fn classify(marker: u8, prev: Option<char>, next: Option<char>, tilde: bool) -> (r: (bool, bool))
    ensures
        r == spec_classify(marker, prev, next, tilde),
{
    let before = group(prev);
    let after = group(next);
    let next_marker = marker != 126 && (next == Some('*') || next == Some('_') || (tilde && next == Some('~')));
    let prev_marker = marker != 126 && (prev == Some('*') || prev == Some('_') || (tilde && prev == Some('~')));
    let open = after == 0 || (after == 2 && before != 0) || next_marker;
    let close = before == 0 || (before == 2 && after != 0) || prev_marker;
    if marker == 95 {
        (open && (before != 0 || !close), close && (after != 0 || !open))
    } else {
        (open, close)
    }
}

/// A `*` / `_` / `~` run as the tokenizer sees it: its marker, length and flanking.
/// Built by [`Run::new`], for [`pairs`] on a text a printer is about to emit.
#[derive(Clone, Copy, Debug, PartialEq, Eq, Structural)]
pub struct Run {
    pub marker: u8,
    pub len: usize,
    pub can_open: bool,
    pub can_close: bool,
    /// The run registers its family's resolver (every `*` / `_` run, a `~` run of a valid length).
    pub valid: bool,
}

/// Whether a run is one strikethrough accepts: any `*`/`_` run, a `~` run of two
/// (or one, with single tildes on).
pub open spec fn run_valid(marker: u8, len: usize, c: Constructs) -> bool {
    marker != 126 || ((if c.gfm_strikethrough_single_tilde { 1usize } else { 2usize }) <= len <= 2)
}

impl Run {
    /// `prev` / `next` are the characters around the run (`None` at a boundary).
    pub fn new(marker: u8, len: usize, prev: Option<char>, next: Option<char>, constructs: &Constructs) -> (r: Self)
        ensures
            r.marker == marker,
            r.len == len,
            r.valid == run_valid(marker, len, *constructs),
            r.valid ==> (r.can_open, r.can_close) == spec_classify(marker, prev, next, constructs.gfm_strikethrough),
            !r.valid ==> !r.can_open && !r.can_close,
    {
        // GFM strikethrough: runs of one (only with `singleTilde`) or two tildes;
        // longer runs never participate (micromark's construct fails on them).
        let min: usize = if constructs.gfm_strikethrough_single_tilde { 1 } else { 2 };
        let valid = marker != 126 || (min <= len && len <= 2);
        let (can_open, can_close) = if valid {
            classify(marker, prev, next, constructs.gfm_strikethrough)
        } else {
            (false, false)
        };
        Run { marker, len, can_open, can_close, valid }
    }
}

/// One emphasis / strong / strikethrough node [`pairs`] would form: the runs' indices and its kind.
#[derive(Clone, Copy, Debug, PartialEq, Eq, Structural)]
pub struct Pair {
    pub opener: usize,
    pub closer: usize,
    /// Two characters of each `*` / `_` run (`**` / `__`); a `~` pair is strikethrough, never strong.
    pub strong: bool,
}

/// Two pairs of runs nest (sharing runs allowed) or follow one another.
pub open spec fn run_nest(p: Pair, q: Pair) -> bool {
    ||| (p.opener <= q.opener && q.closer <= p.closer)
    ||| (q.opener <= p.opener && p.closer <= q.closer)
    ||| p.closer <= q.opener
    ||| q.closer <= p.opener
}

/// Run `k` (of those starting at `starts`) holds offset `x`.
pub open spec fn run_holds(starts: Seq<usize>, k: int, x: int) -> bool {
    &&& 0 <= k < starts.len()
    &&& starts[k] <= x
    &&& k + 1 < starts.len() ==> x < starts[k + 1]
}

/// Pair `p` of runs is pair `f` of characters.
pub open spec fn pair_of(starts: Seq<usize>, f: Formed, p: Pair) -> bool {
    &&& run_holds(starts, p.opener as int, f.r.start as int)
    &&& run_holds(starts, p.closer as int, f.r.end - 1)
    &&& f.r.start < f.r.end
}

proof fn lemma_run_mono(starts: Seq<usize>, k1: int, x: int, k2: int, y: int)
    requires
        forall|i: int, j: int| 0 <= i < j < starts.len() ==> starts[i] < starts[j],
        run_holds(starts, k1, x),
        run_holds(starts, k2, y),
        x <= y,
    ensures
        k1 <= k2,
{
    if k1 > k2 {
        assert(starts[k2 + 1] <= starts[k1]);
    }
}

/// Character pairs that nest or lie apart give run pairs that nest or follow one another.
proof fn lemma_run_nest(starts: Seq<usize>, a: Formed, b: Formed, pa: Pair, pb: Pair)
    requires
        forall|i: int, j: int| 0 <= i < j < starts.len() ==> starts[i] < starts[j],
        pair_of(starts, a, pa),
        pair_of(starts, b, pb),
        nest_or_apart(a.r, b.r),
    ensures
        run_nest(pa, pb),
{
    if a.r.end <= b.r.start {
        lemma_run_mono(starts, pa.closer as int, a.r.end - 1, pb.opener as int, b.r.start as int);
    } else if b.r.end <= a.r.start {
        lemma_run_mono(starts, pb.closer as int, b.r.end - 1, pa.opener as int, a.r.start as int);
    } else if a.r.start <= b.r.start && b.r.end <= a.r.end {
        lemma_run_mono(starts, pa.opener as int, a.r.start as int, pb.opener as int, b.r.start as int);
        lemma_run_mono(starts, pb.closer as int, b.r.end - 1, pa.closer as int, a.r.end - 1);
    } else {
        lemma_run_mono(starts, pb.opener as int, b.r.start as int, pa.opener as int, a.r.start as int);
        lemma_run_mono(starts, pa.closer as int, a.r.end - 1, pb.closer as int, b.r.end - 1);
    }
}

/// Delimiter entry `q` was laid out from run `dr[q]` of `runs`: same marker and flanking, its
/// text the run's characters from `starts[dr[q]]`.
pub open spec fn laid_out(runs: Seq<Run>, starts: Seq<usize>, nodes: Seq<PN>, delims: Seq<Delim>, dr: Seq<int>, k: int) -> bool {
    &&& dr.len() == delims.len()
    &&& forall|q: int| 0 <= q < dr.len() ==> #[trigger] entry_laid(runs, starts, nodes, delims[q], dr[q], k)
    &&& forall|i: int, j: int| 0 <= i < j < dr.len() ==> dr[i] < dr[j]
}

/// Entry `d` was laid out from run `i` (one of the first `k`).
pub open spec fn entry_laid(runs: Seq<Run>, starts: Seq<usize>, nodes: Seq<PN>, d: Delim, i: int, k: int) -> bool {
    &&& 0 <= i < k
    &&& d.marker == runs[i].marker
    &&& d.can_open == runs[i].can_open
    &&& d.can_close == runs[i].can_close
    &&& d.remaining == runs[i].len
    &&& dtext(nodes, d).0 == starts[i]
    &&& dtext(nodes, d).1 == starts[i] + runs[i].len
}

/// Two runs, an opener then a closer of one marker, whose sizes the pairing rules allow.
pub open spec fn two_runs_pair(runs: Seq<Run>) -> bool {
    &&& runs.len() == 2
    &&& runs[0].can_open
    &&& runs[1].can_close
    &&& runs[0].marker == runs[1].marker
    &&& runs[0].len > 0
    &&& runs[1].len > 0
    &&& runs[0].marker == 126 ==> runs[0].len == runs[1].len
    &&& runs[0].marker != 126 ==> !rule_of_three_forbids(
        runs[0].can_close || runs[1].can_open,
        runs[0].len as int,
        runs[1].len as int,
    )
}

/// A pair of runs that emphasis may join: the opener before the closer, both of one marker,
/// the opener able to open and the closer able to close; only `*` / `_` pairs of runs of two
/// or more are strong.
pub open spec fn pair_ok(runs: Seq<Run>, p: Pair) -> bool {
    &&& p.opener < p.closer < runs.len()
    &&& runs[p.opener as int].marker == runs[p.closer as int].marker
    &&& runs[p.opener as int].can_open
    &&& runs[p.closer as int].can_close
    &&& p.strong ==> runs[p.opener as int].marker != 126 && runs[p.opener as int].len >= 2 && runs[p.closer as int].len >= 2
}

/// `a` sorts before or with `b`: by opener, then closer, then weak before strong.
pub open spec fn pair_le(a: Pair, b: Pair) -> bool {
    a.opener < b.opener || (a.opener == b.opener && (a.closer < b.closer || (a.closer == b.closer
        && (!a.strong || b.strong))))
}

fn pair_le_exec(a: Pair, b: Pair) -> (r: bool)
    ensures
        r == pair_le(a, b),
{
    a.opener < b.opener || (a.opener == b.opener && (a.closer < b.closer || (a.closer == b.closer
        && (!a.strong || b.strong))))
}

/// Sorts pairs by insertion.
fn sort_pairs(v: Vec<Pair>) -> (out: Vec<Pair>)
    ensures
        out@.len() == v@.len(),
        out@.to_multiset() == v@.to_multiset(),
        forall|i: int, j: int| 0 <= i < j < out@.len() ==> pair_le(#[trigger] out@[i], #[trigger] out@[j]),
        forall|i: int| 0 <= i < out@.len() ==> v@.contains(#[trigger] out@[i]),
{
    let mut out: Vec<Pair> = Vec::new();
    let mut k: usize = 0;
    proof {
        assert(v@.subrange(0, 0).to_multiset() =~= out@.to_multiset()) by {
            assert(v@.subrange(0, 0) =~= Seq::<Pair>::empty());
            assert(out@ =~= Seq::<Pair>::empty());
        }
    }
    while k < v.len()
        invariant
            k <= v@.len(),
            out@.len() == k,
            out@.to_multiset() == v@.subrange(0, k as int).to_multiset(),
            forall|i: int, j: int| 0 <= i < j < out@.len() ==> pair_le(#[trigger] out@[i], #[trigger] out@[j]),
            forall|i: int| 0 <= i < out@.len() ==> v@.contains(#[trigger] out@[i]),
        decreases v.len() - k,
    {
        let x = v[k];
        let mut at = out.len();
        while at > 0 && !pair_le_exec(out[at - 1], x)
            invariant
                at <= out@.len(),
                forall|q: int| at <= q < out@.len() ==> !pair_le(out@[q], x),
            decreases at,
        {
            at = at - 1;
        }
        let ghost before = out@;
        out.insert(at, x);
        proof {
            let after = out@;
            assert(after =~= before.subrange(0, at as int).push(x) + before.subrange(at as int, before.len() as int));
            assert forall|i: int, j: int| 0 <= i < j < after.len() implies pair_le(#[trigger] after[i], #[trigger] after[j]) by {
                if j < at {
                    assert(after[i] == before[i] && after[j] == before[j]);
                } else if j == at {
                    if i < at {
                        // everything before `at` is at most `x`
                        assert(after[i] == before[i]);
                        if at > 0 {
                            assert(pair_le(before[at - 1], x) || at == 0);
                        }
                        assert(pair_le(before[i], before[at - 1]) || i == at - 1);
                    }
                } else if i < at {
                    assert(after[i] == before[i] && after[j] == before[j - 1]);
                } else if i == at {
                    assert(after[j] == before[j - 1]);
                    assert(!pair_le(before[j - 1], x));
                } else {
                    assert(after[i] == before[i - 1] && after[j] == before[j - 1]);
                }
            }
            assert(v@.subrange(0, k + 1) =~= v@.subrange(0, k as int).push(x));
            assert(after =~= before.insert(at as int, x));
            assert forall|i: int| 0 <= i < after.len() implies v@.contains(#[trigger] after[i]) by {
                if i < at {
                    assert(after[i] == before[i]);
                } else if i == at {
                    assert(after[i] == v@[k as int]);
                } else {
                    assert(after[i] == before[i - 1]);
                }
            }
            vstd::seq_lib::to_multiset_insert(before, at as int, x);
            vstd::seq_lib::to_multiset_build(v@.subrange(0, k as int), x);
        }
        k = k + 1;
    }
    proof {
        assert(v@.subrange(0, v@.len() as int) =~= v@);
    }
    out
}

/// The characters a layout of `runs` takes: each run plus one separator between neighbors.
pub open spec fn runs_extent(runs: Seq<Run>) -> int
    decreases runs.len(),
{
    if runs.len() == 0 {
        0
    } else {
        runs_extent(runs.drop_last()) + runs.last().len + 1
    }
}

/// The run holding `offset`: the last run starting at or before it.
fn run_at(starts: &Vec<usize>, offset: usize) -> (k: usize)
    requires
        starts@.len() > 0,
        starts@[0] == 0,
        forall|i: int, j: int| 0 <= i < j < starts@.len() ==> starts@[i] < starts@[j],
    ensures
        k < starts@.len(),
        starts@[k as int] <= offset,
        k + 1 < starts@.len() ==> offset < starts@[k + 1],
{
    let mut lo: usize = 0;
    let mut hi: usize = starts.len();
    while lo < hi
        invariant
            lo <= hi <= starts@.len(),
            forall|q: int| 0 <= q < lo ==> starts@[q] <= offset,
            forall|q: int| hi <= q < starts@.len() ==> starts@[q] > offset,
            forall|i: int, j: int| 0 <= i < j < starts@.len() ==> starts@[i] < starts@[j],
        decreases hi - lo,
    {
        let mid = lo + (hi - lo) / 2;
        if starts[mid] <= offset {
            lo = mid + 1;
        } else {
            hi = mid;
        }
    }
    if lo == 0 {
        assert(starts@[0] > offset);
    }
    lo - 1
}

/// The nodes the delimiter runs of one inline sequence form, sorted by position.
///
/// Decided by the parser's own resolver (flanking, rule of three, family order).
/// The runs are those of one bracket level (`in_link`: a link's text resolves on its own,
/// strikethrough first); text between them is opaque, only the runs' flanking matters.
/// At the top level the family used first resolves first.
///
/// A printer that changes a marker or joins lines runs it on what it is about to emit
/// and compares the result with the tree it prints, before committing to the change.
pub fn pairs(runs: &[Run], in_link: bool) -> (out: Vec<Pair>)
    requires
        forall|k: int| 0 <= k < runs@.len() && #[trigger] runs@[k].marker == 126 && (runs@[k].can_open
            || runs@[k].can_close) ==> runs@[k].len <= 2,
        runs_extent(runs@) <= usize::MAX,
    ensures
        forall|k: int| 0 <= k < out@.len() ==> #[trigger] out@[k].opener < runs@.len() && out@[k].closer < runs@.len(),
        forall|i: int, j: int| 0 <= i < j < out@.len() ==> pair_le(#[trigger] out@[i], #[trigger] out@[j]),
        forall|k: int| 0 <= k < out@.len() ==> pair_ok(runs@, #[trigger] out@[k]),
        forall|i: int, j: int| 0 <= i < out@.len() && 0 <= j < out@.len() ==> run_nest(#[trigger] out@[i], #[trigger] out@[j]),
        two_runs_pair(runs@) ==> out@.len() > 0,
{
    let mut tilde_first = in_link;
    if !in_link {
        let mut k: usize = 0;
        while k < runs.len()
            invariant
                k <= runs@.len(),
            decreases runs.len() - k,
        {
            if runs[k].valid {
                tilde_first = runs[k].marker == 126;
                break;
            }
            k = k + 1;
        }
    }
    // Lay the runs out as text nodes with one opaque text node between neighbors
    // (same-marker runs never touch; a pair always has a node between it).
    let mut nodes: Vec<PN> = Vec::new();
    let mut delims: Vec<Delim> = Vec::new();
    let mut starts: Vec<usize> = Vec::new();
    let mut pos: usize = 0;
    let mut k: usize = 0;
    // The run each delimiter entry was laid out from.
    let ghost mut dr: Seq<int> = Seq::empty();
    proof {
        lemma_runs_extent_nonneg(runs@);
        assert(runs@.subrange(0, 0) =~= Seq::<Run>::empty());
    }
    while k < runs.len()
        invariant
            k <= runs@.len(),
            forall|q: int| 0 <= q < runs@.len() && #[trigger] runs@[q].marker == 126 && (runs@[q].can_open
                || runs@[q].can_close) ==> runs@[q].len <= 2,
            runs_extent(runs@) <= usize::MAX,
            pos as int <= runs_extent(runs@.subrange(0, k as int)),
            runs_extent(runs@.subrange(0, k as int)) <= runs_extent(runs@),
            starts@.len() == k,
            k > 0 ==> starts@[0] == 0,
            forall|i: int, j: int| 0 <= i < j < starts@.len() ==> starts@[i] < starts@[j],
            forall|i: int| 0 <= i < starts@.len() ==> starts@[i] <= pos,
            k == 0 ==> pos == 0 && nodes@.len() == 0,
            k > 0 ==> nodes@.len() > 0,
            delims_wf(nodes@, delims@),
            runs_within(nodes@, delims@, pos as int),
            forall|q: int| 0 <= q < delims@.len() ==> #[trigger] delims@[q].node < nodes@.len(),
            forall|i: int| 0 <= i < nodes@.len() ==> extent(#[trigger] nodes@[i]).1 <= pos,
            forall|i: int| 0 <= i < nodes@.len() ==> nodes@[i] is Text,
            laid_out(runs@, starts@, nodes@, delims@, dr, k as int),
            dr.len() <= k,
            forall|i: int| 0 <= i < k && (runs@[i].can_open || runs@[i].can_close) ==> #[trigger] dr.contains(i),
            forall|i: int| #![trigger runs@[i]] 0 <= i && i + 1 < k ==> starts@[i] + runs@[i].len < starts@[i + 1],
            k > 0 ==> pos == starts@[k - 1] + runs@[k - 1].len,
        decreases runs.len() - k,
    {
        let run = runs[k];
        let ghost nodes_before = nodes@;
        let ghost delims_before = delims@;
        let ghost starts_before = starts@;
        let ghost dr_before = dr;
        proof {
            lemma_runs_extent_prefix(runs@, k as int);
        }
        if nodes.len() > 0 {
            nodes.push(PN::Text(pos..pos + 1));
            pos = pos + 1;
        }
        starts.push(pos);
        if run.can_open || run.can_close {
            delims.push(Delim {
                node: nodes.len(),
                marker: run.marker,
                remaining: run.len,
                can_open: run.can_open,
                can_close: run.can_close,
            });
            proof {
                dr = dr.push(k as int);
            }
        }
        nodes.push(PN::Text(pos..pos + run.len));
        proof {
            assert(starts@[k as int] == pos);
            assert forall|q: int| 0 <= q < dr.len() implies #[trigger] entry_laid(runs@, starts@, nodes@, delims@[q], dr[q], k + 1) by {
                if q < dr_before.len() {
                    assert(entry_laid(runs@, starts_before, nodes_before, delims_before[q], dr_before[q], k as int));
                    assert(delims@[q] == delims_before[q]);
                    assert(dr[q] == dr_before[q]);
                    assert(delims_before[q].node < nodes_before.len());
                    assert(nodes@[delims@[q].node as int] == nodes_before[delims@[q].node as int]);
                    assert(starts@[dr[q]] == starts_before[dr[q]]);
                } else {
                    assert(dr[q] == k);
                    assert(delims@[q].node == nodes@.len() - 1);
                }
            }
            assert forall|i: int, j: int| 0 <= i < j < dr.len() implies dr[i] < dr[j] by {
                if j >= dr_before.len() {
                    assert(dr[j] == k);
                    assert(dr[i] == dr_before[i]);
                    assert(entry_laid(runs@, starts_before, nodes_before, delims_before[i], dr_before[i], k as int));
                } else {
                    assert(dr[i] == dr_before[i]);
                    assert(dr[j] == dr_before[j]);
                }
            }
            assert(dr.len() == delims@.len());
            assert(forall|i: int, j: int| 0 <= i < j < dr.len() ==> dr[i] < dr[j]);
            assert(laid_out(runs@, starts@, nodes@, delims@, dr, k + 1));
            assert forall|i: int| 0 <= i < k + 1 && (runs@[i].can_open || runs@[i].can_close) implies #[trigger] dr.contains(i) by {
                if i < k {
                    assert(dr_before.contains(i));
                    let q = choose|q: int| 0 <= q < dr_before.len() && dr_before[q] == i;
                    assert(dr[q] == i);
                } else {
                    assert(dr[dr.len() - 1] == k);
                }
            }
        }
        pos = pos + run.len;
        k = k + 1;
    }
    let ghost nl = nodes@;
    let ghost dl = delims@;
    let mut formed: Vec<Formed> = Vec::new();
    let n = delims.len();
    let ghost f0 = formed@;
    let ghost drf = dr;
    proof {
        if two_runs_pair(runs@) {
            let fam = runs@[0].marker == 126;
            assert(dr.contains(0));
            assert(dr.contains(1));
            let q0 = choose|q: int| 0 <= q < dr.len() && dr[q] == 0;
            let q1 = choose|q: int| 0 <= q < dr.len() && dr[q] == 1;
            assert(q0 != q1);
            assert(dr.len() == 2);
            assert(entry_laid(runs@, starts@, nodes@, delims@[0], dr[0], runs@.len() as int));
            assert(entry_laid(runs@, starts@, nodes@, delims@[1], dr[1], runs@.len() as int));
            assert(dr[0] < dr[1]);
            assert(dr[0] == 0 && dr[1] == 1);
            assert(adjacent_ready(delims@, 0, 2, fam));
        }
    }
    resolve(&mut nodes, &mut delims, 0, n, tilde_first, &mut formed, Ghost(pos as int), Ghost(0));
    let mut out: Vec<Pair> = Vec::new();
    proof {
        assert(pairs_held(nodes@, delims@, formed@, 0));
    }
    if runs.len() > 0 {
        let mut f: usize = 0;
        while f < formed.len()
            invariant
                f <= formed@.len(),
                starts@.len() == runs@.len(),
                starts@.len() > 0,
                starts@[0] == 0,
                forall|i: int, j: int| 0 <= i < j < starts@.len() ==> starts@[i] < starts@[j],
                formed_wf(formed@, pos as int),
                forall|q: int| 0 <= q < out@.len() ==> #[trigger] out@[q].opener < runs@.len() && out@[q].closer < runs@.len(),
                forall|q: int| 0 <= q < out@.len() ==> pair_ok(runs@, #[trigger] out@[q]),
                pairs_from(nl, dl, f0, formed@, 0, dl.len() as int),
                f0.len() == 0,
                laid_out(runs@, starts@, nl, dl, drf, runs@.len() as int),
                forall|i: int| #![trigger runs@[i]] 0 <= i && i + 1 < runs@.len() ==> starts@[i] + runs@[i].len < starts@[i + 1],
                out@.len() == f,
                pairs_held(nodes@, delims@, formed@, 0),
                forall|a: int| 0 <= a < out@.len() ==> pair_of(starts@, formed@[a], #[trigger] out@[a]),
                forall|i: int, j: int| 0 <= i < out@.len() && 0 <= j < out@.len() ==> run_nest(#[trigger] out@[i], #[trigger] out@[j]),
            decreases formed.len() - f,
        {
            let pair = &formed[f];
            proof {
                assert(formed_in(nl, dl, formed@[f as int], 0, dl.len() as int));
            }
            let ghost oc: (int, int, int, int) = choose|o: int, c: int, ro: int, rc: int| 0 <= o && c < dl.len() && #[trigger] pair_from(nl, dl, formed@[f as int], o, c, ro, rc);
            let opener = run_at(&starts, pair.r.start);
            let closer = run_at(&starts, pair.r.end - 1);
            proof {
                let o = oc.0;
                let c = oc.1;
                let io = drf[o];
                let ic = drf[c];
                assert(entry_laid(runs@, starts@, nl, dl[o], io, runs@.len() as int));
                assert(entry_laid(runs@, starts@, nl, dl[c], ic, runs@.len() as int));
                assert(dl[o].marker == runs@[io].marker);
                assert(dl[c].marker == runs@[ic].marker);
                assert(io < ic);
                if (opener as int) < io {
                    assert(starts@[opener + 1] <= starts@[io]);
                } else if (opener as int) > io {
                    assert(starts@[io] + runs@[io].len < starts@[io + 1]);
                    assert(starts@[io + 1] <= starts@[opener as int]);
                }
                if (closer as int) < ic {
                    assert(starts@[closer + 1] <= starts@[ic]);
                } else if (closer as int) > ic {
                    assert(starts@[ic] + runs@[ic].len < starts@[ic + 1]);
                    assert(starts@[ic + 1] <= starts@[closer as int]);
                }
                assert(opener as int == io);
                assert(closer as int == ic);
            }
            let ghost o_before = out@;
            out.push(Pair { opener, closer, strong: pair.marker != 126 && pair.len == 2 });
            proof {
                let np = out@[f as int];
                assert(formed@[f as int].r.start < formed@[f as int].r.end);
                assert(pair_of(starts@, formed@[f as int], np));
                assert forall|a: int| 0 <= a < out@.len() implies pair_of(starts@, formed@[a], #[trigger] out@[a]) by {
                    if a < f {
                        assert(out@[a] == o_before[a]);
                    }
                }
                assert forall|i: int, j: int| 0 <= i < out@.len() && 0 <= j < out@.len() implies run_nest(#[trigger] out@[i], #[trigger] out@[j]) by {
                    if i < f && j < f {
                        assert(out@[i] == o_before[i] && out@[j] == o_before[j]);
                    } else if i == f && j == f {
                    } else if i == f {
                        assert(nest_or_apart(formed@[j].r, formed@[i].r));
                        lemma_run_nest(starts@, formed@[i], formed@[j], out@[i], out@[j]);
                    } else {
                        assert(nest_or_apart(formed@[i].r, formed@[j].r));
                        lemma_run_nest(starts@, formed@[i], formed@[j], out@[i], out@[j]);
                    }
                }
            }
            f = f + 1;
        }
    }
    let sorted = sort_pairs(out);
    proof {
        assert forall|q: int| 0 <= q < sorted@.len() implies #[trigger] sorted@[q].opener < runs@.len() && sorted@[q].closer
            < runs@.len() by {
            assert(out@.contains(sorted@[q]));
            let j = choose|j: int| 0 <= j < out@.len() && out@[j] == sorted@[q];
        }
        assert forall|q: int| 0 <= q < sorted@.len() implies pair_ok(runs@, #[trigger] sorted@[q]) by {
            assert(out@.contains(sorted@[q]));
            let j = choose|j: int| 0 <= j < out@.len() && out@[j] == sorted@[q];
            assert(pair_ok(runs@, out@[j]));
        }
        assert forall|i: int, j: int| 0 <= i < sorted@.len() && 0 <= j < sorted@.len() implies run_nest(#[trigger] sorted@[i], #[trigger] sorted@[j]) by {
            assert(out@.contains(sorted@[i]));
            assert(out@.contains(sorted@[j]));
            let a = choose|a: int| 0 <= a < out@.len() && out@[a] == sorted@[i];
            let b = choose|b: int| 0 <= b < out@.len() && out@[b] == sorted@[j];
            assert(run_nest(out@[a], out@[b]));
        }
    }
    sorted
}

proof fn lemma_runs_extent_nonneg(runs: Seq<Run>)
    ensures
        runs_extent(runs) >= 0,
    decreases runs.len(),
{
    if runs.len() > 0 {
        lemma_runs_extent_nonneg(runs.drop_last());
    }
}

/// A prefix of the runs lays out in no more characters than all of them.
proof fn lemma_runs_extent_prefix(runs: Seq<Run>, k: int)
    requires
        0 <= k < runs.len(),
    ensures
        runs_extent(runs.subrange(0, k + 1)) == runs_extent(runs.subrange(0, k)) + runs[k].len + 1,
        runs_extent(runs.subrange(0, k + 1)) <= runs_extent(runs),
    decreases runs.len() - k,
{
    assert(runs.subrange(0, k + 1).drop_last() =~= runs.subrange(0, k));
    if k + 1 < runs.len() {
        lemma_runs_extent_prefix(runs, k + 1);
    } else {
        assert(runs.subrange(0, k + 1) =~= runs);
    }
}

/// A text node with an empty range (an emptied delimiter run).
pub open spec fn is_empty_text(p: PN) -> bool {
    p matches PN::Text(r) && r.start >= r.end
}

/// `a` comes before `b` in pre-order: earlier start, or the same start and a later end.
pub open spec fn formed_before(a: Range<usize>, b: Range<usize>) -> bool {
    a.start < b.start || (a.start == b.start && a.end >= b.end)
}

/// Sorts pairs into pre-order (insertion after a binary search).
fn sort_formed(v: Vec<Formed>, Ghost(len): Ghost<int>) -> (out: Vec<Formed>)
    requires
        formed_wf(v@, len),
    ensures
        formed_wf(out@, len),
        out@.len() == v@.len(),
        out@.to_multiset() == v@.to_multiset(),
        forall|i: int, j: int| 0 <= i < j < out@.len() ==> formed_before(#[trigger] out@[i].r, #[trigger] out@[j].r),
{
    let mut v = v;
    let mut out: Vec<Formed> = Vec::new();
    let ghost orig = v@;
    proof {
        assert(orig.subrange(orig.len() as int, orig.len() as int) =~= Seq::<Formed>::empty());
        assert(out@ =~= Seq::<Formed>::empty());
    }
    while v.len() > 0
        invariant
            v@.len() + out@.len() == orig.len(),
            v@ == orig.subrange(0, v@.len() as int),
            formed_wf(orig, len),
            formed_wf(out@, len),
            out@.to_multiset() == orig.subrange(v@.len() as int, orig.len() as int).to_multiset(),
            forall|i: int, j: int| 0 <= i < j < out@.len() ==> formed_before(#[trigger] out@[i].r, #[trigger] out@[j].r),
        decreases v@.len(),
    {
        let x = v.pop().unwrap();
        proof {
            assert(x == orig[v@.len() as int]);
            assert(orig[v@.len() as int].r.start < orig[v@.len() as int].r.end <= len);
        }
        let mut lo: usize = 0;
        let mut hi: usize = out.len();
        while lo < hi
            invariant
                lo <= hi <= out@.len(),
                x.r.start < x.r.end <= len,
                formed_wf(out@, len),
                forall|q: int| 0 <= q < lo ==> formed_before(out@[q].r, x.r),
                forall|q: int| hi <= q < out@.len() ==> !formed_before(out@[q].r, x.r),
                forall|i: int, j: int| 0 <= i < j < out@.len() ==> formed_before(#[trigger] out@[i].r, #[trigger] out@[j].r),
            decreases hi - lo,
        {
            let mid = lo + (hi - lo) / 2;
            let m = &out[mid];
            let before = m.r.start < x.r.start || (m.r.start == x.r.start && m.r.end >= x.r.end);
            if before {
                proof {
                    assert forall|q: int| 0 <= q <= mid implies formed_before(out@[q].r, x.r) by {
                        if q < mid {
                            assert(formed_before(out@[q].r, out@[mid as int].r));
                        }
                    }
                }
                lo = mid + 1;
            } else {
                proof {
                    assert forall|q: int| mid <= q < out@.len() implies !formed_before(out@[q].r, x.r) by {
                        if q > mid {
                            assert(formed_before(out@[mid as int].r, out@[q].r));
                        }
                    }
                }
                hi = mid;
            }
        }
        let ghost prev = out@;
        let ghost xr = x.r;
        out.insert(lo, x);
        proof {
            let after = out@;
            assert(after =~= prev.insert(lo as int, x));
            vstd::seq_lib::to_multiset_insert(prev, lo as int, x);
            let suf = orig.subrange(v@.len() as int + 1, orig.len() as int);
            assert(orig.subrange(v@.len() as int, orig.len() as int) =~= suf.insert(0, x));
            vstd::seq_lib::to_multiset_insert(suf, 0, x);
            assert forall|f: int| 0 <= f < after.len() implies #[trigger] after[f].r.start < after[f].r.end <= len by {
                if f < lo {
                    assert(after[f] == prev[f]);
                } else if f > lo {
                    assert(after[f] == prev[f - 1]);
                }
            }
            assert forall|i: int, j: int| 0 <= i < j < after.len() implies formed_before(#[trigger] after[i].r, #[trigger] after[j].r) by {
                if j < lo {
                    assert(after[i] == prev[i] && after[j] == prev[j]);
                } else if j == lo {
                    assert(after[i] == prev[i]);
                } else if i < lo {
                    assert(after[i] == prev[i] && after[j] == prev[j - 1]);
                    assert(formed_before(prev[i].r, xr));
                    assert(!formed_before(prev[j - 1].r, xr));
                } else if i == lo {
                    assert(after[j] == prev[j - 1]);
                    assert(!formed_before(prev[j - 1].r, xr));
                } else {
                    assert(after[i] == prev[i - 1] && after[j] == prev[j - 1]);
                }
            }
        }
    }
    proof {
        assert(orig.subrange(0, orig.len() as int) =~= orig);
    }
    out
}

/// An open pair: its range ends by `len`, and so does everything in its children.
pub open spec fn entry_within(e: (Formed, Vec<PN>), len: int) -> bool {
    &&& e.0.r.start < e.0.r.end <= len
    &&& forall|i: int| 0 <= i < e.1@.len() ==> pn_within(#[trigger] e.1@[i], len)
}

/// Nodes ending by `len` with no emptied delimiter runs among them.
pub open spec fn built_within(out: Seq<PN>, len: int) -> bool {
    forall|k: int| 0 <= k < out.len() ==> !is_empty_text(#[trigger] out[k]) && pn_within(out[k], len)
}

/// The nodes of `s` in order, each emphasis node replaced by the nodes it holds (at any depth).
pub open spec fn flat(s: Seq<PN>) -> Seq<PN>
    decreases s,
{
    if s.len() == 0 {
        Seq::empty()
    } else {
        let p = s[s.len() - 1];
        flat(s.subrange(0, s.len() - 1)) + match p {
            PN::Emph { children, .. } => {
                proof {
                    assert(decreases_to!(s => p));
                    assert(decreases_to!(p => children));
                    assert(decreases_to!(children => children@));
                }
                flat(children@)
            },
            _ => seq![p],
        }
    }
}

/// The emphasis nodes of `s` in pre-order, looking inside emphasis nodes only, as pairs.
pub open spec fn emphs(s: Seq<PN>) -> Seq<Formed>
    decreases s,
{
    if s.len() == 0 {
        Seq::empty()
    } else {
        let p = s[s.len() - 1];
        emphs(s.subrange(0, s.len() - 1)) + match p {
            PN::Emph { marker, len, children, r } => {
                proof {
                    assert(decreases_to!(s => p));
                    assert(decreases_to!(p => children));
                    assert(decreases_to!(children => children@));
                }
                seq![Formed { r, marker, len }] + emphs(children@)
            },
            _ => Seq::empty(),
        }
    }
}

/// The pairs of the open entries of the stack and the emphasis nodes they hold, bottom first.
pub open spec fn stack_emphs(st: Seq<(Formed, Vec<PN>)>) -> Seq<Formed>
    decreases st.len(),
{
    if st.len() == 0 {
        Seq::empty()
    } else {
        stack_emphs(st.subrange(0, st.len() - 1)) + seq![st[st.len() - 1].0] + emphs(st[st.len() - 1].1@)
    }
}

/// No node of `s` is an emphasis node.
pub open spec fn no_emph(s: Seq<PN>) -> bool {
    forall|i: int| 0 <= i < s.len() ==> !(#[trigger] s[i] is Emph)
}

/// Each pair starts at or before some node of `s`.
pub open spec fn pairs_covered(f: Seq<Formed>, s: Seq<PN>) -> bool {
    forall|k: int| 0 <= k < f.len() ==> exists|i: int| 0 <= i < s.len() && #[trigger] f[k].r.start <= extent(#[trigger] s[i]).0
}

/// The nodes held by the open entries of the stack, bottom first.
pub open spec fn stack_flat(st: Seq<(Formed, Vec<PN>)>) -> Seq<PN>
    decreases st.len(),
{
    if st.len() == 0 {
        Seq::empty()
    } else {
        stack_flat(st.subrange(0, st.len() - 1)) + flat(st[st.len() - 1].1@)
    }
}

/// `s` without its emptied delimiter runs.
pub open spec fn kept(s: Seq<PN>) -> Seq<PN>
    decreases s.len(),
{
    if s.len() == 0 {
        Seq::empty()
    } else {
        kept(s.subrange(0, s.len() - 1)) + if is_empty_text(s[s.len() - 1]) {
            Seq::empty()
        } else {
            seq![s[s.len() - 1]]
        }
    }
}

proof fn lemma_flat_push(s: Seq<PN>, x: PN)
    ensures
        flat(s.push(x)) == flat(s) + flat(seq![x]),
        flat(seq![x]) == (match x {
            PN::Emph { children, .. } => flat(children@),
            _ => seq![x],
        }),
{
    assert(s.push(x).subrange(0, s.len() as int) =~= s);
    assert(seq![x].subrange(0, 0) =~= Seq::<PN>::empty());
    let t = match x {
        PN::Emph { children, .. } => flat(children@),
        _ => seq![x],
    };
    assert(flat(Seq::<PN>::empty()) + t =~= t);
}

proof fn lemma_emphs_push(s: Seq<PN>, x: PN)
    ensures
        emphs(s.push(x)) == emphs(s) + emphs(seq![x]),
        emphs(seq![x]) == (match x {
            PN::Emph { marker, len, children, r } => seq![Formed { r, marker, len }] + emphs(children@),
            _ => Seq::empty(),
        }),
{
    assert(s.push(x).subrange(0, s.len() as int) =~= s);
    assert(seq![x].subrange(0, 0) =~= Seq::<PN>::empty());
    let t = match x {
        PN::Emph { marker, len, children, r } => seq![Formed { r, marker, len }] + emphs(children@),
        _ => Seq::empty(),
    };
    assert(emphs(Seq::<PN>::empty()) + t =~= t);
}

proof fn lemma_stack_emphs_push(st: Seq<(Formed, Vec<PN>)>, e: (Formed, Vec<PN>))
    ensures
        stack_emphs(st.push(e)) == stack_emphs(st) + seq![e.0] + emphs(e.1@),
{
    assert(st.push(e).subrange(0, st.len() as int) =~= st);
}

proof fn lemma_stack_flat_push(st: Seq<(Formed, Vec<PN>)>, e: (Formed, Vec<PN>))
    ensures
        stack_flat(st.push(e)) == stack_flat(st) + flat(e.1@),
{
    assert(st.push(e).subrange(0, st.len() as int) =~= st);
}

proof fn lemma_kept_step(s: Seq<PN>, i: int)
    requires
        0 <= i < s.len(),
    ensures
        kept(s.subrange(0, i + 1)) == kept(s.subrange(0, i)) + if is_empty_text(s[i]) {
            Seq::<PN>::empty()
        } else {
            seq![s[i]]
        },
{
    assert(s.subrange(0, i + 1).subrange(0, i) =~= s.subrange(0, i));
}

/// Pair `f`'s range holds offset `x`.
pub open spec fn holds_at(f: Formed, x: int) -> bool {
    f.r.start <= x < f.r.end
}

/// The pairs `anc` around a node starting at `x` are exactly the pairs of `ps` holding `x`.
pub open spec fn exact_anc(ps: Seq<Formed>, anc: Seq<Formed>, x: int) -> bool {
    &&& forall|k: int| 0 <= k < anc.len() ==> holds_at(#[trigger] anc[k], x)
    &&& forall|j: int| 0 <= j < ps.len() && holds_at(#[trigger] ps[j], x) ==> anc.contains(ps[j])
}

/// Every node of `s` other than an emphasis node (at any depth through emphasis nodes) sits
/// inside exactly the pairs of `ps` that hold its start: `anc` and the emphasis nodes around it.
pub open spec fn placed(ps: Seq<Formed>, s: Seq<PN>, anc: Seq<Formed>) -> bool
    decreases s,
{
    if s.len() == 0 {
        true
    } else {
        let p = s[s.len() - 1];
        placed(ps, s.subrange(0, s.len() - 1), anc) && match p {
            PN::Emph { marker, len, children, r } => {
                proof {
                    assert(decreases_to!(s => p));
                    assert(decreases_to!(p => children));
                    assert(decreases_to!(children => children@));
                }
                placed(ps, children@, anc.push(Formed { r, marker, len }))
            },
            _ => exact_anc(ps, anc, extent(p).0),
        }
    }
}

/// The pairs of the open entries, bottom first.
pub open spec fn pairs_of(st: Seq<(Formed, Vec<PN>)>) -> Seq<Formed> {
    Seq::new(st.len(), |k: int| st[k].0)
}

/// Each open entry's children are placed under the pairs from the bottom up to it.
pub open spec fn stack_placed(ps: Seq<Formed>, st: Seq<(Formed, Vec<PN>)>) -> bool {
    forall|k: int| 0 <= k < st.len() ==> placed(ps, #[trigger] st[k].1@, pairs_of(st).subrange(0, k + 1))
}

/// Each pair holds the next one's range: a chain of nested pairs, outermost first.
pub open spec fn chain(st: Seq<Formed>) -> bool {
    forall|k: int, q: int|
        0 <= k < q < st.len() ==> #[trigger] st[k].r.start <= #[trigger] st[q].r.start && st[q].r.end <= st[k].r.end
}

/// The conditions under which the tree nests each node exactly: no emphasis node among the
/// input, node starts in order, pairs that nest or lie apart, each holding some node's start.
pub open spec fn nest_ok(f: Seq<Formed>, s: Seq<PN>) -> bool {
    &&& no_emph(s)
    &&& forall|i: int, j: int| 0 <= i < j < s.len() ==> extent(#[trigger] s[i]).0 <= extent(#[trigger] s[j]).0
    &&& forall|i: int, j: int|
        0 <= i < f.len() && 0 <= j < f.len() ==> nest_or_apart(#[trigger] f[i].r, #[trigger] f[j].r)
    &&& forall|k: int| 0 <= k < f.len() ==> exists|i: int| 0 <= i < s.len() && holds_at(#[trigger] f[k], extent(#[trigger] s[i]).0)
}

/// The open pairs around offset `at` are exactly the pairs holding it.
proof fn lemma_exact_at(f: Seq<Formed>, pending: Seq<Formed>, st: Seq<Formed>, np: int, at: int)
    requires
        pending.to_multiset() == f.to_multiset(),
        0 <= np <= pending.len(),
        forall|k: int| 0 <= k < st.len() ==> #[trigger] st[k].r.start <= at,
        st.len() > 0 ==> st[st.len() - 1].r.end > at,
        chain(st),
        forall|j: int| 0 <= j < np ==> st.contains(#[trigger] pending[j]) || pending[j].r.end <= at,
        forall|j: int| np <= j < pending.len() ==> #[trigger] pending[j].r.start > at,
    ensures
        exact_anc(f, st, at),
{
    assert forall|k: int| 0 <= k < st.len() implies holds_at(#[trigger] st[k], at) by {
        if k < st.len() - 1 {
            assert(st[k].r.start <= st[st.len() - 1].r.start);
        }
    }
    assert forall|j: int| 0 <= j < f.len() && holds_at(#[trigger] f[j], at) implies st.contains(f[j]) by {
        let x = f[j];
        assert(f.contains(x));
        vstd::seq_lib::to_multiset_contains(f, x);
        vstd::seq_lib::to_multiset_contains(pending, x);
        let jj = choose|jj: int| 0 <= jj < pending.len() && pending[jj] == x;
        if jj >= np {
            assert(pending[jj].r.start > at);
        } else {
            assert(st.contains(pending[jj]) || pending[jj].r.end <= at);
        }
    }
}

proof fn lemma_placed_push(ps: Seq<Formed>, s: Seq<PN>, x: PN, anc: Seq<Formed>)
    ensures
        placed(ps, s.push(x), anc) == (placed(ps, s, anc) && match x {
            PN::Emph { marker, len, children, r } => placed(ps, children@, anc.push(Formed { r, marker, len })),
            _ => exact_anc(ps, anc, extent(x).0),
        }),
{
    assert(s.push(x).subrange(0, s.len() as int) =~= s);
}

/// Closes the innermost open pair: its node joins its parent's children (or the output).
fn close_top(stack: &mut Vec<(Formed, Vec<PN>)>, out: &mut Vec<PN>, Ghost(len): Ghost<int>, Ghost(ps): Ghost<Seq<Formed>>)
    requires
        old(stack)@.len() > 0,
        built_within(old(out)@, len),
        forall|k: int| 0 <= k < old(stack)@.len() ==> entry_within(#[trigger] old(stack)@[k], len),
    ensures
        final(stack)@.len() == old(stack)@.len() - 1,
        built_within(final(out)@, len),
        forall|k: int| 0 <= k < final(stack)@.len() ==> entry_within(#[trigger] final(stack)@[k], len),
        flat(final(out)@) + stack_flat(final(stack)@) == flat(old(out)@) + stack_flat(old(stack)@),
        emphs(final(out)@) + stack_emphs(final(stack)@) == emphs(old(out)@) + stack_emphs(old(stack)@),
        pairs_of(final(stack)@) == pairs_of(old(stack)@).drop_last(),
        stack_placed(ps, old(stack)@) && placed(ps, old(out)@, Seq::empty()) ==> stack_placed(ps, final(stack)@)
            && placed(ps, final(out)@, Seq::empty()),
{
    let ghost s0 = stack@;
    let (pair, children) = stack.pop().unwrap();
    proof {
        assert(entry_within(s0[s0.len() - 1], len));
    }
    let ghost ch = children@;
    let node = PN::Emph { marker: pair.marker, len: pair.len, children, r: pair.r };
    let ghost s1 = stack@;
    proof {
        assert(s1 =~= s0.subrange(0, s0.len() - 1));
        lemma_flat_push(Seq::empty(), node);
        assert(flat(seq![node]) == flat(ch));
        lemma_emphs_push(Seq::empty(), node);
        assert(pair == (Formed { r: pair.r, marker: pair.marker, len: pair.len }));
        assert(emphs(seq![node]) == seq![pair] + emphs(ch));
    }
    match stack.pop() {
        Some((parent, mut siblings)) => {
            proof {
                assert(entry_within(s1[s1.len() - 1], len));
            }
            let ghost sib0 = siblings@;
            let ghost s2 = stack@;
            siblings.push(node);
            stack.push((parent, siblings));
            proof {
                assert(s2 =~= s1.subrange(0, s1.len() - 1));
                lemma_flat_push(sib0, node);
                lemma_stack_flat_push(s2, (parent, siblings));
                assert(stack@ =~= s2.push((parent, siblings)));
                assert(stack_flat(s1) == stack_flat(s2) + flat(sib0));
                assert(stack_flat(s0) == stack_flat(s1) + flat(ch));
                assert(stack_flat(stack@) =~= stack_flat(s1) + flat(ch));
                lemma_emphs_push(sib0, node);
                lemma_stack_emphs_push(s2, (parent, siblings));
                assert(stack_emphs(s1) == stack_emphs(s2) + seq![parent] + emphs(sib0));
                assert(stack_emphs(s0) == stack_emphs(s1) + seq![pair] + emphs(ch));
                assert(stack_emphs(stack@) =~= stack_emphs(s1) + (seq![pair] + emphs(ch)));
                assert(stack_emphs(s0) =~= stack_emphs(s1) + (seq![pair] + emphs(ch)));
                assert forall|k: int| 0 <= k < stack@.len() implies entry_within(#[trigger] stack@[k], len) by {
                    if k < stack@.len() - 1 {
                        assert(stack@[k] == s0[k]);
                    }
                }
                let n1 = s1.len() as int;
                assert(pairs_of(stack@) =~= pairs_of(s0).drop_last()) by {
                    assert(stack@[n1 - 1].0 == s0[n1 - 1].0);
                }
                if stack_placed(ps, s0) && placed(ps, out@, Seq::empty()) {
                    assert forall|k: int| 0 <= k < stack@.len() implies placed(ps, #[trigger] stack@[k].1@, pairs_of(stack@).subrange(0, k + 1)) by {
                        assert(pairs_of(stack@).subrange(0, k + 1) =~= pairs_of(s0).subrange(0, k + 1));
                        if k < n1 - 1 {
                            assert(stack@[k] == s0[k]);
                            assert(placed(ps, s0[k].1@, pairs_of(s0).subrange(0, k + 1)));
                        } else {
                            assert(placed(ps, s0[k].1@, pairs_of(s0).subrange(0, k + 1)));
                            assert(s0[k].1@ == sib0);
                            assert(placed(ps, s0[n1].1@, pairs_of(s0).subrange(0, n1 + 1)));
                            assert(s0[n1].1@ == ch);
                            assert(pairs_of(s0).subrange(0, n1 + 1) =~= pairs_of(s0).subrange(0, k + 1).push(pair));
                            lemma_placed_push(ps, sib0, node, pairs_of(s0).subrange(0, k + 1));
                        }
                    }
                }
            }
        },
        None => {
            let ghost o0 = out@;
            out.push(node);
            proof {
                lemma_flat_push(o0, node);
                assert(s1.len() == 0);
                assert(stack_flat(s0) == stack_flat(s1) + flat(ch));
                assert(stack_flat(s1) =~= Seq::<PN>::empty());
                assert(flat(out@) + stack_flat(stack@) =~= flat(o0) + stack_flat(s0));
                lemma_emphs_push(o0, node);
                assert(stack_emphs(s0) == stack_emphs(s1) + seq![pair] + emphs(ch));
                assert(stack_emphs(s1) =~= Seq::<Formed>::empty());
                assert(emphs(out@) + stack_emphs(stack@) =~= emphs(o0) + stack_emphs(s0));
                assert(pairs_of(stack@) =~= pairs_of(s0).drop_last());
                if stack_placed(ps, s0) && placed(ps, o0, Seq::empty()) {
                    assert(placed(ps, s0[0].1@, pairs_of(s0).subrange(0, 1)));
                    assert(s0[0].1@ == ch);
                    assert(pairs_of(s0).subrange(0, 1) =~= Seq::<Formed>::empty().push(pair));
                    lemma_placed_push(ps, o0, node, Seq::empty());
                }
            }
        },
    }
}

/// The tree of the flat `nodes` and the pairs `formed` over them (consumed; they nest properly).
/// Emptied delimiter runs are dropped; every other node appears once, in order: read with its
/// emphasis nodes opened up, the result is the input without them. Over input holding no
/// emphasis node, the emphasis nodes of the result, in pre-order, are pairs sorted by start (the
/// wider first), and when every pair starts by some node they are exactly the pairs given.
/// When moreover the node starts are in order and the pairs nest or lie apart, each holding
/// some node's start, every node sits inside exactly the pairs whose range holds its start.
#[verifier::rlimit(100)]
#[verifier::spinoff_prover]
pub fn build(nodes: Vec<PN>, formed: &mut Vec<Formed>, Ghost(len): Ghost<int>) -> (out: Vec<PN>)
    requires
        forall|i: int| 0 <= i < nodes@.len() ==> pn_within(#[trigger] nodes@[i], len),
        formed_wf(old(formed)@, len),
    ensures
        final(formed)@.len() == 0,
        built_within(out@, len),
        flat(out@) == flat(kept(nodes@)),
        no_emph(nodes@) && pairs_covered(old(formed)@, nodes@) ==> emphs(out@).to_multiset() == old(formed)@.to_multiset(),
        no_emph(nodes@) ==> forall|i: int, j: int|
            0 <= i < j < emphs(out@).len() ==> formed_before(#[trigger] emphs(out@)[i].r, #[trigger] emphs(out@)[j].r),
        nest_ok(old(formed)@, nodes@) ==> placed(old(formed)@, out@, Seq::empty()),
{
    let ghost input = nodes@;
    let ghost f_in = formed@;
    // Pre-order
    let mut taken: Vec<Formed> = Vec::new();
    std::mem::swap(formed, &mut taken);
    let pending = sort_formed(taken, Ghost(len));
    proof {
        assert(taken@ == f_in);
    }
    let ghost c_ok = nest_ok(f_in, input);
    let ghost mut last_at: int = 0;
    let mut next_pair: usize = 0;
    let mut out: Vec<PN> = Vec::new();
    let mut stack: Vec<(Formed, Vec<PN>)> = Vec::new();
    let mut forward = nodes;
    let mut nodes: Vec<PN> = Vec::new();
    while forward.len() > 0
        invariant
            forall|i: int| 0 <= i < forward@.len() ==> pn_within(#[trigger] forward@[i], len),
            forall|i: int| 0 <= i < nodes@.len() ==> pn_within(#[trigger] nodes@[i], len),
            forward@.len() + nodes@.len() == input.len(),
            forward@ == input.subrange(0, forward@.len() as int),
            forall|j: int| 0 <= j < nodes@.len() ==> #[trigger] nodes@[j] == input[input.len() - 1 - j],
        decreases forward@.len(),
    {
        let ghost f0 = forward@;
        let n = forward.pop().unwrap();
        proof {
            assert(n == f0[f0.len() - 1]);
            assert forall|i: int| 0 <= i < forward@.len() implies pn_within(#[trigger] forward@[i], len) by {
                assert(forward@[i] == f0[i]);
            }
            assert(forward@ =~= input.subrange(0, forward@.len() as int));
        }
        nodes.push(n);
    }
    proof {
        assert(input.subrange(0, 0) =~= Seq::<PN>::empty());
        assert(flat(out@) + stack_flat(stack@) =~= flat(kept(input.subrange(0, 0))));
    }
    while nodes.len() > 0
        invariant
            next_pair <= pending@.len(),
            stack@.len() <= next_pair,
            formed@.len() == 0,
            formed_wf(pending@, len),
            built_within(out@, len),
            forall|k: int| 0 <= k < stack@.len() ==> entry_within(#[trigger] stack@[k], len),
            forall|i: int| 0 <= i < nodes@.len() ==> pn_within(#[trigger] nodes@[i], len),
            nodes@.len() <= input.len(),
            forall|j: int| 0 <= j < nodes@.len() ==> #[trigger] nodes@[j] == input[input.len() - 1 - j],
            flat(out@) + stack_flat(stack@) == flat(kept(input.subrange(0, input.len() - nodes@.len()))),
            no_emph(input) ==> emphs(out@) + stack_emphs(stack@) == pending@.subrange(0, next_pair as int),
            forall|i: int, j: int| 0 <= i < j < pending@.len() ==> formed_before(#[trigger] pending@[i].r, #[trigger] pending@[j].r),
            forall|j: int, i: int|
                #![trigger pending@[j], input[i]]
                next_pair <= j < pending@.len() && 0 <= i < input.len() - nodes@.len() ==> pending@[j].r.start > extent(input[i]).0,
            pending@.to_multiset() == f_in.to_multiset(),
            c_ok == nest_ok(f_in, input),
            c_ok ==> stack_placed(f_in, stack@) && placed(f_in, out@, Seq::empty()) && chain(pairs_of(stack@))
                && (forall|k: int| 0 <= k < stack@.len() ==> pending@.subrange(0, next_pair as int).contains(#[trigger] stack@[k].0)),
            c_ok ==> forall|j: int| 0 <= j < next_pair ==> pairs_of(stack@).contains(#[trigger] pending@[j]) || pending@[j].r.end <= last_at,
            c_ok ==> forall|k: int| 0 <= k < stack@.len() ==> #[trigger] stack@[k].0.r.start <= last_at,
            c_ok && nodes@.len() > 0 ==> last_at <= extent(input[input.len() - nodes@.len()]).0,
            0 <= last_at,
        decreases nodes@.len(),
    {
        let ghost m0 = nodes@;
        let ghost done = input.len() - m0.len();
        let node = nodes.pop().unwrap();
        proof {
            assert(node == m0[m0.len() - 1]);
            assert forall|i: int| 0 <= i < nodes@.len() implies pn_within(#[trigger] nodes@[i], len) by {
                assert(nodes@[i] == m0[i]);
            }
            assert(m0[m0.len() - 1] == input[input.len() - 1 - (m0.len() - 1)]);
            assert(node == input[done]);
            assert forall|j: int| 0 <= j < nodes@.len() implies #[trigger] nodes@[j] == input[input.len() - 1 - j] by {
                assert(nodes@[j] == m0[j]);
            }
            lemma_kept_step(input, done);
        }
        let ghost acc = flat(kept(input.subrange(0, done)));
        let ghost eacc = emphs(out@) + stack_emphs(stack@);
        let at = node.start();
        proof {
            assert(extent(input[done]).0 == at);
        }
        // A pair holds at least one node, so none both ends and starts before this one
        while stack.len() > 0 && stack[stack.len() - 1].0.r.end <= at
            invariant
                stack@.len() <= next_pair,
                built_within(out@, len),
                forall|k: int| 0 <= k < stack@.len() ==> entry_within(#[trigger] stack@[k], len),
                flat(out@) + stack_flat(stack@) == acc,
                emphs(out@) + stack_emphs(stack@) == eacc,
                c_ok ==> stack_placed(f_in, stack@) && placed(f_in, out@, Seq::empty()) && chain(pairs_of(stack@))
                && (forall|k: int| 0 <= k < stack@.len() ==> pending@.subrange(0, next_pair as int).contains(#[trigger] stack@[k].0)),
                c_ok ==> forall|j: int| 0 <= j < next_pair ==> pairs_of(stack@).contains(#[trigger] pending@[j]) || pending@[j].r.end <= at,
                c_ok ==> forall|k: int| 0 <= k < stack@.len() ==> #[trigger] stack@[k].0.r.start <= at,
            decreases stack@.len(),
        {
            let ghost st0 = stack@;
            close_top(&mut stack, &mut out, Ghost(len), Ghost(f_in));
            proof {
                if c_ok {
                    let p0 = pairs_of(st0);
                    assert(pairs_of(stack@) == p0.drop_last());
                    assert(p0[p0.len() - 1] == st0[st0.len() - 1].0);
                    assert forall|k: int| 0 <= k < stack@.len() implies pending@.subrange(0, next_pair as int).contains(#[trigger] stack@[k].0) by {
                        assert(pairs_of(stack@)[k] == p0[k]);
                        assert(p0[k] == st0[k].0);
                    }
                    assert forall|k: int| 0 <= k < stack@.len() implies #[trigger] stack@[k].0.r.start <= at by {
                        assert(pairs_of(stack@)[k] == p0[k]);
                        assert(p0[k] == st0[k].0);
                    }
                    assert forall|j: int| 0 <= j < next_pair implies pairs_of(stack@).contains(#[trigger] pending@[j]) || pending@[j].r.end <= at by {
                        if p0.contains(pending@[j]) {
                            let q = choose|q: int| 0 <= q < p0.len() && p0[q] == pending@[j];
                            if q < p0.len() - 1 {
                                assert(pairs_of(stack@)[q] == p0[q]);
                            } else {
                                if q > 0 {
                                    assert(p0[q].r.end <= p0[q].r.end);
                                }
                            }
                        }
                    }
                }
            }
        }
        proof {
            if c_ok && stack@.len() > 0 {
                assert(pairs_of(stack@)[stack@.len() - 1] == stack@[stack@.len() - 1].0);
            }
        }
        while next_pair < pending.len() && pending[next_pair].r.start <= at
            invariant
                next_pair <= pending@.len(),
                stack@.len() <= next_pair,
                formed_wf(pending@, len),
                built_within(out@, len),
                forall|k: int| 0 <= k < stack@.len() ==> entry_within(#[trigger] stack@[k], len),
                flat(out@) + stack_flat(stack@) == acc,
                no_emph(input) ==> emphs(out@) + stack_emphs(stack@) == pending@.subrange(0, next_pair as int),
                forall|i: int, j: int| 0 <= i < j < pending@.len() ==> formed_before(#[trigger] pending@[i].r, #[trigger] pending@[j].r),
                forall|j: int, i: int|
                    #![trigger pending@[j], input[i]]
                    next_pair <= j < pending@.len() && 0 <= i < done ==> pending@[j].r.start > extent(input[i]).0,
                pending@.to_multiset() == f_in.to_multiset(),
                c_ok == nest_ok(f_in, input),
                at == extent(input[done]).0,
                0 <= done < input.len(),
                c_ok ==> stack_placed(f_in, stack@) && placed(f_in, out@, Seq::empty()) && chain(pairs_of(stack@))
                && (forall|k: int| 0 <= k < stack@.len() ==> pending@.subrange(0, next_pair as int).contains(#[trigger] stack@[k].0)),
                c_ok ==> forall|j: int| 0 <= j < next_pair ==> pairs_of(stack@).contains(#[trigger] pending@[j]) || pending@[j].r.end <= at,
                c_ok ==> forall|k: int| 0 <= k < stack@.len() ==> #[trigger] stack@[k].0.r.start <= at,
                c_ok && stack@.len() > 0 ==> stack@[stack@.len() - 1].0.r.end > at,
            decreases pending@.len() - next_pair,
        {
            let p = &pending[next_pair];
            let ghost s0 = stack@;
            let e = (Formed { r: p.r.start..p.r.end, marker: p.marker, len: p.len }, Vec::new());
            proof {
                assert(pending@[next_pair as int].r.start < pending@[next_pair as int].r.end <= len);
                assert(entry_within(e, len));
            }
            stack.push(e);
            proof {
                assert forall|k: int| 0 <= k < stack@.len() implies entry_within(#[trigger] stack@[k], len) by {
                    if k < s0.len() {
                        assert(stack@[k] == s0[k]);
                    }
                }
                lemma_stack_flat_push(s0, e);
                assert(e.1@ =~= Seq::<PN>::empty());
                assert(stack_flat(stack@) =~= stack_flat(s0));
                lemma_stack_emphs_push(s0, e);
                assert(emphs(e.1@) =~= Seq::<Formed>::empty());
                assert(e.0 == pending@[next_pair as int]);
                assert(pending@.subrange(0, next_pair + 1) =~= pending@.subrange(0, next_pair as int).push(e.0));
                assert(stack_emphs(stack@) =~= stack_emphs(s0) + seq![e.0]);
                if c_ok {
                    let pp = pending@[next_pair as int];
                    let np = next_pair as int;
                    // the new pair holds `at`
                    assert(pending@.contains(pp));
                    vstd::seq_lib::to_multiset_contains(pending@, pp);
                    vstd::seq_lib::to_multiset_contains(f_in, pp);
                    let kf = choose|kf: int| 0 <= kf < f_in.len() && f_in[kf] == pp;
                    let i = choose|i: int| 0 <= i < input.len() && holds_at(#[trigger] f_in[kf], extent(#[trigger] input[i]).0);
                    if i < done {
                        assert(pending@[np].r.start > extent(input[i]).0);
                    } else if i > done {
                        assert(extent(input[done]).0 <= extent(input[i]).0);
                    }
                    assert(pp.r.end > at);
                    let ps0 = pairs_of(s0);
                    assert(pairs_of(stack@) =~= ps0.push(pp));
                    // it nests in the current top
                    if s0.len() > 0 {
                        let t = s0[s0.len() - 1].0;
                        assert(pending@.subrange(0, np).contains(t));
                        let jt = choose|jt: int| 0 <= jt < np && pending@.subrange(0, np)[jt] == t;
                        assert(pending@[jt] == t);
                        assert(formed_before(pending@[jt].r, pending@[np].r));
                        assert(pending@.contains(t));
                        vstd::seq_lib::to_multiset_contains(pending@, t);
                        vstd::seq_lib::to_multiset_contains(f_in, t);
                        let kt = choose|kt: int| 0 <= kt < f_in.len() && f_in[kt] == t;
                        assert(nest_or_apart(f_in[kt].r, f_in[kf].r));
                        assert(t.r.start <= pp.r.start && pp.r.end <= t.r.end);
                        assert(ps0[ps0.len() - 1] == t);
                    }
                    assert forall|k: int, q: int| 0 <= k < q < pairs_of(stack@).len() implies #[trigger] pairs_of(stack@)[k].r.start
                        <= #[trigger] pairs_of(stack@)[q].r.start && pairs_of(stack@)[q].r.end <= pairs_of(stack@)[k].r.end by {
                        if q == ps0.len() && k < ps0.len() - 1 {
                            assert(ps0[k].r.start <= ps0[ps0.len() - 1].r.start);
                        }
                    }
                    assert forall|k: int| 0 <= k < stack@.len() implies pending@.subrange(0, np + 1).contains(#[trigger] stack@[k].0) by {
                        if k < s0.len() {
                            assert(stack@[k] == s0[k]);
                            assert(pending@.subrange(0, np).contains(s0[k].0));
                            let jj = choose|jj: int| 0 <= jj < np && pending@.subrange(0, np)[jj] == s0[k].0;
                            assert(pending@.subrange(0, np + 1)[jj] == s0[k].0);
                        } else {
                            assert(pending@.subrange(0, np + 1)[np] == pp);
                        }
                    }
                    assert forall|j: int| 0 <= j < np + 1 implies pairs_of(stack@).contains(#[trigger] pending@[j]) || pending@[j].r.end <= at by {
                        if j == np {
                            assert(pairs_of(stack@)[ps0.len() as int] == pp);
                        } else if ps0.contains(pending@[j]) {
                            let q = choose|q: int| 0 <= q < ps0.len() && ps0[q] == pending@[j];
                            assert(pairs_of(stack@)[q] == ps0[q]);
                        }
                    }
                    assert forall|k: int| 0 <= k < stack@.len() implies #[trigger] stack@[k].0.r.start <= at by {
                        if k < s0.len() {
                            assert(stack@[k] == s0[k]);
                        }
                    }
                    assert forall|k: int| 0 <= k < stack@.len() implies placed(f_in, #[trigger] stack@[k].1@, pairs_of(stack@).subrange(0, k + 1)) by {
                        if k < s0.len() {
                            assert(stack@[k] == s0[k]);
                            assert(pairs_of(stack@).subrange(0, k + 1) =~= ps0.subrange(0, k + 1));
                            assert(placed(f_in, s0[k].1@, ps0.subrange(0, k + 1)));
                        } else {
                            assert(stack@[k].1@ =~= Seq::<PN>::empty());
                        }
                    }
                }
            }
            next_pair = next_pair + 1;
        }
        proof {
            assert forall|j: int, i: int|
                #![trigger pending@[j], input[i]]
                next_pair <= j < pending@.len() && 0 <= i < done + 1 implies pending@[j].r.start > extent(input[i]).0 by {
                if i == done {
                    assert(pending@[next_pair as int].r.start > at);
                    if j > next_pair {
                        assert(formed_before(pending@[next_pair as int].r, pending@[j].r));
                    }
                }
            }
        }
        let empty_text = match &node {
            PN::Text(r) => r.start >= r.end,
            _ => false,
        };
        if empty_text {
            proof {
                assert(is_empty_text(node));
                assert(kept(input.subrange(0, done + 1)) =~= kept(input.subrange(0, done)));
                if c_ok && nodes@.len() > 0 {
                    assert(extent(input[done]).0 <= extent(input[done + 1]).0);
                }
                last_at = at as int;
            }
            continue;
        }
        proof {
            assert(!is_empty_text(node));
            lemma_flat_push(kept(input.subrange(0, done)), node);
            assert(kept(input.subrange(0, done + 1)) =~= kept(input.subrange(0, done)).push(node));
            if c_ok {
                assert forall|k: int| 0 <= k < pairs_of(stack@).len() implies #[trigger] pairs_of(stack@)[k].r.start <= at by {
                    assert(pairs_of(stack@)[k] == stack@[k].0);
                }
                if stack@.len() > 0 {
                    assert(pairs_of(stack@)[stack@.len() - 1] == stack@[stack@.len() - 1].0);
                }
                lemma_exact_at(f_in, pending@, pairs_of(stack@), next_pair as int, at as int);
                assert(!(input[done] is Emph));
                if nodes@.len() > 0 {
                    assert(extent(input[done]).0 <= extent(input[done + 1]).0);
                }
            }
        }
        let ghost s0 = stack@;
        let ghost o0 = out@;
        match stack.pop() {
            Some((parent, mut children)) => {
                proof {
                    assert(entry_within(s0[s0.len() - 1], len));
                }
                let ghost c0 = children@;
                let ghost s1 = stack@;
                children.push(node);
                stack.push((parent, children));
                proof {
                    assert forall|k: int| 0 <= k < stack@.len() implies entry_within(#[trigger] stack@[k], len) by {
                        if k < stack@.len() - 1 {
                            assert(stack@[k] == s0[k]);
                        }
                    }
                    assert(s1 =~= s0.subrange(0, s0.len() - 1));
                    lemma_flat_push(c0, node);
                    lemma_stack_flat_push(s1, (parent, children));
                    assert(stack@ =~= s1.push((parent, children)));
                    assert(stack_flat(s0) == stack_flat(s1) + flat(c0));
                    assert(flat(out@) + stack_flat(stack@) =~= flat(o0) + stack_flat(s0) + flat(seq![node]));
                    if no_emph(input) {
                        assert(!(input[done] is Emph));
                        lemma_emphs_push(c0, node);
                        assert(emphs(seq![node]) =~= Seq::<Formed>::empty());
                        lemma_stack_emphs_push(s1, (parent, children));
                        assert(stack_emphs(s0) == stack_emphs(s1) + seq![parent] + emphs(c0));
                        assert(stack_emphs(stack@) =~= stack_emphs(s0));
                    }
                    if c_ok {
                        let ps0 = pairs_of(s0);
                        let top = s0.len() - 1;
                        assert(pairs_of(stack@) =~= ps0) by {
                            assert(stack@[top].0 == s0[top].0);
                        }
                        assert(placed(f_in, s0[top].1@, ps0.subrange(0, top + 1)));
                        assert(ps0.subrange(0, top + 1) =~= ps0);
                        assert(s0[top].1@ == c0);
                        lemma_placed_push(f_in, c0, node, ps0);
                        assert forall|k: int| 0 <= k < stack@.len() implies placed(f_in, #[trigger] stack@[k].1@, pairs_of(stack@).subrange(0, k + 1)) by {
                            if k < top {
                                assert(stack@[k] == s0[k]);
                            }
                        }
                        assert forall|k: int| 0 <= k < stack@.len() implies pending@.subrange(0, next_pair as int).contains(#[trigger] stack@[k].0) by {
                            assert(stack@[k].0 == s0[k].0);
                        }
                        assert forall|k: int| 0 <= k < stack@.len() implies #[trigger] stack@[k].0.r.start <= at by {
                            assert(stack@[k].0 == s0[k].0);
                        }
                    }
                }
            },
            None => {
                out.push(node);
                proof {
                    lemma_flat_push(o0, node);
                    assert(stack_flat(stack@) =~= Seq::<PN>::empty());
                    assert(stack_flat(s0) =~= Seq::<PN>::empty());
                    assert(flat(out@) + stack_flat(stack@) =~= flat(o0) + stack_flat(s0) + flat(seq![node]));
                    if no_emph(input) {
                        assert(!(input[done] is Emph));
                        lemma_emphs_push(o0, node);
                        assert(emphs(seq![node]) =~= Seq::<Formed>::empty());
                        assert(emphs(out@) =~= emphs(o0));
                    }
                    if c_ok {
                        assert(pairs_of(s0) =~= Seq::<Formed>::empty());
                        lemma_placed_push(f_in, o0, node, Seq::empty());
                    }
                }
            },
        }
        proof {
            last_at = at as int;
        }
    }
    proof {
        assert(input.subrange(0, input.len() as int) =~= input);
        if no_emph(input) && pairs_covered(f_in, input) && next_pair < pending@.len() {
            let x = pending@[next_pair as int];
            assert(pending@.contains(x));
            vstd::seq_lib::to_multiset_contains(pending@, x);
            vstd::seq_lib::to_multiset_contains(f_in, x);
            let k = choose|k: int| 0 <= k < f_in.len() && f_in[k] == x;
            let i = choose|i: int| 0 <= i < input.len() && #[trigger] f_in[k].r.start <= extent(#[trigger] input[i]).0;
            assert(x.r.start > extent(input[i]).0);
        }
    }
    let ghost e_end = emphs(out@) + stack_emphs(stack@);
    while stack.len() > 0
        invariant
            built_within(out@, len),
            forall|k: int| 0 <= k < stack@.len() ==> entry_within(#[trigger] stack@[k], len),
            flat(out@) + stack_flat(stack@) == flat(kept(input)),
            emphs(out@) + stack_emphs(stack@) == e_end,
            c_ok ==> stack_placed(f_in, stack@) && placed(f_in, out@, Seq::empty()),
        decreases stack@.len(),
    {
        close_top(&mut stack, &mut out, Ghost(len), Ghost(f_in));
    }
    proof {
        assert(stack_flat(stack@) =~= Seq::<PN>::empty());
        assert(flat(out@) + stack_flat(stack@) =~= flat(out@));
        assert(stack_emphs(stack@) =~= Seq::<Formed>::empty());
        assert(emphs(out@) =~= e_end);
        if no_emph(input) {
            let e = emphs(out@);
            assert(e == pending@.subrange(0, next_pair as int));
            assert forall|i: int, j: int| 0 <= i < j < e.len() implies formed_before(#[trigger] e[i].r, #[trigger] e[j].r) by {
                assert(e[i] == pending@[i] && e[j] == pending@[j]);
            }
            if pairs_covered(f_in, input) {
                assert(pending@.subrange(0, pending@.len() as int) =~= pending@);
                assert(emphs(out@) == pending@);
            }
        }
    }
    out
}

} // verus!
