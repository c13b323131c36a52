//! The tokenizer: one left-to-right pass over the joined text.
//!
//! Special characters are scanned in order;
//! code spans, autolinks and raw HTML resolve immediately (they outrank everything),
//! `*`/`_` runs and brackets are only recorded;
//! a bracket close and the end of the run resolve them.
use std::ops::Range;
use vstd::prelude::*;
use vstd::string::StringSliceAdditionalSpecFns;
use vstd::utf8::*;
use crate::ast::HardBreakKind;
use crate::options::Constructs;
use crate::syntax::{alnum, escapes_next, is_space_tab, run_from, run_len, spec_escapes_next};
use crate::syntax::label::{normalize, spec_normalize};
use crate::syntax::link_target::{footnote_label, spec_footnote_label};
use crate::syntax::unicode::{char_before, spec_char_before};
use crate::utf::{lemma_ascii_boundaries, substr};
use super::{autolink, extent, gfm_autolink, html, lemma_pn_within_mono, pn_within, PN};
use super::emphasis::{delims_wf, formed_wf, frame, runs_within, shrinks, Delim, Formed};
use super::link::{open_width, Bracket};
use super::refmap::RefMap;

verus! {

broadcast use {encode_utf8_valid_utf8, encode_utf8_decode_utf8};

/// Node extents are in order, each ending by `end`.
pub open spec fn nodes_ordered(nodes: Seq<PN>, end: int) -> bool {
    &&& forall|i: int| 0 <= i < nodes.len() ==> extent(#[trigger] nodes[i]).0 <= extent(nodes[i]).1 <= end
    &&& forall|i: int, j: int|
        0 <= i < j < nodes.len() ==> extent(#[trigger] nodes[i]).1 <= extent(#[trigger] nodes[j]).0
}

/// A bracket on the stack: its opening text ends by `end` with `[`,
/// the nodes before its own end before it and the nodes after start after it,
/// and the delimiters below `delim_len` are exactly those before its node.
pub open spec fn bracket_ok(nodes: Seq<PN>, delims: Seq<Delim>, bytes: Seq<u8>, end: int, b: Bracket) -> bool {
    &&& b.node < nodes.len()
    &&& b.delim_len <= delims.len()
    &&& b.text_start + open_width(b) <= end
    &&& end <= bytes.len()
    &&& bytes[b.text_start + open_width(b) - 1] == 91
    &&& forall|i: int| 0 <= i < b.node ==> extent(#[trigger] nodes[i]).1 <= b.text_start
    &&& forall|i: int| b.node < i < nodes.len() ==> extent(#[trigger] nodes[i]).0 >= b.text_start + open_width(b)
    &&& forall|q: int| 0 <= q < b.delim_len ==> #[trigger] delims[q].node < b.node
    &&& forall|q: int| b.delim_len <= q < delims.len() ==> #[trigger] delims[q].node > b.node
}

/// The bracket stack: every entry is in place, and entries are in order.
pub open spec fn brackets_wf(
    nodes: Seq<PN>,
    delims: Seq<Delim>,
    bytes: Seq<u8>,
    end: int,
    brackets: Seq<Bracket>,
) -> bool {
    &&& forall|k: int| 0 <= k < brackets.len() ==> bracket_ok(nodes, delims, bytes, end, #[trigger] brackets[k])
    &&& forall|i: int, j: int|
        0 <= i < j < brackets.len() ==> #[trigger] brackets[i].node < #[trigger] brackets[j].node
            && brackets[i].delim_len <= brackets[j].delim_len && brackets[i].text_start + open_width(
            brackets[i],
        ) <= brackets[j].text_start
}

/// The key a label's bytes normalize to.
pub open spec fn label_key(bytes: Seq<u8>, lo: int, hi: int) -> Seq<char> {
    spec_normalize(decode_utf8(bytes.subrange(lo, hi)))
}

/// The first position at or after `from` where a run of exactly `n` markers starts
/// (not continuing a run that started before it, except at `from` itself).
pub open spec fn spec_matching_run(b: Seq<u8>, k: int, from: int, marker: u8, n: int) -> Option<int>
    decreases b.len() - k,
{
    if n <= 0 || k < from || k >= b.len() {
        None
    } else if (k == from || b[k - 1] != marker) && run_from(b, k, marker, n) {
        Some(k)
    } else {
        spec_matching_run(b, k + 1, from, marker, n)
    }
}

/// A later start sees the same first match when nothing in between qualifies.
proof fn lemma_matching_run_skip(b: Seq<u8>, k: int, j: int, from: int, marker: u8, n: int)
    requires
        from <= k <= j,
        n > 0,
        forall|q: int|
            k <= q < j && q < b.len() ==> !((q == from || b[q - 1] != marker) && #[trigger] run_from(b, q, marker, n)),
    ensures
        spec_matching_run(b, k, from, marker, n) == spec_matching_run(b, j, from, marker, n),
    decreases j - k,
{
    if k < j && k < b.len() {
        lemma_matching_run_skip(b, k + 1, j, from, marker, n);
    }
}

/// A match is a run of exactly `n` markers inside the text.
proof fn lemma_matching_run_found(b: Seq<u8>, k: int, from: int, marker: u8, n: int)
    requires
        from <= k,
    ensures
        spec_matching_run(b, k, from, marker, n) matches Some(c) ==> k <= c && run_from(b, c, marker, n),
    decreases b.len() - k,
{
    if n > 0 && k < b.len() && !((k == from || b[k - 1] != marker) && run_from(b, k, marker, n)) {
        lemma_matching_run_found(b, k + 1, from, marker, n);
    }
}

/// Whether a closing run of exactly `n` `marker` bytes starts at `q` (not inside a longer run).
pub open spec fn run_starts(b: Seq<u8>, q: int, from: int, marker: u8, n: int) -> bool {
    (q == from || b[q - 1] != marker) && run_from(b, q, marker, n)
}

/// The match found from `k` is the least qualifying position at or after `k`; none means none qualifies.
pub proof fn lemma_matching_run_least(b: Seq<u8>, k: int, from: int, marker: u8, n: int)
    requires
        from <= k,
        n > 0,
    ensures
        spec_matching_run(b, k, from, marker, n) matches Some(c) ==> k <= c < b.len() && run_starts(b, c, from, marker, n)
            && forall|q: int| k <= q < c ==> !#[trigger] run_starts(b, q, from, marker, n),
        spec_matching_run(b, k, from, marker, n) is None ==> forall|q: int|
            k <= q < b.len() ==> !#[trigger] run_starts(b, q, from, marker, n),
    decreases b.len() - k,
{
    if k < b.len() && !run_starts(b, k, from, marker, n) {
        lemma_matching_run_least(b, k + 1, from, marker, n);
    }
}

/// Start of the first run of exactly `n` `marker` bytes at or after `from`
/// (code spans and math share this closing-run rule).
pub fn matching_run(bytes: &[u8], from: usize, marker: u8, n: usize) -> (r: Option<usize>)
    requires
        from <= bytes.len(),
    ensures
        r matches Some(c) ==> spec_matching_run(bytes@, from as int, from as int, marker, n as int) == Some(
            c as int,
        ) && from <= c && c + n <= bytes.len(),
        r is None ==> spec_matching_run(bytes@, from as int, from as int, marker, n as int) is None,
        n > 0 ==> (r matches Some(c) ==> run_starts(bytes@, c as int, from as int, marker, n as int) && forall|q: int|
            from <= q < c ==> !#[trigger] run_starts(bytes@, q, from as int, marker, n as int)),
        n > 0 && r is None ==> forall|q: int|
            from <= q < bytes@.len() ==> !#[trigger] run_starts(bytes@, q, from as int, marker, n as int),
{
    let ghost b = bytes@;
    if n == 0 {
        return None;
    }
    let mut j = from;
    while j < bytes.len()
        invariant
            from <= j <= bytes.len(),
            b == bytes@,
            n > 0,
            j == from || j == bytes.len() || bytes@[j as int] != marker,
            spec_matching_run(b, from as int, from as int, marker, n as int) == spec_matching_run(
                b,
                j as int,
                from as int,
                marker,
                n as int,
            ),
        decreases bytes.len() - j,
    {
        let mut at = j;
        while at < bytes.len() && bytes[at] != marker
            invariant
                j <= at <= bytes.len(),
                b == bytes@,
                forall|q: int| j <= q < at ==> bytes@[q] != marker,
            decreases bytes.len() - at,
        {
            at = at + 1;
        }
        proof {
            assert forall|q: int| j <= q < at && q < b.len() implies !((q == from || b[q - 1] != marker)
                && #[trigger] run_from(b, q, marker, n as int)) by {
                assert(b[q] != marker);
            }
            lemma_matching_run_skip(b, j as int, at as int, from as int, marker, n as int);
        }
        if at == bytes.len() {
            proof {
                assert(spec_matching_run(b, at as int, from as int, marker, n as int) is None);
                lemma_matching_run_least(b, from as int, from as int, marker, n as int);
            }
            return None;
        }
        let m = run_len(bytes, at, marker);
        proof {
            assert(at == from || b[at - 1] != marker) by {
                if at > j {
                    assert(b[at - 1] != marker);
                } else {
                    assert(b[at as int] == marker);
                }
            }
        }
        if m == n {
            proof {
                lemma_matching_run_least(b, from as int, from as int, marker, n as int);
            }
            return Some(at);
        }
        proof {
            // Inside the run no position qualifies: each continues the run.
            assert forall|q: int| at <= q < at + m && q < b.len() implies !((q == from || b[q - 1] != marker)
                && #[trigger] run_from(b, q, marker, n as int)) by {
                if q == at {
                    if run_from(b, q, marker, n as int) {
                        if (n as int) < m {
                            assert(b[q + n] == marker);
                        } else {
                            assert(b[at + m] == marker);
                        }
                    }
                } else {
                    assert(b[q - 1] == marker);
                    assert(q != from) by {
                        assert(at >= from);
                    }
                }
            }
            lemma_matching_run_skip(b, at as int, at + m, from as int, marker, n as int);
        }
        j = at + m;
    }
    proof {
        lemma_matching_run_least(b, from as int, from as int, marker, n as int);
    }
    None
}

pub struct Tokenizer<'i, 'r> {
    pub(crate) t: &'i str,
    pub(crate) refs: &'r RefMap,
    pub(crate) constructs: &'r Constructs,
    pub(crate) pos: usize,
    pub(crate) text_start: usize,
    pub(crate) nodes: Vec<PN>,
    pub(crate) delims: Vec<Delim>,
    pub(crate) brackets: Vec<Bracket>,
    /// Emphasis pairs resolved but not yet built into nodes.
    pub(crate) formed: Vec<Formed>,
    /// Whether the first family whose construct succeeded in this run was strikethrough
    /// (any `*`/`_` run, any valid-length `~` run, flanking irrelevant);
    /// decides which family resolves first at the end of the run.
    pub(crate) first_delim_tilde: Option<bool>,
    /// Per closer kind (`%}` / `}}`):
    /// a liquid scan already reached the end of input without finding this closer,
    /// so every later attempt of the same kind fails too, skip the rescans (quadratic otherwise).
    pub(crate) liquid_exhausted: [bool; 2],
    /// Where a wiki link scan last failed:
    /// every `[[` before it fails at the same place, skip the rescans (quadratic otherwise).
    pub(crate) wiki_dead: usize,
}

/// `q..p` is the whole run of spaces and tabs ending at `p` within the pending text from
/// `start`: every byte in it is a space or tab, and it starts at `start` or after a byte that is
/// neither.
pub open spec fn trailing_from(b: Seq<u8>, start: int, q: int, p: int) -> bool {
    &&& start <= q <= p
    &&& forall|j: int| q <= j < p ==> #[trigger] is_space_tab(b[j])
    &&& (q == start || !is_space_tab(b[q - 1]))
}

/// The node list once the pending text `text_start..upto` is flushed into a text node.
pub open spec fn flushed(nodes: Seq<PN>, text_start: usize, upto: usize) -> Seq<PN> {
    if text_start < upto {
        nodes.push(PN::Text(text_start..upto))
    } else {
        nodes
    }
}

impl<'i, 'r> Tokenizer<'i, 'r> {
    /// The joined text's bytes.
    pub(crate) open spec fn bytes(&self) -> Seq<u8> {
        self.t.spec_bytes()
    }

    /// The tokenizer's state is consistent: positions in order within the text,
    /// the node list in order and ending by `text_start`, the delimiter and bracket stacks
    /// describing it, the definitions ready for lookups, and no pair waiting to be built.
    #[verifier::opaque]
    pub(crate) open spec fn wf(&self) -> bool {
        self.inv() && self.formed@.len() == 0
    }

    /// Everything `wf` holds but that no resolved pair is waiting to be built.
    pub(crate) open spec fn inv(&self) -> bool {
        let bytes = self.bytes();
        &&& bytes.len() <= isize::MAX
        &&& self.text_start <= self.pos <= bytes.len()
        &&& self.refs.finished()
        &&& delims_wf(self.nodes@, self.delims@)
        &&& runs_within(self.nodes@, self.delims@, self.text_start as int)
        &&& formed_wf(self.formed@, self.text_start as int)
        &&& nodes_ordered(self.nodes@, self.text_start as int)
        &&& forall|i: int| 0 <= i < self.nodes@.len() ==> pn_within(#[trigger] self.nodes@[i], extent(self.nodes@[i]).1)
        &&& brackets_wf(self.nodes@, self.delims@, bytes, self.text_start as int, self.brackets@)
    }

    /// A fresh tokenizer at the start of `t`.
    pub(crate) fn new(t: &'i str, refs: &'r RefMap, constructs: &'r Constructs) -> (tk: Self)
        requires
            t.spec_bytes().len() <= isize::MAX,
            refs.finished(),
        ensures
            tk.wf(),
            tk.pos == 0,
            tk.t == t,
            tk.nodes@.len() == 0,
    {
        proof {
            reveal(Tokenizer::wf);
        }
        Tokenizer {
            t,
            refs,
            constructs,
            pos: 0,
            text_start: 0,
            nodes: Vec::new(),
            delims: Vec::new(),
            brackets: Vec::new(),
            formed: Vec::new(),
            first_delim_tilde: None,
            liquid_exhausted: [false, false],
            wiki_dead: 0,
        }
    }

    /// Appends a node that starts at or after `text_start` and ends by `end`,
    /// and moves both positions to `end`.
    pub(crate) fn emit(&mut self, node: PN, end: usize)
        requires
            old(self).wf(),
            old(self).text_start <= extent(node).0 <= extent(node).1 <= end <= old(self).bytes().len(),
            pn_within(node, extent(node).1),
        ensures
            final(self).wf(),
            final(self).nodes@ == old(self).nodes@.push(node),
            final(self).pos == end,
            final(self).text_start == end,
            final(self).t == old(self).t,
            final(self).delims@ == old(self).delims@,
            final(self).brackets@ == old(self).brackets@,
            final(self).formed@ == old(self).formed@,
            final(self).refs == old(self).refs,
    {
        proof {
            reveal(Tokenizer::wf);
        }
        let ghost n0 = self.nodes@;
        self.nodes.push(node);
        self.pos = end;
        self.text_start = end;
        proof {
            let n1 = self.nodes@;
            assert forall|k: int| 0 <= k < self.delims@.len() implies #[trigger] self.delims@[k].node < n1.len()
                && n1[self.delims@[k].node as int] == n0[self.delims@[k].node as int] by {
                assert(self.delims@[k].node < n0.len());
            }
            lemma_push_keeps(n0, n1, self.delims@, self.bytes(), old(self).text_start as int, end as int, self.brackets@);
        }
    }

    /// What the consistent state says of the positions.
    pub(crate) proof fn lemma_positions(&self)
        requires
            self.wf(),
        ensures
            self.text_start <= self.pos <= self.bytes().len() <= isize::MAX,
            self.refs.finished(),
    {
        reveal(Tokenizer::wf);
    }

    /// Moves past bytes that stay in the current text run.
    pub(crate) fn advance(&mut self, to: usize)
        requires
            old(self).wf(),
            old(self).pos < to <= old(self).bytes().len(),
        ensures
            final(self).wf(),
            final(self).pos == to,
            final(self).t == old(self).t,
            final(self).text_start == old(self).text_start,
            final(self).nodes@ == old(self).nodes@,
            final(self).delims@ == old(self).delims@,
            final(self).brackets@ == old(self).brackets@,
            final(self).formed@ == old(self).formed@,
    {
        proof {
            reveal(Tokenizer::wf);
        }
        self.pos = to;
    }

    pub(crate) fn flush_text(&mut self, upto: usize)
        requires
            old(self).wf(),
            upto <= old(self).pos,
        ensures
            final(self).wf(),
            final(self).pos == old(self).pos,
            final(self).text_start == if upto > old(self).text_start {
                upto
            } else {
                old(self).text_start
            },
            old(self).text_start < upto ==> final(self).nodes@ == old(self).nodes@.push(
                PN::Text(old(self).text_start..upto),
            ),
            old(self).text_start >= upto ==> final(self).nodes@ == old(self).nodes@,
            final(self).t == old(self).t,
            final(self).delims@ == old(self).delims@,
            final(self).brackets@ == old(self).brackets@,
            final(self).formed@ == old(self).formed@,
            final(self).refs == old(self).refs,
    {
        proof {
            reveal(Tokenizer::wf);
        }
        if self.text_start < upto {
            let p = self.pos;
            self.emit(PN::Text(self.text_start..upto), upto);
            self.pos = p;
        }
    }

    /// Consumes leading whitespace of a (logical) line: stripped from text,
    /// but still present in the raw buffer for code spans.
    pub(crate) fn skip_line_ws(&mut self)
        requires
            old(self).wf(),
        ensures
            final(self).wf(),
            old(self).pos <= final(self).pos,
            final(self).text_start == final(self).pos,
            final(self).nodes@ == old(self).nodes@,
            final(self).t == old(self).t,
            final(self).delims@ == old(self).delims@,
            final(self).brackets@ == old(self).brackets@,
            final(self).formed@ == old(self).formed@,
    {
        proof {
            reveal(Tokenizer::wf);
        }
        let bytes = self.t.as_bytes();
        let mut p = self.pos;
        while p < bytes.len() && (bytes[p] == 32 || bytes[p] == 9)
            invariant
                old(self).pos <= p <= bytes@.len(),
            decreases bytes.len() - p,
        {
            p = p + 1;
        }
        self.pos = p;
        self.text_start = p;
        proof {
            lemma_raise_end(self.nodes@, self.delims@, self.bytes(), old(self).text_start as int, p as int, self.brackets@);
        }
    }
}

impl<'i, 'r> Tokenizer<'i, 'r> {
    pub(crate) fn run(&mut self)
        requires
            old(self).wf(),
        ensures
            final(self).inv(),
            final(self).pos == final(self).bytes().len(),
            final(self).t == old(self).t,
    {
        let bytes = self.t.as_bytes();
        while self.pos < bytes.len()
            invariant
                self.wf(),
                bytes@ == self.bytes(),
                self.t == old(self).t,
            decreases bytes@.len() - self.pos,
        {
            self.step(bytes);
            proof {
                self.lemma_positions();
            }
        }
        // Final line: trailing whitespace is stripped, never a break
        let mut e = bytes.len();
        while e > 0 && (bytes[e - 1] == 32 || bytes[e - 1] == 9)
            invariant
                e <= bytes@.len(),
            decreases e,
        {
            e = e - 1;
        }
        self.flush_text(e);
        proof {
            reveal(Tokenizer::wf);
        }
        self.process_emphasis_final();
    }

    /// One construct (or one plain byte) at the current position.
    #[verifier::rlimit(60)]
    #[verifier::spinoff_prover]
    fn step(&mut self, bytes: &[u8])
        requires
            old(self).wf(),
            bytes@ == old(self).bytes(),
            old(self).pos < bytes@.len(),
        ensures
            final(self).wf(),
            old(self).pos < final(self).pos,
            final(self).t == old(self).t,
            old(self).bytes()[old(self).pos as int] == 92 && old(self).pos + 1 < old(self).bytes().len() && old(self).bytes()[old(
                self,
            ).pos + 1] == 10 ==> final(self).nodes@ == flushed(old(self).nodes@, old(self).text_start, old(self).pos).push(
                PN::HardBreak { kind: HardBreakKind::Backslash, r: old(self).pos..(old(self).pos + 1) as usize },
            ),
            old(self).bytes()[old(self).pos as int] == 92 && spec_escapes_next(old(self).bytes(), old(self).pos as int)
                ==> final(self).pos == old(self).pos + 2 && final(self).text_start == old(self).text_start
                && final(self).nodes@ == old(self).nodes@ && final(self).delims@ == old(self).delims@
                && final(self).brackets@ == old(self).brackets@,
    {
        proof {
            self.lemma_positions();
        }
        let p = self.pos;
        let c = bytes[p];
        if c == 10 {
            self.line_ending();
        } else if c == 92 {
            if p + 1 < bytes.len() && bytes[p + 1] == 10 {
                self.flush_text(p);
                self.emit(PN::HardBreak { kind: HardBreakKind::Backslash, r: p..p + 1 }, p + 2);
                self.skip_line_ws();
            } else if escapes_next(bytes, p) {
                self.advance(p + 2);
            } else {
                self.advance(p + 1);
            }
        } else if c == 96 {
            self.backticks();
        } else if c == 36 && self.constructs.math_text {
            self.math_span();
        } else if c == 123 && self.try_liquid() {
        } else if c == 60 {
            let handled = self.angle();
            if !handled {
                self.advance(p + 1);
            }
        } else if c == 95 && self.try_autolink_literal() {
            // Extensions run before core constructs,
            // so a literal email may start at `_` (atext);
            // attention only gets the run when the email attempt fails.
        } else if c == 42 || c == 95 {
            self.delimiter_run();
        } else if c == 126 && self.constructs.gfm_strikethrough {
            self.delimiter_run();
        } else if alnum(c) || c == 43 || c == 45 || c == 46 {
            // Autolink literals start on alphanumerics and `+-.`
            // (`_` belongs to attention, which wins there);
            // the previous-character gates inside the scanner make most attempts O(1).
            // Suppressed inside an open bracket label.
            if !self.try_autolink_literal() {
                self.advance(p + 1);
            }
        } else if c == 91 && self.try_footnote_call() {
            // Footnote calls are extension constructs and outrank the core label start;
            // `![^…]` leaves the `!` as text.
        } else if c == 91 && self.try_wiki_link() {
        } else if c == 91 {
            self.open_bracket(false);
        } else if c == 33 && p + 1 < bytes.len() && bytes[p + 1] == 91 {
            self.open_bracket(true);
        } else if c == 93 {
            self.close_bracket();
        } else {
            self.advance(p + 1);
        }
    }

    pub(crate) fn line_ending(&mut self)
        requires
            old(self).wf(),
            old(self).pos < old(self).bytes().len(),
        ensures
            final(self).wf(),
            old(self).pos < final(self).pos,
            final(self).t == old(self).t,
            forall|q: int|
                #![trigger trailing_from(old(self).bytes(), old(self).text_start as int, q, old(self).pos as int)]
                trailing_from(old(self).bytes(), old(self).text_start as int, q, old(self).pos as int) ==> {
                    let p = old(self).pos as int;
                    let pre = flushed(old(self).nodes@, old(self).text_start, q as usize);
                    let hard = p - q >= 2 && forall|j: int| q <= j < p ==> #[trigger] old(self).bytes()[j] == 32;
                    &&& final(self).nodes@.len() == pre.len() + 1
                    &&& final(self).nodes@.drop_last() == pre
                    &&& hard ==> final(self).nodes@.last() == (PN::HardBreak {
                        kind: HardBreakKind::Spaces,
                        r: (q as usize)..(p as usize),
                    })
                    &&& !hard ==> final(self).nodes@.last() == PN::SoftBreak(p as usize)
                },
    {
        proof {
            reveal(Tokenizer::wf);
        }
        let bytes = self.t.as_bytes();
        let p = self.pos;
        let ghost ts = self.text_start as int;
        let ghost n0 = self.nodes@;
        // The run's trailing spaces and tabs are stripped from the text.
        let mut q = p;
        while q > self.text_start && (bytes[q - 1] == 32 || bytes[q - 1] == 9)
            invariant
                self.text_start <= q <= p,
                self.wf(),
                p == self.pos,
                p < bytes@.len(),
                bytes@ == self.bytes(),
                ts == self.text_start,
                n0 == self.nodes@,
                forall|j: int| q <= j < p ==> #[trigger] is_space_tab(bytes@[j]),
            decreases q,
        {
            q = q - 1;
        }
        proof {
            assert(trailing_from(bytes@, ts, q as int, p as int));
            assert forall|q2: int| trailing_from(bytes@, ts, q2, p as int) implies q2 == q by {
                if q2 < q {
                    assert(is_space_tab(bytes@[q - 1]));
                } else if q2 > q {
                    assert(is_space_tab(bytes@[q2 - 1]));
                }
            }
        }
        let trail = p - q;
        self.flush_text(q);
        // A hard break needs a trailing run of two-plus spaces;
        // a tab in the run demotes it to stripped whitespace (micromark behavior).
        let mut spaces = true;
        let mut k = q;
        while k < p
            invariant
                q <= k <= p,
                p < bytes@.len(),
                spaces == forall|j: int| q <= j < k ==> #[trigger] bytes@[j] == 32,
            decreases p - k,
        {
            if bytes[k] != 32 {
                spaces = false;
            }
            k = k + 1;
        }
        if trail >= 2 && spaces {
            self.emit(PN::HardBreak { kind: HardBreakKind::Spaces, r: q..p }, p + 1);
        } else {
            self.emit(PN::SoftBreak(p), p + 1);
        }
        self.skip_line_ws();
    }

    pub(crate) fn backticks(&mut self)
        requires
            old(self).wf(),
            old(self).pos < old(self).bytes().len(),
            old(self).bytes()[old(self).pos as int] == 96,
        ensures
            final(self).wf(),
            old(self).pos < final(self).pos,
            final(self).t == old(self).t,
    {
        proof {
            reveal(Tokenizer::wf);
        }
        let bytes = self.t.as_bytes();
        let start = self.pos;
        let n = run_len(bytes, start, 96);
        let close = match matching_run(bytes, start + n, 96, n) {
            Some(c) => c,
            None => {
                self.pos = start + n;
                return;
            },
        };
        let mut cs = start + n;
        let mut ce = close;
        if ce - cs >= 2 && (bytes[cs] == 32 || bytes[cs] == 10) && (bytes[ce - 1] == 32 || bytes[ce - 1] == 10) {
            let mut all_space = true;
            let mut k = cs;
            while k < ce
                invariant
                    cs <= k <= ce <= bytes@.len(),
                decreases ce - k,
            {
                if !(bytes[k] == 32 || bytes[k] == 10) {
                    all_space = false;
                }
                k = k + 1;
            }
            if !all_space {
                cs = cs + 1;
                ce = ce - 1;
            }
        }
        self.flush_text(start);
        self.emit(PN::Code { r: start..close + n, content: cs..ce }, close + n);
    }

    /// `<`: autolink, then raw HTML.
    pub(crate) fn angle(&mut self) -> (handled: bool)
        requires
            old(self).wf(),
            old(self).pos < old(self).bytes().len(),
            old(self).bytes()[old(self).pos as int] == 60,
        ensures
            final(self).wf(),
            handled ==> old(self).pos < final(self).pos,
            !handled ==> final(self).pos == old(self).pos,
            final(self).t == old(self).t,
            handled == ((old(self).constructs.autolink && autolink::spec_scan(old(self).bytes(), old(self).pos as int) is Some)
                || (old(self).constructs.html_text && html::spec_scan(old(self).bytes(), old(self).pos as int) is Some)),
            autolink::spec_scan(old(self).bytes(), old(self).pos as int) matches Some((e, email)) ==> (
            old(self).constructs.autolink ==> final(self).pos == e && final(self).nodes@ == flushed(
                old(self).nodes@,
                old(self).text_start,
                old(self).pos,
            ).push(PN::Autolink { r: old(self).pos..e as usize, email })),
            html::spec_scan(old(self).bytes(), old(self).pos as int) matches Some(e) ==> (old(self).constructs.html_text
                && !(old(self).constructs.autolink && autolink::spec_scan(old(self).bytes(), old(self).pos as int) is Some)
                ==> final(self).pos == e && final(self).nodes@ == flushed(
                old(self).nodes@,
                old(self).text_start,
                old(self).pos,
            ).push(PN::Html { r: old(self).pos..e as usize })),
            !handled ==> *final(self) == *old(self),
    {
        proof {
            reveal(Tokenizer::wf);
        }
        let bytes = self.t.as_bytes();
        let pos = self.pos;
        if self.constructs.autolink {
            match autolink::scan(bytes, pos) {
                Some((end, email)) => {
                    self.flush_text(pos);
                    self.emit(PN::Autolink { r: pos..end, email }, end);
                    return true;
                },
                None => {},
            }
        }
        if self.constructs.html_text {
            match html::scan(bytes, pos) {
                Some(end) => {
                    self.flush_text(pos);
                    self.emit(PN::Html { r: pos..end }, end);
                    return true;
                },
                None => {},
            }
        }
        false
    }

    /// GFM autolink literal attempt at the current byte.
    /// The previous-character gates inside the scanner keep failed attempts O(1);
    /// literals never start inside an open bracket label.
    pub(crate) fn try_autolink_literal(&mut self) -> (found: bool)
        requires
            old(self).wf(),
            old(self).pos < old(self).bytes().len(),
        ensures
            final(self).wf(),
            found ==> old(self).pos < final(self).pos,
            !found ==> final(self).pos == old(self).pos,
            final(self).t == old(self).t,
            found == (old(self).constructs.gfm_autolink_literal && old(self).brackets@.len() == 0 && gfm_autolink::spec_scan(
                old(self).bytes(),
                old(self).pos as int,
                spec_char_before(old(self).bytes(), old(self).pos as int),
            ) is Some),
            gfm_autolink::spec_scan(
                old(self).bytes(),
                old(self).pos as int,
                spec_char_before(old(self).bytes(), old(self).pos as int),
            ) matches Some(e) ==> (found ==> final(self).pos == e && final(self).nodes@ == flushed(
                old(self).nodes@,
                old(self).text_start,
                old(self).pos,
            ).push(PN::AutolinkLiteral(old(self).pos..e as usize))),
            !found ==> *final(self) == *old(self),
    {
        proof {
            reveal(Tokenizer::wf);
        }
        if !self.constructs.gfm_autolink_literal || self.brackets.len() > 0 {
            return false;
        }
        let bytes = self.t.as_bytes();
        let pos = self.pos;
        let prev = char_before(bytes, pos);
        match gfm_autolink::scan(bytes, pos, prev) {
            Some(end) => {
                self.flush_text(pos);
                self.emit(PN::AutolinkLiteral(pos..end), end);
                true
            },
            None => false,
        }
    }

    /// A defined footnote label `[^…]` starting at `at`;
    /// returns (label range, position past the `]`).
    /// Skips all work when the document has no footnote definitions.
    pub(crate) fn footnote_label(&self, at: usize) -> (r: Option<(Range<usize>, usize)>)
        requires
            self.wf(),
            at <= self.bytes().len(),
        ensures
            r matches Some((label, end)) ==> self.constructs.gfm_footnote && spec_footnote_label(
                self.bytes(),
                at as int,
            ) == Some((label.end as int, end as int)) && label.start == at + 2 && label.start <= label.end
                && end == label.end + 1
                && self.refs.footnotes_view().contains(label_key(self.bytes(), label.start as int, label.end as int))
                && end <= self.bytes().len(),
            r is None ==> !self.constructs.gfm_footnote || match spec_footnote_label(self.bytes(), at as int) {
                None => true,
                Some((le, _)) => !self.refs.footnotes_view().contains(label_key(self.bytes(), at + 2, le)),
            },
    {
        proof {
            reveal(Tokenizer::wf);
        }
        if !self.constructs.gfm_footnote || self.refs.footnotes_is_empty() {
            return None;
        }
        let bytes = self.t.as_bytes();
        let (label, end) = match footnote_label(bytes, at) {
            Some(x) => x,
            None => return None,
        };
        proof {
            lemma_ascii_boundaries(bytes@, at + 1);
            lemma_ascii_boundaries(bytes@, label.end as int);
        }
        let raw = substr(self.t, label.start, label.end);
        let key = normalize(raw);
        proof {
            assert(raw@ == decode_utf8(bytes@.subrange(label.start as int, label.end as int)));
        }
        let found = match &key {
            std::borrow::Cow::Borrowed(k) => self.refs.contains_footnote(k),
            std::borrow::Cow::Owned(k) => self.refs.contains_footnote(k.as_str()),
        };
        if found {
            Some((label, end))
        } else {
            None
        }
    }

    /// Shared tail of the two footnote-call paths (plain `[^…]` and the failed-image fallback).
    pub(crate) fn push_footnote_call(&mut self, label: Range<usize>, at: usize, end: usize)
        requires
            old(self).wf(),
            old(self).text_start <= at <= label.start <= label.end <= end <= old(self).bytes().len(),
        ensures
            final(self).wf(),
            final(self).pos == end,
            final(self).nodes@ == old(self).nodes@.push(PN::FootnoteRef { label, r: at..end }),
            final(self).t == old(self).t,
            final(self).delims@ == old(self).delims@,
            final(self).brackets@ == old(self).brackets@,
    {
        proof {
            reveal(Tokenizer::wf);
        }
        self.emit(PN::FootnoteRef { label, r: at..end }, end);
    }

    /// GFM footnote call `[^label]` at the current `[`. Only defined labels match;
    /// anything else falls back to the ordinary bracket machinery.
    pub(crate) fn try_footnote_call(&mut self) -> (found: bool)
        requires
            old(self).wf(),
            old(self).pos < old(self).bytes().len(),
        ensures
            final(self).wf(),
            found ==> old(self).pos < final(self).pos,
            !found ==> final(self).pos == old(self).pos,
            final(self).t == old(self).t,
            found == (old(self).constructs.gfm_footnote && match spec_footnote_label(old(self).bytes(), old(self).pos as int) {
                Some((le, _)) => old(self).refs.footnotes_view().contains(
                    label_key(old(self).bytes(), old(self).pos + 2, le),
                ),
                None => false,
            }),
            spec_footnote_label(old(self).bytes(), old(self).pos as int) matches Some((le, e)) ==> (found ==> final(self).pos == e && final(self).nodes@ == flushed(old(self).nodes@, old(self).text_start, old(self).pos).push(
                PN::FootnoteRef { label: (old(self).pos + 2) as usize..le as usize, r: old(self).pos..e as usize },
            )),
            !found ==> *final(self) == *old(self),
    {
        proof {
            reveal(Tokenizer::wf);
        }
        let pos = self.pos;
        match self.footnote_label(pos) {
            Some((label, end)) => {
                self.flush_text(pos);
                self.push_footnote_call(label, pos, end);
                true
            },
            None => false,
        }
    }

    pub(crate) fn open_bracket(&mut self, image: bool)
        requires
            old(self).wf(),
            old(self).pos + (if image { 1int } else { 0 }) < old(self).bytes().len(),
            old(self).bytes()[old(self).pos + (if image { 1int } else { 0 })] == 91,
        ensures
            final(self).wf(),
            old(self).pos < final(self).pos,
            final(self).t == old(self).t,
    {
        proof {
            reveal(Tokenizer::wf);
        }
        let pos = self.pos;
        self.flush_text(pos);
        let width: usize = if image { 2 } else { 1 };
        let ghost n0 = self.nodes@;
        let ghost b0 = self.brackets@;
        self.emit(PN::Text(pos..pos + width), pos + width);
        let br = Bracket {
            node: self.nodes.len() - 1,
            delim_len: self.delims.len(),
            image,
            active: true,
            text_start: pos,
        };
        self.brackets.push(br);
        proof {
            let nodes = self.nodes@;
            let delims = self.delims@;
            let bs = self.brackets@;
            assert forall|q: int| 0 <= q < br.delim_len implies #[trigger] delims[q].node < br.node by {
                assert(delims[q].node < n0.len());
            }
            assert forall|i: int| 0 <= i < br.node implies extent(#[trigger] nodes[i]).1 <= br.text_start by {
                assert(nodes[i] == n0[i]);
            }
            assert(bracket_ok(nodes, delims, self.bytes(), self.text_start as int, br));
            assert forall|k: int| 0 <= k < bs.len() implies bracket_ok(nodes, delims, self.bytes(), self.text_start as int, #[trigger] bs[k]) by {
                if k < b0.len() {
                    assert(bs[k] == b0[k]);
                }
            }
            assert forall|i: int, j: int| 0 <= i < j < bs.len() implies #[trigger] bs[i].node < #[trigger] bs[j].node
                && bs[i].delim_len <= bs[j].delim_len && bs[i].text_start + open_width(bs[i]) <= bs[j].text_start by {
                assert(bs[i] == b0[i]);
                if j < b0.len() {
                    assert(bs[j] == b0[j]);
                } else {
                    assert(bracket_ok(n0, delims, self.bytes(), pos as int, b0[i]));
                }
            }
        }
    }
}

/// Appending a node that starts at or after the old end keeps the node list in order
/// and the bracket stack in place, under the new end.
proof fn lemma_push_keeps(
    n0: Seq<PN>,
    n1: Seq<PN>,
    delims: Seq<Delim>,
    bytes: Seq<u8>,
    end0: int,
    end1: int,
    brackets: Seq<Bracket>,
)
    requires
        n1.len() == n0.len() + 1,
        forall|i: int| 0 <= i < n0.len() ==> n1[i] == n0[i],
        end0 <= extent(n1[n0.len() as int]).0 <= extent(n1[n0.len() as int]).1 <= end1 <= bytes.len(),
        nodes_ordered(n0, end0),
        delims_wf(n0, delims),
        runs_within(n0, delims, end0),
        brackets_wf(n0, delims, bytes, end0, brackets),
        forall|i: int| 0 <= i < n0.len() ==> pn_within(#[trigger] n0[i], extent(n0[i]).1),
        pn_within(n1[n0.len() as int], extent(n1[n0.len() as int]).1),
    ensures
        forall|i: int| 0 <= i < n1.len() ==> pn_within(#[trigger] n1[i], extent(n1[i]).1),
        nodes_ordered(n1, end1),
        delims_wf(n1, delims),
        runs_within(n1, delims, end1),
        brackets_wf(n1, delims, bytes, end1, brackets),
{
    let last = n0.len() as int;
    assert forall|i: int| 0 <= i < n1.len() implies pn_within(#[trigger] n1[i], extent(n1[i]).1) by {
        if i < last {
            assert(n1[i] == n0[i]);
        }
    }
    assert forall|i: int, j: int| 0 <= i < j < n1.len() implies extent(#[trigger] n1[i]).1 <= extent(
        #[trigger] n1[j],
    ).0 by {
        if j == last {
            assert(n1[i] == n0[i]);
        } else {
            assert(n1[i] == n0[i] && n1[j] == n0[j]);
        }
    }
    assert forall|i: int| 0 <= i < n1.len() implies extent(#[trigger] n1[i]).0 <= extent(n1[i]).1 <= end1 by {
        if i < last {
            assert(n1[i] == n0[i]);
        }
    }
    assert forall|k: int| 0 <= k < delims.len() implies #[trigger] delims[k].node < n1.len() && n1[delims[k].node as int]
        == n0[delims[k].node as int] by {
        assert(delims[k].node < n0.len());
    }
    assert forall|k: int| 0 <= k < brackets.len() implies bracket_ok(n1, delims, bytes, end1, #[trigger] brackets[k]) by {
        let b = brackets[k];
        assert(bracket_ok(n0, delims, bytes, end0, b));
        assert forall|i: int| 0 <= i < b.node implies extent(#[trigger] n1[i]).1 <= b.text_start by {
            assert(n1[i] == n0[i]);
        }
        assert forall|i: int| b.node < i < n1.len() implies extent(#[trigger] n1[i]).0 >= b.text_start + open_width(b) by {
            if i < last {
                assert(n1[i] == n0[i]);
            }
        }
    }
}

/// Resolution narrows text runs and leaves the delimiters' nodes in place,
/// so the node list stays in order and the bracket stack in place.
pub(crate) proof fn lemma_resolve_keeps(
    n0: Seq<PN>,
    n1: Seq<PN>,
    d0: Seq<Delim>,
    d1: Seq<Delim>,
    bytes: Seq<u8>,
    end: int,
    brackets: Seq<Bracket>,
    lo: int,
    hi: int,
)
    requires
        frame(n0, d0, n1, d1, lo, hi),
        shrinks(n0, n1),
        nodes_ordered(n0, end),
        brackets_wf(n0, d0, bytes, end, brackets),
        forall|i: int| 0 <= i < n0.len() ==> pn_within(#[trigger] n0[i], extent(n0[i]).1),
    ensures
        forall|i: int| 0 <= i < n1.len() ==> pn_within(#[trigger] n1[i], extent(n1[i]).1),
        nodes_ordered(n1, end),
        brackets_wf(n1, d1, bytes, end, brackets),
{
    assert forall|i: int| 0 <= i < n1.len() implies extent(#[trigger] n1[i]).0 <= extent(n1[i]).1 <= end by {
        assert(extent(n0[i]).0 <= extent(n0[i]).1 <= end);
    }
    assert forall|i: int| 0 <= i < n1.len() implies pn_within(#[trigger] n1[i], extent(n1[i]).1) by {
        assert(pn_within(n0[i], extent(n0[i]).1));
    }
    assert forall|i: int, j: int| 0 <= i < j < n1.len() implies extent(#[trigger] n1[i]).1 <= extent(
        #[trigger] n1[j],
    ).0 by {
        assert(extent(n0[i]).1 <= extent(n0[j]).0);
        assert(n1[i] == n0[i] || extent(n1[i]).1 <= extent(n0[i]).1);
        assert(n1[j] == n0[j] || extent(n0[j]).0 <= extent(n1[j]).0);
    }
    assert forall|q: int| 0 <= q < d1.len() implies #[trigger] d1[q].node == d0[q].node by {
        if !(lo <= q < hi) {
            assert(d1[q] == d0[q]);
        }
    }
    assert forall|k: int| 0 <= k < brackets.len() implies bracket_ok(n1, d1, bytes, end, #[trigger] brackets[k]) by {
        let b = brackets[k];
        assert(bracket_ok(n0, d0, bytes, end, b));
        assert forall|i: int| 0 <= i < b.node implies extent(#[trigger] n1[i]).1 <= b.text_start by {
            assert(extent(n0[i]).1 <= b.text_start);
            assert(n1[i] == n0[i] || extent(n1[i]).1 <= extent(n0[i]).1);
        }
        assert forall|i: int| b.node < i < n1.len() implies extent(#[trigger] n1[i]).0 >= b.text_start + open_width(b) by {
            assert(extent(n0[i]).0 >= b.text_start + open_width(b));
            assert(n1[i] == n0[i] || extent(n0[i]).0 <= extent(n1[i]).0);
        }
        assert forall|q: int| 0 <= q < b.delim_len implies #[trigger] d1[q].node < b.node by {
            assert(d1[q].node == d0[q].node);
        }
        assert forall|q: int| b.delim_len <= q < d1.len() implies #[trigger] d1[q].node > b.node by {
            assert(d1[q].node == d0[q].node);
        }
    }
}

/// Raising the end keeps everything in place.
proof fn lemma_raise_end(nodes: Seq<PN>, delims: Seq<Delim>, bytes: Seq<u8>, end0: int, end1: int, brackets: Seq<Bracket>)
    requires
        end0 <= end1 <= bytes.len(),
        nodes_ordered(nodes, end0),
        runs_within(nodes, delims, end0),
        brackets_wf(nodes, delims, bytes, end0, brackets),
        nodes_ordered(nodes, end1),
        runs_within(nodes, delims, end1),
        brackets_wf(nodes, delims, bytes, end1, brackets),
{
    assert forall|k: int| 0 <= k < brackets.len() implies bracket_ok(nodes, delims, bytes, end1, #[trigger] brackets[k]) by {
        assert(bracket_ok(nodes, delims, bytes, end0, brackets[k]));
    }
}

} // verus!
