//! The inline phase: tokenizing paragraph text into spans, links and emphasis.
//!
//! A single pass scans special characters left to right;
//! code spans, autolinks and raw HTML resolve immediately (they outrank everything),
//! `*`/`_` runs and brackets are only recorded;
//! a bracket close and the end of the run resolve them (`emphasis`, `link`),
//! and the flat node list becomes a tree once (`emphasis::build`).
//!
//! Positions are ranges into the joined logical text ([`input::Input`]);
//! every emitted span goes through its exact per-line map back to source offsets (`lower`).
use std::ops::Range;
use vstd::prelude::*;
use vstd::string::StringSliceAdditionalSpecFns;
use crate::ast::{HardBreakKind, Inline, ReferenceKind};
use crate::block::ir::IrSeg;
use crate::options::Constructs;
use crate::pos::{join_pieces, pieces_on_boundaries};
use crate::pos::Segment;
use input::{lines_of, segs_of, Input};
use tokenizer::nodes_ordered;
use refmap::RefMap;
use tokenizer::Tokenizer;

pub mod autolink;
pub mod emphasis;
pub mod extension;
pub mod gfm_autolink;
pub mod html;
pub mod input;
pub mod link;
pub mod lower;
pub mod refmap;
pub mod tokenizer;

verus! {

/// Proto-node over joined-text ranges; converted to the AST at the end.
pub enum PN {
    Text(Range<usize>),
    SoftBreak(usize),
    HardBreak { kind: HardBreakKind, r: Range<usize> },
    Code { r: Range<usize>, content: Range<usize> },
    Html { r: Range<usize> },
    Autolink { r: Range<usize>, email: bool },
    AutolinkLiteral(Range<usize>),
    FootnoteRef { label: Range<usize>, r: Range<usize> },
    MathSpan(Range<usize>),
    WikiLink(Range<usize>),
    Liquid(Range<usize>),
    /// `len` marker characters each side: `**` / `__` is strong, `~` or `~~` strikethrough.
    Emph { marker: u8, len: u8, children: Vec<PN>, r: Range<usize> },
    Link { image: bool, kind: PLinkKind, children: Vec<PN>, text: Range<usize>, r: Range<usize> },
}

pub enum PLinkKind {
    Inline { dest: Range<usize>, angle_bracketed: bool, title: Option<Range<usize>> },
    Reference { kind: ReferenceKind, label: Range<usize> },
}

/// The joined range a node covers (a soft break covers its line ending).
pub open spec fn extent(p: PN) -> (int, int) {
    match p {
        PN::SoftBreak(q) => (q as int, q + 1),
        PN::Text(r) => (r.start as int, r.end as int),
        PN::AutolinkLiteral(r) => (r.start as int, r.end as int),
        PN::MathSpan(r) => (r.start as int, r.end as int),
        PN::WikiLink(r) => (r.start as int, r.end as int),
        PN::Liquid(r) => (r.start as int, r.end as int),
        PN::HardBreak { r, .. } => (r.start as int, r.end as int),
        PN::Code { r, .. } => (r.start as int, r.end as int),
        PN::Html { r } => (r.start as int, r.end as int),
        PN::Autolink { r, .. } => (r.start as int, r.end as int),
        PN::FootnoteRef { r, .. } => (r.start as int, r.end as int),
        PN::Emph { r, .. } => (r.start as int, r.end as int),
        PN::Link { r, .. } => (r.start as int, r.end as int),
    }
}

/// A range in order, ending by `len`.
pub open spec fn range_within(r: Range<usize>, len: int) -> bool {
    r.start <= r.end <= len
}

/// Every range a link kind holds lies within `len`.
pub open spec fn kind_within(k: PLinkKind, len: int) -> bool {
    match k {
        PLinkKind::Inline { dest, title, .. } => range_within(dest, len) && match title {
            Some(t) => range_within(t, len),
            None => true,
        },
        PLinkKind::Reference { label, .. } => range_within(label, len),
    }
}

/// Every range a node holds, its children's included, lies within `len`.
pub open spec fn pn_within(p: PN, len: int) -> bool
    decreases p,
{
    match p {
        PN::Text(r) => range_within(r, len),
        PN::SoftBreak(q) => q < len,
        PN::HardBreak { r, .. } => range_within(r, len),
        PN::Code { r, content } => range_within(r, len) && range_within(content, len),
        PN::Html { r } => range_within(r, len),
        PN::Autolink { r, .. } => range_within(r, len),
        PN::AutolinkLiteral(r) => range_within(r, len),
        PN::FootnoteRef { label, r } => range_within(label, len) && range_within(r, len),
        PN::MathSpan(r) => range_within(r, len),
        PN::WikiLink(r) => range_within(r, len),
        PN::Liquid(r) => range_within(r, len),
        PN::Emph { children, r, .. } => range_within(r, len) && forall|i: int|
            0 <= i < children@.len() ==> pn_within(#[trigger] children@[i], len),
        PN::Link { kind, children, text, r, .. } => range_within(r, len) && range_within(text, len)
            && kind_within(kind, len) && forall|i: int|
            0 <= i < children@.len() ==> pn_within(#[trigger] children@[i], len),
    }
}

/// A bound that holds holds for any larger bound.
pub proof fn lemma_pn_within_mono(p: PN, a: int, b: int)
    requires
        pn_within(p, a),
        a <= b,
    ensures
        pn_within(p, b),
    decreases p,
{
    match p {
        PN::Emph { children, .. } => {
            assert forall|i: int| 0 <= i < children@.len() implies pn_within(#[trigger] children@[i], b) by {
                lemma_pn_within_mono(children@[i], a, b);
            }
        },
        PN::Link { children, .. } => {
            assert forall|i: int| 0 <= i < children@.len() implies pn_within(#[trigger] children@[i], b) by {
                lemma_pn_within_mono(children@[i], a, b);
            }
        },
        _ => {},
    }
}

impl PN {
    /// Where the node starts.
    pub fn start(&self) -> (s: usize)
        ensures
            s as int == extent(*self).0,
    {
        match self {
            PN::SoftBreak(p) => *p,
            PN::Text(r) => r.start,
            PN::AutolinkLiteral(r) => r.start,
            PN::MathSpan(r) => r.start,
            PN::WikiLink(r) => r.start,
            PN::Liquid(r) => r.start,
            PN::HardBreak { r, .. } => r.start,
            PN::Code { r, .. } => r.start,
            PN::Html { r } => r.start,
            PN::Autolink { r, .. } => r.start,
            PN::FootnoteRef { r, .. } => r.start,
            PN::Emph { r, .. } => r.start,
            PN::Link { r, .. } => r.start,
        }
    }
}

/// `out` is the inline content of the source lines `segs`: over the joined text `inp` of those
/// lines, the tokens `nodes` lie in order, the tree `built` holds exactly the non-empty ones as
/// its leaves in the same order, and `out` is that tree lowered to the source.
pub open spec fn inline_result(
    inp: Input,
    src: Seq<u8>,
    segs: Seq<Segment>,
    nodes: Seq<PN>,
    built: Seq<PN>,
    out: Seq<Inline>,
) -> bool {
    &&& inp.wf()
    &&& inp.bytes() == join_pieces(src, segs)
    &&& inp.line_seq() == lines_of(src, segs)
    &&& nodes_ordered(nodes, inp.bytes().len() as int)
    &&& emphasis::flat(built) == emphasis::flat(emphasis::kept(nodes))
    &&& emphasis::built_within(built, inp.bytes().len() as int)
    &&& lower::lowers(inp, built, out)
}

/// The inline content of a leaf whose logical lines are `segments`:
/// the lines are joined, tokenized in one pass, built into a tree and mapped back to the source.
pub fn inlines(source: &str, segments: &[IrSeg], refs: &RefMap, constructs: &Constructs) -> (out: Vec<Inline>)
    requires
        pieces_on_boundaries(source.spec_bytes(), segs_of(segments@)),
        source.spec_bytes().len() <= u32::MAX,
        join_pieces(source.spec_bytes(), segs_of(segments@)).len() <= isize::MAX,
        refs.finished(),
    ensures
        segments@.len() == 0 ==> out@.len() == 0,
        segments@.len() > 0 ==> exists|inp: Input, nodes: Seq<PN>, built: Seq<PN>|
            #[trigger] inline_result(inp, source.spec_bytes(), segs_of(segments@), nodes, built, out@),
{
    if segments.len() == 0 {
        return Vec::new();
    }
    let input = Input::new(source, segments);
    let mut tk = Tokenizer::new(input.text_str(), refs, constructs);
    tk.run();
    let ghost len = input.bytes().len() as int;
    proof {
        assert forall|i: int| 0 <= i < tk.nodes@.len() implies pn_within(#[trigger] tk.nodes@[i], len) by {
            assert(pn_within(tk.nodes@[i], extent(tk.nodes@[i]).1));
            lemma_pn_within_mono(tk.nodes@[i], extent(tk.nodes@[i]).1, len);
        }
        assert(nodes_ordered(tk.nodes@, len));
    }
    let ghost tokens = tk.nodes@;
    let nodes = tk.nodes;
    let built = emphasis::build(nodes, &mut tk.formed, Ghost(len));
    let ghost tree = built@;
    let ghost total = tree.len();
    let mut rest = built;
    let mut rev: Vec<PN> = Vec::new();
    while rest.len() > 0
        invariant
            total == tree.len(),
            emphasis::built_within(tree, len),
            rest@ == tree.subrange(0, rest@.len() as int),
            rev@.len() + rest@.len() == total,
            forall|i: int| 0 <= i < rev@.len() ==> #[trigger] rev@[i] == tree[total - 1 - i],
        decreases rest@.len(),
    {
        let ghost t0 = rest@;
        let ghost r0 = rev@;
        let n = rest.pop().unwrap();
        proof {
            assert(n == tree[t0.len() - 1]);
            assert(rest@ =~= tree.subrange(0, rest@.len() as int));
        }
        rev.push(n);
        proof {
            assert forall|i: int| 0 <= i < rev@.len() implies #[trigger] rev@[i] == tree[total - 1 - i] by {
                if i < r0.len() {
                    assert(rev@[i] == r0[i]);
                }
            }
        }
    }
    let mut out: Vec<Inline> = Vec::new();
    proof {
        assert(tree.subrange(0, 0) =~= Seq::<PN>::empty());
    }
    while rev.len() > 0
        invariant
            input.wf(),
            input.line_seq().len() > 0,
            len == input.bytes().len(),
            total == tree.len(),
            rev@.len() <= total,
            emphasis::built_within(tree, len),
            forall|i: int| 0 <= i < rev@.len() ==> #[trigger] rev@[i] == tree[total - 1 - i],
            lower::lowers(input, tree.subrange(0, total - rev@.len()), out@),
        decreases rev@.len(),
    {
        let ghost k = total - rev@.len();
        let ghost r0 = rev@;
        let ghost o0 = out@;
        let pn = rev.pop().unwrap();
        proof {
            assert(pn == r0[r0.len() - 1]);
            assert(pn == tree[k]);
            assert(pn_within(tree[k], len));
            assert forall|i: int| 0 <= i < rev@.len() implies #[trigger] rev@[i] == tree[total - 1 - i] by {
                assert(rev@[i] == r0[i]);
            }
        }
        lower::push_ast(&input, pn, &mut out);
        proof {
            let pre = tree.subrange(0, k + 1);
            assert(pre.drop_last() =~= tree.subrange(0, k));
            assert(pre.last() == tree[k]);
            assert(lower::lower_step(input, o0, pre.last(), out@));
            lower::lemma_lowers_push(input, pre, o0, out@);
        }
    }
    proof {
        assert(tree.subrange(0, total as int) =~= tree);
        assert(inline_result(input, source.spec_bytes(), segs_of(segments@), tokens, tree, out@));
    }
    out
}

} // verus!
