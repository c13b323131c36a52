//! Lowering: proto-nodes over the joined text to the AST, spans mapped back to the source.
use vstd::prelude::*;
use crate::ast::{
    Autolink, AutolinkLiteral, CodeSpan, Destination, Emphasis, FootnoteReference, HardBreak, HtmlInline, Image,
    Inline, Link, LinkKind, Liquid, MathSpan, SoftBreak, Strikethrough, Strong, Text, WikiLink,
};
use std::ops::Range;
use crate::pos::{Segment, Span};
use crate::syntax::unicode::{char_at, spec_char_at, spec_char_len};
use super::input::{spec_offset, spec_pieces, spec_span, Input};
use super::{pn_within, PLinkKind, PN};

verus! {

/// Coarse CJK detection: the lexical fact only.
pub open spec fn spec_is_cjk(c: char) -> bool {
    let v = c as u32;
    (0x1100 <= v <= 0x11FF) || (0x2E80 <= v <= 0x303F) || (0x3040 <= v <= 0x30FF) || (0x3130 <= v <= 0x318F)
        || (0x31F0 <= v <= 0x4DBF) || (0x4E00 <= v <= 0x9FFF) || (0xAC00 <= v <= 0xD7AF) || (0xF900 <= v <= 0xFAFF)
        || (0xFE30 <= v <= 0xFE4F) || (0xFF00 <= v <= 0xFFEF) || (0x20000 <= v <= 0x3FFFD)
}

/// Coarse CJK detection: the lexical fact only.
/// Classification (CJ vs K vs CJK punctuation) is formatter policy.
pub fn is_cjk(c: char) -> (r: bool)
    ensures
        r == spec_is_cjk(c),
{
    let v = c as u32;
    (0x1100 <= v && v <= 0x11FF)  // Hangul Jamo
     || (0x2E80 <= v && v <= 0x303F)  // CJK radicals, Kangxi, CJK punctuation
     || (0x3040 <= v && v <= 0x30FF)  // Hiragana, Katakana
     || (0x3130 <= v && v <= 0x318F)  // Hangul compatibility Jamo
     || (0x31F0 <= v && v <= 0x4DBF)  // Katakana ext, CJK ext A
     || (0x4E00 <= v && v <= 0x9FFF)  // CJK unified
     || (0xAC00 <= v && v <= 0xD7AF)  // Hangul syllables
     || (0xF900 <= v && v <= 0xFAFF)  // CJK compatibility
     || (0xFE30 <= v && v <= 0xFE4F)  // CJK compatibility forms
     || (0xFF00 <= v && v <= 0xFFEF)  // Full/half-width forms
     || (0x20000 <= v && v <= 0x3FFFD)  // CJK ext B+
}

/// Whether a CJK character starts in `b[i..to]`, reading character by character from `i`
/// (a byte that starts no character counts as one).
pub open spec fn cjk_from(b: Seq<u8>, i: int, to: int) -> bool
    decreases to - i,
{
    if i < 0 || i >= to {
        false
    } else {
        match spec_char_at(b, i) {
            Some(c) => spec_is_cjk(c) || if 1 <= spec_char_len(b, i) && i + spec_char_len(b, i) <= to {
                cjk_from(b, i + spec_char_len(b, i), to)
            } else {
                false
            },
            None => cjk_from(b, i + 1, to),
        }
    }
}

/// Whether every byte of `b[from..to]` is ASCII, and whether a CJK character starts in it.
fn text_facts(b: &[u8], from: usize, to: usize) -> (r: (bool, bool))
    requires
        from <= to <= b@.len(),
    ensures
        r.0 == (forall|k: int| from <= k < to ==> b@[k] < 128),
        r.1 == (!r.0 && cjk_from(b@, from as int, to as int)),
{
    let mut ascii = true;
    let mut k = from;
    while k < to
        invariant
            from <= k <= to <= b@.len(),
            ascii == (forall|q: int| from <= q < k ==> b@[q] < 128),
        decreases to - k,
    {
        if b[k] >= 128 {
            ascii = false;
        }
        k = k + 1;
    }
    if ascii {
        return (true, false);
    }
    let mut cjk = false;
    let mut i = from;
    while i < to
        invariant
            from <= i <= b@.len(),
            to <= b@.len(),
            b@.len() == b.len(),
            cjk_from(b@, from as int, to as int) == (cjk || cjk_from(b@, i as int, to as int)),
        decreases b@.len() - i,
    {
        match char_at(b, i) {
            Some((c, n)) => {
                if is_cjk(c) {
                    cjk = true;
                }
                i = i + n;
            },
            None => {
                i = i + 1;
            },
        }
    }
    (false, cjk)
}

/// The source span of the joined range `r`.
pub open spec fn sspan(input: Input, r: Range<usize>) -> Span {
    spec_span(input.line_seq(), input.bytes().len() as int, r)
}

/// The source pieces of the joined range `r`, one per line.
pub open spec fn spieces(input: Input, r: Range<usize>) -> Seq<Segment> {
    spec_pieces(input.line_seq(), input.bytes().len() as int, r)
}

/// Every joined byte of `r` is ASCII.
pub open spec fn ascii_range(input: Input, r: Range<usize>) -> bool {
    forall|k: int| r.start <= k < r.end ==> input.bytes()[k] < 128
}

/// A CJK character starts in the joined range `r` (never in ASCII-only text).
pub open spec fn cjk_range(input: Input, r: Range<usize>) -> bool {
    !ascii_range(input, r) && cjk_from(input.bytes(), r.start as int, r.end as int)
}

/// A link kind over joined ranges, mapped to the source.
pub open spec fn kind_lowered(input: Input, k: PLinkKind, lk: LinkKind) -> bool {
    match k {
        PLinkKind::Inline { dest, angle_bracketed, title } => match lk {
            LinkKind::Inline { destination, title: t } => destination.span == sspan(input, dest)
                && destination.angle_bracketed == angle_bracketed && match title {
                Some(tr) => t matches Some(p) && p@ == spieces(input, tr),
                None => t is None,
            },
            _ => false,
        },
        PLinkKind::Reference { kind, label } => match lk {
            LinkKind::Reference { kind: k2, label: l } => k2 == kind && l@ == spieces(input, label),
            _ => false,
        },
    }
}

/// The AST node for the proto-node `pn` (its own fields and span; children are lowered one by one).
pub open spec fn lowered(input: Input, pn: PN, node: Inline) -> bool
    decreases pn, 0int,
{
    match pn {
        PN::Text(r) => node matches Inline::Text(t) && t.span == sspan(input, r) && t.ascii_only == ascii_range(input, r)
            && t.contains_cjk == cjk_range(input, r),
        PN::SoftBreak(q) => node matches Inline::SoftBreak(b) && b.span.start == spec_offset(
            input.line_seq(),
            input.bytes().len() as int,
            q as int,
        ) && b.span.end == b.span.start,
        PN::HardBreak { kind, r } => node matches Inline::HardBreak(b) && b.kind == kind && b.span == sspan(input, r),
        PN::Code { r, content } => node matches Inline::CodeSpan(c) && c.pieces@ == spieces(input, content) && c.span
            == sspan(input, r),
        PN::Html { r } => node matches Inline::HtmlInline(h) && h.pieces@ == spieces(input, r) && h.span == sspan(
            input,
            r,
        ),
        PN::Autolink { r, email } => node matches Inline::Autolink(a) && a.span == sspan(input, r) && a.email == email,
        PN::AutolinkLiteral(r) => node matches Inline::AutolinkLiteral(a) && a.span == sspan(input, r),
        PN::FootnoteRef { label, r } => node matches Inline::FootnoteReference(f) && f.label == sspan(input, label)
            && f.span == sspan(input, r),
        PN::MathSpan(r) => node matches Inline::MathSpan(m) && m.pieces@ == spieces(input, r) && m.span == sspan(
            input,
            r,
        ),
        PN::WikiLink(r) => node matches Inline::WikiLink(w) && w.span == sspan(input, r),
        PN::Liquid(r) => node matches Inline::Liquid(l) && l.pieces@ == spieces(input, r) && l.span == sspan(input, r),
        PN::Emph { marker, len, r, children } => {
            proof {
                assert(decreases_to!(pn => children));
                assert(decreases_to!(children => children@));
            }
            if marker == 126 {
                node matches Inline::Strikethrough(x) && x.span == sspan(input, r) && lowers(input, children@, x.children@)
            } else if len == 2 {
                node matches Inline::Strong(x) && x.span == sspan(input, r) && lowers(input, children@, x.children@)
            } else {
                node matches Inline::Emphasis(x) && x.marker == marker && x.span == sspan(input, r) && lowers(
                    input,
                    children@,
                    x.children@,
                )
            }
        },
        PN::Link { image, kind, r, children, .. } => {
            proof {
                assert(decreases_to!(pn => children));
                assert(decreases_to!(children => children@));
            }
            if image {
                node matches Inline::Image(x) && x.span == sspan(input, r) && kind_lowered(input, kind, x.kind) && lowers(
                    input,
                    children@,
                    x.children@,
                )
            } else {
                node matches Inline::Link(x) && x.span == sspan(input, r) && kind_lowered(input, kind, x.kind) && lowers(
                    input,
                    children@,
                    x.children@,
                )
            }
        },
    }
}

/// One lowering step: `out` is `o0` with the token `pn` lowered onto it, as a new node or, for a
/// text piece continuing the last text node, merged into it.
pub open spec fn lower_step(input: Input, o0: Seq<Inline>, pn: PN, out: Seq<Inline>) -> bool
    decreases pn, 1int,
{
    if merges(input, pn, o0) {
        &&& out.len() == o0.len()
        &&& out.drop_last() == o0.drop_last()
        &&& match pn {
            PN::Text(r) => text_merged(input, r, o0.last(), out.last()),
            _ => false,
        }
    } else {
        &&& out.len() == o0.len() + 1
        &&& out.drop_last() == o0
        &&& lowered(input, pn, out.last())
    }
}

/// `out` is the tokens `pns` lowered one after another, from an empty list.
pub open spec fn lowers(input: Input, pns: Seq<PN>, out: Seq<Inline>) -> bool
    decreases pns, 2int,
{
    if pns.len() == 0 {
        out.len() == 0
    } else {
        exists|o0: Seq<Inline>| #[trigger] before(o0) && lowers(input, pns.drop_last(), o0) && lower_step(input, o0, pns.last(), out)
    }
}

/// Holds of every node list: it names the list a lowering has reached before its last token,
/// which `lowers` quantifies over, so that the solver can match it.
pub open spec fn before(o0: Seq<Inline>) -> bool {
    true
}

/// Text token `pn` joins the text node ending `out`: that node ends where the token starts.
pub open spec fn merges(input: Input, pn: PN, out: Seq<Inline>) -> bool {
    match pn {
        PN::Text(r) => out.len() > 0 && match out.last() {
            Inline::Text(p) => p.span.end == sspan(input, r).start,
            _ => false,
        },
        _ => false,
    }
}

/// `now` is the text node `prev` extended by the contiguous text `r`.
pub open spec fn text_merged(input: Input, r: Range<usize>, prev: Inline, now: Inline) -> bool {
    prev matches Inline::Text(p) && now matches Inline::Text(t) && p.span.end == sspan(input, r).start && t.span.start
        == p.span.start && t.span.end == sspan(input, r).end && t.ascii_only == (p.ascii_only && ascii_range(input, r))
        && t.contains_cjk == (p.contains_cjk || cjk_range(input, r))
}

/// One more lowering step extends a lowering of the tokens before it.
pub proof fn lemma_lowers_push(input: Input, pns: Seq<PN>, o0: Seq<Inline>, out: Seq<Inline>)
    requires
        pns.len() > 0,
        lowers(input, pns.drop_last(), o0),
        lower_step(input, o0, pns.last(), out),
    ensures
        lowers(input, pns, out),
{
    assert(before(o0));
}

/// Appends `node`, whose span starts where the last sibling's ends or later.
fn push(out: &mut Vec<Inline>, node: Inline)
    ensures
        final(out)@ == old(out)@.push(node),
{
    out.push(node);
}

/// Lowers `pn` into `out`: one node, or a text piece merged into the text node just before it
/// when the two are contiguous in the source.
pub fn push_ast(input: &Input, pn: PN, out: &mut Vec<Inline>)
    requires
        input.wf(),
        input.line_seq().len() > 0,
        pn_within(pn, input.bytes().len() as int),
    ensures
        final(out)@.len() == old(out)@.len() + 1 || (pn is Text && final(out)@.len() == old(out)@.len()),
        pn is Text ==> (final(out)@.len() == old(out)@.len() <==> merges(*input, pn, old(out)@)),
        forall|i: int| 0 <= i < old(out)@.len() - 1 ==> #[trigger] final(out)@[i] == old(out)@[i],
        (final(out)@.len() == old(out)@.len() + 1 && final(out)@.drop_last() == old(out)@ && lowered(
            *input,
            pn,
            final(out)@.last(),
        )) || (pn matches PN::Text(r) && old(out)@.len() > 0 && final(out)@.len() == old(out)@.len() && final(out)@.drop_last() == old(out)@.drop_last() && text_merged(*input, r, old(out)@.last(), final(out)@.last())),
    decreases pn,
{
    let ghost p0 = pn;
    match pn {
        PN::Text(r) => {
            let span = input.span(r.start..r.end);
            let (ascii_only, contains_cjk) = text_facts(input.text_bytes(), r.start, r.end);
            proof {
                assert(ascii_only == ascii_range(*input, r));
                assert(contains_cjk == cjk_range(*input, r));
            }
            // Bracket and delimiter runs arrive as their own text pieces;
            // contiguous pieces merge into one node.
            let n = out.len();
            if n > 0 {
                let merged = match &out[n - 1] {
                    Inline::Text(prev) => if prev.span.end == span.start {
                        Some(
                            Text {
                                span: Span { start: prev.span.start, end: span.end },
                                ascii_only: prev.ascii_only && ascii_only,
                                contains_cjk: prev.contains_cjk || contains_cjk,
                            },
                        )
                    } else {
                        None
                    },
                    _ => None,
                };
                match merged {
                    Some(t) => {
                        let ghost o2 = out@;
                        out.set(n - 1, Inline::Text(t));
                        proof {
                            assert(out@.drop_last() =~= o2.drop_last());
                            assert(text_merged(*input, r, o2.last(), out@.last()));
                            assert(p0 == PN::Text(r));
                        }
                        return;
                    },
                    None => {},
                }
            }
            let ghost o1 = out@;
            push(out, Inline::Text(Text { span, ascii_only, contains_cjk }));
            proof {
                assert(out@.last() == Inline::Text(Text { span, ascii_only, contains_cjk }));
                assert(out@.drop_last() =~= o1);
                assert(lowered(*input, p0, out@.last()));
            }
        },
        PN::SoftBreak(p) => {
            push(out, Inline::SoftBreak(SoftBreak { span: Span::empty(input.offset(p)) }));
        },
        PN::HardBreak { kind, r } => {
            push(out, Inline::HardBreak(HardBreak { kind, span: input.span(r) }));
        },
        PN::Code { r, content } => {
            let pieces = input.pieces(content);
            push(out, Inline::CodeSpan(Box::new(CodeSpan { pieces, span: input.span(r) })));
        },
        PN::Html { r } => {
            let pieces = input.pieces(r.start..r.end);
            push(out, Inline::HtmlInline(Box::new(HtmlInline { pieces, span: input.span(r) })));
        },
        PN::Autolink { r, email } => {
            push(out, Inline::Autolink(Autolink { span: input.span(r), email }));
        },
        PN::AutolinkLiteral(r) => {
            push(out, Inline::AutolinkLiteral(AutolinkLiteral { span: input.span(r) }));
        },
        PN::FootnoteRef { label, r } => {
            push(
                out,
                Inline::FootnoteReference(Box::new(FootnoteReference { label: input.span(label), span: input.span(r) })),
            );
        },
        PN::MathSpan(r) => {
            let pieces = input.pieces(r.start..r.end);
            push(out, Inline::MathSpan(Box::new(MathSpan { pieces, span: input.span(r) })));
        },
        PN::WikiLink(r) => {
            push(out, Inline::WikiLink(WikiLink { span: input.span(r) }));
        },
        PN::Liquid(r) => {
            let pieces = input.pieces(r.start..r.end);
            push(out, Inline::Liquid(Box::new(Liquid { pieces, span: input.span(r) })));
        },
        PN::Emph { marker, len, children, r } => {
            let ghost orig = children@;
            let ghost total = orig.len();
            proof {
                assert(decreases_to!(p0 => children));
                assert(decreases_to!(children => orig));
            }
            let mut rest = children;
            let mut rev: Vec<PN> = Vec::new();
            while rest.len() > 0
                invariant
                    total == orig.len(),
                    rest@ == orig.subrange(0, rest@.len() as int),
                    rev@.len() + rest@.len() == total,
                    forall|i: int| 0 <= i < rev@.len() ==> #[trigger] rev@[i] == orig[total - 1 - i],
                decreases rest@.len(),
            {
                let ghost t0 = rest@;
                let ghost r0 = rev@;
                let n = rest.pop().unwrap();
                proof {
                    assert(n == orig[t0.len() - 1]);
                    assert(rest@ =~= orig.subrange(0, rest@.len() as int));
                }
                rev.push(n);
                proof {
                    assert forall|i: int| 0 <= i < rev@.len() implies #[trigger] rev@[i] == orig[total - 1 - i] by {
                        if i < r0.len() {
                            assert(rev@[i] == r0[i]);
                        }
                    }
                }
            }
            let mut inner: Vec<Inline> = Vec::new();
            proof {
                assert(orig.subrange(0, 0) =~= Seq::<PN>::empty());
            }
            while rev.len() > 0
                invariant
                    input.wf(),
                    input.line_seq().len() > 0,
                    total == orig.len(),
                    rev@.len() <= total,
                    forall|i: int| 0 <= i < rev@.len() ==> #[trigger] rev@[i] == orig[total - 1 - i],
                    forall|i: int| 0 <= i < orig.len() ==> pn_within(#[trigger] orig[i], input.bytes().len() as int),
                    decreases_to!(p0 => orig),
                    p0 == pn,
                    lowers(*input, orig.subrange(0, total - rev@.len()), inner@),
                decreases rev@.len(),
            {
                let ghost k = total - rev@.len();
                let ghost r0 = rev@;
                let ghost i0 = inner@;
                let child = rev.pop().unwrap();
                proof {
                    assert(child == r0[r0.len() - 1]);
                    assert(child == orig[k]);
                    assert(decreases_to!(orig => orig[k]));
                    assert forall|i: int| 0 <= i < rev@.len() implies #[trigger] rev@[i] == orig[total - 1 - i] by {
                        assert(rev@[i] == r0[i]);
                    }
                }
                push_ast(input, child, &mut inner);
                proof {
                    let pre = orig.subrange(0, k + 1);
                    assert(pre.drop_last() =~= orig.subrange(0, k));
                    assert(pre.last() == orig[k]);
                    assert(lowers(*input, pre.drop_last(), i0));
                    assert(lower_step(*input, i0, pre.last(), inner@));
                    lemma_lowers_push(*input, pre, i0, inner@);
                }
            }
            proof {
                assert(orig.subrange(0, total as int) =~= orig);
            }
            let span = input.span(r);
            if marker == 126 {
                push(out, Inline::Strikethrough(Box::new(Strikethrough { children: inner, span })));
            } else if len == 2 {
                push(out, Inline::Strong(Box::new(Strong { children: inner, span })));
            } else {
                push(out, Inline::Emphasis(Box::new(Emphasis { marker, children: inner, span })));
            }
        },
        PN::Link { image, kind, children, text, r } => {
            let ghost orig = children@;
            let ghost total = orig.len();
            proof {
                assert(decreases_to!(p0 => children));
                assert(decreases_to!(children => orig));
            }
            let mut rest = children;
            let mut rev: Vec<PN> = Vec::new();
            while rest.len() > 0
                invariant
                    total == orig.len(),
                    rest@ == orig.subrange(0, rest@.len() as int),
                    rev@.len() + rest@.len() == total,
                    forall|i: int| 0 <= i < rev@.len() ==> #[trigger] rev@[i] == orig[total - 1 - i],
                decreases rest@.len(),
            {
                let ghost t0 = rest@;
                let ghost r0 = rev@;
                let n = rest.pop().unwrap();
                proof {
                    assert(n == orig[t0.len() - 1]);
                    assert(rest@ =~= orig.subrange(0, rest@.len() as int));
                }
                rev.push(n);
                proof {
                    assert forall|i: int| 0 <= i < rev@.len() implies #[trigger] rev@[i] == orig[total - 1 - i] by {
                        if i < r0.len() {
                            assert(rev@[i] == r0[i]);
                        }
                    }
                }
            }
            let mut inner: Vec<Inline> = Vec::new();
            proof {
                assert(orig.subrange(0, 0) =~= Seq::<PN>::empty());
            }
            while rev.len() > 0
                invariant
                    input.wf(),
                    input.line_seq().len() > 0,
                    total == orig.len(),
                    rev@.len() <= total,
                    forall|i: int| 0 <= i < rev@.len() ==> #[trigger] rev@[i] == orig[total - 1 - i],
                    forall|i: int| 0 <= i < orig.len() ==> pn_within(#[trigger] orig[i], input.bytes().len() as int),
                    decreases_to!(p0 => orig),
                    p0 == pn,
                    lowers(*input, orig.subrange(0, total - rev@.len()), inner@),
                decreases rev@.len(),
            {
                let ghost k = total - rev@.len();
                let ghost r0 = rev@;
                let ghost i0 = inner@;
                let child = rev.pop().unwrap();
                proof {
                    assert(child == r0[r0.len() - 1]);
                    assert(child == orig[k]);
                    assert(decreases_to!(orig => orig[k]));
                    assert forall|i: int| 0 <= i < rev@.len() implies #[trigger] rev@[i] == orig[total - 1 - i] by {
                        assert(rev@[i] == r0[i]);
                    }
                }
                push_ast(input, child, &mut inner);
                proof {
                    let pre = orig.subrange(0, k + 1);
                    assert(pre.drop_last() =~= orig.subrange(0, k));
                    assert(pre.last() == orig[k]);
                    assert(lowers(*input, pre.drop_last(), i0));
                    assert(lower_step(*input, i0, pre.last(), inner@));
                    lemma_lowers_push(*input, pre, i0, inner@);
                }
            }
            proof {
                assert(orig.subrange(0, total as int) =~= orig);
            }
            let span = input.span(r);
            let kind = match kind {
                PLinkKind::Inline { dest, angle_bracketed, title } => LinkKind::Inline {
                    destination: Destination { span: input.span(dest), angle_bracketed },
                    title: match title {
                        Some(tr) => Some(input.pieces(tr)),
                        None => None,
                    },
                },
                PLinkKind::Reference { kind, label } => LinkKind::Reference { kind, label: input.pieces(label) },
            };
            if image {
                push(out, Inline::Image(Box::new(Image { kind, children: inner, span })));
            } else {
                push(out, Inline::Link(Box::new(Link { kind, children: inner, span })));
            }
        },
    }
}

} // verus!
