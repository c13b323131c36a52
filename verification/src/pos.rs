//! Byte spans into the source, and logical-line segments.
use std::borrow::Cow;
use std::ops::Range;
use vstd::prelude::*;
use vstd::string::StringSliceAdditionalSpecFns;
use vstd::string::StringExecFns;
use vstd::utf8::*;
use crate::utf::{lemma_encode_ascii, lemma_encode_utf8_concat};

verus! {

broadcast use {encode_utf8_valid_utf8, is_char_boundary_start_end_of_seq, valid_utf8_split};

/// A range of the source by byte offset: `start` inclusive, `end` exclusive.
#[derive(Clone, Copy, Debug, Hash, PartialEq, Eq, Structural)]
pub struct Span {
    pub start: u32,
    pub end: u32,
}

/// The bytes of `source` a span covers.
pub open spec fn span_bytes(source: Seq<u8>, span: Span) -> Seq<u8> {
    source.subrange(span.start as int, span.end as int)
}

impl Span {
    pub fn new(start: u32, end: u32) -> (s: Self)
        ensures
            s.start == start,
            s.end == end,
    {
        Span { start, end }
    }

    /// A zero-width span at the given offset.
    pub fn empty(at: u32) -> (s: Self)
        ensures
            s.start == at,
            s.end == at,
    {
        Span { start: at, end: at }
    }

    /// A span for an in-line byte range relative to `base`.
    pub fn at(base: u32, range: Range<usize>) -> (s: Self)
        requires
            base + range.start <= u32::MAX,
            base + range.end <= u32::MAX,
        ensures
            s.start == base + range.start,
            s.end == base + range.end,
    {
        Span { start: base + range.start as u32, end: base + range.end as u32 }
    }

    /// The source text this span covers.
    pub fn slice(self, source: &str) -> (r: &str)
        requires
            self.start <= self.end <= source.spec_bytes().len(),
            is_char_boundary(source.spec_bytes(), self.start as int),
            is_char_boundary(source.spec_bytes(), self.end as int),
        ensures
            r.spec_bytes() == span_bytes(source.spec_bytes(), self),
    {
        let bytes = Ghost(source.spec_bytes());
        let start = self.start as usize;
        let end = self.end as usize;
        let (_, rest) = source.split_at(start);
        proof {
            let rb = rest.spec_bytes();
            assert(rb =~= bytes@.subrange(start as int, bytes@.len() as int));
            if end < bytes@.len() {
                is_char_boundary_iff_not_is_continuation_byte(bytes@, end as int);
                is_char_boundary_iff_not_is_continuation_byte(rb, (end - start) as int);
                assert(rb[(end - start) as int] == bytes@[end as int]);
            } else {
                assert(rb.len() == end - start);
            }
        }
        let (mid, _) = rest.split_at(end - start);
        proof {
            assert(mid.spec_bytes() =~= bytes@.subrange(start as int, end as int));
        }
        mid
    }

    /// Whether the span covers no characters.
    pub fn is_empty(self) -> (b: bool)
        ensures
            b == (self.start == self.end),
    {
        self.start == self.end
    }
}

/// One logical line of a leaf block: the source line with container prefixes stripped,
/// plus the virtual spaces (`padding`) left in front of it by a partially consumed tab.
#[derive(Clone, Copy, Debug, Hash, PartialEq, Eq, Structural)]
pub struct Segment {
    pub span: Span,
    pub padding: u8,
}

/// `n` spaces.
pub open spec fn spaces(n: nat) -> Seq<u8> {
    Seq::new(n, |i: int| 32u8)
}

/// A piece rendered as logical text: its padding as spaces, then its bytes.
pub open spec fn piece_text(source: Seq<u8>, piece: Segment) -> Seq<u8> {
    spaces(piece.padding as nat) + span_bytes(source, piece.span)
}

/// The logical text of a multi-line construct: pieces joined with `\n`, padding rendered as spaces.
pub open spec fn join_pieces(source: Seq<u8>, pieces: Seq<Segment>) -> Seq<u8>
    decreases pieces.len(),
{
    if pieces.len() == 0 {
        Seq::empty()
    } else if pieces.len() == 1 {
        piece_text(source, pieces[0])
    } else {
        join_pieces(source, pieces.drop_last()) + seq![10u8] + piece_text(source, pieces.last())
    }
}

/// Every piece is a well-formed span of `source` ending on character boundaries.
pub open spec fn pieces_on_boundaries(source: Seq<u8>, pieces: Seq<Segment>) -> bool {
    forall|i: int|
        0 <= i < pieces.len() ==> {
            &&& #[trigger] pieces[i].span.start <= pieces[i].span.end <= source.len()
            &&& is_char_boundary(source, pieces[i].span.start as int)
            &&& is_char_boundary(source, pieces[i].span.end as int)
        }
}

/// A string of `n` spaces, as chars.
spec fn char_spaces(n: nat) -> Seq<char> {
    Seq::new(n, |i: int| ' ')
}

proof fn lemma_encode_spaces(n: nat)
    ensures
        encode_utf8(char_spaces(n)) == spaces(n),
    decreases n,
{
    if n > 0 {
        assert(char_spaces(n) =~= seq![' '] + char_spaces((n - 1) as nat));
        lemma_encode_utf8_concat(seq![' '], char_spaces((n - 1) as nat));
        lemma_encode_spaces((n - 1) as nat);
        lemma_encode_ascii(' ');
        assert(spaces(n) =~= seq![32u8] + spaces((n - 1) as nat));
    } else {
        assert(char_spaces(n) =~= Seq::<char>::empty());
        assert(spaces(n) =~= Seq::<u8>::empty());
    }
}

/// Appends `n` spaces.
fn push_spaces(out: &mut String, n: u8)
    ensures
        encode_utf8(final(out)@) == encode_utf8(old(out)@) + spaces(n as nat),
{
    let mut k: u8 = 0;
    while k < n
        invariant
            k <= n,
            encode_utf8(out@) == encode_utf8(old(out)@) + spaces(k as nat),
        decreases n - k,
    {
        let ghost before = out@;
        out.append(" ");
        proof {
            reveal_strlit(" ");
            lemma_encode_utf8_concat(before, " "@);
            assert(" "@ =~= char_spaces(1));
            lemma_encode_spaces(1);
            assert(spaces(k as nat) + spaces(1) =~= spaces((k + 1) as nat));
        }
        k = k + 1;
    }
}

impl Segment {
    pub fn new(span: Span, padding: u8) -> (s: Self)
        ensures
            s.span == span,
            s.padding == padding,
    {
        Segment { span, padding }
    }

    /// The logical text of a multi-line construct:
    /// pieces joined with `\n`, padding rendered as spaces.
    /// Borrows for the single unpadded piece.
    pub fn join<'s>(source: &'s str, pieces: &[Segment]) -> (r: Cow<'s, str>)
        requires
            pieces_on_boundaries(source.spec_bytes(), pieces@),
        ensures
            encode_utf8(r@) == join_pieces(source.spec_bytes(), pieces@),
            (pieces@.len() == 1 && pieces@[0].padding == 0) ==> r is Borrowed,
    {
        let ghost src = source.spec_bytes();
        if pieces.len() == 1 && pieces[0].padding == 0 {
            assert(pieces@[0].span.start <= pieces@[0].span.end <= src.len());
            let s = pieces[0].span.slice(source);
            proof {
                assert(spaces(0) =~= Seq::<u8>::empty());
                assert(piece_text(src, pieces@[0]) =~= span_bytes(src, pieces@[0].span));
            }
            return Cow::Borrowed(s);
        }
        let mut out = String::new();
        let mut i: usize = 0;
        proof {
            assert(encode_utf8(out@) =~= Seq::<u8>::empty());
        }
        while i < pieces.len()
            invariant
                i <= pieces@.len(),
                pieces_on_boundaries(src, pieces@),
                src == source.spec_bytes(),
                encode_utf8(out@) == join_pieces(src, pieces@.subrange(0, i as int)),
            decreases pieces.len() - i,
        {
            let ghost before = out@;
            let piece = pieces[i];
            if i > 0 {
                out.append("\n");
                proof {
                    reveal_strlit("\n");
                    lemma_encode_utf8_concat(before, "\n"@);
                    assert("\n"@ =~= seq!['\n']);
                    lemma_encode_ascii('\n');
                }
            }
            let ghost mid = out@;
            push_spaces(&mut out, piece.padding);
            let ghost mid2 = out@;
            let s = piece.span.slice(source);
            out.append(s);
            proof {
                lemma_encode_utf8_concat(mid2, s@);
                let prefix = pieces@.subrange(0, i as int);
                let next = pieces@.subrange(0, i + 1);
                assert(next.drop_last() =~= prefix);
                assert(next.last() == pieces@[i as int]);
                if i == 0 {
                    assert(next.len() == 1);
                    assert(encode_utf8(mid) =~= Seq::<u8>::empty());
                    assert(encode_utf8(out@) =~= piece_text(src, pieces@[0]));
                } else {
                    assert(encode_utf8(out@) =~= join_pieces(src, prefix) + seq![10u8]
                        + piece_text(src, pieces@[i as int]));
                }
            }
            i = i + 1;
        }
        proof {
            assert(pieces@.subrange(0, pieces@.len() as int) =~= pieces@);
        }
        Cow::Owned(out)
    }
}

/// The length of the joined text of `pieces`: each piece's padding and bytes, one separator between.
pub open spec fn joined_len(pieces: Seq<Segment>) -> int
    decreases pieces.len(),
{
    if pieces.len() == 0 {
        0
    } else if pieces.len() == 1 {
        pieces[0].padding + pieces[0].span.end - pieces[0].span.start
    } else {
        joined_len(pieces.drop_last()) + 1 + pieces.last().padding + pieces.last().span.end - pieces.last().span.start
    }
}

/// The joined text of well-formed pieces is as long as `joined_len` says.
pub proof fn lemma_joined_len(source: Seq<u8>, pieces: Seq<Segment>)
    requires
        pieces_on_boundaries(source, pieces),
    ensures
        join_pieces(source, pieces).len() == joined_len(pieces),
    decreases pieces.len(),
{
    if pieces.len() > 1 {
        let d = pieces.drop_last();
        assert forall|i: int| 0 <= i < d.len() implies #[trigger] d[i].span.start <= d[i].span.end <= source.len()
            && is_char_boundary(source, d[i].span.start as int) && is_char_boundary(source, d[i].span.end as int) by {
            assert(d[i] == pieces[i]);
        }
        lemma_joined_len(source, d);
    }
}

/// Whether every piece is a well-formed span of `source` on character boundaries
/// and their joined text fits an allocation.
pub fn pieces_fit(source: &str, pieces: &[Segment]) -> (r: bool)
    ensures
        r == (pieces_on_boundaries(source.spec_bytes(), pieces@) && join_pieces(source.spec_bytes(), pieces@).len()
            <= isize::MAX),
{
    let ghost src = source.spec_bytes();
    let n = source.as_bytes().len();
    let mut total: usize = 0;
    let mut i: usize = 0;
    while i < pieces.len()
        invariant
            i <= pieces@.len(),
            n == src.len(),
            src == source.spec_bytes(),
            pieces_on_boundaries(src, pieces@.subrange(0, i as int)),
            total == joined_len(pieces@.subrange(0, i as int)),
            total <= isize::MAX,
        decreases pieces.len() - i,
    {
        let p = pieces[i];
        proof {
            assert(pieces@[i as int] == p);
        }
        if !(p.span.start <= p.span.end && (p.span.end as usize) <= n) {
            assert(!(pieces@[i as int].span.start <= pieces@[i as int].span.end <= src.len()));
            return false;
        }
        if !(source.is_char_boundary(p.span.start as usize) && source.is_char_boundary(p.span.end as usize)) {
            return false;
        }
        let width: u64 = (p.padding as u64) + ((p.span.end - p.span.start) as u64) + if i > 0 { 1u64 } else { 0u64 };
        proof {
            let prev = pieces@.subrange(0, i as int);
            let next = pieces@.subrange(0, i + 1);
            assert(next.drop_last() =~= prev);
            assert(next.last() == p);
            assert forall|j: int| 0 <= j < next.len() implies #[trigger] next[j].span.start <= next[j].span.end <= src.len()
                && is_char_boundary(src, next[j].span.start as int) && is_char_boundary(src, next[j].span.end as int) by {
                if j < i {
                    assert(next[j] == prev[j]);
                }
            }
            assert(joined_len(next) == total + width);
        }
        if width > (isize::MAX as u64) - (total as u64) {
            proof {
                let next = pieces@.subrange(0, i + 1);
                lemma_joined_len(src, next);
                crate::inline::input::lemma_join_prefix_len(src, pieces@, i + 1);
            }
            return false;
        }
        total = total + width as usize;
        i = i + 1;
    }
    proof {
        assert(pieces@.subrange(0, pieces@.len() as int) =~= pieces@);
        lemma_joined_len(src, pieces@);
    }
    true
}

} // verus!
