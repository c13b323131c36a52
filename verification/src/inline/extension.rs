//! The extension text constructs that resolve immediately, like code spans:
//! math (`$`), wiki links (`[[…]]`) and liquid (`{% %}` / `{{ }}`).
use vstd::prelude::*;
use crate::syntax::run_len;
use crate::syntax::liquid::{close_from, lemma_close_from, open, spec_close_from, spec_open};
use super::PN;
use super::tokenizer::{flushed, matching_run, Tokenizer};

verus! {

/// Where a wiki link's target scan from `i` ends: past the closing `]]` when the first `]`
/// starts it and some non-whitespace byte (`data`) came before; `None` at a line ending,
/// the end of input, or a lone `]`.
pub open spec fn spec_wiki_from(b: Seq<u8>, i: int, data: bool) -> Option<int>
    decreases b.len() - i,
{
    if i < 0 || i >= b.len() || b[i] == 10 {
        None
    } else if b[i] == 93 {
        if data && i + 1 < b.len() && b[i + 1] == 93 {
            Some(i + 2)
        } else {
            None
        }
    } else {
        spec_wiki_from(b, i + 1, data || !(b[i] == 32 || b[i] == 9))
    }
}

/// The end of a wiki link starting at the `[` at `start` (its second `[` next), if one does.
pub open spec fn spec_wiki_link(b: Seq<u8>, start: int) -> Option<int> {
    if 0 <= start && start + 1 < b.len() && b[start + 1] == 91 {
        spec_wiki_from(b, start + 2, false)
    } else {
        None
    }
}

impl<'i, 'r> Tokenizer<'i, 'r> {
    /// `$$ … $$` math: the opening run is maximal, the closing run must match it exactly,
    /// content may span line endings but not the end of input.
    /// Resolves immediately, like code spans; a failed attempt consumes the whole run
    /// (mid-run `$`s can never open).
    pub(crate) fn math_span(&mut self)
        requires
            old(self).wf(),
            old(self).pos < old(self).bytes().len(),
            old(self).bytes()[old(self).pos as int] == 36,
        ensures
            final(self).wf(),
            old(self).pos < final(self).pos,
            final(self).t == old(self).t,
    {
        proof {
            reveal(Tokenizer::wf);
        }
        let bytes = self.t.as_bytes();
        let start = self.pos;
        let n = run_len(bytes, start, 36);
        let close = if n < 2 {
            None
        } else {
            matching_run(bytes, start + n, 36, n)
        };
        match close {
            Some(c) => {
                self.flush_text(start);
                self.emit(PN::MathSpan(start..c + n), c + n);
            },
            None => {
                self.pos = start + n;
            },
        }
    }

    /// `[[target]]`: no line endings inside,
    /// the target needs at least one non-whitespace byte,
    /// and the first `]` must start the closing `]]`, anything else fails the construct.
    pub(crate) fn try_wiki_link(&mut self) -> (found: bool)
        requires
            old(self).wf(),
            old(self).pos < old(self).bytes().len(),
        ensures
            final(self).wf(),
            found ==> old(self).pos < final(self).pos,
            !found ==> final(self).pos == old(self).pos,
            final(self).t == old(self).t,
            found == (old(self).constructs.wiki_link && old(self).pos + 2 >= old(self).wiki_dead && spec_wiki_link(
                old(self).bytes(),
                old(self).pos as int,
            ) is Some),
            spec_wiki_link(old(self).bytes(), old(self).pos as int) matches Some(e) ==> (found ==> final(self).pos == e
                && final(self).nodes@ == flushed(old(self).nodes@, old(self).text_start, old(self).pos).push(
                PN::WikiLink(old(self).pos..e as usize),
            )),
            !found ==> final(self).nodes@ == old(self).nodes@ && final(self).text_start == old(self).text_start
                && final(self).delims@ == old(self).delims@ && final(self).brackets@ == old(self).brackets@,
    {
        proof {
            reveal(Tokenizer::wf);
        }
        if !self.constructs.wiki_link {
            return false;
        }
        let bytes = self.t.as_bytes();
        let start = self.pos;
        if start + 1 >= bytes.len() || bytes[start + 1] != 91 || start + 2 < self.wiki_dead {
            return false;
        }
        let mut i = start + 2;
        let mut data = false;
        loop
            invariant
                start + 2 <= i <= bytes@.len(),
                self.wf(),
                self.pos == start,
                start == old(self).pos,
                bytes@ == self.bytes(),
                self.t == old(self).t,
                *self == *old(self),
                spec_wiki_link(bytes@, start as int) == spec_wiki_from(bytes@, i as int, data),
                start + 1 < bytes@.len() && bytes@[start + 1] == 91,
                start + 2 >= old(self).wiki_dead,
                self.constructs.wiki_link,
            decreases bytes@.len() - i,
        {
            proof {
                reveal(Tokenizer::wf);
            }
            if i >= bytes.len() || bytes[i] == 10 {
                self.wiki_dead = i;
                return false;
            }
            let b = bytes[i];
            if b == 93 {
                if !(data && i + 1 < bytes.len() && bytes[i + 1] == 93) {
                    self.wiki_dead = i;
                    return false;
                }
                self.flush_text(start);
                self.emit(PN::WikiLink(start..i + 2), i + 2);
                return true;
            }
            if !(b == 32 || b == 9) {
                data = true;
            }
            i = i + 1;
        }
    }

    /// `{% … %}` / `{{ … }}` in text:
    /// the closer is the first occurrence of the matching two-byte sequence (no nesting),
    /// may span line endings, fails at the end of input.
    pub(crate) fn try_liquid(&mut self) -> (found: bool)
        requires
            old(self).wf(),
            old(self).pos < old(self).bytes().len(),
        ensures
            final(self).wf(),
            found ==> old(self).pos < final(self).pos,
            !found ==> final(self).pos == old(self).pos,
            final(self).t == old(self).t,
            found == (old(self).constructs.liquid && match spec_open(old(self).bytes().skip(old(self).pos as int)) {
                Some(c) => !old(self).liquid_exhausted@[if c == 125 { 1int } else { 0int }] && spec_close_from(
                    old(self).bytes(),
                    old(self).pos + 2,
                    c,
                ) is Some,
                None => false,
            }),
            found ==> match spec_open(old(self).bytes().skip(old(self).pos as int)) {
                Some(c) => match spec_close_from(old(self).bytes(), old(self).pos + 2, c) {
                    Some(e) => final(self).pos == e && final(self).nodes@ == flushed(
                        old(self).nodes@,
                        old(self).text_start,
                        old(self).pos,
                    ).push(PN::Liquid(old(self).pos..e as usize)),
                    None => false,
                },
                None => false,
            },
            !found ==> final(self).nodes@ == old(self).nodes@ && final(self).text_start == old(self).text_start
                && final(self).delims@ == old(self).delims@ && final(self).brackets@ == old(self).brackets@,
    {
        proof {
            reveal(Tokenizer::wf);
        }
        if !self.constructs.liquid {
            return false;
        }
        let bytes = self.t.as_bytes();
        let start = self.pos;
        let (_, tail) = bytes.split_at(start);
        assert(tail@ =~= bytes@.skip(start as int));
        let closer = match open(tail) {
            Some(c) => c,
            None => return false,
        };
        let slot: usize = if closer == 125 { 1 } else { 0 };
        if self.liquid_exhausted[slot] {
            return false;
        }
        proof {
            assert(tail@.len() >= 2);
            lemma_close_from(bytes@, start + 2, closer);
        }
        match close_from(bytes, start + 2, closer) {
            Some(end) => {
                self.flush_text(start);
                self.emit(PN::Liquid(start..end), end);
                true
            },
            None => {
                // No closer of this kind exists from here on; every later attempt fails too
                self.liquid_exhausted.set(slot, true);
                false
            },
        }
    }
}

} // verus!
