//! Flow liquid tags (`{% … %}` / `{{ … }}`) in the line loop:
//! multi-line validation against the container stack, and the dead-position cache
//! (`Engine::liquid_dead`) that keeps failed attempts from rescanning quadratically.
use vstd::prelude::*;
use crate::block::cursor::Cursor;
use crate::block::ir::Ir;
use crate::block::scan::{blank_between, is_blank_from};
use crate::pos::{Segment, Span};
use crate::syntax::liquid::{close_from, lemma_close_from, open, spec_close_from, spec_open};
use super::state::StackMatch;
use super::{lemma_stack_kept_of, lemma_stack_kept_trans, line_content_end, next_line_start, stack_kept, Engine};

verus! {

/// A validated flow liquid tag, ready to attach.
pub struct LiquidTag {
    /// One verbatim piece per line.
    pub pieces: Vec<Segment>,
    pub span: Span,
    /// Content end of the closing line; lines up to it are consumed.
    pub last_line_end: u32,
}

/// Where a flow liquid tag opening at the start of `tail` closes on that same line
/// (only whitespace may follow the closer): the offset past the closer within `tail`.
pub open spec fn same_line_liquid(tail: Seq<u8>) -> Option<int> {
    match spec_open(tail) {
        Some(c) => match spec_close_from(tail, 2, c) {
            Some(e) => if blank_between(tail, e, tail.len() as int) {
                Some(e)
            } else {
                None
            },
            None => None,
        },
        None => None,
    }
}

/// The dead-position cache rules out an attempt of closer `c` at `start`.
pub open spec fn liquid_blocked(dead: [u32; 2], c: u8, start: int) -> bool {
    (if start + 2 > u32::MAX { u32::MAX as int } else { start + 2 }) <= dead@[if c == 125 { 1int } else { 0int }]
}

impl<'s> Engine<'s> {
    /// Validates a flow liquid tag starting at `cur` (at the `{`),
    /// scanning for the first closer across lines:
    /// continuation lines must match this container stack's prefixes (a lazy or unprefixed line fails),
    /// EOF before the closer fails, and only whitespace may follow the closer on its line.
    /// (Any failure rejects the whole construct retroactively.)
    /// The closer never spans a line ending.
    pub(crate) fn liquid_scan(&mut self, cur: Cursor<'s>, content_end: u32) -> (r: Option<LiquidTag>)
        requires
            old(self).wf(),
            old(self).cur_ok(cur),
            content_end <= old(self).bytes@.len(),
        ensures
            final(self).wf(),
            final(self).same_input(old(self)),
            final(self).stack@ == old(self).stack@,
            final(self).leaf == old(self).leaf,
            final(self).root@ == old(self).root@,
            spec_open(cur.spec_tail()) is None ==> r is None,
            r matches Some(t) ==> t.span.start == cur.spec_offset() && t.pieces@.len() > 0,
            same_line_liquid(cur.spec_tail()) is Some && !liquid_blocked(
                old(self).liquid_dead,
                spec_open(cur.spec_tail()).unwrap(),
                cur.spec_offset(),
            ) ==> r is Some && r.unwrap().span.end == cur.spec_offset() + same_line_liquid(cur.spec_tail()).unwrap()
                && r.unwrap().last_line_end == content_end && r.unwrap().pieces@.len() == 1,
    {
        let ghost cur0 = cur;
        let closer = match open(cur.tail()) {
            Some(c) => c,
            None => {
                return None;
            },
        };
        let kind: usize = if closer == 125 { 1 } else { 0 };
        let start = cur.offset();
        // See `Engine::liquid_dead`
        if start.saturating_add(2) <= self.liquid_dead[kind] {
            return None;
        }
        let mut pieces: Vec<Segment> = Vec::new();
        let mut at = cur;
        let mut line_end = content_end;
        // The first line searches past the two-byte opener
        let mut search_from: usize = 2;
        loop
            invariant
                self.wf(),
                self.same_input(old(self)),
                self.stack@ == old(self).stack@,
                self.leaf == old(self).leaf,
                self.cur_ok(at),
                line_end <= self.bytes@.len(),
                kind < 2,
                self.root@ == old(self).root@,
                search_from == 2 ==> at == cur0 && line_end == content_end && pieces@.len() == 0
                    && self.liquid_dead == old(self).liquid_dead,
                search_from != 2 ==> search_from == 0 && pieces@.len() > 0,
                spec_open(cur0.spec_tail()) == Some(closer),
                kind == (if closer == 125 { 1usize } else { 0usize }),
                !liquid_blocked(old(self).liquid_dead, closer, start as int),
                start == cur0.spec_offset(),
                cur0 == cur,
                search_from == 0 ==> same_line_liquid(cur0.spec_tail()) is None,
            decreases self.bytes@.len() - line_end,
        {
            let tail = at.tail();
            proof {
                lemma_close_from(tail@, search_from as int, closer);
            }
            match close_from(tail, search_from, closer) {
                Some(close) => {
                    if !is_blank_from(tail, close) {
                        // Line-local failure: cacheable (see `Engine::liquid_dead`)
                        self.liquid_dead.set(kind, at.offset() + close as u32 - 2);
                        return None;
                    }
                    let end = at.offset() + close as u32;
                    pieces.push(at.segment(end));
                    return Some(LiquidTag { pieces, span: Span::new(start, end), last_line_end: line_end });
                },
                None => {},
            }
            pieces.push(at.segment(line_end));
            let next_start = match next_line_start(self.bytes, line_end) {
                Some(n) => n,
                None => {
                    // No closer of this kind exists from here to EOF,
                    // so no later attempt can succeed either.
                    self.liquid_dead.set(kind, u32::MAX);
                    return None;
                },
            };
            let next_end = line_content_end(self.bytes, next_start);
            let mut next = self.line_cursor(next_start, next_end);
            // A directive-close line never reaches the liquid's content
            match self.match_stack(&mut next) {
                StackMatch::Prefixes(m) => {
                    if m != self.stack.len() {
                        return None;
                    }
                },
                StackMatch::DirectiveClose { .. } => {
                    return None;
                },
            }
            // A container starting on a continuation line interrupts the attempt.
            match next.flow_start() {
                Some(c) => {
                    match self.probe(c.tail(), false) {
                        Some(s) => {
                            if s.is_container() {
                                return None;
                            }
                        },
                        None => {},
                    }
                },
                None => {},
            }
            at = next;
            line_end = next_end;
            search_from = 0;
        }
    }

    /// Opens (attaches) a validated flow liquid tag and skips its lines.
    pub(crate) fn open_liquid(&mut self, tag: LiquidTag)
        requires
            old(self).wf(),
        ensures
            final(self).wf(),
            final(self).same_input(old(self)),
            final(self).leaf == old(self).leaf,
            final(self).skip_to == tag.last_line_end,
            final(self).innermost().len() > 0,
            final(self).innermost().last() == (Ir::Liquid { pieces: tag.pieces, span: tag.span }),
            stack_kept(old(self).stack@, final(self).stack@),
    {
        self.close_list_top();
        let ghost s1 = self.stack@;
        self.attach(Ir::Liquid { pieces: tag.pieces, span: tag.span });
        proof {
            lemma_stack_kept_of(s1, self.stack@);
            lemma_stack_kept_trans(old(self).stack@, s1, self.stack@);
        }
        self.skip_to = tag.last_line_end;
    }
}

} // verus!
