//! Closing blocks and attaching them to their container (the mirror of `open.rs`).
//! Paragraph close strips reference definitions (`refdef`) and registers their labels.
use std::borrow::Cow;
use vstd::prelude::*;
use crate::pos::{pieces_fit, Segment, Span};
use crate::syntax::label::normalize;
use super::super::ir::{Ir, IrItem, IrSeg};
use super::super::refdef::{segments_fit, strip, stripped_rest};
use crate::inline::input::segs_of;
use crate::pos::{join_pieces, pieces_on_boundaries};
use super::super::scan::trail_end;
use super::state::{child_added, closed_ir, head_of, item_added, kind_of, lemma_kind_of_head, Leaf, OpenContainer};
use super::{items_in_lists, kinds_kept, lemma_stack_kept_of, lemma_stack_kept_trans, lemma_stack_replace_top, lists_topped, stack_kept, Engine};

verus! {

impl<'s> Engine<'s> {
    /// Closes the leaf into its container.
    pub(crate) fn close_leaf(&mut self)
        requires
            old(self).wf(),
        ensures
            final(self).wf(),
            final(self).same_input(old(self)),
            final(self).leaf is None,
            final(self).stack@.len() <= old(self).stack@.len(),
            kinds_kept(old(self).stack@, final(self).stack@, final(self).stack@.len() as int),
            old(self).stack@.len() > 0 && kind_of(old(self).stack@.last()) != 1 ==> final(self).stack@.len()
                == old(self).stack@.len(),
            final(self).stack@.len() + 1 >= old(self).stack@.len(),
            old(self).leaf is None ==> *final(self) == *old(self),
    {
        let leaf = match self.leaf.take() {
            Some(l) => l,
            None => {
                return;
            },
        };
        let ir = match leaf {
            Leaf::Paragraph { segments, .. } => {
                let rest = self.finish_paragraph(segments);
                if rest.len() == 0 {
                    return;
                }
                proof {
                    if self.stack@.len() > 0 && self.stack@.len() == old(self).stack@.len() {
                        lemma_kind_of_head(self.stack@.last(), old(self).stack@.last());
                    }
                }
                Ir::Paragraph { span: Span::new(rest[0].seg.span.start, rest[rest.len() - 1].seg.span.end), segments: rest }
            },
            Leaf::IndentedCode { lines, start, end, .. } => Ir::Code { fenced: None, lines, span: Span::new(start, end) },
            Leaf::FencedCode { fence, info, lines, start, end, .. } => {
                if fence == 36 {
                    Ir::MathBlock { meta: info, lines, span: Span::new(start, end) }
                } else {
                    Ir::Code { fenced: Some((fence, info)), lines, span: Span::new(start, end) }
                }
            },
            Leaf::Html { kind, lines, trailing_newline, start, end } => Ir::Html {
                kind,
                lines,
                trailing_newline,
                span: Span::new(start, end),
            },
            Leaf::Table { align, rows, start, end } => Ir::Table { align, rows, span: Span::new(start, end) },
        };
        self.attach(ir);
    }

    /// Attaches stripped definitions and registers their labels,
    /// the inline phase's reference map fills here, with no extra tree walk.
    #[verifier::rlimit(100)]
    #[verifier::spinoff_prover]
    pub(crate) fn attach_definitions(&mut self, defs: Vec<Ir>)
        requires
            old(self).wf(),
        ensures
            final(self).wf(),
            final(self).same_input(old(self)),
            final(self).leaf == old(self).leaf,
            final(self).stack@.len() <= old(self).stack@.len(),
            kinds_kept(old(self).stack@, final(self).stack@, final(self).stack@.len() as int),
            old(self).stack@.len() > 0 && kind_of(old(self).stack@.last()) != 1 ==> final(self).stack@.len()
                == old(self).stack@.len(),
            final(self).stack@.len() + 1 >= old(self).stack@.len(),
            final(self).stack@.len() < old(self).stack@.len() ==> final(self).stack@.len() == 0 || kind_of(
                final(self).stack@.last(),
            ) != 1,
            defs@.len() == 0 ==> *final(self) == *old(self),
            defs@.len() > 0 ==> final(self).innermost().len() > 0 && final(self).innermost().last() == defs@.last(),
    {
        let ghost orig = defs@;
        let ghost total = orig.len();
        let mut rest = defs;
        let mut rev: Vec<Ir> = Vec::new();
        while rest.len() > 0
            invariant
                total == orig.len(),
                rest@ == orig.subrange(0, rest@.len() as int),
                rev@.len() + rest@.len() == total,
                forall|i: int| 0 <= i < rev@.len() ==> #[trigger] rev@[i] == orig[total - 1 - i],
            decreases rest@.len(),
        {
            let ghost t0 = rest@;
            let ghost r0 = rev@;
            let d = rest.pop().unwrap();
            proof {
                assert(d == orig[t0.len() - 1]);
                assert(rest@ =~= orig.subrange(0, rest@.len() as int));
            }
            rev.push(d);
            proof {
                assert forall|i: int| 0 <= i < rev@.len() implies #[trigger] rev@[i] == orig[total - 1 - i] by {
                    if i < r0.len() {
                        assert(rev@[i] == r0[i]);
                    }
                }
            }
        }
        while rev.len() > 0
            invariant
                self.wf(),
                self.same_input(old(self)),
                self.leaf == old(self).leaf,
                self.stack@.len() <= old(self).stack@.len(),
                kinds_kept(old(self).stack@, self.stack@, self.stack@.len() as int),
                old(self).stack@.len() > 0 && kind_of(old(self).stack@.last()) != 1 ==> self.stack@.len()
                    == old(self).stack@.len(),
                self.stack@.len() + 1 >= old(self).stack@.len(),
                self.stack@.len() < old(self).stack@.len() ==> self.stack@.len() == 0 || kind_of(self.stack@.last())
                    != 1,
                total == orig.len(),
                rev@.len() <= total,
                forall|i: int| 0 <= i < rev@.len() ==> #[trigger] rev@[i] == orig[total - 1 - i],
                rev@.len() == total ==> *self == *old(self),
                rev@.len() < total ==> self.innermost().len() > 0 && self.innermost().last() == orig[total - 1
                    - rev@.len()],
            decreases rev@.len(),
        {
            let ghost r0 = rev@;
            let def = rev.pop().unwrap();
            proof {
                assert(def == r0[r0.len() - 1]);
                assert forall|i: int| 0 <= i < rev@.len() implies #[trigger] rev@[i] == orig[total - 1 - i] by {
                    assert(rev@[i] == r0[i]);
                }
            }
            match &def {
                Ir::Definition { label, .. } => {
                    if pieces_fit(self.source, label.as_slice()) {
                        let text = Segment::join(self.source, label.as_slice());
                        let key = match text {
                            Cow::Borrowed(t) => normalize(t),
                            Cow::Owned(t) => match normalize(t.as_str()) {
                                Cow::Borrowed(k) => Cow::Owned(k.to_owned()),
                                Cow::Owned(k) => Cow::Owned(k),
                            },
                        };
                        let owned = match key {
                            Cow::Borrowed(k) => k.to_owned(),
                            Cow::Owned(k) => k,
                        };
                        self.refs.push(owned);
                    }
                },
                _ => {},
            }
            let ghost s1 = self.stack@;
            self.attach(def);
            proof {
                if s1.len() < old(self).stack@.len() && s1.len() > 0 {
                    assert(kind_of(s1.last()) != 1);
                }
                assert forall|k: int| 0 <= k < self.stack@.len() implies #[trigger] head_of(self.stack@[k]) == head_of(
                    old(self).stack@[k],
                ) && kind_of(self.stack@[k]) == kind_of(old(self).stack@[k]) by {
                    assert(head_of(self.stack@[k]) == head_of(s1[k]));
                    assert(kind_of(self.stack@[k]) == kind_of(s1[k]));
                }
            }
        }
    }

    /// The paragraph-close prologue shared by paragraphs and setext headings:
    /// leading definitions are stripped and attached, and the last line loses its trailing whitespace.
    /// Returns the remaining paragraph lines, possibly none.
    pub(crate) fn finish_paragraph(&mut self, segments: Vec<IrSeg>) -> (rest: Vec<IrSeg>)
        requires
            old(self).wf(),
        ensures
            final(self).wf(),
            final(self).same_input(old(self)),
            final(self).leaf == old(self).leaf,
            final(self).stack@.len() <= old(self).stack@.len(),
            kinds_kept(old(self).stack@, final(self).stack@, final(self).stack@.len() as int),
            old(self).stack@.len() > 0 && kind_of(old(self).stack@.last()) != 1 ==> final(self).stack@.len()
                == old(self).stack@.len(),
            final(self).stack@.len() + 1 >= old(self).stack@.len(),
            final(self).stack@.len() < old(self).stack@.len() ==> final(self).stack@.len() == 0 || kind_of(
                final(self).stack@.last(),
            ) != 1,
            !(pieces_on_boundaries(old(self).bytes@, segs_of(segments@)) && join_pieces(
                old(self).bytes@,
                segs_of(segments@),
            ).len() <= isize::MAX) ==> rest@ == segments@ && *final(self) == *old(self),
            pieces_on_boundaries(old(self).bytes@, segs_of(segments@)) && join_pieces(
                old(self).bytes@,
                segs_of(segments@),
            ).len() <= isize::MAX ==> last_trimmed(old(self).bytes@, stripped_rest(old(self).bytes@, segments@), rest@),
    {
        if !segments_fit(self.source, segments.as_slice()) {
            return segments;
        }
        let (defs, mut rest) = strip(self.source, segments);
        self.attach_definitions(defs);
        trim_last(self.bytes, &mut rest);
        rest
    }

    /// The prologue of every block start that is not a list item:
    /// it ends the open leaf, and a list on top of the stack (only a compatible item continues one).
    pub(crate) fn close_leaf_and_list(&mut self)
        requires
            old(self).wf(),
        ensures
            final(self).wf(),
            final(self).same_input(old(self)),
            final(self).leaf is None,
            final(self).stack@.len() > 0 ==> kind_of(final(self).stack@.last()) != 1,
            final(self).stack@.len() <= old(self).stack@.len(),
            stack_kept(old(self).stack@, final(self).stack@),
    {
        self.close_leaf();
        let ghost s1 = self.stack@;
        proof {
            lemma_stack_kept_of(old(self).stack@, s1);
        }
        self.close_list_top();
        proof {
            lemma_stack_kept_trans(old(self).stack@, s1, self.stack@);
        }
    }

    /// Closes open containers so that `keep` remain.
    pub(crate) fn close_from(&mut self, keep: usize)
        requires
            old(self).wf(),
        ensures
            final(self).wf(),
            final(self).same_input(old(self)),
            final(self).leaf is None,
            final(self).stack@.len() <= old(self).stack@.len(),
            final(self).stack@.len() <= keep,
            keep < old(self).stack@.len() ==> final(self).stack@.len() == keep,
            keep >= old(self).stack@.len() && (old(self).stack@.len() == 0 || kind_of(old(self).stack@.last()) != 1)
                ==> final(self).stack@.len() == old(self).stack@.len(),
            kinds_kept(old(self).stack@, final(self).stack@, final(self).stack@.len() as int),
            old(self).leaf is None && old(self).stack@.len() == keep + 1 && kind_of(old(self).stack@.last()) != 2
                ==> final(self).innermost().len() > 0 && final(self).innermost().last() == closed_ir(
                old(self).stack@.last(),
            ),
    {
        let ghost s0 = self.stack@;
        self.close_leaf();
        let ghost e1 = *self;
        while self.stack.len() > keep
            invariant
                self.wf(),
                self.same_input(old(self)),
                self.leaf is None,
                self.stack@.len() <= s0.len(),
                keep < s0.len() ==> keep <= self.stack@.len(),
                keep >= s0.len() && (s0.len() == 0 || kind_of(s0.last()) != 1) ==> self.stack@.len() == s0.len(),
                kinds_kept(s0, self.stack@, self.stack@.len() as int),
                old(self).leaf is None ==> e1 == *old(self),
                s0 == old(self).stack@,
                old(self).leaf is None && s0.len() == keep + 1 && kind_of(s0.last()) != 2 && self.stack@.len() == keep
                    ==> self.innermost().len() > 0 && self.innermost().last() == closed_ir(s0.last()),
                self.stack@.len() == s0.len() ==> *self == e1,
            decreases self.stack@.len(),
        {
            let ghost s1 = self.stack@;
            proof {
                if s1.len() == s0.len() {
                    assert(s1 == e1.stack@);
                    if old(self).leaf is None {
                        assert(s1 =~= s0);
                    }
                }
            }
            self.close_container();
            proof {
                if old(self).leaf is None && s0.len() == keep + 1 && kind_of(s0.last()) != 2 && self.stack@.len()
                    == keep {
                    assert(s1.len() == s0.len());
                    assert(s1 =~= s0);
                    assert(kind_of(s1.last()) != 2);
                }
            }
            proof {
                assert forall|k: int| 0 <= k < self.stack@.len() implies #[trigger] head_of(self.stack@[k]) == head_of(s0[k])
                    && kind_of(self.stack@[k]) == kind_of(s0[k]) by {
                    assert(head_of(self.stack@[k]) == head_of(s1[k]));
                    assert(kind_of(self.stack@[k]) == kind_of(s1[k]));
                }
            }
        }
    }

    /// Closes an open `List` sitting on top of the stack
    /// (any new block other than a compatible item ends the list).
    pub(crate) fn close_list_top(&mut self)
        requires
            old(self).wf(),
        ensures
            final(self).wf(),
            final(self).same_input(old(self)),
            final(self).leaf == old(self).leaf,
            final(self).stack@.len() > 0 ==> kind_of(final(self).stack@.last()) != 1,
            final(self).stack@.len() <= old(self).stack@.len(),
            kinds_kept(old(self).stack@, final(self).stack@, final(self).stack@.len() as int),
            stack_kept(old(self).stack@, final(self).stack@),
    {
        proof {
            assert(self.stack@ == old(self).stack@);
            lemma_stack_kept_of(old(self).stack@, old(self).stack@);
        }
        let n = self.stack.len();
        if n == 0 {
            return;
        }
        let is_list = match &self.stack[n - 1] {
            OpenContainer::List { .. } => true,
            _ => false,
        };
        if is_list {
            self.close_container();
            proof {
                lemma_stack_kept_of(old(self).stack@, self.stack@);
                let s = self.stack@;
                if s.len() > 0 {
                    // The entry under a list is never a list: a list is only ever topped by an item.
                    lemma_kind_of_head(s[s.len() - 1], old(self).stack@[s.len() - 1]);
                    assert(kind_of(s[s.len() - 1]) == kind_of(old(self).stack@[s.len() - 1]));
                    if kind_of(old(self).stack@[s.len() - 1]) == 1 {
                        assert(kind_of(old(self).stack@[s.len() as int]) == 2);
                    }
                }
            }
        }
    }

    #[verifier::rlimit(40)]
    #[verifier::spinoff_prover]
    pub(crate) fn close_container(&mut self)
        requires
            old(self).wf(),
            old(self).stack@.len() > 0,
        ensures
            final(self).wf(),
            final(self).same_input(old(self)),
            final(self).leaf == old(self).leaf,
            final(self).stack@.len() == old(self).stack@.len() - 1,
            kinds_kept(old(self).stack@, final(self).stack@, final(self).stack@.len() as int),
            kind_of(old(self).stack@.last()) != 2 ==> final(self).innermost().len() > 0
                && final(self).innermost().last() == closed_ir(old(self).stack@.last()),
        decreases old(self).stack@.len(), 0int,
    {
        let ghost s0 = self.stack@;
        let top = self.stack.pop().unwrap();
        proof {
            assert(self.stack@ =~= s0.drop_last());
            lemma_drop_top(s0);
        }
        let ir = match top {
            OpenContainer::Quote { children, start, end } => Ir::Quote { children, span: Span::new(start, end) },
            OpenContainer::List { items, ordered, marker, start } => {
                // Items arrive in source order; the last one ends the list
                let end = if items.len() > 0 {
                    items[items.len() - 1].span.end
                } else {
                    start
                };
                Ir::List { ordered, marker, items, span: Span::new(start, end) }
            },
            OpenContainer::Footnote { children, label, start, end, .. } => Ir::FootnoteDefinition {
                label,
                children,
                span: Span::new(start, end),
            },
            OpenContainer::Directive { children, opening, closing, end, .. } => Ir::ContainerDirective {
                opening,
                closing,
                children,
                span: Span::new(opening.start, end),
            },
            OpenContainer::Item { children, marker, padding, start, end, .. } => {
                proof {
                    assert(kind_of(s0[s0.len() - 1]) == 2);
                }
                self.item_into_list(IrItem { marker, padding, children, span: Span::new(start, end) });
                return;
            },
        };
        proof {
            let s = self.stack@;
            if s.len() > 0 {
                // The popped entry is no item, so the entry under it is no list.
                if kind_of(s[s.len() - 1]) == 1 {
                    assert(kind_of(s0[s.len() - 1]) == 1);
                    assert(kind_of(s0[s.len() as int]) == 2);
                }
            }
        }
        self.attach(ir);
    }

    /// A closed item joins the list under it.
    fn item_into_list(&mut self, item: IrItem)
        requires
            old(self).wf(),
            old(self).stack@.len() > 0,
        ensures
            final(self).wf(),
            final(self).same_input(old(self)),
            final(self).leaf == old(self).leaf,
            final(self).stack@.len() == old(self).stack@.len(),
            kinds_kept(old(self).stack@, final(self).stack@, final(self).stack@.len() as int),
            final(self).root@ == old(self).root@,
            final(self).stack@.drop_last() == old(self).stack@.drop_last(),
            kind_of(old(self).stack@.last()) == 1 ==> item_added(old(self).stack@.last(), final(self).stack@.last(), item),
            kind_of(old(self).stack@.last()) != 1 ==> final(self).stack@ == old(self).stack@,
    {
        let ghost s1 = self.stack@;
        match self.stack.pop() {
            Some(OpenContainer::List { mut items, ordered, marker: mk, start: ls }) => {
                items.push(item);
                self.stack.push(OpenContainer::List { items, ordered, marker: mk, start: ls });
            },
            Some(other) => {
                self.stack.push(other);
            },
            None => {},
        }
        proof {
            lemma_stack_replace_top(s1, self.stack@);
        }
    }

    /// Attaches a finished block to the current innermost container.
    pub(crate) fn attach(&mut self, ir: Ir)
        requires
            old(self).wf(),
        ensures
            final(self).wf(),
            final(self).same_input(old(self)),
            final(self).leaf == old(self).leaf,
            final(self).stack@.len() <= old(self).stack@.len(),
            kinds_kept(old(self).stack@, final(self).stack@, final(self).stack@.len() as int),
            old(self).stack@.len() > 0 && kind_of(old(self).stack@.last()) != 1 ==> final(self).stack@.len()
                == old(self).stack@.len(),
            final(self).stack@.len() + 1 >= old(self).stack@.len(),
            final(self).stack@.len() < old(self).stack@.len() ==> final(self).stack@.len() == 0 || kind_of(
                final(self).stack@.last(),
            ) != 1,
            final(self).innermost().len() > 0,
            final(self).innermost().last() == ir,
            old(self).stack@.len() == 0 ==> final(self).stack@ == old(self).stack@ && final(self).root@
                == old(self).root@.push(ir),
            old(self).stack@.len() > 0 && kind_of(old(self).stack@.last()) != 1 ==> final(self).root@
                == old(self).root@ && final(self).stack@.drop_last() == old(self).stack@.drop_last() && child_added(
                old(self).stack@.last(),
                final(self).stack@.last(),
                ir,
            ),
        decreases old(self).stack@.len(), 1int,
    {
        let end = ir.span().end;
        let ghost s0 = self.stack@;
        match self.stack.pop() {
            None => {
                self.root.push(ir);
            },
            Some(OpenContainer::Quote { mut children, start, end: e }) => {
                children.push(ir);
                self.stack.push(OpenContainer::Quote { children, start, end: if e > end { e } else { end } });
                proof {
                    lemma_stack_replace_top(s0, self.stack@);
                }
            },
            Some(OpenContainer::Item { mut children, marker, padding, content_indent, start, end: e }) => {
                children.push(ir);
                self.stack.push(
                    OpenContainer::Item {
                        children,
                        marker,
                        padding,
                        content_indent,
                        start,
                        end: if e > end {
                            e
                        } else {
                            end
                        },
                    },
                );
                proof {
                    lemma_stack_replace_top(s0, self.stack@);
                }
            },
            Some(OpenContainer::Footnote { mut children, label, content_indent, start, end: e }) => {
                children.push(ir);
                self.stack.push(
                    OpenContainer::Footnote { children, label, content_indent, start, end: if e > end { e } else { end } },
                );
                proof {
                    lemma_stack_replace_top(s0, self.stack@);
                }
            },
            Some(OpenContainer::Directive { mut children, fence_len, content_indent, opening, closing, end: e }) => {
                children.push(ir);
                self.stack.push(
                    OpenContainer::Directive {
                        children,
                        fence_len,
                        content_indent,
                        opening,
                        closing,
                        end: if e > end {
                            e
                        } else {
                            end
                        },
                    },
                );
                proof {
                    lemma_stack_replace_top(s0, self.stack@);
                }
            },
            Some(OpenContainer::List { items, ordered, marker, start }) => {
                // Lists never receive non-item children directly
                self.stack.push(OpenContainer::List { items, ordered, marker, start });
                proof {
                    lemma_stack_replace_top(s0, self.stack@);
                }
                self.close_container();
                proof {
                    let s = self.stack@;
                    if s.len() > 0 {
                        lemma_kind_of_head(s[s.len() - 1], s0[s.len() - 1]);
                        assert(kind_of(s[s.len() - 1]) == kind_of(s0[s.len() - 1]));
                        if kind_of(s0[s.len() - 1]) == 1 {
                            assert(kind_of(s0[s.len() as int]) == 2);
                        }
                    }
                }
                self.attach(ir);
            },
        }
    }
}

/// Dropping the top entry keeps the stack's shape.
proof fn lemma_drop_top(s: Seq<OpenContainer>)
    requires
        s.len() > 0,
        items_in_lists(s),
        lists_topped(s),
    ensures
        items_in_lists(s.drop_last()),
        lists_topped(s.drop_last()),
        kinds_kept(s, s.drop_last(), s.len() - 1),
{
    let d = s.drop_last();
    assert forall|q: int| 0 <= q < d.len() && #[trigger] kind_of(d[q]) == 2 implies q > 0 && kind_of(d[q - 1]) == 1 by {
        assert(d[q] == s[q] && d[q - 1] == s[q - 1]);
    }
    assert forall|q: int| 0 <= q < d.len() - 1 && #[trigger] kind_of(d[q]) == 1 implies kind_of(d[q + 1]) == 2 by {
        assert(d[q] == s[q] && d[q + 1] == s[q + 1]);
    }
}

/// `s1` is `s0` with the trailing spaces and tabs of its last line's span dropped.
pub open spec fn last_trimmed(b: Seq<u8>, s0: Seq<IrSeg>, s1: Seq<IrSeg>) -> bool {
    &&& s1.len() == s0.len()
    &&& forall|k: int| 0 <= k < s0.len() - 1 ==> #[trigger] s1[k] == s0[k]
    &&& s0.len() > 0 ==> {
        let last = s0.last();
        let trimmed = s1.last();
        &&& trimmed.lazy == last.lazy
        &&& trimmed.seg.padding == last.seg.padding
        &&& trimmed.seg.span.start == last.seg.span.start
        &&& trimmed.seg.span.end == if last.seg.span.start <= last.seg.span.end <= b.len() {
            trail_end(b, last.seg.span.start as int, last.seg.span.end as int)
        } else {
            last.seg.span.end as int
        }
    }
}

/// Drops the trailing whitespace of a closed paragraph's last line from its segment:
/// it is never content (a hard break needs a following line),
/// so the paragraph or setext heading span ends before it, like an ATX heading's.
fn trim_last(bytes: &[u8], segments: &mut Vec<IrSeg>)
    ensures
        last_trimmed(bytes@, old(segments)@, final(segments)@),
{
    let n = segments.len();
    if n == 0 {
        return;
    }
    let last = segments[n - 1];
    let start = last.seg.span.start;
    let mut end = last.seg.span.end;
    if !(start <= end && (end as usize) <= bytes.len()) {
        return;
    }
    while end > start && (bytes[(end - 1) as usize] == 32 || bytes[(end - 1) as usize] == 9)
        invariant
            start <= end <= bytes@.len(),
            trail_end(bytes@, start as int, end as int) == trail_end(
                bytes@,
                start as int,
                last.seg.span.end as int,
            ),
        decreases end,
    {
        end = end - 1;
    }
    let mut seg = last;
    seg.seg.span.end = end;
    segments.set(n - 1, seg);
}

} // verus!
