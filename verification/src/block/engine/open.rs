//! Step 5 of the line loop: opening new blocks at a flow position.
//!
//! `open_blocks` walks the probe table once per flow position.
//! Containers (`>`, list items, footnote definitions) re-enter the loop for the rest of the line;
//! leaves consume it.
use std::borrow::Cow;
use std::ops::Range;
use vstd::prelude::*;
use crate::block::cursor::{advance, Cursor};
use crate::block::ir::{Ir, IrSeg};
use crate::block::probe::{item_interrupts, spec_item_interrupts, spec_probe, Start, StartV};
use crate::block::scan::commonmark::{spec_list_marker, thematic_break, ListMarkerScan};
use crate::block::scan::html::{html_block_end, spec_html_block_end};
use crate::block::scan::trail_end;
use crate::pos::{Segment, Span};
use crate::syntax::label::normalize;
use super::state::{fence_leaf, head_of, kind_of, one_line_leaf, para_extended, Leaf, OpenContainer};
use crate::block::scan::blank_between;
use super::{items_in_lists, kept_at, lemma_stack_kept_of, lemma_stack_kept_push, lemma_stack_kept_trans, lists_topped, stack_kept, Engine};

verus! {

/// A setext heading of `level` whose underline spans `ul_start..ul_end`:
/// it starts at its first line and ends with the underline.
pub open spec fn setext_heading(ir: Ir, level: u8, ul_start: int, ul_end: int) -> bool {
    match ir {
        Ir::Heading { level: l, underline, segments, span } => l == level && (underline matches Some(u) && u.start
            == ul_start && u.end == ul_end) && segments@.len() > 0 && span.start == segments@[0].seg.span.start
            && span.end == ul_end,
        _ => false,
    }
}

/// The line at `c` starts a flow construct right there: not blank, less than four columns of
/// indent, and no tab straddling the end of the indent.
pub open spec fn flow_ok(c: Cursor) -> bool {
    &&& !blank_between(c.line@, c.pos as int, c.line@.len() as int)
    &&& c.spec_indent() < 4
    &&& advance(c.line@, c.pos as int, c.col as int, c.partial as int, c.spec_indent()).2 == 0
}

/// The rest of the line past the indent at `c`.
pub open spec fn flow_tail(c: Cursor) -> Seq<u8> {
    c.line@.skip(advance(c.line@, c.pos as int, c.col as int, c.partial as int, c.spec_indent()).0)
}

/// What the probe table finds past the indent at `c`.
pub(crate) open spec fn flow_probe(e: Engine, c: Cursor) -> Option<StartV> {
    spec_probe(e.constructs, flow_tail(c), e.leaf matches Some(Leaf::Paragraph { .. }))
}

/// A container start (`>`, a list item, a footnote definition): the line goes on past it.
pub open spec fn container_start(st: Option<StartV>) -> bool {
    st matches Some(StartV::Quote) || st matches Some(StartV::ListItem { .. }) || st matches Some(
        StartV::FootnoteDef { .. },
    )
}

/// The source offset of the flow position past the indent at `c`.
pub open spec fn flow_offset(c: Cursor) -> int {
    c.line_start + advance(c.line@, c.pos as int, c.col as int, c.partial as int, c.spec_indent()).0
}

/// The container start `st` found at offset `at` opens its container: always for `>`, for a
/// list item unless it may not interrupt the open paragraph, for a footnote definition when
/// its label and content fit the rest of the line (`rest` bytes).
pub open spec fn container_opens(st: Option<StartV>, para_open: bool, rest: int) -> bool {
    match st {
        Some(StartV::Quote) => true,
        Some(StartV::ListItem { m, empty }) => !para_open || spec_item_interrupts(m, empty),
        Some(StartV::FootnoteDef { label_start, label_end, content }) => 0 < content <= rest && label_start
            <= label_end <= rest,
        _ => false,
    }
}

/// Entry `k` of the stack `s` is the container that `st` opens at offset `at`, with its marker,
/// label and indent: a quote starting at its `>`; an item whose marker spans the list marker,
/// in a list of that marker's kind; a footnote definition with its label, content indented by
/// four columns.
pub open spec fn container_at(st: Option<StartV>, at: int, s: Seq<OpenContainer>, k: int) -> bool {
    &&& 0 <= k < s.len()
    &&& match st {
        Some(StartV::Quote) => head_of(s[k]) == (0int, at, 0int, 0int, 0int, 0int),
        Some(StartV::ListItem { m, .. }) => {
            let h = head_of(s[k]);
            let l = head_of(s[k - 1]);
            &&& k >= 1
            &&& h.0 == 2 && h.1 == at && h.2 == at && h.3 == at + m.len
            &&& l.0 == 1 && l.2 == (if m.ordered { 1int } else { 0int }) && l.3 == m.marker
        },
        Some(StartV::FootnoteDef { label_start, label_end, .. }) => head_of(s[k]) == (
            3int,
            at,
            at + label_start,
            at + label_end,
            4int,
            0int,
        ),
        _ => false,
    }
}

/// A container found on a stack stays found on any stack that keeps it.
proof fn lemma_container_kept(st: Option<StartV>, at: int, a: Seq<OpenContainer>, b: Seq<OpenContainer>, k: int)
    requires
        container_at(st, at, a, k),
        stack_kept(a, b),
    ensures
        container_at(st, at, b, k),
{
    lemma_kind_head(a[k]);
    assert(kept_at(a, b, k));
    if st matches Some(StartV::ListItem { .. }) {
        assert(kept_at(a, b, k - 1));
    }
}

/// The kind is the head's first component.
proof fn lemma_kind_head(c: OpenContainer)
    ensures
        kind_of(c) == head_of(c).0,
{
}

impl<'s> Engine<'s> {
    pub(crate) fn open_blocks(&mut self, cur: Cursor<'s>, content_end: u32)
        requires
            old(self).wf(),
            old(self).cur_ok(cur),
            content_end <= old(self).bytes@.len(),
        ensures
            final(self).wf(),
            final(self).same_input(old(self)),
            blank_between(cur.line@, cur.pos as int, cur.line@.len() as int) ==> *final(self) == *old(self),
            !blank_between(cur.line@, cur.pos as int, cur.line@.len() as int) && cur.spec_indent() >= 4 && (old(self).leaf matches Some(Leaf::Paragraph { .. })) ==> para_extended(
                old(self).leaf,
                final(self).leaf,
                cur.spec_segment(content_end),
                true,
            ),
            !blank_between(cur.line@, cur.pos as int, cur.line@.len() as int) && cur.spec_indent() >= 4 && !(old(self).leaf matches Some(Leaf::Paragraph { .. })) && old(self).constructs.code_indented ==> (final(self).leaf matches Some(Leaf::IndentedCode { .. })),
            flow_ok(cur) ==> match flow_probe(*old(self), cur) {
                Some(StartV::ThematicBreak) => final(self).leaf is None && final(self).innermost().len() > 0
                    && final(self).innermost().last() is ThematicBreak
                    && (old(self).stack@.len() == 0 ==> final(self).stack@.len() == 0),
                Some(StartV::Atx { level, .. }) => final(self).leaf is None && final(self).innermost().len() > 0
                    && (old(self).stack@.len() == 0 ==> final(self).stack@.len() == 0)
                    && match final(self).innermost().last() {
                    Ir::Heading { level: l, underline, .. } => l == level && underline is None,
                    _ => false,
                },
                Some(StartV::Fence { .. }) => final(self).leaf matches Some(Leaf::FencedCode { .. }),
                Some(StartV::MathFence { .. }) => final(self).leaf matches Some(Leaf::FencedCode { fence: 36, .. }),
                Some(StartV::Html { .. }) => final(self).leaf is None || final(self).leaf matches Some(Leaf::Html { .. }),
                Some(StartV::Directive { .. }) => final(self).leaf is None && final(self).stack@.len() > 0
                    && final(self).stack@.last() is Directive,
                None => final(self).leaf is Some,
                _ => true,
            },
            flow_ok(cur) && container_opens(
                flow_probe(*old(self), cur),
                old(self).leaf matches Some(Leaf::Paragraph { .. }),
                flow_tail(cur).len() as int,
            ) ==> exists|k: int| #[trigger] container_at(flow_probe(*old(self), cur), flow_offset(cur), final(self).stack@, k),
    {
        let ghost cur0 = cur;
        let ghost fp = flow_probe(*old(self), cur);
        let ghost fo = flow_offset(cur);
        let ghost mut opened = false;
        let ghost mut k0: int = 0;
        let mut at = cur;
        loop
            invariant
                self.wf(),
                self.same_input(old(self)),
                self.cur_ok(at),
                content_end <= self.bytes@.len(),
                at.pos == cur0.pos ==> *self == *old(self) && at == cur0,
                cur0 == cur,
                at.pos >= cur0.pos,
                at.pos != cur0.pos ==> !blank_between(cur0.line@, cur0.pos as int, cur0.line@.len() as int)
                    && cur0.spec_indent() < 4,
                at.pos != cur0.pos ==> flow_ok(cur0) && container_start(flow_probe(*old(self), cur0)),
                at.pos != cur0.pos ==> opened,
                !opened ==> at.pos == cur0.pos,
                fp == flow_probe(*old(self), cur0),
                fo == flow_offset(cur0),
                opened ==> container_at(fp, fo, self.stack@, k0),
            decreases at.line@.len() - at.pos,
        {
            let ghost s_it = self.stack@;
            proof {
                assert(lists_topped(s_it));
            }
            if at.is_blank() {
                // Empty quote (`>`) or empty list item (`- `) opened this line
                return;
            }
            let level_col = at.col;
            let indent = at.indent_cols();
            let para_open = match &self.leaf {
                Some(Leaf::Paragraph { .. }) => true,
                _ => false,
            };
            if indent >= 4 {
                if !para_open && self.constructs.code_indented {
                    at.advance_cols(4);
                    self.open_indented_code(at, content_end);
                } else {
                    // Paragraph continuation (indented code cannot interrupt),
                    // or in MDX mode an over-indented paragraph line.
                    self.paragraph_text(at, content_end, true);
                }
                proof {
                    if opened {
                        lemma_container_kept(fp, fo, s_it, self.stack@, k0);
                    }
                }
                return;
            }
            let save = at;
            at.skip_indent_up_to(3);
            if at.partial != 0 {
                // A tab straddles the indent boundary;
                // only whitespace-sensitive constructs (paragraph text) make sense here.
                self.paragraph_text(at, content_end, false);
                proof {
                    if opened {
                        lemma_container_kept(fp, fo, s_it, self.stack@, k0);
                    }
                }
                return;
            }
            let ghost at_flow = at;
            let tail = at.tail();
            match self.probe(tail, para_open) {
                Some(Start::Quote) => {
                    self.open_quote(&mut at);
                    proof {
                        if opened {
                            lemma_container_kept(fp, fo, s_it, self.stack@, k0);
                        } else {
                            k0 = self.stack@.len() - 1;
                            opened = true;
                        }
                    }
                    continue;
                },
                Some(Start::ListItem { m, empty }) => {
                    // An item interrupting the open paragraph must be non-empty, and if ordered, start at 1.
                    // A restricted marker falls through to paragraph text.
                    if !para_open || item_interrupts(&m, empty) {
                        proof {
                            lemma_list_marker_len(tail@);
                        }
                        self.open_list_item(&mut at, &m, empty, level_col);
                        proof {
                            if opened {
                                lemma_container_kept(fp, fo, s_it, self.stack@, k0);
                            } else {
                                k0 = self.stack@.len() - 1;
                                opened = true;
                            }
                        }
                        continue;
                    }
                    self.paragraph_text(if para_open { save } else { at }, content_end, false);
                },
                Some(Start::FootnoteDef { label, content }) => {
                    if 0 < content && content <= tail.len() && label.start <= label.end && label.end <= tail.len() {
                        self.open_footnote_definition(&mut at, label, content);
                        proof {
                            if opened {
                                lemma_container_kept(fp, fo, s_it, self.stack@, k0);
                            } else {
                                k0 = self.stack@.len() - 1;
                                opened = true;
                            }
                        }
                        continue;
                    }
                    self.paragraph_text(at, content_end, false);
                },
                Some(Start::Setext(level)) => {
                    let made = self.open_setext_heading(at, level);
                    let ghost s1 = self.stack@;
                    if !made {
                        // The whole paragraph was definitions, so there is no heading text:
                        // the line falls through to the remaining starts under the interrupt restriction,
                        // `---` is a thematic break, `===` and `-` text.
                        if thematic_break(at.tail()) {
                            self.open_thematic_break(at);
                        } else {
                            self.paragraph_text(at, content_end, false);
                        }
                    }
                    proof {
                        lemma_stack_kept_trans(s_it, s1, self.stack@);
                    }
                },
                Some(Start::ThematicBreak) => self.open_thematic_break(at),
                Some(Start::Atx { level, content }) => self.open_atx_heading(at, level, content),
                Some(Start::Fence { fence, len, info }) => {
                    self.open_fence(at, indent, content_end, fence, len, info);
                },
                Some(Start::MathFence { len, meta }) => {
                    self.open_fence(at, indent, content_end, 36, len, meta);
                },
                Some(Start::Directive { len }) => {
                    self.open_directive(at, indent, content_end, len);
                },
                Some(Start::Liquid) => {
                    // The interrupt check passes on the two-byte opener alone,
                    // so an open paragraph closes even when the full construct fails
                    // and this line restarts as a new paragraph.
                    self.close_leaf();
                    let ghost s1 = self.stack@;
                    proof {
                        lemma_stack_kept_of(s_it, s1);
                    }
                    match self.liquid_scan(at, content_end) {
                        Some(tag) => self.open_liquid(tag),
                        None => self.paragraph_text(at, content_end, false),
                    }
                    proof {
                        lemma_stack_kept_trans(s_it, s1, self.stack@);
                    }
                },
                Some(Start::Html { kind }) => self.open_html(save, content_end, kind),
                Some(Start::TableDelimiter(align)) => {
                    let started = self.try_start_table(align, save.segment(content_end));
                    let ghost s1 = self.stack@;
                    if !started {
                        // Cell counts didn't line up: the delimiter row is ordinary paragraph text.
                        self.paragraph_text(save, content_end, false);
                    }
                    proof {
                        lemma_stack_kept_trans(s_it, s1, self.stack@);
                    }
                },
                None => {
                    self.paragraph_text(if para_open { save } else { at }, content_end, false);
                },
            }
            proof {
                if opened {
                    lemma_container_kept(fp, fo, s_it, self.stack@, k0);
                }
            }
            return;
        }
    }

    /// `cur` sits past the 4 columns of indent.
    fn open_indented_code(&mut self, cur: Cursor<'s>, content_end: u32)
        requires
            old(self).wf(),
            old(self).cur_ok(cur),
        ensures
            final(self).wf(),
            final(self).same_input(old(self)),
            one_line_leaf(
                final(self).leaf,
                true,
                0,
                Segment {
                    span: Span {
                        start: if cur.spec_offset() <= content_end { cur.spec_offset() as u32 } else { content_end },
                        end: content_end,
                    },
                    padding: cur.partial,
                },
                cur.spec_offset(),
                content_end as int,
            ),
            stack_kept(old(self).stack@, final(self).stack@),
    {
        self.close_list_top();
        let seg = cur.segment(content_end);
        let lines = vec![seg];
        assert(lines@ =~= seq![seg]);
        self.leaf = Some(Leaf::IndentedCode { lines, pending: Vec::new(), start: cur.offset(), end: content_end });
    }

    fn open_quote(&mut self, cur: &mut Cursor<'s>)
        requires
            old(self).wf(),
            old(self).cur_ok(*old(cur)),
            old(cur).partial == 0,
            old(cur).pos < old(cur).line@.len(),
        ensures
            final(self).wf(),
            final(self).same_input(old(self)),
            final(self).cur_ok(*final(cur)),
            final(cur).same_line(*old(cur)),
            final(cur).pos > old(cur).pos,
            stack_kept(old(self).stack@, final(self).stack@),
            final(self).stack@.len() > 0,
            head_of(final(self).stack@.last()) == (0int, old(cur).spec_offset(), 0int, 0int, 0int, 0int),
    {
        self.close_leaf_and_list();
        let start = cur.offset();
        cur.bump(1);
        cur.eat_one_space();
        // An empty quote still spans its `>` marker (as an empty item spans its marker)
        let ghost s0 = self.stack@;
        let quote = OpenContainer::Quote { children: Vec::new(), start, end: start + 1 };
        self.stack.push(quote);
        proof {
            assert(forall|i: int| 0 <= i < s0.len() ==> self.stack@[i] == s0[i]);
            lemma_push_non_item(s0, self.stack@);
            lemma_stack_kept_push(s0, quote);
            lemma_stack_kept_trans(old(self).stack@, s0, self.stack@);
        }
    }

    /// Opens an item, and a new list first unless the top of the stack is a compatible one.
    /// `level_col` is the column the flow position's indent was measured from.
    fn open_list_item(&mut self, cur: &mut Cursor<'s>, m: &ListMarkerScan, empty: bool, level_col: usize)
        requires
            old(self).wf(),
            old(self).cur_ok(*old(cur)),
            old(cur).partial == 0,
            1 <= m.len,
            old(cur).pos + m.len <= old(cur).line@.len(),
            level_col <= old(cur).col,
        ensures
            final(self).wf(),
            final(self).same_input(old(self)),
            final(self).cur_ok(*final(cur)),
            final(cur).same_line(*old(cur)),
            final(cur).pos > old(cur).pos,
            stack_kept(old(self).stack@, final(self).stack@),
            final(self).stack@.len() >= 2,
            ({
                let h = head_of(final(self).stack@.last());
                let l = head_of(final(self).stack@[final(self).stack@.len() - 2]);
                &&& h.0 == 2 && h.1 == old(cur).spec_offset() && h.2 == old(cur).spec_offset()
                &&& h.3 == old(cur).spec_offset() + m.len
                &&& l.0 == 1 && l.2 == (if m.ordered { 1int } else { 0int }) && l.3 == m.marker
            }),
    {
        self.close_leaf();
        let ghost sa = self.stack@;
        proof {
            lemma_stack_kept_of(old(self).stack@, sa);
        }
        let n = self.stack.len();
        let compatible = n > 0 && match &self.stack[n - 1] {
            OpenContainer::List { ordered, marker, .. } => *ordered == m.ordered && *marker == m.marker,
            _ => false,
        };
        if !compatible {
            self.close_list_top();
            let ghost s0 = self.stack@;
            let list = OpenContainer::List { items: Vec::new(), ordered: m.ordered, marker: m.marker, start: cur.offset() };
            self.stack.push(list);
            proof {
                assert(forall|i: int| 0 <= i < s0.len() ==> self.stack@[i] == s0[i]);
                lemma_push_list(s0, self.stack@);
                lemma_stack_kept_trans(old(self).stack@, sa, s0);
                lemma_stack_kept_push(s0, list);
                lemma_stack_kept_trans(old(self).stack@, s0, self.stack@);
            }
        }
        let marker_start = cur.offset();
        let marker_span = Span::new(marker_start, marker_start + m.len as u32);
        cur.bump(m.len);
        let w = cur.indent_cols();
        let mut padding: u8 = 0;
        let mut content_indent: usize = 0;
        if empty {
            content_indent = cur.col - level_col + 1;
        } else if 1 <= w && w <= 4 {
            cur.advance_cols(w);
            padding = w as u8;
            content_indent = cur.col - level_col;
        } else {
            // 5+ columns of spacing:
            // content starts one space in, the rest is content (e.g. indented code).
            cur.advance_cols(1);
            padding = 1;
            content_indent = cur.col - level_col;
        }
        let ghost s1 = self.stack@;
        let item = OpenContainer::Item {
            children: Vec::new(),
            marker: marker_span,
            padding,
            content_indent,
            start: marker_start,
            end: marker_span.end,
        };
        self.stack.push(item);
        proof {
            assert(forall|i: int| 0 <= i < s1.len() ==> self.stack@[i] == s1[i]);
            lemma_push_item(s1, self.stack@);
            lemma_stack_kept_push(s1, item);
            lemma_stack_kept_trans(old(self).stack@, s1, self.stack@);
            assert(self.stack@[self.stack@.len() - 2] == s1.last());
        }
    }

    /// `label` is the label's byte range within the tail; `content` the position past the `:`.
    fn open_footnote_definition(&mut self, cur: &mut Cursor<'s>, label: Range<usize>, content: usize)
        requires
            old(self).wf(),
            old(self).cur_ok(*old(cur)),
            old(cur).partial == 0,
            0 < content,
            old(cur).pos + content <= old(cur).line@.len(),
            label.start <= label.end,
            old(cur).pos + label.end <= old(cur).line@.len(),
        ensures
            final(self).wf(),
            final(self).same_input(old(self)),
            final(self).cur_ok(*final(cur)),
            final(cur).same_line(*old(cur)),
            final(cur).pos > old(cur).pos,
            stack_kept(old(self).stack@, final(self).stack@),
            final(self).stack@.len() > 0,
            head_of(final(self).stack@.last()) == (
                3int,
                old(cur).spec_offset(),
                old(cur).spec_offset() + label.start,
                old(cur).spec_offset() + label.end,
                4int,
                0int,
            ),
    {
        self.close_leaf_and_list();
        let base = cur.offset();
        let label = Span::at(base, label);
        // Registered immediately; the inline phase runs after the block phase either way.
        let n = self.bytes.len();
        if (label.end as usize) <= n && self.source.is_char_boundary(label.start as usize) && self.source.is_char_boundary(
            label.end as usize,
        ) {
            let key = normalize(label.slice(self.source));
            let owned = match key {
                Cow::Borrowed(k) => k.to_owned(),
                Cow::Owned(k) => k,
            };
            self.refs.push_footnote(owned);
        }
        let ghost s0 = self.stack@;
        let foot = OpenContainer::Footnote { children: Vec::new(), label, content_indent: 4, start: base, end: base };
        self.stack.push(foot);
        proof {
            assert(forall|i: int| 0 <= i < s0.len() ==> self.stack@[i] == s0[i]);
            lemma_push_non_item(s0, self.stack@);
            lemma_stack_kept_push(s0, foot);
            lemma_stack_kept_trans(old(self).stack@, s0, self.stack@);
        }
        cur.bump(content);
        // Optional spaces before same-line content
        cur.skip_all_ws();
    }

    /// The open paragraph becomes the heading; definitions at its head are stripped first.
    /// Returns `false` when the paragraph held only definitions:
    /// they are attached, but no heading exists and the underline line is not consumed.
    fn open_setext_heading(&mut self, cur: Cursor<'s>, level: u8) -> (made: bool)
        requires
            old(self).wf(),
            old(self).cur_ok(cur),
        ensures
            final(self).wf(),
            final(self).same_input(old(self)),
            !(old(self).leaf matches Some(Leaf::Paragraph { .. })) ==> !made && *final(self) == *old(self),
            old(self).leaf matches Some(Leaf::Paragraph { .. }) ==> final(self).leaf is None,
            made ==> final(self).innermost().len() > 0 && setext_heading(
                final(self).innermost().last(),
                level,
                cur.spec_offset(),
                cur.line_start + trail_end(cur.line@, cur.pos as int, cur.line@.len() as int),
            ),
            stack_kept(old(self).stack@, final(self).stack@),
    {
        proof {
            lemma_stack_kept_of(old(self).stack@, old(self).stack@);
        }
        let underline = cur.trimmed_span();
        let segments = match self.leaf.take() {
            Some(Leaf::Paragraph { segments, .. }) => segments,
            other => {
                self.leaf = other;
                return false;
            },
        };
        let rest = self.finish_paragraph(segments);
        let ghost s1 = self.stack@;
        proof {
            lemma_stack_kept_of(old(self).stack@, s1);
        }
        if rest.len() == 0 {
            return false;
        }
        let start = rest[0].seg.span.start;
        self.attach(Ir::Heading { level, underline: Some(underline), segments: rest, span: Span::new(start, underline.end) });
        proof {
            lemma_stack_kept_of(s1, self.stack@);
            lemma_stack_kept_trans(old(self).stack@, s1, self.stack@);
        }
        true
    }

    fn open_thematic_break(&mut self, cur: Cursor<'s>)
        requires
            old(self).wf(),
            old(self).cur_ok(cur),
        ensures
            final(self).wf(),
            final(self).stack@.len() <= old(self).stack@.len(),
            final(self).same_input(old(self)),
            final(self).leaf is None,
            final(self).innermost().len() > 0,
            final(self).innermost().last() matches Ir::ThematicBreak { span } && span.start == cur.spec_offset()
                && span.end == cur.line_start + trail_end(cur.line@, cur.pos as int, cur.line@.len() as int),
            stack_kept(old(self).stack@, final(self).stack@),
    {
        self.close_leaf_and_list();
        let ghost s1 = self.stack@;
        self.attach(Ir::ThematicBreak { span: cur.trimmed_span() });
        proof {
            lemma_stack_kept_of(s1, self.stack@);
            lemma_stack_kept_trans(old(self).stack@, s1, self.stack@);
        }
    }

    /// `content` is the heading text's byte range within the tail (closing `#` run stripped).
    fn open_atx_heading(&mut self, cur: Cursor<'s>, level: u8, content: Range<usize>)
        requires
            old(self).wf(),
            old(self).cur_ok(cur),
        ensures
            final(self).wf(),
            final(self).stack@.len() <= old(self).stack@.len(),
            final(self).same_input(old(self)),
            final(self).leaf is None,
            final(self).innermost().len() > 0,
            final(self).innermost().last() matches Ir::Heading { level: l, underline, segments, span } && l == level
                && underline is None && span.start == cur.spec_offset() && span.end == cur.line_start + trail_end(
                cur.line@,
                cur.pos as int,
                cur.line@.len() as int,
            ) && segments@.len() == (if content.start < content.end && content.end <= cur.spec_tail().len() {
                1int
            } else {
                0int
            }) && (segments@.len() == 1 ==> segments@[0].seg.span.start == cur.spec_offset() + content.start
                && segments@[0].seg.span.end == cur.spec_offset() + content.end && segments@[0].seg.padding == 0
                && !segments@[0].lazy),
            stack_kept(old(self).stack@, final(self).stack@),
    {
        self.close_leaf_and_list();
        let base = cur.offset();
        let tail_len = cur.tail().len();
        let segments = if content.start >= content.end || content.end > tail_len {
            Vec::new()
        } else {
            let seg = Segment::new(Span::at(base, content), 0);
            vec![IrSeg { seg, lazy: false }]
        };
        let ghost s1 = self.stack@;
        self.attach(Ir::Heading { level, underline: None, segments, span: cur.trimmed_span() });
        proof {
            lemma_stack_kept_of(s1, self.stack@);
            lemma_stack_kept_trans(old(self).stack@, s1, self.stack@);
        }
    }

    /// Code (`` ` ``/`~`) and math (`$`) fences share one leaf;
    /// `indent` is the fence line's indent, `info` the info-string / meta byte range within the tail
    /// (trimmed; empty means none).
    fn open_fence(&mut self, cur: Cursor<'s>, indent: usize, content_end: u32, fence: u8, len: u32, info: Range<usize>)
        requires
            old(self).wf(),
            old(self).cur_ok(cur),
        ensures
            final(self).wf(),
            final(self).same_input(old(self)),
            fence_leaf(
                final(self).leaf,
                fence,
                len,
                indent,
                if info.start < info.end && info.end <= cur.spec_tail().len() {
                    Some((cur.spec_offset() + info.start, cur.spec_offset() + info.end))
                } else {
                    None
                },
                cur.spec_offset(),
                content_end as int,
            ),
            stack_kept(old(self).stack@, final(self).stack@),
    {
        self.close_leaf_and_list();
        let base = cur.offset();
        let tail_len = cur.tail().len();
        let info = if info.start < info.end && info.end <= tail_len {
            Some(Span::at(base, info))
        } else {
            None
        };
        self.leaf = Some(Leaf::FencedCode { fence, len, indent, info, lines: Vec::new(), start: base, end: content_end });
    }

    /// `indent` is the fence line's indent.
    fn open_directive(&mut self, cur: Cursor<'s>, indent: usize, content_end: u32, len: u32)
        requires
            old(self).wf(),
            old(self).cur_ok(cur),
        ensures
            final(self).wf(),
            final(self).same_input(old(self)),
            final(self).leaf is None,
            final(self).stack@.len() > 0,
            final(self).stack@.last() matches OpenContainer::Directive {
                children,
                fence_len,
                content_indent,
                opening,
                closing,
                end,
            } && children@.len() == 0 && fence_len == len && content_indent == indent && opening.start
                == cur.spec_offset() && opening.end == content_end && closing is None && end == content_end,
            stack_kept(old(self).stack@, final(self).stack@),
    {
        self.close_leaf_and_list();
        let ghost s0 = self.stack@;
        let dir = OpenContainer::Directive {
            children: Vec::new(),
            fence_len: len,
            content_indent: indent,
            opening: Span::new(cur.offset(), content_end),
            closing: None,
            end: content_end,
        };
        self.stack.push(dir);
        proof {
            assert(forall|i: int| 0 <= i < s0.len() ==> self.stack@[i] == s0[i]);
            lemma_push_non_item(s0, self.stack@);
            lemma_stack_kept_push(s0, dir);
            lemma_stack_kept_trans(old(self).stack@, s0, self.stack@);
        }
    }

    /// `line` is the cursor at the physical line start (the block's first line keeps its indent).
    fn open_html(&mut self, line: Cursor<'s>, content_end: u32, kind: u8)
        requires
            old(self).wf(),
            old(self).cur_ok(line),
        ensures
            final(self).wf(),
            final(self).same_input(old(self)),
            (kind <= 5 && spec_html_block_end(line.spec_tail(), kind)) ==> final(self).leaf is None,
            !(kind <= 5 && spec_html_block_end(line.spec_tail(), kind)) ==> one_line_leaf(
                final(self).leaf,
                false,
                kind,
                Segment {
                    span: Span {
                        start: if line.spec_offset() <= content_end { line.spec_offset() as u32 } else { content_end },
                        end: content_end,
                    },
                    padding: line.partial,
                },
                line.spec_offset(),
                content_end as int,
            ),
            stack_kept(old(self).stack@, final(self).stack@),
    {
        self.close_leaf_and_list();
        // End conditions are position-independent, so the indented line serves
        let done = kind <= 5 && html_block_end(line.tail(), kind);
        let seg = line.segment(content_end);
        let lines = vec![seg];
        assert(lines@ =~= seq![seg]);
        self.leaf = Some(Leaf::Html { kind, lines, trailing_newline: false, start: line.offset(), end: content_end });
        if done {
            let ghost s1 = self.stack@;
            self.close_leaf();
            proof {
                lemma_stack_kept_of(s1, self.stack@);
                lemma_stack_kept_trans(old(self).stack@, s1, self.stack@);
            }
        }
    }
}

/// A list marker spans at least one byte and fits its line.
proof fn lemma_list_marker_len(s: Seq<u8>)
    ensures
        spec_list_marker(s) matches Some(m) ==> 1 <= m.len <= s.len(),
{
    if s.len() > 0 && crate::syntax::is_digit(s[0]) {
        crate::syntax::lemma_run_end(s, 0, |b: u8| crate::syntax::is_digit(b));
    }
}

/// Pushing a container that is neither a list nor an item onto a stack not topped by a list keeps its shape.
proof fn lemma_push_non_item(a: Seq<OpenContainer>, b: Seq<OpenContainer>)
    requires
        items_in_lists(a),
        lists_topped(a),
        a.len() > 0 ==> kind_of(a.last()) != 1,
        b.len() == a.len() + 1,
        forall|i: int| 0 <= i < a.len() ==> b[i] == a[i],
        kind_of(b.last()) != 1 && kind_of(b.last()) != 2,
    ensures
        items_in_lists(b),
        lists_topped(b),
{
    assert forall|q: int| 0 <= q < b.len() && #[trigger] kind_of(b[q]) == 2 implies q > 0 && kind_of(b[q - 1]) == 1 by {
        assert(b[q] == a[q]);
            assert(b[q - 1] == a[q - 1]);
    }
    assert forall|q: int| 0 <= q < b.len() - 1 && #[trigger] kind_of(b[q]) == 1 implies kind_of(b[q + 1]) == 2 by {
        assert(b[q] == a[q]);
        if q + 1 < a.len() {
            assert(b[q + 1] == a[q + 1]);
        }
    }
}

/// Pushing a list onto a stack not topped by a list keeps its shape.
proof fn lemma_push_list(a: Seq<OpenContainer>, b: Seq<OpenContainer>)
    requires
        items_in_lists(a),
        lists_topped(a),
        a.len() > 0 ==> kind_of(a.last()) != 1,
        b.len() == a.len() + 1,
        forall|i: int| 0 <= i < a.len() ==> b[i] == a[i],
        kind_of(b.last()) == 1,
    ensures
        items_in_lists(b),
        lists_topped(b),
{
    assert forall|q: int| 0 <= q < b.len() && #[trigger] kind_of(b[q]) == 2 implies q > 0 && kind_of(b[q - 1]) == 1 by {
        assert(b[q] == a[q]);
            assert(b[q - 1] == a[q - 1]);
    }
    assert forall|q: int| 0 <= q < b.len() - 1 && #[trigger] kind_of(b[q]) == 1 implies kind_of(b[q + 1]) == 2 by {
        assert(b[q] == a[q]);
        if q + 1 < a.len() {
            assert(b[q + 1] == a[q + 1]);
        }
    }
}

/// Pushing an item onto a list keeps the stack's shape.
proof fn lemma_push_item(a: Seq<OpenContainer>, b: Seq<OpenContainer>)
    requires
        items_in_lists(a),
        lists_topped(a),
        a.len() > 0 && kind_of(a.last()) == 1,
        b.len() == a.len() + 1,
        forall|i: int| 0 <= i < a.len() ==> b[i] == a[i],
        kind_of(b.last()) == 2,
    ensures
        items_in_lists(b),
        lists_topped(b),
{
    assert forall|q: int| 0 <= q < b.len() && #[trigger] kind_of(b[q]) == 2 implies q > 0 && kind_of(b[q - 1]) == 1 by {
        if q < a.len() {
            assert(b[q] == a[q]);
            assert(b[q - 1] == a[q - 1]);
        } else {
            assert(b[q - 1] == a[q - 1]);
        }
    }
    assert forall|q: int| 0 <= q < b.len() - 1 && #[trigger] kind_of(b[q]) == 1 implies kind_of(b[q + 1]) == 2 by {
        assert(b[q] == a[q]);
        if q + 1 < a.len() {
            assert(b[q + 1] == a[q + 1]);
        }
    }
}

} // verus!
