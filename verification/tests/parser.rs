use oxc_markdown_parser::ast::{
    Block, CodeBlockKind, HeadingKind, Inline, LinkKind, ListMarker, ReferenceKind,
};
use oxc_markdown_parser::pos::Segment;
use oxc_markdown_parser::{Allocator, DiagnosticKind, Parser, Span};

fn parse(source: &str) -> oxc_markdown_parser::ParserReturn {
    let allocator = Allocator::default();
    Parser::new(&allocator, source).parse()
}

/// Every blank line is listed; only some loosen the list:
/// a bare `>` line inside a blockquote does not (it still ends an HTML block for consumers).
#[test]
fn blank_lines_listed_vs_loosening() {
    for (source, blank_at, tight) in [("- > a\n  >\n  > b\n", 9, true), ("- a\n\n- b\n", 4, false)] {
        let ret = parse(source);
        assert_eq!(ret.blanks, vec![Span::empty(blank_at)], "{source:?}");
        let Some(Block::List(list)) = ret.root.children.first() else { panic!("list") };
        assert_eq!(list.tight, tight, "{source:?}");
    }
}

/// A lazy line absorbed into a setext heading stays recorded.
#[test]
fn setext_heading_keeps_lazy_lines() {
    let ret = parse("> a\nb\n> ===\n");
    let Some(Block::Blockquote(quote)) = ret.root.children.first() else { panic!("quote") };
    let Some(Block::Heading(heading)) = quote.children.first() else { panic!("heading") };
    let HeadingKind::Setext { lazy_lines, .. } = &heading.kind else { panic!("setext") };
    assert_eq!(lazy_lines.as_slice(), &[Span::new(4, 5)]);
}

#[test]
fn markdown_mode_is_diagnostic_free() {
    let ret = parse("# Hello\n");
    assert!(ret.diagnostics.is_empty());
    assert_eq!(ret.root.span, Span::new(0, 8));
    let Some(Block::Heading(h)) = ret.root.children.first() else { panic!("heading") };
    assert_eq!(h.level, 1);
    assert!(matches!(h.kind, HeadingKind::Atx));
    assert_eq!(h.span, Span::new(0, 7));
    let Some(Inline::Text(t)) = h.children.first() else { panic!("text") };
    assert_eq!(t.span, Span::new(2, 7));
    let _ = DiagnosticKind::SourceTooLong;
}

#[test]
fn empty_source_has_no_blocks() {
    let ret = parse("");
    assert!(ret.root.children.is_empty());
    assert!(ret.blanks.is_empty());
    assert!(ret.diagnostics.is_empty());
}

fn paragraph(ret: &oxc_markdown_parser::ParserReturn) -> &Vec<Inline> {
    let Some(Block::Paragraph(p)) = ret.root.children.first() else { panic!("paragraph") };
    &p.children
}

#[test]
fn emphasis_and_strong() {
    let ret = parse("*a* **b**");
    let kids = paragraph(&ret);
    assert_eq!(kids.len(), 3);
    let Inline::Emphasis(e) = &kids[0] else { panic!("emphasis") };
    assert_eq!(e.marker, b'*');
    assert_eq!(e.span, Span::new(0, 3));
    let Inline::Text(t) = &e.children[0] else { panic!("text") };
    assert_eq!(t.span, Span::new(1, 2));
    let Inline::Strong(s) = &kids[2] else { panic!("strong") };
    assert_eq!(s.span, Span::new(4, 9));
}

#[test]
fn strong_inside_emphasis() {
    let ret = parse("***b***");
    let kids = paragraph(&ret);
    assert_eq!(kids.len(), 1);
    let Inline::Emphasis(e) = &kids[0] else { panic!("emphasis outside") };
    assert_eq!(e.span, Span::new(0, 7));
    let Inline::Strong(s) = &e.children[0] else { panic!("strong inside") };
    assert_eq!(s.span, Span::new(1, 6));
}

#[test]
fn strikethrough() {
    let ret = parse("~~gone~~");
    let kids = paragraph(&ret);
    let Inline::Strikethrough(s) = &kids[0] else { panic!("strikethrough") };
    assert_eq!(s.span, Span::new(0, 8));
}

#[test]
fn inline_link_and_image() {
    let ret = parse("[a](/u \"t\") ![b](<c d>)");
    let kids = paragraph(&ret);
    let Inline::Link(l) = &kids[0] else { panic!("link") };
    assert_eq!(l.span, Span::new(0, 11));
    let LinkKind::Inline { destination, title } = &l.kind else { panic!("inline") };
    assert_eq!(destination.span, Span::new(4, 6));
    assert!(!destination.angle_bracketed);
    assert_eq!(title.as_ref().map(|t| t[0].span), Some(Span::new(7, 10)));
    let Inline::Image(i) = &kids[2] else { panic!("image") };
    let LinkKind::Inline { destination, .. } = &i.kind else { panic!("inline") };
    assert!(destination.angle_bracketed);
    assert_eq!(destination.span, Span::new(17, 22));
}

#[test]
fn emphasis_inside_a_link_stays_inside() {
    let ret = parse("[*a*](u) b");
    let kids = paragraph(&ret);
    let Inline::Link(l) = &kids[0] else { panic!("link") };
    assert!(matches!(l.children[0], Inline::Emphasis(_)));
    let Inline::Text(t) = &kids[1] else { panic!("text after the link") };
    assert_eq!(t.span, Span::new(8, 10));
}

#[test]
fn reference_links_resolve_through_definitions() {
    let ret = parse("[Foo]: /u\n\n[foo] [x][foo] [foo][]\n");
    assert!(matches!(ret.root.children[0], Block::Definition(_)));
    let Block::Paragraph(p) = &ret.root.children[1] else { panic!("paragraph") };
    let kinds: Vec<ReferenceKind> = p
        .children
        .iter()
        .filter_map(|i| match i {
            Inline::Link(l) => match &l.kind {
                LinkKind::Reference { kind, .. } => Some(*kind),
                LinkKind::Inline { .. } => None,
            },
            _ => None,
        })
        .collect();
    assert_eq!(kinds, vec![ReferenceKind::Shortcut, ReferenceKind::Full, ReferenceKind::Collapsed]);
}

#[test]
fn undefined_reference_is_text() {
    let ret = parse("[foo]");
    let kids = paragraph(&ret);
    assert_eq!(kids.len(), 1);
    let Inline::Text(t) = &kids[0] else { panic!("text") };
    assert_eq!(t.span, Span::new(0, 5));
}

#[test]
fn code_span_strips_one_space() {
    let ret = parse("` a `");
    let kids = paragraph(&ret);
    let Inline::CodeSpan(c) = &kids[0] else { panic!("code span") };
    assert_eq!(c.span, Span::new(0, 5));
    assert_eq!(c.pieces, vec![Segment::new(Span::new(2, 3), 0)]);
}

#[test]
fn breaks() {
    let ret = parse("a  \nb\\\nc\nd");
    let kids = paragraph(&ret);
    assert!(matches!(kids[1], Inline::HardBreak(_)));
    assert!(matches!(kids[3], Inline::HardBreak(_)));
    let Inline::SoftBreak(s) = &kids[5] else { panic!("soft break") };
    assert_eq!(s.span, Span::empty(9));
}

#[test]
fn autolinks_and_literals() {
    let ret = parse("<https://x.y> www.example.com");
    let kids = paragraph(&ret);
    let Inline::Autolink(a) = &kids[0] else { panic!("autolink") };
    assert_eq!(a.span, Span::new(0, 13));
    assert!(!a.email);
    let Inline::AutolinkLiteral(l) = &kids[2] else { panic!("literal") };
    assert_eq!(l.span, Span::new(14, 29));
}

#[test]
fn footnote_reference_needs_a_definition() {
    let ret = parse("a[^1]\n\n[^1]: note\n");
    let kids = paragraph(&ret);
    let Inline::FootnoteReference(f) = &kids[1] else { panic!("footnote reference") };
    assert_eq!(f.span, Span::new(1, 5));
    assert_eq!(f.label, Span::new(3, 4));
    assert!(matches!(ret.root.children[1], Block::FootnoteDefinition(_)));
}

#[test]
fn block_kinds() {
    let ret = parse("# h\n\n> q\n\n- a\n- b\n\n```rs\ncode\n```\n\n---\n\n<div>\n</div>\n");
    let kinds: Vec<&str> = ret
        .root
        .children
        .iter()
        .map(|b| match b {
            Block::Heading(_) => "heading",
            Block::Blockquote(_) => "quote",
            Block::List(_) => "list",
            Block::CodeBlock(_) => "code",
            Block::ThematicBreak(_) => "break",
            Block::HtmlBlock(_) => "html",
            _ => "other",
        })
        .collect();
    assert_eq!(kinds, vec!["heading", "quote", "list", "code", "break", "html"]);
    let Block::CodeBlock(c) = &ret.root.children[3] else { panic!("code") };
    let CodeBlockKind::Fenced { fence, info } = c.kind else { panic!("fenced") };
    assert_eq!(fence, b'`');
    assert_eq!(info, Some(Span::new(22, 24)));
    assert_eq!(c.lines, vec![Segment::new(Span::new(25, 29), 0)]);
    let Block::List(l) = &ret.root.children[2] else { panic!("list") };
    assert!(matches!(l.marker, ListMarker::Bullet { marker: b'-' }));
    assert_eq!(l.children.len(), 2);
    assert!(l.tight);
}

#[test]
fn ordered_list_markers_stay_raw() {
    let ret = parse("10. a\n11. b\n");
    let Some(Block::List(l)) = ret.root.children.first() else { panic!("list") };
    assert!(matches!(l.marker, ListMarker::Ordered { delimiter: b'.' }));
    assert_eq!(l.children[0].marker, Span::new(0, 3));
    assert_eq!(l.children[0].padding, 1);
}

#[test]
fn task_list_items() {
    let ret = parse("- [x] done\n- [ ] todo\n");
    let Some(Block::List(l)) = ret.root.children.first() else { panic!("list") };
    let c0 = l.children[0].checkbox.expect("checkbox");
    assert!(c0.checked);
    assert_eq!(c0.span, Span::new(2, 5));
    let Some(Block::Paragraph(p)) = l.children[0].children.first() else { panic!("paragraph") };
    assert_eq!(p.span, Span::new(6, 10));
    assert!(!l.children[1].checkbox.expect("checkbox").checked);
}

#[test]
fn tables() {
    let ret = parse("| a | b |\n| - | :-: |\n| 1 | 2 |\n");
    let Some(Block::Table(t)) = ret.root.children.first() else { panic!("table") };
    assert_eq!(t.children.len(), 2);
    assert_eq!(t.align.len(), 2);
    assert_eq!(t.children[0].children[0].span, Span::new(2, 3));
    assert_eq!(t.children[1].span, Span::new(22, 31));
}

#[test]
fn indented_code_drops_trailing_blank_lines() {
    let ret = parse("    a\n\n    b\n\n\nc\n");
    let Some(Block::CodeBlock(c)) = ret.root.children.first() else { panic!("code") };
    assert!(matches!(c.kind, CodeBlockKind::Indented));
    assert_eq!(c.lines.len(), 3);
    assert_eq!(c.span, Span::new(4, 12));
    assert!(matches!(ret.root.children[1], Block::Paragraph(_)));
}

#[test]
fn paragraph_span_drops_trailing_whitespace() {
    let ret = parse("abc  \n");
    let Some(Block::Paragraph(p)) = ret.root.children.first() else { panic!("paragraph") };
    assert_eq!(p.span, Span::new(0, 3));
}

/// mulberry32, a small deterministic generator.
fn rng(state: &mut u32) -> u32 {
    *state = state.wrapping_add(0x6D2B_79F5);
    let mut t = *state;
    t = (t ^ (t >> 15)).wrapping_mul(t | 1);
    t ^= t.wrapping_add((t ^ (t >> 7)).wrapping_mul(t | 0x3D));
    t ^ (t >> 14)
}

/// Every construct, plus the byte/column hazards (tabs, CRLF, multibyte, CJK).
const TOKENS: &[&str] = &[
    "*", "**", "_", "__", "`", "``", "[", "]", "(", ")", "<", ">", "#", "##", "-", "+", "1.", "2)", "\\", "&",
    "&amp;", "!", "\"", "'", "=", "~", "|", ":", "a", "foo", "bar b", "é", "漢字", "http://x.y", "user@e.com",
    "\\*", " ", "  ", "\t", "\n", "\n\n", "  \n", "\\\n", "```\n", "---", "===", "***", "    ", "[x]: /u", "[x]",
    "\"t\"", "<div>", "</div>", "<!-- c -->", "![", "](u)", "<a>", "</span>", "~~", "[^1]", "[^1]: n", "- [x] ",
    "- [ ] ", "| a | b |", "| - | - |", ":-:", "www.a.com", "$", "$$", "$$\n", "$x$", "{%", "%}", "{{", "}}",
    "{{ v }}", "{% t %}", "[[", "]]", "[[w]]", ":::", ":::note\n", "::::a\n", "\r\n", "> x\n<a>\n", "\u{3000}",
    "\u{2E53}",
];

struct Checker<'s> {
    source: &'s str,
    errors: Vec<String>,
}

impl Checker<'_> {
    /// In bounds, on char boundaries, and inside `outer` when given.
    fn contained(&mut self, what: &str, inner: Span, outer: Option<Span>) -> bool {
        let (s, e) = (inner.start as usize, inner.end as usize);
        if s > e || e > self.source.len() {
            self.errors.push(format!("{what} {inner:?} out of bounds"));
            return false;
        }
        if !self.source.is_char_boundary(s) || !self.source.is_char_boundary(e) {
            self.errors.push(format!("{what} {inner:?} splits a character"));
            return false;
        }
        if let Some(outer) = outer {
            if inner.start < outer.start || inner.end > outer.end {
                self.errors.push(format!("{what} {inner:?} outside {outer:?}"));
                return false;
            }
        }
        true
    }

    fn segments(&mut self, what: &str, segs: &[Segment], outer: Span) {
        for seg in segs {
            if self.contained(what, seg.span, Some(outer)) {
                let text = &self.source[seg.span.start as usize..seg.span.end as usize];
                if text.contains(['\n', '\r']) {
                    self.errors.push(format!("{what} {:?} spans a line ending", seg.span));
                }
            }
        }
    }

    /// Children in order inside `parent`.
    fn order(&mut self, what: &str, spans: &[Span], parent: Span) {
        let mut last_end = parent.start;
        for s in spans {
            self.contained(what, *s, Some(parent));
            if s.start < last_end {
                self.errors.push(format!("{what} {s:?} starts before its previous sibling ends at {last_end}"));
            }
            last_end = last_end.max(s.end);
        }
    }

    fn blocks(&mut self, blocks: &[Block], parent: Span) {
        let spans: Vec<Span> = blocks.iter().map(|b| b.span()).collect();
        self.order("block", &spans, parent);
        for b in blocks {
            self.block(b);
        }
    }

    fn inlines(&mut self, inlines: &[Inline], parent: Span) {
        let spans: Vec<Span> = inlines.iter().map(|i| i.span()).collect();
        self.order("inline", &spans, parent);
        for i in inlines {
            let span = i.span();
            match i {
                Inline::Text(t) => {
                    if t.span.start == t.span.end {
                        self.errors.push(format!("empty Text at {}", t.span.start));
                    }
                }
                Inline::Emphasis(n) => self.inlines(&n.children, span),
                Inline::Strong(n) => self.inlines(&n.children, span),
                Inline::Strikethrough(n) => self.inlines(&n.children, span),
                Inline::Link(n) => self.inlines(&n.children, span),
                Inline::Image(n) => self.inlines(&n.children, span),
                Inline::CodeSpan(n) => self.segments("code piece", &n.pieces, span),
                Inline::HtmlInline(n) => self.segments("html piece", &n.pieces, span),
                Inline::MathSpan(n) => self.segments("math piece", &n.pieces, span),
                Inline::Liquid(n) => self.segments("liquid piece", &n.pieces, span),
                Inline::FootnoteReference(n) => {
                    self.contained("label", n.label, Some(span));
                }
                _ => {}
            }
        }
    }

    fn block(&mut self, block: &Block) {
        let span = block.span();
        match block {
            Block::Paragraph(n) => self.inlines(&n.children, span),
            Block::Heading(n) => self.inlines(&n.children, span),
            Block::CodeBlock(n) => self.segments("code line", &n.lines, span),
            Block::HtmlBlock(n) => self.segments("html line", &n.lines, span),
            Block::MathBlock(n) => self.segments("math line", &n.lines, span),
            Block::Liquid(n) => self.segments("liquid piece", &n.pieces, span),
            Block::Blockquote(n) => self.blocks(&n.children, span),
            Block::FootnoteDefinition(n) => self.blocks(&n.children, span),
            Block::ContainerDirective(n) => self.blocks(&n.children, span),
            Block::List(n) => {
                let spans: Vec<Span> = n.children.iter().map(|i| i.span).collect();
                self.order("item", &spans, span);
                for item in &n.children {
                    self.contained("marker", item.marker, Some(item.span));
                    self.blocks(&item.children, item.span);
                }
            }
            Block::Table(n) => {
                let spans: Vec<Span> = n.children.iter().map(|r| r.span).collect();
                self.order("row", &spans, span);
                for row in &n.children {
                    let cells: Vec<Span> = row.children.iter().map(|c| c.span).collect();
                    self.order("cell", &cells, row.span);
                    for cell in &row.children {
                        self.inlines(&cell.children, cell.span);
                    }
                }
            }
            Block::Definition(n) => self.segments("label", &n.label, span),
            _ => {}
        }
    }
}

fn assert_invariants(source: &str) {
    let ret = parse(source);
    let mut checker = Checker { source, errors: vec![] };
    checker.contained("root", ret.root.span, None);
    checker.blocks(&ret.root.children, ret.root.span);
    let mut prev = 0;
    for blank in &ret.blanks {
        if checker.contained("blank", *blank, None) {
            if blank.start < prev {
                checker.errors.push(format!("blank {blank:?} out of order"));
            }
            let text = &source[blank.start as usize..blank.end as usize];
            if !text.bytes().all(|b| b == b' ' || b == b'\t') {
                checker.errors.push(format!("blank {blank:?} is not whitespace"));
            }
            prev = blank.end;
        }
    }
    assert!(checker.errors.is_empty(), "{source:?}\n{}", checker.errors.join("\n"));
}

#[test]
fn token_soup() {
    let mut state = 0u32;
    for _ in 0..3000 {
        let len = 2 + (rng(&mut state) % 39) as usize;
        let mut source = String::new();
        for _ in 0..len {
            source.push_str(TOKENS[(rng(&mut state) as usize) % TOKENS.len()]);
        }
        assert_invariants(&source);
    }
}

/// Both content enums stay a tag plus a box (or an inline payload of at most the same footprint),
/// and the hottest inline node stays inline in the enum.
#[test]
fn sizes() {
    assert_eq!(std::mem::size_of::<Block>(), 16);
    assert_eq!(std::mem::size_of::<Inline>(), 16);
    assert_eq!(std::mem::size_of::<oxc_markdown_parser::ast::Text>(), 12);
}

#[test]
fn blank_lines_are_ordered_whitespace_spans() {
    let source = "a\n  \n\t\nb\n\n> \n>\nc\n";
    let ret = parse(source);
    assert_eq!(
        ret.blanks,
        vec![Span::new(2, 4), Span::new(5, 6), Span::empty(9), Span::empty(14)]
    );
    for pair in ret.blanks.windows(2) {
        assert!(pair[0].end <= pair[1].start);
    }
    for blank in &ret.blanks {
        assert!(source.as_bytes()[blank.start as usize..blank.end as usize].iter().all(|&b| b == b' ' || b == b'\t'));
    }
}

#[test]
fn too_long_message_text() {
    let d = oxc_markdown_parser::Diagnostic::new(DiagnosticKind::SourceTooLong, Span::new(0, 12));
    assert_eq!(d.message(), "source exceeds the maximum supported size (4 GiB) at 0..12");
}

#[test]
fn first_line_block_is_built() {
    let ret = parse("### Title\n\ntext\n");
    assert!(ret.root.children.iter().any(|b| matches!(b, Block::Heading(h) if h.level == 3)));
    let ret = parse("***\n- a\n");
    assert!(ret.root.children.iter().any(|b| matches!(b, Block::ThematicBreak(_))));
}

/// A container start opens its container at its marker: a quote at its `>`, an item whose
/// marker spans the list marker, a footnote definition with its label.
#[test]
fn containers_open_at_their_markers() {
    let ret = parse("  > a\n");
    let Some(Block::Blockquote(quote)) = ret.root.children.first() else { panic!("quote") };
    assert_eq!(quote.span.start, 2);

    let ret = parse(" 12. a\n");
    let Some(Block::List(list)) = ret.root.children.first() else { panic!("list") };
    assert_eq!(list.children[0].marker, Span::new(1, 4));
    assert_eq!(list.children[0].padding, 1);

    let ret = parse("> - > b\n");
    let Some(Block::Blockquote(outer)) = ret.root.children.first() else { panic!("quote") };
    let Some(Block::List(list)) = outer.children.first() else { panic!("list") };
    assert_eq!(list.children[0].marker, Span::new(2, 3));
    let Some(Block::Blockquote(inner)) = list.children[0].children.first() else { panic!("inner quote") };
    assert_eq!(inner.span.start, 4);

    let ret = parse("[^note]: text\n");
    let Some(Block::FootnoteDefinition(def)) = ret.root.children.first() else { panic!("footnote") };
    assert_eq!(def.label, Span::new(2, 6));
    assert_eq!(def.span.start, 0);
}
