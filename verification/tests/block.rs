use oxc_markdown_parser::ast::TableAlign;
use oxc_markdown_parser::block::cursor::Cursor;
use oxc_markdown_parser::block::lexical::{line_start, LineStart};
use oxc_markdown_parser::block::probe::{probe, Start};
use oxc_markdown_parser::block::scan::commonmark::{
    atx_heading, fence_close, fence_open, list_marker, setext_underline, thematic_break,
};
use oxc_markdown_parser::block::scan::footnote::footnote_definition_start;
use oxc_markdown_parser::block::scan::html::{html_block_end, html_block_start};
use oxc_markdown_parser::block::scan::table::{table_delimiter_row, table_row_cells};
use oxc_markdown_parser::block::scan::{is_blank, trim_range};
use oxc_markdown_parser::options::Constructs;
use oxc_markdown_parser::pos::{Segment, Span};

/// Tabs expand to 4-column stops from the physical line start.
#[test]
fn tab_columns() {
    let cur = Cursor::new("\tx".as_bytes(), 0);
    assert_eq!(cur.indent_cols(), 4);
    let cur = Cursor::new("  \tx".as_bytes(), 0);
    assert_eq!(cur.indent_cols(), 4);
    let cur = Cursor::new("    \tx".as_bytes(), 0);
    assert_eq!(cur.indent_cols(), 8);
}

/// Stopping inside a tab leaves the remaining columns as `partial`,
/// and later consumption drains `partial` before touching bytes.
#[test]
fn partial_tab() {
    let mut cur = Cursor::new("\tx".as_bytes(), 0);
    cur.advance_cols(1);
    assert_eq!((cur.pos, cur.col, cur.partial), (1, 1, 3));
    assert_eq!(cur.indent_cols(), 3);
    assert_eq!(cur.segment(2), Segment::new(Span::new(1, 2), 3));

    cur.advance_cols(3);
    assert_eq!((cur.pos, cur.col, cur.partial), (1, 4, 0));
    assert_eq!(cur.tail(), "x".as_bytes());
}

/// Up to 3 columns is a flow position; 4 or more (tabs included) is indented code.
#[test]
fn flow_start() {
    assert_eq!(Cursor::new("   x".as_bytes(), 0).flow_start().map(|c| c.pos), Some(3));
    assert!(Cursor::new("    x".as_bytes(), 0).flow_start().is_none());
    assert!(Cursor::new("\tx".as_bytes(), 0).flow_start().is_none());
}

#[test]
fn spans_and_offsets() {
    let mut cur = Cursor::new("  # h  ".as_bytes(), 100);
    cur.skip_indent_up_to(3);
    assert_eq!(cur.offset(), 102);
    assert_eq!(cur.trimmed_span(), Span::new(102, 105));
    cur.eat_one_space();
    assert_eq!(cur.pos, 2, "eat_one_space only eats whitespace");
    cur.bump(1);
    cur.eat_one_space();
    assert_eq!(cur.tail(), "h  ".as_bytes());
}

fn md(line: &str, in_paragraph: bool) -> Option<LineStart> {
    line_start(&Constructs::markdown(), line.as_bytes(), in_paragraph)
}

#[test]
fn probe_table_mirrors_engine() {
    assert_eq!(md("> q", false), Some(LineStart::Blockquote));
    assert_eq!(md("---", true), Some(LineStart::SetextUnderline));
    assert_eq!(md("---", false), Some(LineStart::ThematicBreak));
    assert_eq!(md("# h", false), Some(LineStart::AtxHeading));
    assert_eq!(md("```rs", false), Some(LineStart::CodeFence));
    assert_eq!(md("<div>", false), Some(LineStart::HtmlBlock));
    assert_eq!(md("$$", false), Some(LineStart::MathFence));
    assert_eq!(md("{% t %}", false), Some(LineStart::Liquid));
    assert_eq!(md("[^1]: n", false), Some(LineStart::FootnoteDefinition));
    assert_eq!(md("- item", false), Some(LineStart::ListItem));
    assert_eq!(md("plain text", true), None);
}

#[test]
fn covers_prettiers_documented_misses() {
    assert_eq!(md(":::note", false), Some(LineStart::DirectiveFence));
    assert_eq!(md(":::", false), Some(LineStart::DirectiveFence));
    assert_eq!(md("| - | - |", true), Some(LineStart::TableDelimiterRow));
    assert_eq!(md("| a | b |", false), Some(LineStart::TableRow));
}

#[test]
fn indent_is_indented_code() {
    assert_eq!(md("    # not a heading", false), None);
    assert_eq!(md("\t- not a list", false), None);
    assert_eq!(md("  \t- not a list", false), None);
    assert_eq!(md("   - list", false), Some(LineStart::ListItem));
}

/// The rows below the probe table carry their own construct gates.
#[test]
fn construct_gating() {
    let mut c = Constructs::markdown();
    c.container_directive = false;
    c.gfm_table = false;
    assert_eq!(line_start(&c, ":::".as_bytes(), false), None);
    assert_eq!(line_start(&c, "| a |".as_bytes(), false), None);
}

#[test]
fn toggles_gate_their_rows() {
    let on = Constructs::markdown();
    let off = Constructs {
        html_flow: false,
        math_flow: false,
        liquid: false,
        container_directive: false,
        gfm_footnote: false,
        gfm_table: false,
        ..on
    };
    for (tail, para_open) in [
        ("<div>", false),
        ("$$", false),
        ("{% t %}", false),
        (":::a", false),
        ("[^1]: n", false),
        ("| - |", true),
    ] {
        assert!(probe(&on, tail.as_bytes(), para_open).is_some(), "{tail}");
        assert!(probe(&off, tail.as_bytes(), para_open).is_none(), "{tail}");
    }
    assert!(matches!(probe(&off, "> q".as_bytes(), false), Some(Start::Quote)), "core stays on");
}

/// A delimiter row exists only relative to an open paragraph.
#[test]
fn table_delimiter_needs_a_paragraph() {
    assert!(probe(&Constructs::markdown(), "| - |".as_bytes(), false).is_none());
}

#[test]
fn thematic_breaks() {
    assert!(thematic_break("***".as_bytes()));
    assert!(thematic_break("- - -".as_bytes()));
    assert!(thematic_break("__\t_ ".as_bytes()));
    assert!(!thematic_break("--".as_bytes()));
    assert!(!thematic_break("-*-".as_bytes()));
    assert!(!thematic_break("--- a".as_bytes()));
}

#[test]
fn atx_headings() {
    assert_eq!(atx_heading("# h".as_bytes()), Some((1, 2..3)));
    assert_eq!(atx_heading("###".as_bytes()), Some((3, 3..3)));
    assert_eq!(atx_heading("#\tx  ".as_bytes()), Some((1, 2..3)));
    // Closing run is stripped only when preceded by whitespace (or alone)
    assert_eq!(atx_heading("## h ##".as_bytes()), Some((2, 3..4)));
    assert_eq!(atx_heading("## ##".as_bytes()), Some((2, 3..3)));
    assert_eq!(atx_heading("# h#".as_bytes()), Some((1, 2..4)));
    assert_eq!(atx_heading("#hashtag".as_bytes()), None);
    assert_eq!(atx_heading("####### seven".as_bytes()), None);
}

#[test]
fn setext_underlines() {
    assert_eq!(setext_underline("===".as_bytes()), Some(1));
    assert_eq!(setext_underline("-  ".as_bytes()), Some(2));
    assert_eq!(setext_underline("= =".as_bytes()), None);
    assert_eq!(setext_underline("~~~".as_bytes()), None);
}

#[test]
fn fences() {
    assert_eq!(fence_open("```rust ".as_bytes()), Some((b'`', 3, 3..7)));
    assert_eq!(fence_open("~~~~".as_bytes()), Some((b'~', 4, 4..4)));
    assert_eq!(fence_open("``".as_bytes()), None);
    // Backtick info strings cannot contain backticks; tilde ones can
    assert_eq!(fence_open("``` a`b".as_bytes()), None);
    assert_eq!(fence_open("~~~ a`b".as_bytes()), Some((b'~', 3, 4..7)));

    assert!(fence_close("````  ".as_bytes(), b'`', 3));
    assert!(!fence_close("``".as_bytes(), b'`', 3));
    assert!(!fence_close("``` x".as_bytes(), b'`', 3));
    assert!(!fence_close("~~~".as_bytes(), b'`', 3));
}

#[test]
fn list_markers() {
    let m = list_marker("- a".as_bytes()).unwrap();
    assert_eq!((m.marker, m.ordered, m.len), (b'-', false, 1));
    assert!(list_marker("+".as_bytes()).is_some(), "marker at end of line");

    let m = list_marker("1. a".as_bytes()).unwrap();
    assert_eq!((m.marker, m.ordered, m.len, m.starts_at_one), (b'.', true, 2, true));
    let m = list_marker("001)\tx".as_bytes()).unwrap();
    assert_eq!((m.marker, m.len, m.starts_at_one), (b')', 4, true));
    assert!(!list_marker("2.".as_bytes()).unwrap().starts_at_one);

    assert!(list_marker("-a".as_bytes()).is_none());
    assert!(list_marker("1234567890. ten digits".as_bytes()).is_none());
    assert!(list_marker("1: x".as_bytes()).is_none());
}

#[test]
fn directive_fence_open() {
    let open = |s: &str| oxc_markdown_parser::block::scan::directive::directive_fence_open(s.as_bytes());
    assert_eq!(open(":::note"), Some(3));
    assert_eq!(open(":::日本"), Some(3));
    assert_eq!(open("::::my-note[Label]{#id .cls}  "), Some(4));
    assert_eq!(open("::: tip Custom Title"), Some(3), "markdown-it-container");
    assert_eq!(open(":::tip Custom Title"), Some(3));
    assert_eq!(open("::: {.class}"), Some(3), "Pandoc fenced div");
    assert_eq!(open(":::_x"), Some(3));
    assert_eq!(open("::x"), None);
    assert_eq!(open(":::"), None, "a closing fence is not an opener");
    assert_eq!(open("::: "), None);
    assert_eq!(open(":::)"), None, "an emoticon is not an opener");
    assert_eq!(open("::: -x"), None);
}

#[test]
fn definition_start() {
    assert_eq!(footnote_definition_start("[^1]: note".as_bytes()), Some((2..3, 5)));
    assert_eq!(footnote_definition_start("[^1]".as_bytes()), None, "colon required");
}

#[test]
fn math_fence_open() {
    let open = |s: &str| oxc_markdown_parser::block::scan::math::math_fence_open(s.as_bytes());
    assert_eq!(open("$$"), Some((2, 2..2)));
    assert_eq!(open("$$$  "), Some((3, 5..5)), "whitespace only is no meta");
    // Surrounding whitespace is stripped
    assert_eq!(open("$$ meta "), Some((2, 3..7)));
    assert_eq!(open("$"), None);
    assert_eq!(open("$$a$"), None, "meta cannot contain `$`");
}

#[test]
fn blank_lines() {
    assert!(is_blank("".as_bytes()) && is_blank(" \t ".as_bytes()));
    assert!(!is_blank(" x".as_bytes()) && !is_blank("\u{A0}".as_bytes()));
}

#[test]
fn trim_range_shrinks_to_content() {
    let s = "  a b \t";
    assert_eq!(trim_range(s.as_bytes(), 0..s.len()), 2..5);
    assert_eq!(trim_range(s.as_bytes(), 1..3), 2..3);
    // All-whitespace collapses to empty at its trimmed start
    assert_eq!(trim_range(s.as_bytes(), 5..7), 7..7);
}

#[test]
fn row_cells() {
    assert_eq!(table_row_cells("| a | b |".as_bytes()), vec![2..3, 6..7]);
    assert_eq!(table_row_cells("a|b".as_bytes()), vec![0..1, 2..3]);
    // Escaped pipes stay in the cell; empty cells are kept between pipes
    assert_eq!(table_row_cells(r"| a\|b | |".as_bytes()), vec![2..6, 9..9]);
    // Trailing content without a closing pipe is a cell only when non-empty
    assert_eq!(table_row_cells("| a |  ".as_bytes()), vec![2..3]);
    assert_eq!(table_row_cells("| a | b".as_bytes()), vec![2..3, 6..7]);
}

#[test]
fn delimiter_rows() {
    assert_eq!(
        table_delimiter_row("| --- | :-- | --: | :-: |".as_bytes()),
        Some(vec![TableAlign::Unspecified, TableAlign::Left, TableAlign::Right, TableAlign::Center])
    );
    assert_eq!(
        table_delimiter_row("-|-".as_bytes()),
        Some(vec![TableAlign::Unspecified, TableAlign::Unspecified])
    );
    assert_eq!(table_delimiter_row("| : |".as_bytes()), None, "a colon alone is not a column");
    assert_eq!(table_delimiter_row("| a |".as_bytes()), None);
    assert_eq!(table_delimiter_row("|".as_bytes()), None);
}

#[test]
fn block_starts_by_type() {
    let start = |s: &str, p: bool| html_block_start(s.as_bytes(), p);
    assert_eq!(start("<script>", false), Some(1));
    assert_eq!(start("<PRE lang=x>", false), Some(1));
    assert_eq!(start("<textarea", false), Some(1));
    assert_eq!(start("<!-- c", false), Some(2));
    assert_eq!(start("<?php", false), Some(3));
    assert_eq!(start("<!DOCTYPE html>", false), Some(4));
    assert_eq!(start("<![CDATA[x", false), Some(5));
    assert_eq!(start("<div", false), Some(6));
    assert_eq!(start("</DIV>", false), Some(6));
    assert_eq!(start("<div/>", false), Some(6));
    assert_eq!(start("<div>text", false), Some(6));
    assert_eq!(start("<x-tag a=\"1\">  ", false), Some(7));
    assert_eq!(start("<x-tag a=\"1\">", true), None, "type 7 never interrupts");
    assert_eq!(start("<x>y", false), None, "type 7 needs only whitespace after");
    assert_eq!(start("<div/ >", false), None);
    assert_eq!(start("<!1", false), None);
    assert_eq!(start("<>", false), None);
    assert_eq!(start("text", false), None);
}

/// Verbatim names are only type 1 as plain open tags; otherwise they fall through to type 7.
#[test]
fn verbatim_tags_closing_or_self_closing_are_type_7() {
    assert_eq!(html_block_start("</pre>".as_bytes(), false), Some(7));
    assert_eq!(html_block_start("<pre/>".as_bytes(), false), Some(7));
}

#[test]
fn block_ends() {
    let end = |s: &str, k: u8| html_block_end(s.as_bytes(), k);
    assert!(end("x</PRE>", 1));
    assert!(end("</textarea>y", 1));
    assert!(!end("</pre", 1));
    assert!(!end("</prefoo>", 1));
    assert!(!end("</pre >", 1));
    assert!(!end("</div>", 1));
    assert!(end("a --> b", 2));
    assert!(end("?>", 3));
    assert!(end("x>", 4));
    assert!(end("]]>", 5));
    assert!(!end("</div>", 6), "types 6/7 end on blank lines only");
}

#[test]
fn setext_underline_only_marker_then_blanks() {
    assert_eq!(setext_underline("--\t ".as_bytes()), Some(2));
    assert_eq!(setext_underline("==-".as_bytes()), None);
    assert_eq!(setext_underline(" ==".as_bytes()), None);
    assert_eq!(setext_underline("".as_bytes()), None);
}

#[test]
fn directive_fence_takes_the_whole_colon_run() {
    let open = |s: &str| oxc_markdown_parser::block::scan::directive::directive_fence_open(s.as_bytes());
    assert_eq!(open("::::: note"), Some(5));
    assert_eq!(open(":::"), None);
    assert_eq!(open("::note"), None);
    assert_eq!(open(":::\t[x]"), Some(3));
}
