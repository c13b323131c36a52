use oxc_markdown_parser::syntax::html::tag_end;
use oxc_markdown_parser::syntax::link_target::{destination, footnote_label, label_end, title};
use oxc_markdown_parser::syntax::liquid::{close, open};
use oxc_markdown_parser::syntax::{escapes_next, skip_ws};

// Inputs start just past the tag name.
fn open_tag(bytes: &[u8]) -> Option<usize> {
    tag_end(bytes, 0, false, true)
}

#[test]
fn open_tags() {
    assert_eq!(open_tag(b">"), Some(1));
    assert_eq!(open_tag(b"/>"), Some(2));
    assert_eq!(open_tag(b" a b=1 c='x' d=\"y\" />"), Some(21));
    assert_eq!(open_tag(b" a = 1>"), Some(7));
    assert_eq!(open_tag(b" _a:b.c-d>"), Some(10));
    assert_eq!(open_tag(b"a>"), None, "attributes need preceding whitespace");
    assert_eq!(open_tag(b" 1a>"), None);
    assert_eq!(open_tag(b" a=>"), None, "unquoted values are non-empty");
    assert_eq!(open_tag(b" a=x`y>"), None);
    assert_eq!(open_tag(b" a='x>"), None, "unterminated quote");
    assert_eq!(open_tag(b" / >"), None);
}

#[test]
fn closing_tags_take_only_whitespace() {
    assert_eq!(tag_end(b">", 0, true, true), Some(1));
    assert_eq!(tag_end(b" \t>", 0, true, true), Some(3));
    assert_eq!(tag_end(b" a>", 0, true, true), None);
}

#[test]
fn newlines_gate() {
    assert_eq!(tag_end(b"\na>", 0, false, true), Some(3));
    assert_eq!(tag_end(b"\na>", 0, false, false), None);
    assert_eq!(tag_end(b"\n>", 0, true, true), Some(2));
    assert_eq!(tag_end(b"\n>", 0, true, false), None);
}

#[test]
fn destinations() {
    let d = |s: &str| destination(s.as_bytes(), 0);
    assert_eq!(d("<a b>"), Some((0..5, true)));
    assert_eq!(d("<a\\>b>"), Some((0..6, true)));
    assert_eq!(d("<a\nb>"), None);
    assert_eq!(d("<a<b>"), None);

    assert_eq!(d("/u(x) t"), Some((0..5, false)));
    assert_eq!(d("/u) t"), Some((0..2, false)));
    assert_eq!(d("/u(x t"), None, "unbalanced parens");
    assert_eq!(d(""), Some((0..0, false)));
}

#[test]
fn titles() {
    let t = |s: &str| title(s.as_bytes(), 0);
    assert_eq!(t("\"t\" x"), Some(0..3));
    assert_eq!(t("'a\\'b'"), Some(0..6));
    assert_eq!(t("(a\nb)"), Some(0..5));
    assert_eq!(t("(a(b))"), None, "nested paren in paren title");
    assert_eq!(t("\"open"), None);
    assert_eq!(t("x"), None);
}

#[test]
fn labels() {
    let l = |s: &str| label_end(s.as_bytes(), 0);
    assert_eq!(l("[a]"), Some(3));
    assert_eq!(l("[a\\]b]"), Some(6));
    assert_eq!(l("[ ]"), None, "needs a non-whitespace character");
    assert_eq!(l("[a[b]]"), None);
    assert_eq!(l("[a"), None);
    let long = format!("[{}]", "x".repeat(1000));
    assert_eq!(l(&long), None);
}

#[test]
fn footnote_labels() {
    let f = |s: &str| footnote_label(s.as_bytes(), 0);
    assert_eq!(f("[^a]:"), Some((2..3, 4)));
    assert_eq!(f("[^a\\]b]"), Some((2..6, 7)));
    assert_eq!(f("[^]"), None);
    assert_eq!(f("[^a b]"), None);
    assert_eq!(f("[a]"), None);
}

#[test]
fn delimiters() {
    assert_eq!(open("{% t %}".as_bytes()), Some(b'%'));
    assert_eq!(open("{{ v }}".as_bytes()), Some(b'}'));
    assert_eq!(open("{ x }".as_bytes()), None);
    assert_eq!(close("t %} tail".as_bytes(), b'%'), Some(4));
    assert_eq!(close("v }} }}".as_bytes(), b'}'), Some(4));
    assert_eq!(close("t }}".as_bytes(), b'%'), None);
}

#[test]
fn escapes_next_only_ascii_punctuation() {
    assert!(escapes_next(br"\*", 0));
    assert!(!escapes_next(br"\a", 0));
    assert!(!escapes_next(b"\\\n", 0));
    assert!(!escapes_next(br"\", 0), "nothing to escape at the end");
}

#[test]
fn skip_ws_caps_newlines() {
    assert_eq!(skip_ws(b"  \t x", 0, 0), 4);
    assert_eq!(skip_ws(b" \n x", 0, 0), 1);
    assert_eq!(skip_ws(b" \n x", 0, 1), 3);
    assert_eq!(skip_ws(b"\n\n x", 0, 1), 1);
    assert_eq!(skip_ws(b"x", 0, 1), 0);
}

use std::borrow::Cow;

use oxc_markdown_parser::ast::Destination;
use oxc_markdown_parser::pos::{Segment, Span};
use oxc_markdown_parser::syntax::decode::{self, decode, entity, html_inline};

#[test]
fn decodes_escapes_and_entities() {
    assert!(matches!(decode("plain", true), Cow::Borrowed(_)));
    assert_eq!(decode(r"\*a\\b\c", true), r"*a\b\c");
    assert_eq!(decode("&amp; &#35; &#x41; &unknown; &", true), "& # A &unknown; &");
    // `escapes: false` keeps backslashes but still decodes entities
    assert_eq!(decode(r"\&amp;", false), r"\&");
    assert_eq!(decode(r"\&amp;", true), "&amp;");
}

#[test]
fn entity_recognition() {
    assert_eq!(entity("&amp;x", 0), Some((Cow::Borrowed("&"), 5)));
    assert_eq!(entity("&#0;", 0), Some((Cow::Borrowed("\u{FFFD}"), 4)));
    assert_eq!(entity("&#xD800;", 0), Some((Cow::Borrowed("\u{FFFD}"), 8)));
    assert_eq!(entity("&amp", 0), None);
    assert_eq!(entity("&#;", 0), None);
    assert_eq!(entity("&#12345678;", 0), None, "more than 7 decimal digits");
}

#[test]
fn title_and_html_inline() {
    let source = "\"a\n    b\"";
    let pieces = [Segment::new(Span::new(0, 2), 0), Segment::new(Span::new(3, 9), 0)];
    assert_eq!(decode::title(source, &pieces), "a\nb");

    // Continuation lines lose up to 3 columns; padding counts as columns
    let source = "<b\n     c>";
    let pieces = [Segment::new(Span::new(0, 2), 0), Segment::new(Span::new(3, 10), 0)];
    assert_eq!(html_inline(source, &pieces), "<b\n  c>");
    let pieces = [Segment::new(Span::new(0, 2), 0), Segment::new(Span::new(8, 10), 2)];
    assert_eq!(html_inline(source, &pieces), "<b\nc>");
}

/// Named references come from the HTML5 table, multi-byte replacements included;
/// numeric ones cap their digits.
#[test]
fn entity_table_and_numeric_edges() {
    assert_eq!(decode("&copy; &Aacute; &NotEqualTilde; &#x1F600; &#9999999;", true), "© Á ≂̸ 😀 \u{FFFD}");
    assert_eq!(entity("&#x1234567;", 0), None, "more than 6 hex digits");
    assert_eq!(entity("&Aacute", 0), None, "legacy forms without `;` are not references");
    assert_eq!(decode("é\\é&", true), "é\\é&");
}

#[test]
fn destinations_are_unbracketed_and_decoded() {
    let source = "<a\\*b&amp;> c";
    let dest = Destination { span: Span::new(0, 11), angle_bracketed: true };
    assert_eq!(decode::destination(source, &dest), "a*b&");
    let dest = Destination { span: Span::new(12, 13), angle_bracketed: false };
    assert!(matches!(decode::destination(source, &dest), Cow::Borrowed("c")));
}

use oxc_markdown_parser::syntax::label::normalize;

/// The fast path must agree with the building path:
/// a borrowed result means "already normalized", so normalizing again must be a no-op,
/// and an owned result must itself be in normalized (borrowed) form.
#[test]
fn idempotent() {
    for raw in [
        "", "a", "a b", "toc", "ß", "ẞ", "ss", "A", "Толпой", "толпой", " a", "a ", "a  b", "a\tb",
        "a\nb", "é", "É", "漢字", "ﬀ",
    ] {
        let once = normalize(raw);
        let twice = normalize(&once);
        assert_eq!(once, twice, "not idempotent for {raw:?}");
        assert!(matches!(twice, Cow::Borrowed(_)), "owned twice for {raw:?}");
    }
}

#[test]
fn matches_relation() {
    assert_eq!(normalize("  A  B\t"), "a b");
    assert_eq!(normalize("ẞ"), "ss");
    assert_eq!(normalize("ß"), "ss");
    assert_eq!(normalize("ТОЛПОЙ"), normalize("Толпой"));
    // micromark's fold unifies these; lowercasing alone would not
    assert_eq!(normalize("σ"), normalize("ς"));
    assert_eq!(normalize("ﬀ"), normalize("ff"));
    // Only markdown whitespace collapses or trims
    assert_ne!(normalize("a\u{3000}b"), normalize("a b"));
    assert_eq!(normalize("\u{a0}"), "\u{a0}");
    assert!(matches!(normalize("a b"), Cow::Borrowed(_)));
    assert!(matches!(normalize("A b"), Cow::Owned(_)));
    assert!(matches!(normalize("a  b"), Cow::Owned(_)));
    assert!(matches!(normalize("ß"), Cow::Owned(_)));
}

#[test]
fn label_limits_count_characters() {
    let wide = format!("[{}]", "😀".repeat(999));
    assert_eq!(label_end(wide.as_bytes(), 0), Some(wide.len()));
    let too_wide = format!("[{}]", "😀".repeat(1000));
    assert_eq!(label_end(too_wide.as_bytes(), 0), None);
    let foot = format!("[^{}]", "é".repeat(500));
    assert_eq!(footnote_label(foot.as_bytes(), 0), Some((2..foot.len() - 1, foot.len())));
    let foot_max = format!("[^{}]", "é".repeat(999));
    assert_eq!(footnote_label(foot_max.as_bytes(), 0), Some((2..foot_max.len() - 1, foot_max.len())));
    let foot_over = format!("[^{}]", "é".repeat(1000));
    assert_eq!(footnote_label(foot_over.as_bytes(), 0), None);
}

#[test]
fn decode_without_escapes_keeps_backslashes() {
    assert_eq!(decode(r"a\*b\\c\_", false), r"a\*b\\c\_");
    assert_eq!(decode(r"\\", false), r"\\");
}
