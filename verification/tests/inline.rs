use oxc_markdown_parser::inline::tokenizer::matching_run;
use oxc_markdown_parser::inline::gfm_autolink::{literal_kind, LiteralKind};
use oxc_markdown_parser::inline::{autolink, gfm_autolink, html};

fn auto(s: &str, pos: usize) -> Option<(usize, bool)> {
    autolink::scan(s.as_bytes(), pos)
}

#[test]
fn uri_autolinks() {
    assert_eq!(auto("<https://x.y/a?b>", 0), Some((17, false)));
    assert_eq!(auto("x <a+b-c.d:e>", 2), Some((13, false)));
    assert_eq!(auto("<a:b c>", 0), None, "whitespace");
    assert_eq!(auto("<a>", 0), None, "no scheme");
    assert_eq!(auto("<1a:b>", 0), None, "scheme must start with a letter");
    assert_eq!(auto("<a:b", 0), None);
}

#[test]
fn email_autolinks() {
    assert_eq!(auto("<a.b+c@ex-ample.com>", 0), Some((20, true)));
    assert_eq!(auto("<a@b>", 0), Some((5, true)));
    assert_eq!(auto("<a@-b.c>", 0), None, "label starts with hyphen");
    assert_eq!(auto("<a@b-.c>", 0), None, "label ends with hyphen");
    assert_eq!(auto("<@b.c>", 0), None);
}

fn raw(s: &str) -> Option<usize> {
    html::scan(s.as_bytes(), 0)
}

#[test]
fn tags() {
    assert_eq!(raw("<a>"), Some(3));
    assert_eq!(raw("</a-b x=1>"), None, "closing tags take no attributes");
    assert_eq!(raw("<1>"), None);
    assert_eq!(raw("< a>"), None);
    assert_eq!(raw("<a"), None);
}

#[test]
fn comments_and_friends() {
    assert_eq!(raw("<!-->"), Some(5));
    assert_eq!(raw("<!--->"), Some(6));
    assert_eq!(raw("<!-- c -->x"), Some(10));
    assert_eq!(raw("<!-- c"), None);
    assert_eq!(raw("<![CDATA[x]]>"), Some(13));
    assert_eq!(raw("<?php ?>"), Some(8));
    assert_eq!(raw("<!DOCTYPE a>"), Some(12));
    assert_eq!(raw("<!1>"), None);
}

fn lit(s: &str, pos: usize, prev: Option<char>) -> Option<usize> {
    gfm_autolink::scan(s.as_bytes(), pos, prev)
}

#[test]
fn literal_kinds() {
    assert_eq!(literal_kind("http://x.y".as_bytes()), LiteralKind::Http);
    assert_eq!(literal_kind("HTTPS://x.y".as_bytes()), LiteralKind::Http);
    assert_eq!(literal_kind("www.x.y".as_bytes()), LiteralKind::Www);
    assert_eq!(literal_kind("a@b.cd".as_bytes()), LiteralKind::Email);
    assert_eq!(literal_kind("www.aa日x".as_bytes()), LiteralKind::Www, "non-ASCII must not panic");
}

#[test]
fn scans_with_trailing_punctuation_trimmed() {
    assert_eq!(lit("www.x.y.", 0, None), Some(7));
    assert_eq!(lit("http://x.y/p(q)", 0, None), Some(15));
    assert_eq!(lit("http://x.y/p)", 0, None), Some(12), "unbalanced paren excluded");
    assert_eq!(lit("a@b.cd,", 0, None), Some(6));
}

#[test]
fn previous_character_gates() {
    assert_eq!(lit("www.x.y", 0, Some(' ')), Some(7));
    assert_eq!(lit("www.x.y", 0, Some('_')), Some(7), "micromark's `previousWww` admits `_`");
    assert_eq!(lit("www.x.y", 0, Some('a')), None);
    assert_eq!(lit("www.x.y", 0, Some('\u{A0}')), None, "NBSP is not a markdown space");
    assert_eq!(lit("http://x.y", 0, Some('a')), None);
    assert_eq!(lit("http://x.y", 0, Some('1')), Some(10));
    assert_eq!(lit("a@b.cd", 0, Some('/')), None);
    assert_eq!(lit("a@b.cd", 0, Some('.')), None, "atext before an email is part of it");
}

use oxc_markdown_parser::block::ir::IrSeg;
use oxc_markdown_parser::inline::input::Input;
use oxc_markdown_parser::pos::{Segment, Span};

fn seg(start: u32, end: u32, padding: u8) -> IrSeg {
    IrSeg { seg: Segment::new(Span::new(start, end), padding), lazy: false }
}

/// `> ab\n>\tcd\n`: the `>\t` prefix leaves 2 virtual spaces of padding before `cd`.
fn sample() -> Input {
    Input::new("> ab\n>\tcd\n", &[seg(2, 4, 0), seg(7, 9, 2)])
}

/// Joined positions map back through container prefixes and virtual padding
/// to original-source offsets.
#[test]
fn maps_back_to_source() {
    let input = sample();
    assert_eq!(input.text, "ab\n  cd");

    assert_eq!(input.span(0..2), Span::new(2, 4));
    assert_eq!(input.span(5..7), Span::new(7, 9));
    // The separator and padding bytes point at the next line's start
    assert_eq!(input.offset(2), 7);
    assert_eq!(input.offset(3), 7);
    assert_eq!(input.span(1..1), Span::empty(3));
    assert_eq!(input.lines_before(0), 0);
    assert_eq!(input.lines_before(3), 1);
}

#[test]
fn pieces_split_on_separators_and_keep_padding() {
    let input = sample();
    assert_eq!(
        input.pieces(0..7),
        vec![Segment::new(Span::new(2, 4), 0), Segment::new(Span::new(7, 9), 2)]
    );
    // A range starting inside the padding keeps only the remaining padding
    assert_eq!(input.pieces(4..7), vec![Segment::new(Span::new(7, 9), 1)]);
    assert_eq!(input.pieces(1..2), vec![Segment::new(Span::new(3, 4), 0)]);
    // A range ending right after the separator has an empty piece on the next line;
    // one starting at the separator, an empty piece before it (`[\nfoo\n]` labels)
    assert_eq!(
        input.pieces(0..3),
        vec![Segment::new(Span::new(2, 4), 0), Segment::new(Span::empty(7), 0)]
    );
    assert_eq!(
        input.pieces(2..7),
        vec![Segment::new(Span::empty(7), 0), Segment::new(Span::new(7, 9), 2)]
    );
}

/// Every content byte of the joined text is the source byte its offset names.
#[test]
fn joined_content_bytes_are_source_bytes() {
    let source = "> ab\n>\tcd\n";
    let input = sample();
    for j in [0usize, 1, 5, 6] {
        let o = input.offset(j) as usize;
        assert_eq!(input.text.as_bytes()[j], source.as_bytes()[o]);
    }
}

use oxc_markdown_parser::inline::refmap::RefMap;

#[test]
fn labels_and_footnotes_are_separate() {
    let mut map = RefMap::default();
    assert!(map.is_empty() && map.footnotes_is_empty());
    map.push("b".into());
    map.push("a".into());
    map.push("a".into());
    map.push_footnote("1".into());
    map.finish();
    assert!(map.contains("a"));
    assert!(!map.contains("1"));
    assert!(map.contains_footnote("1"));
    assert!(!map.contains_footnote("a"));
    assert_eq!(map.labels, ["a", "b"], "storage stays sorted and deduplicated");
}

/// A label pushed before `finish` is found after it, whatever the order and repetition.
#[test]
fn finished_map_finds_every_pushed_label() {
    let mut map = RefMap::default();
    for l in ["zeta", "alpha", "mu", "alpha", "", "é", "e"] {
        map.push(l.into());
    }
    map.finish();
    for l in ["zeta", "alpha", "mu", "", "é", "e"] {
        assert!(map.contains(l), "{l}");
    }
    assert!(!map.contains("beta"));
    assert_eq!(map.labels, ["", "alpha", "e", "mu", "zeta", "é"]);
}

use oxc_markdown_parser::inline::emphasis::{pairs, Pair, Run};
use oxc_markdown_parser::options::Constructs;

fn run(marker: u8, len: usize, prev: Option<char>, next: Option<char>) -> Run {
    Run::new(marker, len, prev, next, &Constructs::markdown())
}

#[test]
fn pairs_nested_and_rule_of_three() {
    // `***b***`: strong inside emphasis, both from the same two runs
    let runs = [run(b'*', 3, None, Some('b')), run(b'*', 3, Some('b'), None)];
    assert_eq!(
        pairs(&runs, false),
        vec![Pair { opener: 0, closer: 1, strong: false }, Pair { opener: 0, closer: 1, strong: true }]
    );
    // `*a**b*`: the `**` cannot pair (rule of three), the outer pair forms
    let runs = [run(b'*', 1, None, Some('a')), run(b'*', 2, Some('a'), Some('b')), run(b'*', 1, Some('b'), None)];
    assert_eq!(pairs(&runs, false), vec![Pair { opener: 0, closer: 2, strong: false }]);
    // `**a _**b**_ c**`: `**a _` strong, then `**_ c**` strong
    let runs = [
        run(b'*', 2, None, Some('a')),
        run(b'_', 1, Some(' '), Some('*')),
        run(b'*', 2, Some('_'), Some('b')),
        run(b'*', 2, Some('b'), Some('_')),
        run(b'_', 1, Some('*'), Some(' ')),
        run(b'*', 2, Some('c'), None),
    ];
    assert_eq!(
        pairs(&runs, false),
        vec![Pair { opener: 0, closer: 2, strong: true }, Pair { opener: 3, closer: 5, strong: true }]
    );
}

#[test]
fn pairs_family_order() {
    // `~~*a~~*`: strikethrough first (its run comes first) swallows the `*` opener
    let runs = [
        run(b'~', 2, None, Some('*')),
        run(b'*', 1, Some('~'), Some('a')),
        run(b'~', 2, Some('a'), Some('*')),
        run(b'*', 1, Some('~'), None),
    ];
    assert_eq!(pairs(&runs, true), vec![Pair { opener: 0, closer: 2, strong: false }]);
}

#[test]
fn pairs_of_no_runs_are_none() {
    assert_eq!(pairs(&[], false), vec![]);
    // A lone opener pairs with nothing
    assert_eq!(pairs(&[run(b'*', 1, None, Some('a'))], false), vec![]);
}

#[test]
fn matching_run_finds_an_exact_run() {
    assert_eq!(matching_run(b"a``b`c", 0, b'`', 1), Some(4));
    assert_eq!(matching_run(b"a``b`c", 0, b'`', 2), Some(1));
    assert_eq!(matching_run(b"a``b`c", 0, b'`', 3), None);
    assert_eq!(matching_run(b"```", 1, b'`', 2), Some(1));
}

#[test]
fn pairs_join_only_matching_runs() {
    // `*a_`: different markers never pair
    let runs = [run(b'*', 1, None, Some('a')), run(b'_', 1, Some('a'), None)];
    assert_eq!(pairs(&runs, false), vec![]);
    // `~~a~~`: a strikethrough pair is never strong
    let runs = [run(b'~', 2, None, Some('a')), run(b'~', 2, Some('a'), None)];
    let out = pairs(&runs, false);
    assert_eq!(out, vec![Pair { opener: 0, closer: 1, strong: false }]);
}

#[test]
fn pairs_two_runs_form_a_pair() {
    // `*a*` and `__a__`: an opener then a closer of one marker always pair
    let runs = [run(b'*', 1, None, Some('a')), run(b'*', 1, Some('a'), None)];
    assert_eq!(pairs(&runs, false), vec![Pair { opener: 0, closer: 1, strong: false }]);
    let runs = [run(b'_', 2, None, Some('a')), run(b'_', 2, Some('a'), None)];
    assert_eq!(pairs(&runs, false), vec![Pair { opener: 0, closer: 1, strong: true }]);
}
