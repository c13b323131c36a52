use std::borrow::Cow;

use oxc_markdown_parser::pos::{Segment, Span};

#[test]
fn span_basics() {
    let span = Span::at(10, 2..5);
    assert_eq!(span, Span::new(12, 15));
    assert!(!span.is_empty());
    assert!(Span::empty(3).is_empty());
    assert_eq!(Span::new(2, 5).slice("abcdefg"), "cde");
}

/// A single unpadded piece borrows; anything else renders padding and joins with `\n`.
#[test]
fn segment_join() {
    let source = "> a\n>   b\n";
    let a = Segment::new(Span::new(2, 3), 0);
    let b = Segment::new(Span::new(6, 9), 2);
    assert!(matches!(Segment::join(source, &[a]), Cow::Borrowed("a")));
    assert_eq!(Segment::join(source, &[b]), "    b");
    assert_eq!(Segment::join(source, &[a, b]), "a\n    b");
}
