//! Inline raw HTML scanning (CommonMark 6.4).
//! Whitespace inside tags may include line endings
//! (the joined text has no blank lines to worry about).
use vstd::prelude::*;
use crate::syntax::{alnum, alpha, find_from, is_alnum, is_alpha, lemma_find, matches_at, occurs_at, run_end, spec_find};
use crate::syntax::html::{spec_tag_end, tag_end};

verus! {

pub open spec fn comment_open() -> Seq<u8> {
    seq![33u8, 45, 45]
}

pub open spec fn comment_close() -> Seq<u8> {
    seq![45u8, 45, 62]
}

pub open spec fn cdata_open() -> Seq<u8> {
    seq![33u8, 91, 67, 68, 65, 84, 65, 91]
}

pub open spec fn cdata_close() -> Seq<u8> {
    seq![93u8, 93, 62]
}

pub open spec fn pi_close() -> Seq<u8> {
    seq![63u8, 62]
}

/// A byte of a tag name after its first letter: a letter, a digit or `-`.
pub open spec fn tag_name_pred() -> spec_fn(u8) -> bool {
    |c: u8| is_alnum(c) || c == 45
}

/// The position past the first `pat` at or after `from`.
pub open spec fn past(b: Seq<u8>, from: int, pat: Seq<u8>) -> Option<int> {
    match spec_find(b, from, pat) {
        Some(k) => Some(k + pat.len()),
        None => None,
    }
}

/// A raw HTML construct at `pos` (which holds `<`): a comment, a CDATA section,
/// a processing instruction, a declaration, or an open or closing tag.
/// The position just past it.
pub open spec fn spec_scan(b: Seq<u8>, pos: int) -> Option<int> {
    if occurs_at(b, pos + 1, comment_open()) {
        let after = pos + 4;
        if after < b.len() && b[after] == 62 {
            Some(pos + 5)
        } else if after + 1 < b.len() && b[after] == 45 && b[after + 1] == 62 {
            Some(pos + 6)
        } else {
            past(b, after, comment_close())
        }
    } else if occurs_at(b, pos + 1, cdata_open()) {
        past(b, pos + 9, cdata_close())
    } else if pos + 1 < b.len() && b[pos + 1] == 63 {
        past(b, pos + 2, pi_close())
    } else if pos + 1 < b.len() && b[pos + 1] == 33 {
        if pos + 2 < b.len() && is_alpha(b[pos + 2]) {
            past(b, pos + 2, seq![62u8])
        } else {
            None
        }
    } else {
        let closing = pos + 1 < b.len() && b[pos + 1] == 47;
        let i = if closing { pos + 2 } else { pos + 1 };
        if i < b.len() && is_alpha(b[i]) {
            spec_tag_end(b, run_end(b, i + 1, tag_name_pred()), closing, true)
        } else {
            None
        }
    }
}

fn find_past(b: &[u8], from: usize, pat: &[u8]) -> (r: Option<usize>)
    requires
        from <= b.len(),
        pat.len() > 0,
    ensures
        r matches Some(e) ==> past(b@, from as int, pat@) == Some(e as int) && from < e <= b.len(),
        r is None ==> past(b@, from as int, pat@) is None,
{
    match find_from(b, from, pat) {
        Some(k) => {
            proof {
                lemma_find(b@, from as int, pat@);
            }
            Some(k + pat.len())
        },
        None => None,
    }
}

/// Scans a raw HTML construct at `pos` (which holds `<`).
/// Returns the position just past it.
pub fn scan(t: &[u8], pos: usize) -> (r: Option<usize>)
    requires
        pos < t.len(),
        t@[pos as int] == 60,
    ensures
        r matches Some(e) ==> spec_scan(t@, pos as int) == Some(e as int) && pos < e <= t.len(),
        r is None ==> spec_scan(t@, pos as int) is None,
{
    let open_comment = [33u8, 45, 45];
    assert(open_comment@ =~= comment_open());
    let open_cdata = [33u8, 91, 67, 68, 65, 84, 65, 91];
    assert(open_cdata@ =~= cdata_open());
    if matches_at(t, pos + 1, &open_comment) {
        let after = pos + 4;
        // `<!-->` and `<!--->` are valid (empty) comments
        if after < t.len() && t[after] == 62 {
            return Some(pos + 5);
        }
        if t.len() - after > 1 && t[after] == 45 && t[after + 1] == 62 {
            return Some(pos + 6);
        }
        let close = [45u8, 45, 62];
        assert(close@ =~= comment_close());
        return find_past(t, after, &close);
    }
    if matches_at(t, pos + 1, &open_cdata) {
        let close = [93u8, 93, 62];
        assert(close@ =~= cdata_close());
        return find_past(t, pos + 9, &close);
    }
    if pos + 1 < t.len() && t[pos + 1] == 63 {
        let close = [63u8, 62];
        assert(close@ =~= pi_close());
        return find_past(t, pos + 2, &close);
    }
    if pos + 1 < t.len() && t[pos + 1] == 33 {
        if !(pos + 2 < t.len() && alpha(t[pos + 2])) {
            return None;
        }
        let close = [62u8];
        assert(close@ =~= seq![62u8]);
        return find_past(t, pos + 2, &close);
    }
    // Open or closing tag
    let closing = pos + 1 < t.len() && t[pos + 1] == 47;
    let mut i = if closing { pos + 2 } else { pos + 1 };
    if !(i < t.len() && alpha(t[i])) {
        return None;
    }
    let ghost first = i;
    i = i + 1;
    while i < t.len() && (alnum(t[i]) || t[i] == 45)
        invariant
            first < i <= t.len(),
            run_end(t@, i as int, tag_name_pred()) == run_end(t@, first + 1, tag_name_pred()),
        decreases t.len() - i,
    {
        i = i + 1;
    }
    tag_end(t, i, closing, true)
}

} // verus!
