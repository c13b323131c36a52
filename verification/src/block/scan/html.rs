//! HTML block starts and end conditions (CommonMark 4.6).
use vstd::prelude::*;
use vstd::string::StringSliceAdditionalSpecFns;
use crate::syntax::{alnum, alpha, is_alnum, is_alpha, lower, occurs_at, run_end, to_lower};
use crate::syntax::html::{spec_tag_end, tag_end};
use super::{blank_between, is_blank_from};

verus! {

/// The names of HTML block tags (type 6), by index.
pub open spec fn block_tag(i: int) -> Seq<char> {
    if i == 0 { "address"@ } else if i == 1 { "article"@ } else if i == 2 { "aside"@ }
    else if i == 3 { "base"@ } else if i == 4 { "basefont"@ } else if i == 5 { "blockquote"@ }
    else if i == 6 { "body"@ } else if i == 7 { "caption"@ } else if i == 8 { "center"@ }
    else if i == 9 { "col"@ } else if i == 10 { "colgroup"@ } else if i == 11 { "dd"@ }
    else if i == 12 { "details"@ } else if i == 13 { "dialog"@ } else if i == 14 { "dir"@ }
    else if i == 15 { "div"@ } else if i == 16 { "dl"@ } else if i == 17 { "dt"@ }
    else if i == 18 { "fieldset"@ } else if i == 19 { "figcaption"@ } else if i == 20 { "figure"@ }
    else if i == 21 { "footer"@ } else if i == 22 { "form"@ } else if i == 23 { "frame"@ }
    else if i == 24 { "frameset"@ } else if i == 25 { "h1"@ } else if i == 26 { "h2"@ }
    else if i == 27 { "h3"@ } else if i == 28 { "h4"@ } else if i == 29 { "h5"@ }
    else if i == 30 { "h6"@ } else if i == 31 { "head"@ } else if i == 32 { "header"@ }
    else if i == 33 { "hr"@ } else if i == 34 { "html"@ } else if i == 35 { "iframe"@ }
    else if i == 36 { "legend"@ } else if i == 37 { "li"@ } else if i == 38 { "link"@ }
    else if i == 39 { "main"@ } else if i == 40 { "menu"@ } else if i == 41 { "menuitem"@ }
    else if i == 42 { "nav"@ } else if i == 43 { "noframes"@ } else if i == 44 { "ol"@ }
    else if i == 45 { "optgroup"@ } else if i == 46 { "option"@ } else if i == 47 { "p"@ }
    else if i == 48 { "param"@ } else if i == 49 { "search"@ } else if i == 50 { "section"@ }
    else if i == 51 { "summary"@ } else if i == 52 { "table"@ } else if i == 53 { "tbody"@ }
    else if i == 54 { "td"@ } else if i == 55 { "tfoot"@ } else if i == 56 { "th"@ }
    else if i == 57 { "thead"@ } else if i == 58 { "title"@ } else if i == 59 { "tr"@ }
    else if i == 60 { "track"@ } else { "ul"@ }
}

/// How many block tags there are.
pub open spec fn block_tag_count() -> int {
    62
}

fn block_tag_exec(i: usize) -> (r: &'static str)
    requires
        i < 62,
    ensures
        r@ == block_tag(i as int),
{
    match i {
        0 => "address", 1 => "article", 2 => "aside", 3 => "base", 4 => "basefont",
        5 => "blockquote", 6 => "body", 7 => "caption", 8 => "center", 9 => "col",
        10 => "colgroup", 11 => "dd", 12 => "details", 13 => "dialog", 14 => "dir",
        15 => "div", 16 => "dl", 17 => "dt", 18 => "fieldset", 19 => "figcaption",
        20 => "figure", 21 => "footer", 22 => "form", 23 => "frame", 24 => "frameset",
        25 => "h1", 26 => "h2", 27 => "h3", 28 => "h4", 29 => "h5", 30 => "h6",
        31 => "head", 32 => "header", 33 => "hr", 34 => "html", 35 => "iframe",
        36 => "legend", 37 => "li", 38 => "link", 39 => "main", 40 => "menu",
        41 => "menuitem", 42 => "nav", 43 => "noframes", 44 => "ol", 45 => "optgroup",
        46 => "option", 47 => "p", 48 => "param", 49 => "search", 50 => "section",
        51 => "summary", 52 => "table", 53 => "tbody", 54 => "td", 55 => "tfoot",
        56 => "th", 57 => "thead", 58 => "title", 59 => "tr", 60 => "track", _ => "ul",
    }
}

/// The names of the verbatim (type 1) tags, by index.
pub open spec fn verbatim_tag(i: int) -> Seq<char> {
    if i == 0 { "pre"@ } else if i == 1 { "script"@ } else if i == 2 { "style"@ } else { "textarea"@ }
}

fn verbatim_tag_exec(i: usize) -> (r: &'static str)
    requires
        i < 4,
    ensures
        r@ == verbatim_tag(i as int),
{
    match i {
        0 => "pre",
        1 => "script",
        2 => "style",
        _ => "textarea",
    }
}

/// `s[from..to]` equals `tag` ignoring ASCII case.
pub open spec fn eq_ignore_case(s: Seq<u8>, from: int, to: int, tag: Seq<u8>) -> bool {
    to - from == tag.len() && forall|k: int| 0 <= k < tag.len() ==> lower(#[trigger] s[from + k]) == lower(tag[k])
}

/// `s[from..to]` names a block tag.
pub open spec fn is_block_tag(s: Seq<u8>, from: int, to: int) -> bool {
    exists|i: int| 0 <= i < block_tag_count() && eq_ignore_case(s, from, to, #[trigger] vstd::utf8::encode_utf8(block_tag(i)))
}

/// `s[from..to]` names a verbatim tag.
pub open spec fn is_verbatim_tag(s: Seq<u8>, from: int, to: int) -> bool {
    exists|i: int| 0 <= i < 4 && eq_ignore_case(s, from, to, #[trigger] vstd::utf8::encode_utf8(verbatim_tag(i)))
}

fn eq_ignore_case_exec(s: &[u8], from: usize, to: usize, tag: &[u8]) -> (r: bool)
    requires
        from <= to <= s.len(),
    ensures
        r == eq_ignore_case(s@, from as int, to as int, tag@),
{
    if to - from != tag.len() {
        return false;
    }
    let mut k: usize = 0;
    while k < tag.len()
        invariant
            k <= tag.len(),
            to - from == tag.len(),
            to <= s.len(),
            forall|j: int| 0 <= j < k ==> lower(#[trigger] s@[from + j]) == lower(tag@[j]),
        decreases tag.len() - k,
    {
        if to_lower(s[from + k]) != to_lower(tag[k]) {
            return false;
        }
        k = k + 1;
    }
    true
}

/// Case-insensitive membership in the block-tag table.
fn block_tag_in(s: &[u8], from: usize, to: usize) -> (r: bool)
    requires
        from <= to <= s.len(),
    ensures
        r == is_block_tag(s@, from as int, to as int),
{
    let mut i: usize = 0;
    while i < 62
        invariant
            i <= 62,
            from <= to <= s.len(),
            forall|j: int| 0 <= j < i ==> !eq_ignore_case(s@, from as int, to as int, #[trigger] vstd::utf8::encode_utf8(block_tag(j))),
        decreases 62 - i,
    {
        let tag = block_tag_exec(i);
        if eq_ignore_case_exec(s, from, to, tag.as_bytes()) {
            return true;
        }
        i = i + 1;
    }
    false
}

/// Case-insensitive membership in the verbatim-tag table.
fn verbatim_tag_in(s: &[u8], from: usize, to: usize) -> (r: bool)
    requires
        from <= to <= s.len(),
    ensures
        r == is_verbatim_tag(s@, from as int, to as int),
{
    let mut i: usize = 0;
    while i < 4
        invariant
            i <= 4,
            from <= to <= s.len(),
            forall|j: int| 0 <= j < i ==> !eq_ignore_case(s@, from as int, to as int, #[trigger] vstd::utf8::encode_utf8(verbatim_tag(j))),
        decreases 4 - i,
    {
        let tag = verbatim_tag_exec(i);
        if eq_ignore_case_exec(s, from, to, tag.as_bytes()) {
            return true;
        }
        i = i + 1;
    }
    false
}

/// A byte of an HTML block tag name.
pub open spec fn tag_name_pred() -> spec_fn(u8) -> bool {
    |b: u8| is_alnum(b) || b == 45
}

/// HTML block start (CommonMark 4.6): the block type 1–7.
/// Type 7 never interrupts a paragraph, so it is not reported when `paragraph_open`.
pub open spec fn spec_html_block_start(s: Seq<u8>, paragraph_open: bool) -> Option<u8> {
    if s.len() == 0 || s[0] != 60 {
        None
    } else if s.len() >= 4 && s[1] == 33 && s[2] == 45 && s[3] == 45 {
        Some(2u8)
    } else if s.len() >= 2 && s[1] == 63 {
        Some(3u8)
    } else if s.len() >= 9 && s[1] == 33 && s[2] == 91 && s[3] == 67 && s[4] == 68 && s[5] == 65
        && s[6] == 84 && s[7] == 65 && s[8] == 91 {
        Some(5u8)
    } else if s.len() >= 3 && s[1] == 33 && is_alpha(s[2]) {
        Some(4u8)
    } else {
        let closing = s.len() >= 2 && s[1] == 47;
        let ns: int = if closing { 2 } else { 1 };
        let ne = run_end(s, ns, tag_name_pred());
        let after_ws_or_gt = ne < s.len() && (s[ne] == 32 || s[ne] == 9 || s[ne] == 62);
        if ne == ns {
            None
        } else if !closing && is_verbatim_tag(s, ns, ne) && (ne == s.len() || after_ws_or_gt) {
            Some(1u8)
        } else if is_block_tag(s, ns, ne) && (ne == s.len() || after_ws_or_gt || (!closing && ne
            + 1 < s.len() && s[ne] == 47 && s[ne + 1] == 62)) {
            Some(6u8)
        } else if !paragraph_open && (match spec_tag_end(s, ne, closing, false) {
            Some(e) => blank_between(s, e, s.len() as int),
            None => false,
        }) {
            Some(7u8)
        } else {
            None
        }
    }
}

/// HTML block start (CommonMark 4.6).
/// Returns the block type 1–7.
/// Type 7 never interrupts a paragraph, so it is skipped when `paragraph_open`.
#[verifier::loop_isolation(false)]
pub fn html_block_start(tail: &[u8], paragraph_open: bool) -> (r: Option<u8>)
    ensures
        r == spec_html_block_start(tail@, paragraph_open),
{
    let n = tail.len();
    if n == 0 || tail[0] != 60 {
        return None;
    }
    if n >= 4 && tail[1] == 33 && tail[2] == 45 && tail[3] == 45 {
        return Some(2);
    }
    if n >= 2 && tail[1] == 63 {
        return Some(3);
    }
    if n >= 9 && tail[1] == 33 && tail[2] == 91 && tail[3] == 67 && tail[4] == 68 && tail[5] == 65
        && tail[6] == 84 && tail[7] == 65 && tail[8] == 91 {
        return Some(5);
    }
    if n >= 3 && tail[1] == 33 && alpha(tail[2]) {
        return Some(4);
    }
    let closing = n >= 2 && tail[1] == 47;
    let ns: usize = if closing { 2 } else { 1 };
    let mut ne = ns;
    while ne < n && (alnum(tail[ne]) || tail[ne] == 45)
        invariant
            ns <= ne <= n,
            run_end(tail@, ne as int, tag_name_pred()) == run_end(tail@, ns as int, tag_name_pred()),
        decreases n - ne,
    {
        ne = ne + 1;
    }
    if ne == ns {
        return None;
    }
    let after_ws_or_gt = ne < n && (tail[ne] == 32 || tail[ne] == 9 || tail[ne] == 62);
    if !closing && verbatim_tag_in(tail, ns, ne) && (ne == n || after_ws_or_gt) {
        return Some(1);
    }
    if block_tag_in(tail, ns, ne) && (ne == n || after_ws_or_gt || (!closing && ne + 1 < n
        && tail[ne] == 47 && tail[ne + 1] == 62)) {
        return Some(6);
    }
    if !paragraph_open {
        match tag_end(tail, ne, closing, false) {
            Some(e) => {
                if is_blank_from(tail, e) {
                    return Some(7);
                }
            },
            None => {},
        }
    }
    None
}

/// `pat` occurs somewhere in `s`.
pub open spec fn contains_seq(s: Seq<u8>, pat: Seq<u8>) -> bool {
    exists|i: int| #[trigger] occurs_at(s, i, pat)
}

fn contains_exec(s: &[u8], pat: &[u8]) -> (r: bool)
    requires
        0 < pat.len() <= 3,
    ensures
        r == contains_seq(s@, pat@),
{
    let mut i: usize = 0;
    while pat.len() <= s.len() - i
        invariant
            forall|j: int| 0 <= j < i ==> !#[trigger] occurs_at(s@, j, pat@),
            i <= s.len(),
        decreases s.len() - i,
    {
        let mut k: usize = 0;
        let mut ok = true;
        while k < pat.len()
            invariant
                k <= pat.len(),
                i + pat.len() <= s.len(),
                ok == forall|j: int| 0 <= j < k ==> s@[i + j] == pat@[j],
            decreases pat.len() - k,
        {
            if s[i + k] != pat[k] {
                ok = false;
            }
            k = k + 1;
        }
        if ok {
            assert(s@.subrange(i as int, i + pat@.len()) =~= pat@);
            assert(occurs_at(s@, i as int, pat@));
            return true;
        }
        proof {
            assert(!occurs_at(s@, i as int, pat@)) by {
                if s@.subrange(i as int, i + pat@.len()) == pat@ {
                    let j = choose|j: int| 0 <= j < pat.len() && s@[i + j] != pat@[j];
                    assert(s@.subrange(i as int, i + pat@.len())[j] == s@[i + j]);
                }
            }
        }
        i = i + 1;
    }
    proof {
        assert forall|j: int| !#[trigger] occurs_at(s@, j, pat@) by {
            if j >= i && occurs_at(s@, j, pat@) {
                assert(false);
            }
        }
    }
    false
}

/// The end condition of a verbatim (type 1) block at `i`: `</`, a verbatim tag name, then `>` at once.
pub open spec fn raw_end_at(s: Seq<u8>, i: int) -> bool {
    0 <= i && i + 1 < s.len() && s[i] == 60 && s[i + 1] == 47 && {
        let e = run_end(s, i + 2, |b: u8| is_alpha(b));
        e < s.len() && s[e] == 62 && is_verbatim_tag(s, i + 2, e)
    }
}

/// Whether `tail` holds the end condition of an HTML block of `kind`
/// (types 1–5 end mid-line; 6 and 7 end at blank lines).
pub open spec fn spec_html_block_end(s: Seq<u8>, kind: u8) -> bool {
    if kind == 1 {
        exists|i: int| #[trigger] raw_end_at(s, i)
    } else if kind == 2 {
        contains_seq(s, seq![45u8, 45, 62])
    } else if kind == 3 {
        contains_seq(s, seq![63u8, 62])
    } else if kind == 4 {
        contains_seq(s, seq![62u8])
    } else if kind == 5 {
        contains_seq(s, seq![93u8, 93, 62])
    } else {
        false
    }
}

/// Whether `tail` contains the end condition of an HTML block of `kind`
/// (types 1–5 end mid-line; 6 and 7 end at blank lines, handled by the engine).
/// A type 1 block ends at `</` + a whole verbatim tag name with `>` immediately after,
/// anywhere in the line, case-insensitively.
#[verifier::loop_isolation(false)]
pub fn html_block_end(tail: &[u8], kind: u8) -> (r: bool)
    ensures
        r == spec_html_block_end(tail@, kind),
{
    if kind == 1 {
        let mut i: usize = 0;
        while i < tail.len()
            invariant
                i <= tail.len(),
                forall|j: int| 0 <= j < i ==> !#[trigger] raw_end_at(tail@, j),
            decreases tail.len() - i,
        {
            if i + 1 < tail.len() && tail[i] == 60 && tail[i + 1] == 47 {
                let mut e = i + 2;
                while e < tail.len() && alpha(tail[e])
                    invariant
                        i + 2 <= e <= tail.len(),
                        run_end(tail@, e as int, |b: u8| is_alpha(b)) == run_end(
                            tail@,
                            i + 2,
                            |b: u8| is_alpha(b),
                        ),
                    decreases tail.len() - e,
                {
                    e = e + 1;
                }
                if e < tail.len() && tail[e] == 62 && verbatim_tag_in(tail, i + 2, e) {
                    assert(raw_end_at(tail@, i as int));
                    return true;
                }
            }
            i = i + 1;
        }
        proof {
            assert forall|j: int| !#[trigger] raw_end_at(tail@, j) by {
                if j >= tail.len() {
                }
            }
        }
        false
    } else if kind == 2 {
        let pat = [45u8, 45, 62];
        let r = contains_exec(tail, &pat);
        assert(pat@ =~= seq![45u8, 45, 62]);
        r
    } else if kind == 3 {
        let pat = [63u8, 62];
        let r = contains_exec(tail, &pat);
        assert(pat@ =~= seq![63u8, 62]);
        r
    } else if kind == 4 {
        let pat = [62u8];
        let r = contains_exec(tail, &pat);
        assert(pat@ =~= seq![62u8]);
        r
    } else if kind == 5 {
        let pat = [93u8, 93, 62];
        let r = contains_exec(tail, &pat);
        assert(pat@ =~= seq![93u8, 93, 62]);
        r
    } else {
        false
    }
}

} // verus!
