//! GFM autolink literals (`www.…`, `http[s]://…`, bare emails),
//! following micromark-extension-gfm-autolink-literal's state machine:
//! previous-character gates, the underscore rule for the domain's last two segments,
//! balanced-paren paths, and trailing-punctuation trimming via lookahead.
//!
//! Non-boundary breaks below use [`is_whitespace`]:
//! micromark checks `markdownLineEndingOrSpace(code) || unicodeWhitespace(code)`,
//! which is exactly JS `\s`, not Rust's `char::is_whitespace`.
use vstd::prelude::*;
use crate::syntax::{alnum, alpha, is_alnum, is_alpha, lemma_run_end, lower, run_end, to_lower};
use crate::syntax::unicode::{
    char_at, is_punctuation, is_whitespace, lemma_char_ascii, spec_char_at, spec_char_len,
    spec_is_punctuation, spec_is_whitespace,
};

verus! {

/// The kind of an autolink literal.
///
/// Derived with the same disambiguation the parser used
/// (an `@`-run that scans as a full email wins over `www.`);
/// public so renderers/printers derive the href scheme identically.
#[derive(Clone, Copy, Debug, PartialEq, Eq, Structural)]
pub enum LiteralKind {
    /// `http://` / `https://`: the text already carries its scheme.
    Http,
    /// `www.…`: prepend `http://`.
    Www,
    /// Bare email: prepend `mailto:`.
    Email,
}

pub open spec fn alpha_pred() -> spec_fn(u8) -> bool {
    |x: u8| is_alpha(x)
}

/// Trailing punctuation that `trail_check` steps over one at a time:
/// ``! " ' ) * , . : ; ? _ ~``.
pub open spec fn is_trail_simple(v: u32) -> bool {
    v == 33 || v == 34 || v == 39 || v == 41 || v == 42 || v == 44 || v == 46 || v == 58 || v == 59
        || v == 63 || v == 95 || v == 126
}

/// The characters that make a path ask whether the rest is trailing punctuation:
/// ``! " & ' ) * , . : ; < ? ] _ ~``.
pub open spec fn is_path_trail(v: u32) -> bool {
    is_trail_simple(v) || v == 38 || v == 60 || v == 93
}

/// Whether everything from `i` to whitespace, the end or `<` is trailing punctuation
/// (`Ok`), or how far the scan reached before meeting anything else (`Err`).
/// An `&`, letters and `;` count as trailing punctuation; a `]` ends the scan
/// successfully before `(`, `[`, whitespace or the end.
pub open spec fn spec_trail_check(b: Seq<u8>, i: int) -> Result<(), int>
    decreases b.len() - i,
{
    match spec_char_at(b, i) {
        None => Ok(()),
        Some(c) => {
            let v = c as u32;
            if v == 60 || spec_is_whitespace(c) {
                Ok(())
            } else if is_trail_simple(v) {
                spec_trail_check(b, i + 1)
            } else if v == 38 {
                let e = run_end(b, i + 1, alpha_pred());
                if e == i + 1 || e >= b.len() || b[e] != 59 {
                    Err(e)
                } else if e + 1 > i {
                    spec_trail_check(b, e + 1)
                } else {
                    Err(e)
                }
            } else if v == 93 {
                match spec_char_at(b, i + 1) {
                    None => Ok(()),
                    Some(d) => if d as u32 == 40 || d as u32 == 91 || spec_is_whitespace(d) {
                        Ok(())
                    } else {
                        spec_trail_check(b, i + 1)
                    },
                }
            } else {
                Err(i)
            }
        },
    }
}

/// The outcome of a domain: its end, when it saw something besides dots and underscores
/// and its last two segments hold no underscore.
pub open spec fn finish_domain(i: int, underscore_last: bool, underscore_prev: bool, seen: bool) -> Option<int> {
    if !underscore_prev && !underscore_last && seen {
        Some(i)
    } else {
        None
    }
}

/// The domain run from `i`: it stops at whitespace, at punctuation other than `-`,
/// and at a `.` or `_` after which only trailing punctuation follows.
pub open spec fn spec_domain(b: Seq<u8>, i: int, ul: bool, up: bool, seen: bool) -> Option<int>
    decreases b.len() - i,
{
    match spec_char_at(b, i) {
        None => finish_domain(i, ul, up, seen),
        Some(c) => {
            let v = c as u32;
            if v == 46 || v == 95 {
                if spec_trail_check(b, i) is Ok {
                    finish_domain(i, ul, up, seen)
                } else if v == 95 {
                    spec_domain(b, i + 1, true, up, seen)
                } else {
                    spec_domain(b, i + 1, false, ul, seen)
                }
            } else if spec_is_whitespace(c) || (v != 45 && spec_is_punctuation(c)) {
                finish_domain(i, ul, up, seen)
            } else {
                let n = spec_char_len(b, i);
                if n >= 1 {
                    spec_domain(b, i + n, ul, up, true)
                } else {
                    None
                }
            }
        },
    }
}

/// The path run from `i`, with `open` and `close` parentheses seen so far: it stops at whitespace
/// and at a trailing-punctuation character after which only trailing punctuation follows;
/// a `)` that closes an earlier `(` always belongs to it.
pub open spec fn spec_path(b: Seq<u8>, i: int, open: int, close: int) -> int
    decreases b.len() - i,
{
    match spec_char_at(b, i) {
        None => i,
        Some(c) => {
            let v = c as u32;
            if v == 40 {
                spec_path(b, i + 1, open + 1, close)
            } else if v == 41 && close < open {
                spec_path(b, i + 1, open, close + 1)
            } else if is_path_trail(v) {
                if spec_trail_check(b, i) is Ok {
                    i
                } else if v == 41 {
                    spec_path(b, i + 1, open, close + 1)
                } else {
                    spec_path(b, i + 1, open, close)
                }
            } else if spec_is_whitespace(c) {
                i
            } else {
                let n = spec_char_len(b, i);
                if n >= 1 {
                    spec_path(b, i + n, open, close)
                } else {
                    i
                }
            }
        },
    }
}

/// A byte of an email's local part: an ASCII letter or digit, `+`, `-`, `.` or `_`.
pub open spec fn is_atext(x: u32) -> bool {
    (x < 128 && is_alnum(x as u8)) || x == 43 || x == 45 || x == 46 || x == 95
}

pub open spec fn atext_pred() -> spec_fn(u8) -> bool {
    |x: u8| is_atext(x as u32)
}

/// The email domain from `i`: letters, digits, `-` and `_` (which count as data),
/// and dots that are followed by a letter or digit. Ends with the position and the two flags.
pub open spec fn spec_email_domain(b: Seq<u8>, i: int, data: bool, dot: bool) -> (int, bool, bool)
    decreases b.len() - i,
{
    if i < 0 || i >= b.len() {
        (i, data, dot)
    } else if b[i] == 46 {
        if i + 1 < b.len() && is_alnum(b[i + 1]) {
            spec_email_domain(b, i + 1, data, true)
        } else {
            (i, data, dot)
        }
    } else if b[i] == 45 || b[i] == 95 || is_alnum(b[i]) {
        spec_email_domain(b, i + 1, true, dot)
    } else {
        (i, data, dot)
    }
}

/// A bare email at `pos`: not after `/` or an email character; a local part, `@`, and a domain
/// with at least one inner dot that ends with a letter.
pub open spec fn spec_email(b: Seq<u8>, pos: int, prev: Option<char>) -> Option<int> {
    if prev matches Some(c) && (c as u32 == 47 || is_atext(c as u32)) {
        None
    } else {
        let i = run_end(b, pos, atext_pred());
        if i == pos || i >= b.len() || b[i] != 64 {
            None
        } else {
            let (e, data, dot) = spec_email_domain(b, i + 1, false, false);
            if data && dot && 0 < e <= b.len() && is_alpha(b[e - 1]) {
                Some(e)
            } else {
                None
            }
        }
    }
}

/// micromark's `previousWww`: the start, `(`, `*`, `_`, `[`, `]`, `~`, space, tab or line ending.
pub open spec fn www_prev_ok(prev: Option<char>) -> bool {
    match prev {
        None => true,
        Some(c) => {
            let v = c as u32;
            v == 40 || v == 42 || v == 95 || v == 91 || v == 93 || v == 126 || v == 32 || v == 9 || v == 10
        },
    }
}

pub open spec fn is_w(x: u8) -> bool {
    x == 119 || x == 87
}

/// `www.` (any case) after an admitted character, a domain, then a path.
pub open spec fn spec_www(b: Seq<u8>, pos: int, prev: Option<char>) -> Option<int> {
    if !www_prev_ok(prev) || pos < 0 || pos + 4 >= b.len() || !is_w(b[pos]) || !is_w(b[pos + 1])
        || !is_w(b[pos + 2]) || b[pos + 3] != 46 {
        None
    } else {
        match spec_domain(b, pos + 4, false, false, false) {
            None => None,
            Some(d) => Some(spec_path(b, d, 0, 0)),
        }
    }
}

/// `b[pos..end]` spells `http` or `https`, in any case.
pub open spec fn is_http_scheme(b: Seq<u8>, pos: int, end: int) -> bool {
    &&& 0 <= pos
    &&& (end - pos == 4 || end - pos == 5)
    &&& end <= b.len()
    &&& lower(b[pos]) == 104 && lower(b[pos + 1]) == 116 && lower(b[pos + 2]) == 116
    &&& lower(b[pos + 3]) == 112
    &&& (end - pos == 5 ==> lower(b[pos + 4]) == 115)
}

/// The letters scanned for a scheme: at most five.
pub open spec fn scheme_end(b: Seq<u8>, pos: int) -> int {
    let e = run_end(b, pos, alpha_pred());
    if e - pos > 5 { pos + 5 } else { e }
}

/// `http://` or `https://` (any case) not after a letter, a character that is no whitespace,
/// control or punctuation, a domain, then a path.
pub open spec fn spec_http(b: Seq<u8>, pos: int, prev: Option<char>) -> Option<int> {
    let i = scheme_end(b, pos);
    if prev matches Some(c) && (c as u32) < 128 && is_alpha((c as u32) as u8) {
        None
    } else if !is_http_scheme(b, pos, i) || i + 3 > b.len() || b[i] != 58 || b[i + 1] != 47
        || b[i + 2] != 47 {
        None
    } else {
        match spec_char_at(b, i + 3) {
            None => None,
            Some(next) => if spec_is_whitespace(next) || (next as u32) < 32 || next as u32 == 127
                || spec_is_punctuation(next) {
                None
            } else {
                match spec_domain(b, i + 3, false, false, false) {
                    None => None,
                    Some(d) => Some(spec_path(b, d, 0, 0)),
                }
            },
        }
    }
}

/// An autolink literal at `pos`: an email first, then `http…` at an `h`, `www.` at a `w`.
pub open spec fn spec_scan(b: Seq<u8>, pos: int, prev: Option<char>) -> Option<int> {
    match spec_email(b, pos, prev) {
        Some(e) => Some(e),
        None => if b[pos] == 104 || b[pos] == 72 {
            spec_http(b, pos, prev)
        } else if b[pos] == 119 || b[pos] == 87 {
            spec_www(b, pos, prev)
        } else {
            None
        },
    }
}

/// `b` starts with `http://` or `https://`, in any case.
pub open spec fn has_http_prefix(b: Seq<u8>) -> bool {
    ||| b.len() >= 7 && lower(b[0]) == 104 && lower(b[1]) == 116 && lower(b[2]) == 116 && lower(b[3])
        == 112 && b[4] == 58 && b[5] == 47 && b[6] == 47
    ||| b.len() >= 8 && lower(b[0]) == 104 && lower(b[1]) == 116 && lower(b[2]) == 116 && lower(b[3])
        == 112 && lower(b[4]) == 115 && b[5] == 58 && b[6] == 47 && b[7] == 47
}

/// The kind of a matched literal: `Http` for an `http[s]://` prefix, `Email` when the text
/// holds an `@` and is one whole email, `Www` otherwise.
pub open spec fn spec_literal_kind(b: Seq<u8>) -> LiteralKind {
    if has_http_prefix(b) {
        LiteralKind::Http
    } else if (exists|k: int| 0 <= k < b.len() && b[k] == 64) && spec_email(b, 0, None) == Some(
        b.len() as int,
    ) {
        LiteralKind::Email
    } else {
        LiteralKind::Www
    }
}

/// A failed trailing check stops no earlier than where it started, and within the text.
pub proof fn lemma_trail_bounds(b: Seq<u8>, i: int)
    requires
        0 <= i,
    ensures
        spec_trail_check(b, i) matches Err(s) ==> i <= s <= b.len(),
    decreases b.len() - i,
{
    if let Some(c) = spec_char_at(b, i) {
        let v = c as u32;
        if v == 60 || spec_is_whitespace(c) {
        } else if is_trail_simple(v) {
            lemma_trail_bounds(b, i + 1);
        } else if v == 38 {
            lemma_run_end(b, i + 1, alpha_pred());
            let e = run_end(b, i + 1, alpha_pred());
            if !(e == i + 1 || e >= b.len() || b[e] != 59) {
                lemma_trail_bounds(b, e + 1);
            }
        } else if v == 93 {
            lemma_trail_bounds(b, i + 1);
        }
    }
}

/// A failed trailing check fails identically from every trailing-punctuation
/// character it passed: what lets the scans below skip repeating it.
pub proof fn lemma_trail_region(b: Seq<u8>, j: int, p: int, s: int)
    requires
        0 <= j <= p < s,
        spec_trail_check(b, j) == Err::<(), int>(s),
        spec_char_at(b, p) matches Some(c) && is_path_trail(c as u32),
    ensures
        spec_trail_check(b, p) == Err::<(), int>(s),
    decreases p - j,
{
    if j < p {
        let c = spec_char_at(b, j)->0;
        let v = c as u32;
        if is_trail_simple(v) {
            lemma_trail_region(b, j + 1, p, s);
        } else if v == 38 {
            lemma_run_end(b, j + 1, alpha_pred());
            let e = run_end(b, j + 1, alpha_pred());
            lemma_char_ascii(b, p);
            if e == j + 1 || e >= b.len() || b[e] != 59 {
                assert(is_alpha(b[p]));
            } else if p < e {
                assert(is_alpha(b[p]));
            } else if p == e {
                assert(spec_trail_check(b, p) == spec_trail_check(b, p + 1));
            } else {
                lemma_trail_region(b, e + 1, p, s);
            }
        } else if v == 93 {
            lemma_trail_region(b, j + 1, p, s);
        }
    }
}

fn trail_simple(v: u32) -> (r: bool)
    ensures
        r == is_trail_simple(v),
{
    v == 33 || v == 34 || v == 39 || v == 41 || v == 42 || v == 44 || v == 46 || v == 58 || v == 59
        || v == 63 || v == 95 || v == 126
}

fn path_trail(v: u32) -> (r: bool)
    ensures
        r == is_path_trail(v),
{
    trail_simple(v) || v == 38 || v == 60 || v == 93
}

fn atext(x: u32) -> (r: bool)
    ensures
        r == is_atext(x),
{
    (x < 128 && alnum(x as u8)) || x == 43 || x == 45 || x == 46 || x == 95
}

/// Whether everything from `i` to whitespace/EOF/`<` is trailing punctuation (and thus not part of the link).
/// `Err` carries how far the scan reached.
/// A failed check fails identically for every trail-class position before that point,
/// so callers memoize it to stay linear on long punctuation runs.
/// (The `&…;` shape trims regardless of whether it names a real entity.)
fn trail_check(b: &[u8], start: usize) -> (r: Result<(), usize>)
    requires
        start <= b.len(),
    ensures
        r is Ok <==> spec_trail_check(b@, start as int) is Ok,
        r matches Err(s) ==> spec_trail_check(b@, start as int) == Err::<(), int>(s as int) && start <= s <= b.len(),
{
    let mut i = start;
    loop
        invariant
            start <= i <= b.len(),
            spec_trail_check(b@, i as int) == spec_trail_check(b@, start as int),
        decreases b.len() - i,
    {
        let c = match char_at(b, i) {
            None => return Ok(()),
            Some((c, _)) => c,
        };
        let v = c as u32;
        if v == 60 || is_whitespace(c) {
            return Ok(());
        }
        if trail_simple(v) {
            i = i + 1;
        } else if v == 38 {
            let amp = i;
            let mut e = i + 1;
            while e < b.len() && alpha(b[e])
                invariant
                    amp < e <= b.len(),
                    run_end(b@, e as int, alpha_pred()) == run_end(b@, amp + 1, alpha_pred()),
                decreases b.len() - e,
            {
                e = e + 1;
            }
            if e == amp + 1 || e >= b.len() || b[e] != 59 {
                return Err(e);
            }
            i = e + 1;
        } else if v == 93 {
            i = i + 1;
            match char_at(b, i) {
                None => return Ok(()),
                Some((d, _)) => {
                    if d as u32 == 40 || d as u32 == 91 || is_whitespace(d) {
                        return Ok(());
                    }
                },
            }
        } else {
            return Err(i);
        }
    }
}

/// Domain run;
/// fails on an underscore in the last two dot-separated segments
/// or when nothing substantial was consumed.
#[verifier::loop_isolation(false)]
fn domain(b: &[u8], start: usize) -> (r: Option<usize>)
    requires
        start <= b.len(),
    ensures
        r matches Some(e) ==> spec_domain(b@, start as int, false, false, false) == Some(e as int)
            && start <= e <= b.len(),
        r is None ==> spec_domain(b@, start as int, false, false, false) is None,
{
    let mut underscore_last = false;
    let mut underscore_prev = false;
    let mut seen = false;
    let mut not_trail_until: usize = 0;
    let mut i = start;
    loop
        invariant
            start <= i <= b.len(),
            spec_domain(b@, i as int, underscore_last, underscore_prev, seen) == spec_domain(
                b@,
                start as int,
                false,
                false,
                false,
            ),
            i < not_trail_until ==> spec_trail_check(b@, i as int) == Err::<(), int>(not_trail_until as int),
        decreases b.len() - i,
    {
        let (c, n) = match char_at(b, i) {
            None => break,
            Some(x) => x,
        };
        let v = c as u32;
        if v == 46 || v == 95 {
            if i >= not_trail_until {
                match trail_check(b, i) {
                    Ok(()) => break,
                    Err(scanned_to) => not_trail_until = scanned_to,
                }
            }
            assert(spec_trail_check(b@, i as int) == spec_trail_check(b@, i + 1));
            if v == 95 {
                underscore_last = true;
            } else {
                underscore_prev = underscore_last;
                underscore_last = false;
            }
            i = i + 1;
        } else if is_whitespace(c) || (v != 45 && is_punctuation(c)) {
            break;
        } else {
            seen = true;
            i = i + n;
        }
    }
    if !underscore_prev && !underscore_last && seen {
        Some(i)
    } else {
        None
    }
}

/// Path run: parens balance;
/// a trail-class character ends the path when everything after it (to whitespace/EOF/`<`) is trail.
#[verifier::loop_isolation(false)]
fn path(b: &[u8], start: usize) -> (r: usize)
    requires
        start <= b.len(),
    ensures
        r as int == spec_path(b@, start as int, 0, 0),
        start <= r <= b.len(),
{
    let mut open: usize = 0;
    let mut close: usize = 0;
    let mut not_trail_until: usize = 0;
    let ghost mut memo_start: int = 0;
    let mut i = start;
    loop
        invariant
            start <= i <= b.len(),
            open + close <= i - start,
            spec_path(b@, i as int, open as int, close as int) == spec_path(b@, start as int, 0, 0),
            i < not_trail_until ==> 0 <= memo_start <= i && spec_trail_check(b@, memo_start) == Err::<(), int>(
                not_trail_until as int,
            ),
        decreases b.len() - i,
    {
        let (c, n) = match char_at(b, i) {
            None => break,
            Some(x) => x,
        };
        let v = c as u32;
        if v == 40 {
            open = open + 1;
            i = i + 1;
        } else if v == 41 && close < open {
            close = close + 1;
            i = i + 1;
        } else if path_trail(v) {
            if i >= not_trail_until {
                match trail_check(b, i) {
                    Ok(()) => break,
                    Err(scanned_to) => {
                        not_trail_until = scanned_to;
                        proof {
                            memo_start = i as int;
                        }
                    },
                }
            } else {
                proof {
                    lemma_trail_region(b@, memo_start, i as int, not_trail_until as int);
                }
            }
            if v == 41 {
                close = close + 1;
            }
            i = i + 1;
        } else if is_whitespace(c) {
            break;
        } else {
            i = i + n;
        }
    }
    i
}

#[verifier::loop_isolation(false)]
fn email(b: &[u8], pos: usize, prev: Option<char>) -> (r: Option<usize>)
    requires
        pos <= b.len(),
    ensures
        r matches Some(e) ==> spec_email(b@, pos as int, prev) == Some(e as int) && pos < e <= b.len(),
        r is None ==> spec_email(b@, pos as int, prev) is None,
{
    if let Some(c) = prev {
        if c as u32 == 47 || atext(c as u32) {
            return None;
        }
    }
    let mut i = pos;
    while i < b.len() && atext(b[i] as u32)
        invariant
            pos <= i <= b.len(),
            run_end(b@, i as int, atext_pred()) == run_end(b@, pos as int, atext_pred()),
        decreases b.len() - i,
    {
        i = i + 1;
    }
    if i == pos || i >= b.len() || b[i] != 64 {
        return None;
    }
    let at = i;
    i = i + 1;
    let mut data = false;
    let mut dot = false;
    loop
        invariant
            at < i <= b.len(),
            spec_email_domain(b@, i as int, data, dot) == spec_email_domain(b@, at + 1, false, false),
        decreases b.len() - i,
    {
        if i >= b.len() {
            break;
        }
        let x = b[i];
        if x == 46 {
            // The dot joins the domain only when followed by more of it
            if !(i + 1 < b.len() && alnum(b[i + 1])) {
                break;
            }
            dot = true;
            i = i + 1;
        } else if x == 45 || x == 95 || alnum(x) {
            data = true;
            i = i + 1;
        } else {
            break;
        }
    }
    // The domain must end with a letter
    if data && dot && alpha(b[i - 1]) {
        Some(i)
    } else {
        None
    }
}

fn www(b: &[u8], pos: usize, prev: Option<char>) -> (r: Option<usize>)
    requires
        pos <= b.len(),
    ensures
        r matches Some(e) ==> spec_www(b@, pos as int, prev) == Some(e as int) && pos < e <= b.len(),
        r is None ==> spec_www(b@, pos as int, prev) is None,
{
    // micromark's `previousWww`: a few ASCII punctuation marks
    // or `markdownLineEndingOrSpace` (ASCII space/tab/line ending only, so NBSP blocks the link).
    if let Some(c) = prev {
        let v = c as u32;
        if !(v == 40 || v == 42 || v == 95 || v == 91 || v == 93 || v == 126 || v == 32 || v == 9 || v
            == 10) {
            return None;
        }
    }
    if b.len() - pos <= 4 {
        return None;
    }
    let w0 = b[pos];
    let w1 = b[pos + 1];
    let w2 = b[pos + 2];
    if !((w0 == 119 || w0 == 87) && (w1 == 119 || w1 == 87) && (w2 == 119 || w2 == 87)) || b[pos
        + 3] != 46 {
        return None;
    }
    let d = domain(b, pos + 4)?;
    Some(path(b, d))
}

fn http(b: &[u8], pos: usize, prev: Option<char>) -> (r: Option<usize>)
    requires
        pos <= b.len(),
    ensures
        r matches Some(e) ==> spec_http(b@, pos as int, prev) == Some(e as int) && pos < e <= b.len(),
        r is None ==> spec_http(b@, pos as int, prev) is None,
{
    if let Some(c) = prev {
        if (c as u32) < 128 && alpha(c as u32 as u8) {
            return None;
        }
    }
    let mut i = pos;
    while i < b.len() && alpha(b[i]) && i - pos < 5
        invariant
            pos <= i <= b.len(),
            i - pos <= 5,
            i - pos < 5 ==> run_end(b@, i as int, alpha_pred()) == run_end(b@, pos as int, alpha_pred()),
            i - pos == 5 ==> run_end(b@, pos as int, alpha_pred()) >= pos + 5,
        decreases b.len() - i,
    {
        proof {
            if i - pos == 4 {
                lemma_run_end(b@, i + 1, alpha_pred());
            }
        }
        i = i + 1;
    }
    proof {
        lemma_run_end(b@, pos as int, alpha_pred());
    }
    assert(i as int == scheme_end(b@, pos as int));
    let len = i - pos;
    let is_scheme = (len == 4 || len == 5) && to_lower(b[pos]) == 104 && to_lower(b[pos + 1]) == 116
        && to_lower(b[pos + 2]) == 116 && to_lower(b[pos + 3]) == 112 && (len == 4 || to_lower(
        b[pos + 4],
    ) == 115);
    if !is_scheme {
        return None;
    }
    if b.len() - i < 3 || b[i] != 58 || b[i + 1] != 47 || b[i + 2] != 47 {
        return None;
    }
    i = i + 3;
    let next = match char_at(b, i) {
        None => return None,
        Some((c, _)) => c,
    };
    // micromark's `afterProtocol`: ASCII controls only (`asciiControl`)
    if is_whitespace(next) || (next as u32) < 32 || next as u32 == 127 || is_punctuation(next) {
        return None;
    }
    let d = domain(b, i)?;
    Some(path(b, d))
}

/// Attempts a literal at `pos`, `prev` is the character before it.
/// Returns the end position.
pub fn scan(t: &[u8], pos: usize, prev: Option<char>) -> (r: Option<usize>)
    requires
        pos < t.len(),
    ensures
        r matches Some(e) ==> spec_scan(t@, pos as int, prev) == Some(e as int) && pos < e <= t.len(),
        r is None ==> spec_scan(t@, pos as int, prev) is None,
{
    let first = t[pos];
    if let Some(e) = email(t, pos, prev) {
        return Some(e);
    }
    if first == 104 || first == 72 {
        http(t, pos, prev)
    } else if first == 119 || first == 87 {
        www(t, pos, prev)
    } else {
        None
    }
}

/// Classifies a matched autolink literal.
pub fn literal_kind(text: &[u8]) -> (k: LiteralKind)
    ensures
        k == spec_literal_kind(text@),
{
    let b = text;
    // Byte-wise compare: domains accept non-ASCII characters.
    let http7 = b.len() >= 7 && to_lower(b[0]) == 104 && to_lower(b[1]) == 116 && to_lower(b[2]) == 116
        && to_lower(b[3]) == 112 && b[4] == 58 && b[5] == 47 && b[6] == 47;
    let http8 = b.len() >= 8 && to_lower(b[0]) == 104 && to_lower(b[1]) == 116 && to_lower(b[2]) == 116
        && to_lower(b[3]) == 112 && to_lower(b[4]) == 115 && b[5] == 58 && b[6] == 47 && b[7] == 47;
    if http7 || http8 {
        return LiteralKind::Http;
    }
    let mut has_at = false;
    let mut k: usize = 0;
    while k < b.len()
        invariant
            k <= b.len(),
            has_at <==> exists|j: int| 0 <= j < k && b@[j] == 64,
        decreases b.len() - k,
    {
        if b[k] == 64 {
            has_at = true;
        }
        k = k + 1;
    }
    if has_at {
        if let Some(e) = email(b, 0, None) {
            if e == b.len() {
                return LiteralKind::Email;
            }
        }
    }
    LiteralKind::Www
}

} // verus!
