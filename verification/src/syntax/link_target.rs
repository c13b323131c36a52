//! Link-target productions: destination, title, label
//! (used by both reference definitions and inline link suffixes).
use std::ops::Range;
use vstd::prelude::*;
use super::{escapes_next, skip_ws, spec_escapes_next, spec_skip_ws};

verus! {

/// The step past a backslash at `p`: two bytes when it escapes the next one, else one.
pub open spec fn esc_step(b: Seq<u8>, p: int) -> int {
    if spec_escapes_next(b, p) { 2 } else { 1 }
}

/// `<…>` destination body from `p`: the position just past the closing `>`,
/// or `None` on an unescaped `<`, a line ending, or the end of input.
pub open spec fn angle_dest(b: Seq<u8>, p: int) -> Option<int>
    decreases b.len() - p,
{
    if p < 0 || p >= b.len() {
        None
    } else if b[p] == 92 {
        angle_dest(b, p + esc_step(b, p))
    } else if b[p] == 62 {
        Some(p + 1)
    } else if b[p] == 60 || b[p] == 10 {
        None
    } else {
        angle_dest(b, p + 1)
    }
}

/// A bare destination from `p` with `depth` open parentheses:
/// its end (at whitespace, a control, an unmatched `)` or the end), or `None` when parentheses are unbalanced there.
pub open spec fn bare_dest(b: Seq<u8>, p: int, depth: int) -> Option<int>
    decreases b.len() - p,
{
    if p < 0 || p >= b.len() {
        if depth == 0 { Some(p) } else { None }
    } else if b[p] == 92 {
        bare_dest(b, p + esc_step(b, p), depth)
    } else if b[p] == 40 {
        bare_dest(b, p + 1, depth + 1)
    } else if b[p] == 41 {
        if depth == 0 { Some(p) } else { bare_dest(b, p + 1, depth - 1) }
    } else if b[p] <= 32 || b[p] == 127 {
        if depth == 0 { Some(p) } else { None }
    } else {
        bare_dest(b, p + 1, depth)
    }
}

/// Link destination at `start`: `<…>` or a bare run with balanced parentheses.
/// The end of its range and whether it is angle-bracketed.
pub open spec fn spec_destination(b: Seq<u8>, start: int) -> Option<(int, bool)> {
    if 0 <= start < b.len() && b[start] == 60 {
        match angle_dest(b, start + 1) {
            Some(e) => Some((e, true)),
            None => None,
        }
    } else {
        match bare_dest(b, start, 0) {
            Some(e) => Some((e, false)),
            None => None,
        }
    }
}

/// Link destination at `start`: `<…>` (no unescaped `<`/`>` or line ending)
/// or a bare run with balanced parens, ended by whitespace or a control character.
/// Returns (range including any `<>`, angle flag);
/// `None` for a malformed angle form or unbalanced parens.
/// A bare empty destination yields an empty range; callers decide whether that is acceptable.
#[verifier::loop_isolation(false)]
pub fn destination(t: &[u8], start: usize) -> (r: Option<(Range<usize>, bool)>)
    requires
        start <= t.len(),
    ensures
        r is Some <==> spec_destination(t@, start as int) is Some,
        r matches Some((range, angle)) ==> range.start == start && spec_destination(
            t@,
            start as int,
        ) == Some((range.end as int, angle)) && start <= range.end <= t.len(),
{
    if start < t.len() && t[start] == 60 {
        let mut p = start + 1;
        while p < t.len()
            invariant
                start < p <= t.len(),
                angle_dest(t@, p as int) == angle_dest(t@, start + 1),
            decreases t.len() - p,
        {
            let c = t[p];
            if c == 92 {
                p = p + if escapes_next(t, p) { 2 } else { 1 };
            } else if c == 62 {
                return Some((start..p + 1, true));
            } else if c == 60 || c == 10 {
                return None;
            } else {
                p = p + 1;
            }
        }
        return None;
    }
    let mut p = start;
    let mut depth: usize = 0;
    while p < t.len()
        invariant
            start <= p <= t.len(),
            depth <= p - start,
            bare_dest(t@, p as int, depth as int) == bare_dest(t@, start as int, 0),
        decreases t.len() - p,
    {
        let c = t[p];
        if c == 92 {
            p = p + if escapes_next(t, p) { 2 } else { 1 };
        } else if c == 40 {
            depth = depth + 1;
            p = p + 1;
        } else if c == 41 {
            if depth == 0 {
                break;
            }
            depth = depth - 1;
            p = p + 1;
        } else if c <= 32 || c == 127 {
            break;
        } else {
            p = p + 1;
        }
    }
    if depth == 0 {
        Some((start..p, false))
    } else {
        None
    }
}

/// A title body from `p` closed by `close` (a `(` title rejects a nested unescaped `(`):
/// the position just past the closing byte.
pub open spec fn title_body(b: Seq<u8>, p: int, open: u8, close: u8) -> Option<int>
    decreases b.len() - p,
{
    if p < 0 || p >= b.len() {
        None
    } else if b[p] == 92 {
        title_body(b, p + esc_step(b, p), open, close)
    } else if b[p] == close {
        Some(p + 1)
    } else if b[p] == 40 && open == 40 {
        None
    } else {
        title_body(b, p + 1, open, close)
    }
}

/// The closing byte of a title opener.
pub open spec fn title_close(open: u8) -> u8 {
    if open == 40 { 41u8 } else { open }
}

/// Link/definition title at `start`: `"…"`, `'…'` or `(…)`; the end of its range (quotes included).
pub open spec fn spec_title(b: Seq<u8>, start: int) -> Option<int> {
    if 0 <= start < b.len() && (b[start] == 34 || b[start] == 39 || b[start] == 40) {
        title_body(b, start + 1, b[start], title_close(b[start]))
    } else {
        None
    }
}

/// Link/definition title at `start` (which must hold `"`, `'` or `(`).
/// May span line endings; a `(` title rejects unescaped nested `(`.
/// Returns the range including the quotes.
#[verifier::loop_isolation(false)]
pub fn title(t: &[u8], start: usize) -> (r: Option<Range<usize>>)
    ensures
        r is Some <==> spec_title(t@, start as int) is Some,
        r matches Some(range) ==> range.start == start && spec_title(t@, start as int) == Some(
            range.end as int,
        ) && start < range.end <= t.len(),
{
    if start >= t.len() {
        return None;
    }
    let open = t[start];
    if !(open == 34 || open == 39 || open == 40) {
        return None;
    }
    let close = if open == 40 { 41u8 } else { open };
    let mut p = start + 1;
    while p < t.len()
        invariant
            start < p <= t.len(),
            title_body(t@, p as int, open, close) == title_body(t@, start + 1, open, close),
        decreases t.len() - p,
    {
        let c = t[p];
        if c == 92 {
            p = p + if escapes_next(t, p) { 2 } else { 1 };
        } else if c == close {
            return Some(start..p + 1);
        } else if c == 40 && open == 40 {
            return None;
        } else {
            p = p + 1;
        }
    }
    None
}

/// A label body from `p`: the position of the closing `]`, or `None` on a nested unescaped `[`,
/// the end of input, or a label running past 999 characters.
pub open spec fn label_body(b: Seq<u8>, start: int, p: int) -> Option<int>
    decreases b.len() - p,
{
    if p < 0 || p >= b.len() {
        None
    } else if b[p] == 93 {
        Some(p)
    } else if b[p] == 91 {
        None
    } else {
        let q = if b[p] == 92 { p + esc_step(b, p) } else { p + 1 };
        if char_count(b, start + 1, q) > 999 {
            None
        } else {
            label_body(b, start, q)
        }
    }
}

/// UTF-8 continuation byte.
pub open spec fn is_cont(b: u8) -> bool {
    128 <= b < 192
}

/// The number of characters (non-continuation bytes) in `b[from..to]`.
#[verifier::opaque]
pub open spec fn char_count(b: Seq<u8>, from: int, to: int) -> int
    decreases to - from,
{
    if to <= from {
        0
    } else {
        char_count(b, from, to - 1) + if is_cont(b[to - 1]) { 0int } else { 1 }
    }
}

/// Link label at `start` (holding `[`): the position just past its `]`.
pub open spec fn spec_label_end(b: Seq<u8>, start: int) -> Option<int> {
    match label_body(b, start, start + 1) {
        None => None,
        Some(p) => if spec_skip_ws(b, start + 1, usize::MAX as int) == p || char_count(
            b,
            start + 1,
            p,
        ) > 999 {
            None
        } else {
            Some(p + 1)
        },
    }
}

/// Link label at `start` (which must hold `[`): no unescaped nested `[`,
/// at most 999 characters between the brackets,
/// at least one of them not a space, tab or line ending.
/// Returns the position just past the `]`.
/// The position of the `]` closing the label that starts at `start`.
#[verifier::loop_isolation(false)]
fn label_close(t: &[u8], start: usize) -> (r: Option<usize>)
    requires
        start < t.len(),
    ensures
        r matches Some(p) ==> label_body(t@, start as int, start + 1) == Some(p as int),
        r is None ==> label_body(t@, start as int, start + 1) is None,
{
    reveal(char_count);
    let mut p = start + 1;
    let mut chars: usize = 0;
    while p < t.len()
        invariant
            start < p <= t.len() + 1,
            label_body(t@, start as int, p as int) == label_body(t@, start as int, start + 1),
            chars == char_count(t@, start + 1, p as int),
            chars <= 999,
        decreases t.len() - p,
    {
        let c = t[p];
        if c == 93 {
            return Some(p);
        } else if c == 91 {
            return None;
        }
        let q = if c == 92 { p + if escapes_next(t, p) { 2 } else { 1 } } else { p + 1 };
        let mut more = chars + if 128 <= c && c < 192 { 0 } else { 1 };
        assert(more == char_count(t@, start + 1, p + 1));
        if q > p + 1 {
            let d = t[p + 1];
            more = more + if 128 <= d && d < 192 { 0 } else { 1 };
            assert(more == char_count(t@, start + 1, p + 2));
        }
        if more > 999 {
            return None;
        }
        chars = more;
        p = q;
    }
    None
}

/// Link label at `start` (which must hold `[`): no unescaped nested `[`,
/// at most 999 characters between the brackets,
/// at least one of them not a space, tab or line ending.
/// Returns the position just past the `]`.
#[verifier::loop_isolation(false)]
pub fn label_end(t: &[u8], start: usize) -> (r: Option<usize>)
    requires
        start < t.len(),
    ensures
        r is Some <==> spec_label_end(t@, start as int) is Some,
        r matches Some(e) ==> spec_label_end(t@, start as int) == Some(e as int) && start + 2
            <= e <= t.len() && t@[e - 1] == 93,
{
    reveal(char_count);
    let p = match label_close(t, start) {
        Some(p) => p,
        None => return None,
    };
    proof {
        lemma_label_body(t@, start as int, start + 1);
    }
    let ws_end = skip_ws(t, start + 1, usize::MAX);
    if ws_end == p {
        return None;
    }
    let mut k = start + 1;
    let mut chars: usize = 0;
    while k < p
        invariant
            start + 1 <= k <= p,
            chars == char_count(t@, start + 1, k as int),
            chars <= k - start,
        decreases p - k,
    {
        if !(128 <= t[k] && t[k] < 192) {
            chars = chars + 1;
        }
        k = k + 1;
    }
    if chars > 999 {
        return None;
    }
    Some(p + 1)
}

pub proof fn lemma_label_body(b: Seq<u8>, start: int, p: int)
    requires
        start < p,
    ensures
        label_body(b, start, p) matches Some(e) ==> p <= e < b.len() && b[e] == 93,
    decreases b.len() - p,
{
    reveal(char_count);
    if 0 <= p < b.len() && b[p] != 93 && b[p] != 91 {
        let q = if b[p] == 92 { p + esc_step(b, p) } else { p + 1 };
        if char_count(b, start + 1, q) <= 999 {
            lemma_label_body(b, start, q);
        }
    }
}

/// A footnote label body from `i`: the position of `]` and whether it holds data.
pub open spec fn footnote_body(b: Seq<u8>, start: int, i: int, data: bool) -> Option<(int, bool)>
    decreases b.len() - i,
{
    if i < 0 || i >= b.len() {
        None
    } else if b[i] == 93 {
        Some((i, data))
    } else if b[i] == 91 || b[i] == 32 || b[i] == 9 || b[i] == 10 {
        None
    } else {
        let q = if b[i] == 92 && i + 1 < b.len() && (b[i + 1] == 91 || b[i + 1] == 92 || b[i + 1]
            == 93) {
            i + 2
        } else {
            i + 1
        };
        if char_count(b, start + 2, q) > 999 {
            None
        } else {
            footnote_body(b, start, q, true)
        }
    }
}

/// GFM footnote label at `start`: the label's end and the position past its `]`.
pub open spec fn spec_footnote_label(b: Seq<u8>, start: int) -> Option<(int, int)> {
    if start < 0 || start + 1 >= b.len() || b[start] != 91 || b[start + 1] != 94 {
        None
    } else {
        match footnote_body(b, start, start + 2, false) {
            Some((i, true)) => Some((i, i + 1)),
            _ => None,
        }
    }
}

/// GFM footnote label at `start` (which must hold `[`):
/// `[^…]` with no whitespace, line ending or `[` inside; `\` escapes `[`, `\`, `]`;
/// at least one non-whitespace character, at most 999.
/// Returns (label range, position past the `]`).
#[verifier::loop_isolation(false)]
pub fn footnote_label(t: &[u8], start: usize) -> (r: Option<(Range<usize>, usize)>)
    requires
        start <= t.len() <= isize::MAX,
    ensures
        r is Some <==> spec_footnote_label(t@, start as int) is Some,
        r matches Some((label, end)) ==> label.start == start + 2 && spec_footnote_label(
            t@,
            start as int,
        ) == Some((label.end as int, end as int)) && end == label.end + 1 && end <= t.len()
            && label.start <= label.end && t@[label.end as int] == 93,
{
    reveal(char_count);
    if start + 1 >= t.len() || t[start] != 91 || t[start + 1] != 94 {
        return None;
    }
    let mut i = start + 2;
    let mut data = false;
    let mut chars: usize = 0;
    while i < t.len()
        invariant
            start + 2 <= i <= t.len(),
            chars == char_count(t@, start + 2, i as int),
            chars <= 999,
            footnote_body(t@, start as int, i as int, data) == footnote_body(
                t@,
                start as int,
                start + 2,
                false,
            ),
        decreases t.len() - i,
    {
        let c = t[i];
        if c == 93 {
            if data {
                return Some((start + 2..i, i + 1));
            }
            return None;
        } else if c == 91 || c == 32 || c == 9 || c == 10 {
            return None;
        }
        let q = if c == 92 && i + 1 < t.len() && (t[i + 1] == 91 || t[i + 1] == 92 || t[i + 1]
            == 93) {
            i + 2
        } else {
            i + 1
        };
        let mut more = chars + if 128 <= c && c < 192 { 0 } else { 1 };
        assert(more == char_count(t@, start + 2, i + 1));
        if q > i + 1 {
            let d = t[i + 1];
            more = more + if 128 <= d && d < 192 { 0 } else { 1 };
            assert(more == char_count(t@, start + 2, i + 2));
        }
        if more > 999 {
            return None;
        }
        chars = more;
        data = true;
        i = q;
    }
    None
}

} // verus!
