//! Grammar shared by the block and inline phases: escapes, whitespace skipping,
//! HTML tag grammar, link targets, labels, liquid delimiters, character classes.
use vstd::prelude::*;

pub mod decode;
pub mod html;
pub mod label;
pub mod link_target;
pub mod liquid;
pub mod unicode;

verus! {

/// ASCII punctuation: `!`–`/`, `:`–`@`, `[`–`` ` ``, `{`–`~`.
pub open spec fn is_ascii_punct(b: u8) -> bool {
    (33 <= b <= 47) || (58 <= b <= 64) || (91 <= b <= 96) || (123 <= b <= 126)
}

pub fn ascii_punct(b: u8) -> (r: bool)
    ensures
        r == is_ascii_punct(b),
{
    (33 <= b && b <= 47) || (58 <= b && b <= 64) || (91 <= b && b <= 96) || (123 <= b && b <= 126)
}

/// Whether the backslash at `p` escapes the next byte
/// (ASCII punctuation only; never a line ending).
pub open spec fn spec_escapes_next(bytes: Seq<u8>, p: int) -> bool {
    p + 1 < bytes.len() && is_ascii_punct(bytes[p + 1])
}

/// A backslash escapes exactly the ASCII punctuation characters: the printable ASCII bytes
/// (`!` through `~`) that are neither digits nor letters.
pub proof fn lemma_escapes_ascii_punctuation(bytes: Seq<u8>, p: int)
    ensures
        spec_escapes_next(bytes, p) <==> p + 1 < bytes.len() && 33 <= bytes[p + 1] <= 126 && !(48 <= bytes[p + 1] <= 57)
            && !(65 <= bytes[p + 1] <= 90) && !(97 <= bytes[p + 1] <= 122),
{
}

pub fn escapes_next(bytes: &[u8], p: usize) -> (r: bool)
    requires
        p < usize::MAX,
    ensures
        r == spec_escapes_next(bytes@, p as int),
{
    p + 1 < bytes.len() && ascii_punct(bytes[p + 1])
}

/// Space or tab.
pub open spec fn is_space_tab(b: u8) -> bool {
    b == 32 || b == 9
}

/// Where skipping spaces, tabs and up to `max` line endings from `p` stops.
pub open spec fn spec_skip_ws(bytes: Seq<u8>, p: int, max: int) -> int
    decreases bytes.len() - p,
{
    if p < 0 || p >= bytes.len() {
        p
    } else if is_space_tab(bytes[p]) {
        spec_skip_ws(bytes, p + 1, max)
    } else if bytes[p] == 10 && max > 0 {
        spec_skip_ws(bytes, p + 1, max - 1)
    } else {
        p
    }
}

/// Skipping never moves backwards and never passes the end.
pub proof fn lemma_skip_ws_bounds(bytes: Seq<u8>, p: int, max: int)
    requires
        0 <= p <= bytes.len(),
    ensures
        p <= spec_skip_ws(bytes, p, max) <= bytes.len(),
    decreases bytes.len() - p,
{
    if p < bytes.len() {
        if is_space_tab(bytes[p]) {
            lemma_skip_ws_bounds(bytes, p + 1, max);
        } else if bytes[p] == 10 && max > 0 {
            lemma_skip_ws_bounds(bytes, p + 1, max - 1);
        }
    }
}

/// Skips spaces/tabs and up to `max_newlines` line endings.
pub fn skip_ws(bytes: &[u8], p: usize, max_newlines: usize) -> (r: usize)
    requires
        p <= bytes.len(),
    ensures
        r == spec_skip_ws(bytes@, p as int, max_newlines as int),
        p <= r <= bytes.len(),
{
    let mut q = p;
    let mut left = max_newlines;
    while q < bytes.len()
        invariant
            p <= q <= bytes.len(),
            spec_skip_ws(bytes@, q as int, left as int) == spec_skip_ws(
                bytes@,
                p as int,
                max_newlines as int,
            ),
        ensures
            q == spec_skip_ws(bytes@, p as int, max_newlines as int),
        decreases bytes.len() - q,
    {
        let c = bytes[q];
        if c == 32 || c == 9 {
            q = q + 1;
        } else if c == 10 && left > 0 {
            left = left - 1;
            q = q + 1;
        } else {
            break;
        }
    }
    q
}

/// The length of the run of `marker` bytes at `from`.
pub open spec fn run_from(bytes: Seq<u8>, from: int, marker: u8, n: int) -> bool {
    &&& from + n <= bytes.len()
    &&& n >= 0
    &&& forall|k: int| from <= k < from + n ==> #[trigger] bytes[k] == marker
    &&& (from + n < bytes.len() ==> bytes[from + n] != marker)
}

/// Length of the run of `marker` at the start of `bytes[from..]`.
pub fn run_len(bytes: &[u8], from: usize, marker: u8) -> (n: usize)
    requires
        from <= bytes.len(),
    ensures
        run_from(bytes@, from as int, marker, n as int),
{
    let mut i = from;
    while i < bytes.len() && bytes[i] == marker
        invariant
            from <= i <= bytes.len(),
            forall|k: int| from <= k < i ==> #[trigger] bytes@[k] == marker,
        decreases bytes.len() - i,
    {
        i = i + 1;
    }
    i - from
}

} // verus!

verus! {

/// Position of the first byte at or after `i` that fails `p` (or the end).
pub open spec fn run_end(bytes: Seq<u8>, i: int, p: spec_fn(u8) -> bool) -> int
    decreases bytes.len() - i,
{
    if i < 0 || i >= bytes.len() || !p(bytes[i]) {
        i
    } else {
        run_end(bytes, i + 1, p)
    }
}

/// A run end lies between its start and the end, every byte before it satisfies `p`,
/// and the byte at it (if any) does not.
pub proof fn lemma_run_end(bytes: Seq<u8>, i: int, p: spec_fn(u8) -> bool)
    requires
        0 <= i <= bytes.len(),
    ensures
        i <= run_end(bytes, i, p) <= bytes.len(),
        forall|k: int| i <= k < run_end(bytes, i, p) ==> p(#[trigger] bytes[k]),
        run_end(bytes, i, p) < bytes.len() ==> !p(bytes[run_end(bytes, i, p)]),
    decreases bytes.len() - i,
{
    if i < bytes.len() && p(bytes[i]) {
        lemma_run_end(bytes, i + 1, p);
    }
}

/// ASCII letter.
pub open spec fn is_alpha(b: u8) -> bool {
    (65 <= b <= 90) || (97 <= b <= 122)
}

/// ASCII digit.
pub open spec fn is_digit(b: u8) -> bool {
    48 <= b <= 57
}

/// ASCII letter or digit.
pub open spec fn is_alnum(b: u8) -> bool {
    is_alpha(b) || is_digit(b)
}

pub fn alpha(b: u8) -> (r: bool)
    ensures
        r == is_alpha(b),
{
    (65 <= b && b <= 90) || (97 <= b && b <= 122)
}

pub fn digit(b: u8) -> (r: bool)
    ensures
        r == is_digit(b),
{
    48 <= b && b <= 57
}

pub fn alnum(b: u8) -> (r: bool)
    ensures
        r == is_alnum(b),
{
    alpha(b) || digit(b)
}

/// ASCII lowercase of a byte.
pub open spec fn lower(b: u8) -> u8 {
    if 65 <= b <= 90 {
        (b + 32) as u8
    } else {
        b
    }
}

pub fn to_lower(b: u8) -> (r: u8)
    ensures
        r == lower(b),
{
    if 65 <= b && b <= 90 {
        b + 32
    } else {
        b
    }
}


/// `pat` occurs in `s` at `i`.
pub open spec fn occurs_at(s: Seq<u8>, i: int, pat: Seq<u8>) -> bool {
    0 <= i && i + pat.len() <= s.len() && s.subrange(i, i + pat.len()) == pat
}

/// The first position at or after `from` where `pat` occurs.
pub open spec fn spec_find(s: Seq<u8>, from: int, pat: Seq<u8>) -> Option<int>
    decreases s.len() + 1 - from,
{
    if from < 0 || from + pat.len() > s.len() {
        None
    } else if occurs_at(s, from, pat) {
        Some(from)
    } else {
        spec_find(s, from + 1, pat)
    }
}

/// A found position is an occurrence, and no earlier one follows `from`.
pub proof fn lemma_find(s: Seq<u8>, from: int, pat: Seq<u8>)
    requires
        0 <= from,
    ensures
        spec_find(s, from, pat) matches Some(k) ==> from <= k && k + pat.len() <= s.len()
            && occurs_at(s, k, pat) && forall|j: int| from <= j < k ==> !#[trigger] occurs_at(s, j, pat),
        spec_find(s, from, pat) is None ==> forall|j: int| from <= j ==> !#[trigger] occurs_at(s, j, pat),
    decreases s.len() + 1 - from,
{
    if from + pat.len() <= s.len() && !occurs_at(s, from, pat) {
        lemma_find(s, from + 1, pat);
    }
}

/// Whether `pat` occurs in `s` at `i`.
pub fn matches_at(s: &[u8], i: usize, pat: &[u8]) -> (r: bool)
    ensures
        r == occurs_at(s@, i as int, pat@),
{
    if i > s.len() || pat.len() > s.len() - i {
        return false;
    }
    let mut k: usize = 0;
    while k < pat.len()
        invariant
            k <= pat.len(),
            i + pat.len() <= s.len(),
            forall|j: int| 0 <= j < k ==> s@[i + j] == pat@[j],
        decreases pat.len() - k,
    {
        if s[i + k] != pat[k] {
            proof {
                assert(s@.subrange(i as int, i + pat@.len())[k as int] == s@[i + k]);
            }
            return false;
        }
        k = k + 1;
    }
    assert(s@.subrange(i as int, i + pat@.len()) =~= pat@);
    true
}

/// The first position at or after `from` where `pat` occurs.
pub fn find_from(s: &[u8], from: usize, pat: &[u8]) -> (r: Option<usize>)
    ensures
        r matches Some(k) ==> spec_find(s@, from as int, pat@) == Some(k as int),
        r is None ==> spec_find(s@, from as int, pat@) is None,
{
    let mut i = from;
    while i <= s.len() && pat.len() <= s.len() - i
        invariant
            from <= i,
            spec_find(s@, i as int, pat@) == spec_find(s@, from as int, pat@),
        decreases s.len() + 1 - i,
    {
        if matches_at(s, i, pat) {
            return Some(i);
        }
        assert(i < s.len()) by {
            if i == s.len() {
                assert(s@.subrange(i as int, i as int) =~= pat@);
            }
        }
        i = i + 1;
    }
    None
}

} // verus!
