//! Line-level scanners for block starts.
//!
//! Every function takes the tail of a physical line
//! (container prefixes and leading indent already consumed by the caller)
//! and answers whether a block of that kind starts there, returning byte ranges relative to the tail.
use std::ops::Range;
use vstd::prelude::*;
use crate::syntax::is_space_tab;

pub mod commonmark;
pub mod directive;
pub mod footnote;
pub mod html;
pub mod math;
pub mod table;

verus! {

/// Only spaces and tabs in `s[from..to]`.
pub open spec fn blank_between(s: Seq<u8>, from: int, to: int) -> bool {
    forall|k: int| from <= k < to ==> is_space_tab(#[trigger] s[k])
}

/// Only spaces and tabs.
pub open spec fn spec_is_blank(s: Seq<u8>) -> bool {
    blank_between(s, 0, s.len() as int)
}

/// Whether `tail[from..]` holds only spaces and tabs.
pub fn is_blank_from(tail: &[u8], from: usize) -> (r: bool)
    ensures
        r == blank_between(tail@, from as int, tail@.len() as int),
{
    let mut i = from;
    while i < tail.len()
        invariant
            from <= i,
            blank_between(tail@, from as int, i as int),
        decreases tail.len() - i,
    {
        if !(tail[i] == 32 || tail[i] == 9) {
            return false;
        }
        i = i + 1;
    }
    true
}

/// Only spaces and tabs to the end.
pub fn is_blank(tail: &[u8]) -> (r: bool)
    ensures
        r == spec_is_blank(tail@),
{
    is_blank_from(tail, 0)
}

/// The first position in `from..to` that is not a space or tab (or `to`).
pub open spec fn lead_end(s: Seq<u8>, from: int, to: int) -> int
    decreases to - from,
{
    if from >= to || !is_space_tab(s[from]) {
        from
    } else {
        lead_end(s, from + 1, to)
    }
}

/// The position just past the last byte in `from..to` that is not a space or tab (or `from`).
pub open spec fn trail_end(s: Seq<u8>, from: int, to: int) -> int
    decreases to - from,
{
    if to <= from || !is_space_tab(s[to - 1]) {
        to
    } else {
        trail_end(s, from, to - 1)
    }
}

pub proof fn lemma_lead_trail(s: Seq<u8>, from: int, to: int)
    requires
        from <= to,
    ensures
        from <= lead_end(s, from, to) <= to,
        from <= trail_end(s, from, to) <= to,
        blank_between(s, from, lead_end(s, from, to)),
        blank_between(s, trail_end(s, from, to), to),
        lead_end(s, from, to) < to ==> !is_space_tab(s[lead_end(s, from, to)]),
        trail_end(s, from, to) > from ==> !is_space_tab(s[trail_end(s, from, to) - 1]),
    decreases to - from,
{
    if from < to {
        if is_space_tab(s[from]) {
            lemma_lead_trail(s, from + 1, to);
        }
        if is_space_tab(s[to - 1]) {
            lemma_lead_trail(s, from, to - 1);
        }
    }
}

/// `range` shrunk past its leading and trailing spaces/tabs; an all-blank range trims to empty at its end.
pub open spec fn spec_trim_range(s: Seq<u8>, from: int, to: int) -> (int, int) {
    let a = lead_end(s, from, to);
    let b = trail_end(s, from, to);
    (a, if b < a { a } else { b })
}

/// Shrinks a byte range over `s` past its leading/trailing spaces and tabs.
pub fn trim_range(s: &[u8], range: Range<usize>) -> (r: Range<usize>)
    requires
        range.start <= range.end <= s.len(),
    ensures
        (r.start as int, r.end as int) == spec_trim_range(s@, range.start as int, range.end as int),
        range.start <= r.start <= r.end <= range.end,
{
    let from = range.start;
    let to = range.end;
    let mut a = from;
    while a < to && (s[a] == 32 || s[a] == 9)
        invariant
            from <= a <= to <= s.len(),
            lead_end(s@, a as int, to as int) == lead_end(s@, from as int, to as int),
        decreases to - a,
    {
        a = a + 1;
    }
    let mut b = to;
    while b > from && (s[b - 1] == 32 || s[b - 1] == 9)
        invariant
            from <= b <= to <= s.len(),
            trail_end(s@, from as int, b as int) == trail_end(s@, from as int, to as int),
        decreases b,
    {
        b = b - 1;
    }
    proof {
        lemma_lead_trail(s@, from as int, to as int);
    }
    if b < a {
        a..a
    } else {
        a..b
    }
}

} // verus!
