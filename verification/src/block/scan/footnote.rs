//! GFM footnote definition start (`[^label]:`).
use std::ops::Range;
use vstd::prelude::*;
use crate::syntax::link_target::{footnote_label, spec_footnote_label};

verus! {

/// `[^label]:`: the label's range and the position past the `:`.
pub open spec fn spec_footnote_definition_start(s: Seq<u8>) -> Option<(int, int, int)> {
    match spec_footnote_label(s, 0) {
        Some((label_end, close)) => if close < s.len() && s[close] == 58 {
            Some((2, label_end, close + 1))
        } else {
            None
        },
        None => None,
    }
}

/// GFM footnote definition start: `[^label]:`.
/// Returns (label byte-range within `tail`, position past the `:`).
pub fn footnote_definition_start(tail: &[u8]) -> (r: Option<(Range<usize>, usize)>)
    requires
        tail.len() <= isize::MAX,
    ensures
        r is Some <==> spec_footnote_definition_start(tail@) is Some,
        r matches Some((label, after)) ==> spec_footnote_definition_start(tail@) == Some(
            (label.start as int, label.end as int, after as int),
        ) && label.start <= label.end < after <= tail@.len(),
{
    match footnote_label(tail, 0) {
        Some((label, close)) => if close < tail.len() && tail[close] == 58 {
            Some((label, close + 1))
        } else {
            None
        },
        None => None,
    }
}

} // verus!
