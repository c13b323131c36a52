//! Math flow (`$$`) fence start.
use std::ops::Range;
use vstd::prelude::*;
use crate::syntax::run_end;
use super::{spec_trim_range, trim_range};

verus! {

/// `$`.
pub open spec fn dollar_pred() -> spec_fn(u8) -> bool {
    |b: u8| b == 36
}

/// Opening math fence: 2+ `$`s, then meta text without `$`; the run length and the trimmed meta range.
pub open spec fn spec_math_fence_open(s: Seq<u8>) -> Option<(int, int, int)> {
    let run = run_end(s, 0, dollar_pred());
    if run < 2 || exists|k: int| run <= k < s.len() && #[trigger] s[k] == 36 {
        None
    } else {
        let meta = spec_trim_range(s, run, s.len() as int);
        Some((run, meta.0, meta.1))
    }
}

/// Opening math fence: 2+ `$`s, then meta text that must not contain `$`.
/// Returns (fence length, meta byte range within `tail`), trimmed like a code fence's info string.
#[verifier::loop_isolation(false)]
pub fn math_fence_open(tail: &[u8]) -> (r: Option<(u32, Range<usize>)>)
    requires
        tail.len() <= u32::MAX,
    ensures
        r is Some <==> spec_math_fence_open(tail@) is Some,
        r matches Some((n, meta)) ==> spec_math_fence_open(tail@) == Some(
            (n as int, meta.start as int, meta.end as int),
        ) && meta.start <= meta.end <= tail@.len(),
{
    let mut run: usize = 0;
    while run < tail.len() && tail[run] == 36
        invariant
            run <= tail.len(),
            run_end(tail@, run as int, dollar_pred()) == run_end(tail@, 0, dollar_pred()),
        decreases tail.len() - run,
    {
        run = run + 1;
    }
    if run < 2 {
        return None;
    }
    let mut k = run;
    while k < tail.len()
        invariant
            run <= k <= tail.len(),
            forall|j: int| run <= j < k ==> tail@[j] != 36,
        decreases tail.len() - k,
    {
        if tail[k] == 36 {
            return None;
        }
        k = k + 1;
    }
    Some((run as u32, trim_range(tail, run..tail.len())))
}

} // verus!
