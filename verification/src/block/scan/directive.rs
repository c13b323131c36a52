//! Container-directive (`:::`) fence start.
use vstd::prelude::*;
use crate::syntax::{is_space_tab, lemma_run_end, lemma_skip_ws_bounds, run_end, skip_ws, spec_skip_ws};
use crate::syntax::unicode::{char_at, is_alphanumeric, spec_char_at, spec_is_alphanumeric};

verus! {

/// `:`.
pub open spec fn colon_pred() -> spec_fn(u8) -> bool {
    |b: u8| b == 58
}

/// Opening container-directive fence: 3+ `:`s, optional spaces/tabs, then a name-like start
/// (an alphanumeric character, `_`, `{` or `[`); the fence length.
pub open spec fn spec_directive_fence_open(s: Seq<u8>) -> Option<int> {
    let run = run_end(s, 0, colon_pred());
    let p = spec_skip_ws(s, run, 0);
    if run < 3 {
        None
    } else {
        match spec_char_at(s, p) {
            Some(c) => if spec_is_alphanumeric(c) || c == '_' || c == '{' || c == '[' {
                Some(run)
            } else {
                None
            },
            None => None,
        }
    }
}

/// An opening fence of length `n` is the line's whole leading run of colons, three or more,
/// and more of the line follows it.
pub proof fn lemma_directive_fence_shape(s: Seq<u8>)
    ensures
        spec_directive_fence_open(s) matches Some(n) ==> 3 <= n < s.len() && (forall|k: int| 0 <= k < n ==> #[trigger] s[k] == 58)
            && s[n] != 58,
{
    lemma_run_end(s, 0, colon_pred());
    let run = run_end(s, 0, colon_pred());
    lemma_skip_ws_bounds(s, run, 0);
}

/// A character that may start a directive's name starts at `p`: alphanumeric, `_`, `{` or `[`.
pub open spec fn fence_name_at(s: Seq<u8>, p: int) -> bool {
    match spec_char_at(s, p) {
        Some(c) => spec_is_alphanumeric(c) || c == '_' || c == '{' || c == '[',
        None => false,
    }
}

/// The line starts with a run of exactly `n >= 3` colons and, past the spaces and tabs after
/// it, a character that may start a directive's name.
pub open spec fn fence_shape(s: Seq<u8>, n: int) -> bool {
    &&& 3 <= n <= s.len()
    &&& forall|k: int| 0 <= k < n ==> #[trigger] s[k] == 58
    &&& n == s.len() || s[n] != 58
    &&& exists|p: int|
        #![trigger fence_name_at(s, p)]
        n <= p < s.len() && (forall|k: int| n <= k < p ==> #[trigger] is_space_tab(s[k])) && !is_space_tab(s[p])
            && fence_name_at(s, p)
}

/// Skipping spaces and tabs (no line endings) stops at the first byte at or after `p` that is
/// neither, or at the end.
proof fn lemma_skip_blank_stop(s: Seq<u8>, p: int)
    requires
        0 <= p <= s.len(),
    ensures
        p <= spec_skip_ws(s, p, 0) <= s.len(),
        forall|k: int| p <= k < spec_skip_ws(s, p, 0) ==> #[trigger] is_space_tab(s[k]),
        spec_skip_ws(s, p, 0) < s.len() ==> !is_space_tab(s[spec_skip_ws(s, p, 0)]),
    decreases s.len() - p,
{
    if p < s.len() && is_space_tab(s[p]) {
        lemma_skip_blank_stop(s, p + 1);
    }
}

/// A line opens a container directive with a fence of `n` exactly when it starts with a run
/// of exactly `n >= 3` colons and, past the spaces and tabs after it, the next character is
/// alphanumeric, `_`, `{` or `[`.
pub proof fn lemma_directive_fence_open_iff(s: Seq<u8>, n: int)
    ensures
        spec_directive_fence_open(s) == Some(n) <==> fence_shape(s, n),
{
    lemma_run_end(s, 0, colon_pred());
    let run = run_end(s, 0, colon_pred());
    lemma_skip_blank_stop(s, run);
    let q = spec_skip_ws(s, run, 0);
    if spec_directive_fence_open(s) == Some(n) {
        assert(n == run);
        assert(q < s.len()) by {
            if q >= s.len() {
                assert(spec_char_at(s, q) is None);
            }
        }
        assert(forall|k: int| 0 <= k < n ==> #[trigger] s[k] == 58) by {
            assert forall|k: int| 0 <= k < n implies #[trigger] s[k] == 58 by {
                assert((colon_pred())(s[k]));
            }
        }
        if n < s.len() {
            assert(!(colon_pred())(s[n]));
        }
        assert(fence_name_at(s, q));
        assert(n <= q < s.len() && (forall|k: int| n <= k < q ==> #[trigger] is_space_tab(s[k])) && !is_space_tab(s[q]));
    }
    if fence_shape(s, n) {
        let p = choose|p: int|
            #![trigger fence_name_at(s, p)]
            n <= p < s.len() && (forall|k: int| n <= k < p ==> #[trigger] is_space_tab(s[k])) && !is_space_tab(s[p])
                && fence_name_at(s, p);
        assert(run == n) by {
            if run < n {
                assert(s[run] == 58);
                assert((colon_pred())(s[run]));
            } else if run > n {
                assert((colon_pred())(s[n]));
            }
        }
        assert(q == p) by {
            if q < p {
                assert(is_space_tab(s[q]));
            } else if q > p {
                assert(is_space_tab(s[p]));
            }
        }
        assert(spec_directive_fence_open(s) == Some(n));
    }
}

/// Opening container-directive fence:
/// 3+ `:`s, optional spaces / tabs, then a name-like start (alphanumeric, `_`, `{` or `[`)
/// and anything to the end of the line.
/// A bare run (a closing fence) or one followed by other punctuation (`:::)`) is not an opener.
/// Returns the fence length.
#[verifier::loop_isolation(false)]
pub fn directive_fence_open(tail: &[u8]) -> (r: Option<u32>)
    requires
        tail.len() <= u32::MAX,
    ensures
        r matches Some(n) ==> spec_directive_fence_open(tail@) == Some(n as int),
        r is None ==> spec_directive_fence_open(tail@) is None,
        r matches Some(n) ==> fence_shape(tail@, n as int),
        r is None ==> forall|n: int| !#[trigger] fence_shape(tail@, n),
{
    proof {
        assert forall|n: int| #[trigger] fence_shape(tail@, n) <==> spec_directive_fence_open(tail@) == Some(n) by {
            lemma_directive_fence_open_iff(tail@, n);
        }
    }
    let mut run: usize = 0;
    while run < tail.len() && tail[run] == 58
        invariant
            run <= tail.len(),
            run_end(tail@, run as int, colon_pred()) == run_end(tail@, 0, colon_pred()),
        decreases tail.len() - run,
    {
        run = run + 1;
    }
    if run < 3 {
        return None;
    }
    let p = skip_ws(tail, run, 0);
    match char_at(tail, p) {
        Some((c, _)) => if is_alphanumeric(c) || c == '_' || c == '{' || c == '[' {
            Some(run as u32)
        } else {
            None
        },
        None => None,
    }
}

} // verus!
