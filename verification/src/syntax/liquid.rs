//! Liquid template-tag delimiters: `{% … %}` and `{{ … }}`.
use vstd::prelude::*;

verus! {

/// The opening delimiter of a liquid tag at the start of `tail`:
/// `{%` (closed by `%}`) or `{{` (closed by `}}`); the closer's first byte.
pub open spec fn spec_open(tail: Seq<u8>) -> Option<u8> {
    if tail.len() >= 2 && tail[0] == 123 && tail[1] == 37 {
        Some(37u8)
    } else if tail.len() >= 2 && tail[0] == 123 && tail[1] == 123 {
        Some(125u8)
    } else {
        None
    }
}

/// Whether `<closer>}` occurs at `i`.
pub open spec fn closes_at(tail: Seq<u8>, i: int, closer: u8) -> bool {
    0 <= i && i + 1 < tail.len() && tail[i] == closer && tail[i + 1] == 125
}

/// The position past the first `<closer>}` at or after `from`.
pub open spec fn spec_close_from(tail: Seq<u8>, from: int, closer: u8) -> Option<int>
    decreases tail.len() - from,
{
    if from < 0 || from + 1 >= tail.len() {
        None
    } else if closes_at(tail, from, closer) {
        Some(from + 2)
    } else {
        spec_close_from(tail, from + 1, closer)
    }
}

pub proof fn lemma_close_from(tail: Seq<u8>, from: int, closer: u8)
    requires
        0 <= from,
    ensures
        spec_close_from(tail, from, closer) matches Some(e) ==> from + 2 <= e <= tail.len()
            && closes_at(tail, e - 2, closer) && forall|k: int|
            from <= k < e - 2 ==> !closes_at(tail, k, closer),
        spec_close_from(tail, from, closer) is None ==> forall|k: int|
            from <= k ==> !closes_at(tail, k, closer),
    decreases tail.len() - from,
{
    if from + 1 < tail.len() && !closes_at(tail, from, closer) {
        lemma_close_from(tail, from + 1, closer);
    }
}

/// The opening delimiter of a liquid tag: `{%` (closed by `%}`) or `{{` (closed by `}}`).
/// Returns the closer's first byte.
pub fn open(tail: &[u8]) -> (r: Option<u8>)
    ensures
        r == spec_open(tail@),
{
    if tail.len() >= 2 && tail[0] == 123 && tail[1] == 37 {
        Some(37)
    } else if tail.len() >= 2 && tail[0] == 123 && tail[1] == 123 {
        Some(125)
    } else {
        None
    }
}

/// Position past the first `<closer>}` sequence in `tail`, if any.
pub fn close(tail: &[u8], closer: u8) -> (r: Option<usize>)
    ensures
        r matches Some(e) ==> spec_close_from(tail@, 0, closer) == Some(e as int),
        r is None ==> spec_close_from(tail@, 0, closer) is None,
{
    close_from(tail, 0, closer)
}

/// Position past the first `<closer>}` at or after `from`.
pub fn close_from(tail: &[u8], from: usize, closer: u8) -> (r: Option<usize>)
    ensures
        r matches Some(e) ==> spec_close_from(tail@, from as int, closer) == Some(e as int),
        r is None ==> spec_close_from(tail@, from as int, closer) is None,
{
    let mut i = from;
    while i < tail.len() && i + 1 < tail.len()
        invariant
            from <= i,
            spec_close_from(tail@, i as int, closer) == spec_close_from(tail@, from as int, closer),
        decreases tail.len() - i,
    {
        if tail[i] == closer && tail[i + 1] == 125 {
            return Some(i + 2);
        }
        i = i + 1;
    }
    None
}

} // verus!
