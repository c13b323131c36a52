//! CommonMark core block starts: thematic breaks, headings, code fences, list markers.
use std::ops::Range;
use vstd::prelude::*;
use crate::syntax::{is_digit, is_space_tab, run_end, lemma_run_end, spec_skip_ws, skip_ws, digit};
use super::{blank_between, is_blank_from, lead_end, lemma_lead_trail, spec_trim_range, trail_end, trim_range};

verus! {

/// The number of `m` bytes in `s[0..to]`.
pub open spec fn count_byte(s: Seq<u8>, to: int, m: u8) -> int
    decreases to,
{
    if to <= 0 {
        0
    } else {
        count_byte(s, to - 1, m) + if s[to - 1] == m { 1int } else { 0 }
    }
}

/// `-`, `_` or `*`.
pub open spec fn is_break_marker(b: u8) -> bool {
    b == 45 || b == 95 || b == 42
}

/// Thematic break: 3+ of the same `-` / `_` / `*`, interleaved with spaces/tabs only.
pub open spec fn spec_thematic_break(s: Seq<u8>) -> bool {
    exists|m: u8|
        #![trigger is_break_marker(m)]
        is_break_marker(m) && (forall|k: int| 0 <= k < s.len() ==> is_space_tab(#[trigger] s[k])
            || s[k] == m) && count_byte(s, s.len() as int, m) >= 3
}

/// `m` occurs once, twice, three times among the first `to` bytes exactly when the count says so.
proof fn lemma_count_byte_positions(s: Seq<u8>, to: int, m: u8)
    requires
        0 <= to <= s.len(),
    ensures
        count_byte(s, to, m) >= 0,
        count_byte(s, to, m) >= 1 <==> exists|i: int| 0 <= i < to && s[i] == m,
        count_byte(s, to, m) >= 2 <==> exists|i: int, j: int| 0 <= i < j < to && s[i] == m && s[j] == m,
        count_byte(s, to, m) >= 3 <==> exists|i: int, j: int, k: int|
            0 <= i < j < k < to && s[i] == m && s[j] == m && s[k] == m,
    decreases to,
{
    if to > 0 {
        lemma_count_byte_positions(s, to - 1, m);
        if exists|i: int, j: int, k: int| 0 <= i < j < k < to && s[i] == m && s[j] == m && s[k] == m {
            let (i, j, k) = choose|i: int, j: int, k: int| 0 <= i < j < k < to && s[i] == m && s[j] == m && s[k] == m;
            if k < to - 1 {
                assert(0 <= i < j < k < to - 1 && s[i] == m && s[j] == m && s[k] == m);
            } else {
                assert(0 <= i < j < to - 1 && s[i] == m && s[j] == m);
            }
        }
        if exists|i: int, j: int| 0 <= i < j < to && s[i] == m && s[j] == m {
            let (i, j) = choose|i: int, j: int| 0 <= i < j < to && s[i] == m && s[j] == m;
            if j < to - 1 {
                assert(0 <= i < j < to - 1 && s[i] == m && s[j] == m);
            } else {
                assert(0 <= i < to - 1 && s[i] == m);
            }
        }
        if exists|i: int| 0 <= i < to && s[i] == m {
            let i = choose|i: int| 0 <= i < to && s[i] == m;
            if i < to - 1 {
                assert(0 <= i < to - 1 && s[i] == m);
            }
        }
        if s[to - 1] == m {
            if count_byte(s, to - 1, m) >= 2 {
                let (i, j) = choose|i: int, j: int| 0 <= i < j < to - 1 && s[i] == m && s[j] == m;
                assert(0 <= i < j < to - 1 < to && s[i] == m && s[j] == m && s[to - 1] == m);
            }
            if count_byte(s, to - 1, m) >= 1 {
                let i = choose|i: int| 0 <= i < to - 1 && s[i] == m;
                assert(0 <= i < to - 1 < to && s[i] == m && s[to - 1] == m);
            }
            assert(0 <= to - 1 < to && s[to - 1] == m);
        } else {
            if count_byte(s, to - 1, m) >= 3 {
                let (i, j, k) = choose|i: int, j: int, k: int| 0 <= i < j < k < to - 1 && s[i] == m && s[j] == m && s[k] == m;
                assert(0 <= i < j < k < to && s[i] == m && s[j] == m && s[k] == m);
            }
            if count_byte(s, to - 1, m) >= 2 {
                let (i, j) = choose|i: int, j: int| 0 <= i < j < to - 1 && s[i] == m && s[j] == m;
                assert(0 <= i < j < to && s[i] == m && s[j] == m);
            }
            if count_byte(s, to - 1, m) >= 1 {
                let i = choose|i: int| 0 <= i < to - 1 && s[i] == m;
                assert(0 <= i < to && s[i] == m);
            }
        }
    }
}

/// A line is a thematic break exactly when some marker among `-`, `_`, `*` occurs at three
/// places or more and every byte is that marker, a space or a tab.
pub proof fn lemma_thematic_break_shape(s: Seq<u8>)
    ensures
        spec_thematic_break(s) <==> exists|m: u8, i: int, j: int, k: int|
            #![trigger is_break_marker(m), s[i], s[j], s[k]]
            is_break_marker(m) && 0 <= i < j < k < s.len() && s[i] == m && s[j] == m && s[k] == m
                && forall|q: int| 0 <= q < s.len() ==> #[trigger] s[q] == 32 || s[q] == 9 || s[q] == m,
{
    if spec_thematic_break(s) {
        let m = choose|m: u8| is_break_marker(m) && (forall|k: int| 0 <= k < s.len() ==> is_space_tab(#[trigger] s[k])
            || s[k] == m) && count_byte(s, s.len() as int, m) >= 3;
        lemma_count_byte_positions(s, s.len() as int, m);
        let (i, j, k) = choose|i: int, j: int, k: int| 0 <= i < j < k < s.len() && s[i] == m && s[j] == m && s[k] == m;
        assert(is_break_marker(m) && 0 <= i < j < k < s.len() && s[i] == m && s[j] == m && s[k] == m
            && forall|q: int| 0 <= q < s.len() ==> #[trigger] s[q] == 32 || s[q] == 9 || s[q] == m);
    }
    if exists|m: u8, i: int, j: int, k: int|
        #![trigger is_break_marker(m), s[i], s[j], s[k]]
        is_break_marker(m) && 0 <= i < j < k < s.len() && s[i] == m && s[j] == m && s[k] == m
            && forall|q: int| 0 <= q < s.len() ==> #[trigger] s[q] == 32 || s[q] == 9 || s[q] == m {
        let (m, i, j, k) = choose|m: u8, i: int, j: int, k: int|
            #![trigger is_break_marker(m), s[i], s[j], s[k]]
            is_break_marker(m) && 0 <= i < j < k < s.len() && s[i] == m && s[j] == m && s[k] == m
                && forall|q: int| 0 <= q < s.len() ==> #[trigger] s[q] == 32 || s[q] == 9 || s[q] == m;
        lemma_count_byte_positions(s, s.len() as int, m);
        assert(0 <= i < j < k < s.len() && s[i] == m && s[j] == m && s[k] == m);
        assert(is_break_marker(m));
    }
}

/// Thematic break: 3+ of the same `-` / `_` / `*`,
/// interleaved with spaces/tabs only.
pub fn thematic_break(tail: &[u8]) -> (r: bool)
    ensures
        r == spec_thematic_break(tail@),
        r <==> exists|m: u8, i: int, j: int, k: int|
            #![trigger is_break_marker(m), tail@[i], tail@[j], tail@[k]]
            is_break_marker(m) && 0 <= i < j < k < tail@.len() && tail@[i] == m && tail@[j] == m && tail@[k] == m
                && forall|q: int| 0 <= q < tail@.len() ==> #[trigger] tail@[q] == 32 || tail@[q] == 9 || tail@[q] == m,
{
    proof {
        lemma_thematic_break_shape(tail@);
    }
    let mut marker: u8 = 0;
    let mut count: usize = 0;
    let mut i: usize = 0;
    while i < tail.len()
        invariant
            i <= tail.len(),
            marker == 0 ==> count == 0 && forall|k: int| 0 <= k < i ==> is_space_tab(
                #[trigger] tail@[k],
            ),
            marker != 0 ==> is_break_marker(marker) && count == count_byte(
                tail@,
                i as int,
                marker,
            ) && count >= 1 && forall|k: int|
                0 <= k < i ==> is_space_tab(#[trigger] tail@[k]) || tail@[k] == marker,
            marker != 0 ==> exists|k: int| 0 <= k < i && tail@[k] == marker,
            count <= i,
        decreases tail.len() - i,
    {
        let b = tail[i];
        if b == 32 || b == 9 {
        } else if b == 45 || b == 95 || b == 42 {
            if marker == 0 {
                marker = b;
                proof {
                    lemma_count_zero(tail@, i as int, marker);
                }
            } else if b != marker {
                proof {
                    let j = choose|k: int| 0 <= k < i && tail@[k] == marker;
                    assert forall|m: u8| is_break_marker(m) implies !(forall|k: int|
                        0 <= k < tail@.len() ==> is_space_tab(#[trigger] tail@[k]) || tail@[k]
                            == m) by {
                        if m == marker {
                            assert(!is_space_tab(tail@[i as int]) && tail@[i as int] != m);
                        } else {
                            assert(!is_space_tab(tail@[j]) && tail@[j] != m);
                        }
                    }
                }
                return false;
            }
            count = count + 1;
        } else {
            proof {
                assert forall|m: u8| is_break_marker(m) implies !(forall|k: int|
                    0 <= k < tail@.len() ==> is_space_tab(#[trigger] tail@[k]) || tail@[k]
                        == m) by {
                    assert(!is_space_tab(tail@[i as int]) && tail@[i as int] != m);
                }
            }
            return false;
        }
        i = i + 1;
    }
    if count >= 3 {
        assert(is_break_marker(marker));
        true
    } else {
        proof {
            assert forall|m: u8| is_break_marker(m) && (forall|k: int|
                0 <= k < tail@.len() ==> is_space_tab(#[trigger] tail@[k]) || tail@[k] == m)
                implies count_byte(tail@, tail@.len() as int, m) < 3 by {
                if marker == 0 || m != marker {
                    lemma_count_absent(tail@, tail@.len() as int, m);
                }
            }
        }
        false
    }
}

proof fn lemma_count_zero(s: Seq<u8>, to: int, m: u8)
    requires
        0 <= to <= s.len(),
        forall|k: int| 0 <= k < to ==> is_space_tab(#[trigger] s[k]),
        !is_space_tab(m),
    ensures
        count_byte(s, to, m) == 0,
    decreases to,
{
    if to > 0 {
        lemma_count_zero(s, to - 1, m);
    }
}

proof fn lemma_count_absent(s: Seq<u8>, to: int, m: u8)
    requires
        0 <= to <= s.len(),
        forall|k: int| 0 <= k < to ==> s[k] != m,
    ensures
        count_byte(s, to, m) == 0,
    decreases to,
{
    if to > 0 {
        lemma_count_absent(s, to - 1, m);
    }
}

/// Equal to `m`.
pub open spec fn byte_pred(m: u8) -> spec_fn(u8) -> bool {
    |b: u8| b == m
}

/// `#`.
pub open spec fn hash_pred() -> spec_fn(u8) -> bool {
    |b: u8| b == 35
}

/// The start of the run of `m` bytes ending at `to`, looking no further back than `from`.
pub open spec fn rev_run_start(s: Seq<u8>, from: int, to: int, m: u8) -> int
    decreases to - from,
{
    if to <= from || s[to - 1] != m {
        to
    } else {
        rev_run_start(s, from, to - 1, m)
    }
}

/// ATX heading: `#{1,6}` followed by space/tab or the end of the line.
/// The level and the content range (surrounding whitespace and a closing `#` run stripped).
pub open spec fn spec_atx_heading(s: Seq<u8>) -> Option<(int, int, int)> {
    let level = run_end(s, 0, hash_pred());
    if level == 0 || level > 6 {
        None
    } else if level == s.len() {
        Some((level, level, level))
    } else if !is_space_tab(s[level]) {
        None
    } else {
        let start = spec_skip_ws(s, level, 0);
        let end = trail_end(s, start, s.len() as int);
        let before = rev_run_start(s, start, end, 35);
        let content_end = if before == end {
            end
        } else if before == start {
            start
        } else if is_space_tab(s[before - 1]) {
            trail_end(s, start, before)
        } else {
            end
        };
        Some((level, start, content_end))
    }
}

/// ATX heading: `#{1,6}` followed by space/tab or EOL.
/// Returns the level and the content byte range within `tail` (closing `#` run stripped).
#[verifier::loop_isolation(false)]
pub fn atx_heading(tail: &[u8]) -> (r: Option<(u8, Range<usize>)>)
    ensures
        r is Some <==> spec_atx_heading(tail@) is Some,
        r matches Some((level, range)) ==> spec_atx_heading(tail@) == Some(
            (level as int, range.start as int, range.end as int),
        ) && 1 <= level <= 6 && range.start <= range.end <= tail@.len(),
{
    let mut level: usize = 0;
    while level < tail.len() && tail[level] == 35
        invariant
            level <= tail.len(),
            run_end(tail@, level as int, hash_pred()) == run_end(tail@, 0, hash_pred()),
        decreases tail.len() - level,
    {
        level = level + 1;
    }
    if level == 0 || level > 6 {
        return None;
    }
    if level == tail.len() {
        return Some((level as u8, level..level));
    }
    if !(tail[level] == 32 || tail[level] == 9) {
        return None;
    }
    let start = skip_ws(tail, level, 0);
    let mut end = tail.len();
    while end > start && (tail[end - 1] == 32 || tail[end - 1] == 9)
        invariant
            start <= end <= tail.len(),
            trail_end(tail@, start as int, end as int) == trail_end(
                tail@,
                start as int,
                tail@.len() as int,
            ),
        decreases end,
    {
        end = end - 1;
    }
    let full_end = end;
    let mut before = end;
    while before > start && tail[before - 1] == 35
        invariant
            start <= before <= full_end,
            rev_run_start(tail@, start as int, before as int, 35) == rev_run_start(
                tail@,
                start as int,
                full_end as int,
                35,
            ),
        decreases before,
    {
        before = before - 1;
    }
    if before < full_end {
        if before == start {
            end = start;
        } else if tail[before - 1] == 32 || tail[before - 1] == 9 {
            end = before;
            while end > start && (tail[end - 1] == 32 || tail[end - 1] == 9)
                invariant
                    start <= end <= before,
                    trail_end(tail@, start as int, end as int) == trail_end(
                        tail@,
                        start as int,
                        before as int,
                    ),
                decreases end,
            {
                end = end - 1;
            }
        }
    }
    Some((level as u8, start..end))
}

/// Setext underline: a run of `=` or `-` plus trailing whitespace; the level (1 for `=`, 2 for `-`).
pub open spec fn spec_setext_underline(s: Seq<u8>) -> Option<u8> {
    if s.len() == 0 || (s[0] != 61 && s[0] != 45) {
        None
    } else {
        let run = run_end(s, 0, byte_pred(s[0]));
        if !blank_between(s, run, s.len() as int) {
            None
        } else if s[0] == 61 {
            Some(1u8)
        } else {
            Some(2u8)
        }
    }
}

/// A line is a setext underline exactly when it starts with `=` or `-`, repeats that byte, and
/// holds only spaces and tabs after the run; `=` gives level 1, `-` level 2.
pub proof fn lemma_setext_underline_shape(s: Seq<u8>)
    ensures
        spec_setext_underline(s) is Some <==> (s.len() > 0 && (s[0] == 61 || s[0] == 45) && exists|m: int|
            1 <= m <= s.len() && (forall|k: int| 0 <= k < m ==> #[trigger] s[k] == s[0]) && blank_between(
                s,
                m,
                s.len() as int,
            )),
        spec_setext_underline(s) is Some ==> spec_setext_underline(s) == Some(if s[0] == 61 { 1u8 } else { 2u8 }),
{
    if s.len() > 0 && (s[0] == 61 || s[0] == 45) {
        let p = byte_pred(s[0]);
        lemma_run_end(s, 0, p);
        let run = run_end(s, 0, p);
        assert(run >= 1);
        if spec_setext_underline(s) is Some {
            assert(forall|k: int| 0 <= k < run ==> #[trigger] s[k] == s[0]);
        }
        if exists|m: int| 1 <= m <= s.len() && (forall|k: int| 0 <= k < m ==> #[trigger] s[k] == s[0]) && blank_between(
            s,
            m,
            s.len() as int,
        ) {
            let m = choose|m: int| 1 <= m <= s.len() && (forall|k: int| 0 <= k < m ==> #[trigger] s[k] == s[0]) && blank_between(
                s,
                m,
                s.len() as int,
            );
            if run < m {
                assert(s[run] == s[0]);
            }
            assert(blank_between(s, run, s.len() as int));
        }
    }
}

/// Setext underline: a run of `=` or `-` plus trailing whitespace.
/// Returns the heading level (1 for `=`, 2 for `-`).
#[verifier::loop_isolation(false)]
pub fn setext_underline(tail: &[u8]) -> (r: Option<u8>)
    ensures
        r == spec_setext_underline(tail@),
        r is Some <==> (tail@.len() > 0 && (tail@[0] == 61 || tail@[0] == 45) && exists|m: int|
            1 <= m <= tail@.len() && (forall|k: int| 0 <= k < m ==> #[trigger] tail@[k] == tail@[0]) && blank_between(
                tail@,
                m,
                tail@.len() as int,
            )),
        r is Some ==> r == Some(if tail@[0] == 61 { 1u8 } else { 2u8 }),
{
    proof {
        lemma_setext_underline_shape(tail@);
    }
    if tail.len() == 0 {
        return None;
    }
    let marker = tail[0];
    if marker != 61 && marker != 45 {
        return None;
    }
    let mut run: usize = 0;
    while run < tail.len() && tail[run] == marker
        invariant
            run <= tail.len(),
            run_end(tail@, run as int, byte_pred(tail@[0])) == run_end(
                tail@,
                0,
                byte_pred(tail@[0]),
            ),
        decreases tail.len() - run,
    {
        run = run + 1;
    }
    if !is_blank_from(tail, run) {
        return None;
    }
    Some(if marker == 61 { 1 } else { 2 })
}

/// Opening code fence: 3+ backticks or tildes; the fence byte, its length and the trimmed info range.
/// A backtick fence's info string holds no backtick.
pub open spec fn spec_fence_open(s: Seq<u8>) -> Option<(u8, int, int, int)> {
    if s.len() == 0 || (s[0] != 96 && s[0] != 126) {
        None
    } else {
        let run = run_end(s, 0, byte_pred(s[0]));
        let info = spec_trim_range(s, run, s.len() as int);
        if run < 3 {
            None
        } else if s[0] == 96 && exists|k: int| info.0 <= k < info.1 && #[trigger] s[k] == 96 {
            None
        } else {
            Some((s[0], run, info.0, info.1))
        }
    }
}

/// Opening code fence: 3+ backticks or tildes.
/// Returns (fence char, fence length, info string byte range within `tail`, trimmed).
/// Backtick info strings must not contain backticks.
#[verifier::loop_isolation(false)]
pub fn fence_open(tail: &[u8]) -> (r: Option<(u8, u32, Range<usize>)>)
    requires
        tail.len() <= u32::MAX,
    ensures
        r is Some <==> spec_fence_open(tail@) is Some,
        r matches Some((m, n, info)) ==> spec_fence_open(tail@) == Some(
            (m, n as int, info.start as int, info.end as int),
        ) && info.start <= info.end <= tail@.len(),
{
    if tail.len() == 0 {
        return None;
    }
    let marker = tail[0];
    if marker != 96 && marker != 126 {
        return None;
    }
    let mut run: usize = 0;
    while run < tail.len() && tail[run] == marker
        invariant
            run <= tail.len(),
            run_end(tail@, run as int, byte_pred(tail@[0])) == run_end(
                tail@,
                0,
                byte_pred(tail@[0]),
            ),
        decreases tail.len() - run,
    {
        run = run + 1;
    }
    if run < 3 {
        return None;
    }
    let info = trim_range(tail, run..tail.len());
    if marker == 96 {
        let mut k = info.start;
        while k < info.end
            invariant
                info.start <= k <= info.end <= tail.len(),
                forall|j: int| info.start <= j < k ==> tail@[j] != 96,
            decreases info.end - k,
        {
            if tail[k] == 96 {
                return None;
            }
            k = k + 1;
        }
    }
    Some((marker, run as u32, info))
}

/// Closing code fence: a run of `marker` at least `min_len` long, then only whitespace.
pub open spec fn spec_fence_close(s: Seq<u8>, marker: u8, min_len: int) -> bool {
    let run = run_end(s, 0, byte_pred(marker));
    run >= min_len && blank_between(s, run, s.len() as int)
}

/// Closing code fence: a run of `marker` at least `min_len` long, then only whitespace.
#[verifier::loop_isolation(false)]
pub fn fence_close(tail: &[u8], marker: u8, min_len: u32) -> (r: bool)
    ensures
        r == spec_fence_close(tail@, marker, min_len as int),
{
    let mut run: usize = 0;
    while run < tail.len() && tail[run] == marker
        invariant
            run <= tail.len(),
            run_end(tail@, run as int, byte_pred(marker)) == run_end(tail@, 0, byte_pred(marker)),
        decreases tail.len() - run,
    {
        run = run + 1;
    }
    run >= min_len as usize && is_blank_from(tail, run)
}

/// A scanned list marker.
#[derive(Clone, Copy, Debug, PartialEq, Eq, Structural)]
pub struct ListMarkerScan {
    /// Bullet char (`-*+`) or ordered delimiter (`.)`).
    pub marker: u8,
    pub ordered: bool,
    /// Bytes of the whole marker (digits + delimiter, or 1 for bullets).
    pub len: usize,
    /// For ordered markers, whether the number is exactly `1`.
    pub starts_at_one: bool,
}

/// The decimal value of the digits `s[0..to]`.
pub open spec fn digits_value(s: Seq<u8>, to: int) -> int
    decreases to,
{
    if to <= 0 {
        0
    } else {
        digits_value(s, to - 1) * 10 + (s[to - 1] - 48)
    }
}

/// `-`, `*` or `+`.
pub open spec fn is_bullet(b: u8) -> bool {
    b == 45 || b == 42 || b == 43
}

/// List marker: `-` / `*` / `+`, or 1–9 digits + `.` / `)`, followed by space/tab or the end.
pub open spec fn spec_list_marker(s: Seq<u8>) -> Option<ListMarkerScan> {
    if s.len() == 0 {
        None
    } else if is_bullet(s[0]) {
        if s.len() == 1 || is_space_tab(s[1]) {
            Some(ListMarkerScan { marker: s[0], ordered: false, len: 1, starts_at_one: false })
        } else {
            None
        }
    } else if is_digit(s[0]) {
        let digits = run_end(s, 0, |b: u8| is_digit(b));
        if digits > 9 || digits >= s.len() || (s[digits] != 46 && s[digits] != 41) {
            None
        } else if digits + 1 == s.len() || is_space_tab(s[digits + 1]) {
            Some(
                ListMarkerScan {
                    marker: s[digits],
                    ordered: true,
                    len: (digits + 1) as usize,
                    starts_at_one: digits_value(s, digits) == 1,
                },
            )
        } else {
            None
        }
    } else {
        None
    }
}

/// List marker: `-` / `*` / `+`, or 1–9 digits + `.` / `)`,
/// followed by space/tab or EOL.
#[verifier::loop_isolation(false)]
pub fn list_marker(tail: &[u8]) -> (r: Option<ListMarkerScan>)
    ensures
        r == spec_list_marker(tail@),
{
    if tail.len() == 0 {
        return None;
    }
    let first = tail[0];
    if first == 45 || first == 42 || first == 43 {
        if tail.len() == 1 || tail[1] == 32 || tail[1] == 9 {
            return Some(ListMarkerScan { marker: first, ordered: false, len: 1, starts_at_one: false });
        }
        return None;
    }
    if !digit(first) {
        return None;
    }
    let mut digits: usize = 0;
    let mut value: u64 = 0;
    while digits < tail.len() && digit(tail[digits])
        invariant
            digits <= tail.len(),
            run_end(tail@, digits as int, |b: u8| is_digit(b)) == run_end(
                tail@,
                0,
                |b: u8| is_digit(b),
            ),
            forall|k: int| 0 <= k < digits ==> is_digit(#[trigger] tail@[k]),
            digits <= 10,
            value == digits_value(tail@, digits as int),
            value < pow10(digits as nat),
        decreases tail.len() - digits,
    {
        if digits == 10 {
            proof {
                lemma_run_end(tail@, 10, |b: u8| is_digit(b));
            }
            return None;
        }
        proof {
            lemma_pow10_bound(digits as nat);
        }
        value = value * 10 + (tail[digits] - 48) as u64;
        digits = digits + 1;
    }
    if digits > 9 || digits >= tail.len() {
        return None;
    }
    let delimiter = tail[digits];
    if delimiter != 46 && delimiter != 41 {
        return None;
    }
    if digits + 1 == tail.len() || tail[digits + 1] == 32 || tail[digits + 1] == 9 {
        Some(ListMarkerScan { marker: delimiter, ordered: true, len: digits + 1, starts_at_one: value == 1 })
    } else {
        None
    }
}

/// `10^n`.
pub open spec fn pow10(n: nat) -> int
    decreases n,
{
    if n == 0 { 1 } else { 10 * pow10((n - 1) as nat) }
}

proof fn lemma_pow10_bound(n: nat)
    requires
        n <= 9,
    ensures
        pow10(n) <= 100_000_000 || n == 9,
        pow10(n + 1) == 10 * pow10(n),
        pow10(n) <= 1_000_000_000,
{
    assert(pow10(0) == 1);
    assert(pow10(1) == 10);
    assert(pow10(2) == 100);
    assert(pow10(3) == 1000);
    assert(pow10(4) == 10000);
    assert(pow10(5) == 100000);
    assert(pow10(6) == 1000000);
    assert(pow10(7) == 10000000);
    assert(pow10(8) == 100000000);
    assert(pow10(9) == 1000000000);
    assert(pow10(10) == 10000000000);
}

} // verus!
