//! GFM table rows and delimiter rows.
use std::ops::Range;
use vstd::prelude::*;
use crate::ast::TableAlign;
use super::{lead_end, spec_trim_range, trail_end, trim_range, lemma_lead_trail};

verus! {

/// The cells of a row line `s[0..len]` (trailing whitespace excluded) scanned from `j`,
/// with the current cell starting at `start`: each cell trimmed,
/// a final cell after the last pipe only when non-empty.
pub open spec fn cells_from(s: Seq<u8>, len: int, start: int, j: int) -> Seq<(int, int)>
    decreases len + 2 - j,
{
    if j >= len {
        let rest = spec_trim_range(s, start, len);
        if rest.0 < rest.1 { seq![rest] } else { Seq::empty() }
    } else if s[j] == 92 {
        cells_from(s, len, start, j + 2)
    } else if s[j] == 124 {
        seq![spec_trim_range(s, start, j)] + cells_from(s, len, j + 1, j + 1)
    } else {
        cells_from(s, len, start, j + 1)
    }
}

/// Trimmed cell ranges of a table row line.
/// An escaped `\|` does not separate; a leading pipe is decoration.
pub open spec fn spec_table_row_cells(s: Seq<u8>) -> Seq<(int, int)> {
    let len = trail_end(s, 0, s.len() as int);
    let lead = lead_end(s, 0, len);
    let start = if lead < len && s[lead] == 124 { lead + 1 } else { lead };
    cells_from(s, len, start, start)
}

/// Splits a table row line into trimmed cell byte-ranges.
/// An escaped `\|` does not separate; leading/trailing pipes are decoration;
/// cells are trimmed of spaces/tabs.
/// Content after the last pipe forms a final cell only when non-empty.
#[verifier::loop_isolation(false)]
pub fn table_row_cells(line: &[u8]) -> (cells: Vec<Range<usize>>)
    requires
        line.len() <= isize::MAX,
    ensures
        cells@.len() == spec_table_row_cells(line@).len(),
        forall|i: int|
            0 <= i < cells@.len() ==> (#[trigger] cells@[i].start as int, cells@[i].end as int)
                == spec_table_row_cells(line@)[i] && cells@[i].start <= cells@[i].end <= line@.len(),
{
    let mut len = line.len();
    while len > 0 && (line[len - 1] == 32 || line[len - 1] == 9)
        invariant
            len <= line.len(),
            trail_end(line@, 0, len as int) == trail_end(line@, 0, line@.len() as int),
        decreases len,
    {
        len = len - 1;
    }
    let mut lead: usize = 0;
    while lead < len && (line[lead] == 32 || line[lead] == 9)
        invariant
            lead <= len <= line.len(),
            lead_end(line@, lead as int, len as int) == lead_end(line@, 0, len as int),
        decreases len - lead,
    {
        lead = lead + 1;
    }
    let mut start = if lead < len && line[lead] == 124 { lead + 1 } else { lead };
    let mut cells: Vec<Range<usize>> = Vec::new();
    let mut j = start;
    while j < len
        invariant
            start <= j <= len + 1,
            start <= len,
            len <= line.len(),
            spec_table_row_cells(line@) =~= cells_as_pairs(cells@) + cells_from(
                line@,
                len as int,
                start as int,
                j as int,
            ),
            forall|i: int| 0 <= i < cells@.len() ==> #[trigger] cells@[i].start <= cells@[i].end <= line@.len(),
        decreases len + 2 - j,
    {
        let b = line[j];
        if b == 92 {
            j = j + 2;
        } else if b == 124 {
            let cell = trim_range(line, start..j);
            let ghost before = cells@;
            cells.push(cell);
            proof {
                assert(cell.end <= j);
                assert(cells@[cells@.len() - 1] == cell);
                assert forall|i: int| 0 <= i < cells@.len() implies #[trigger] cells@[i].start <= cells@[i].end <= line@.len() by {
                    if i < cells@.len() - 1 {
                        assert(cells@[i] == before[i]);
                    }
                }
                assert(cells_as_pairs(cells@) =~= cells_as_pairs(before) + seq![
                    (cell.start as int, cell.end as int),
                ]) by {
                    assert(cells@ =~= before.push(cell));
                }
            }
            start = j + 1;
            j = j + 1;
        } else {
            j = j + 1;
        }
    }
    let rest = trim_range(line, start..len);
    if rest.start < rest.end {
        let ghost before = cells@;
        cells.push(rest);
        proof {
            assert(cells@ =~= before.push(rest));
            assert(cells_as_pairs(cells@) =~= cells_as_pairs(before) + seq![
                (rest.start as int, rest.end as int),
            ]);
        }
    }
    cells
}

/// Ranges as integer pairs.
pub open spec fn cells_as_pairs(cells: Seq<Range<usize>>) -> Seq<(int, int)> {
    cells.map_values(|r: Range<usize>| (r.start as int, r.end as int))
}

} // verus!

verus! {

/// A delimiter-row byte: `|`, `-`, `:`, space or tab.
pub open spec fn is_delim_byte(b: u8) -> bool {
    b == 124 || b == 45 || b == 58 || b == 32 || b == 9
}

/// The alignment a delimiter cell `s[a..b]` (`:?-+:?`) gives, if it is one.
pub open spec fn spec_cell_align(s: Seq<u8>, a: int, b: int) -> Option<TableAlign> {
    let left = a < b && s[a] == 58;
    let right = a < b && s[b - 1] == 58 && b - a > 1;
    let da = if left { a + 1 } else { a };
    let db = if right { b - 1 } else { b };
    if da >= db || exists|k: int| da <= k < db && #[trigger] s[k] != 45 {
        None
    } else if left && right {
        Some(TableAlign::Center)
    } else if left {
        Some(TableAlign::Left)
    } else if right {
        Some(TableAlign::Right)
    } else {
        Some(TableAlign::Unspecified)
    }
}

/// A table delimiter row: only `|-:` and whitespace, at least one cell, every cell `:?-+:?`;
/// the per-column alignment.
pub open spec fn spec_table_delimiter_row(s: Seq<u8>) -> Option<Seq<TableAlign>> {
    let cells = spec_table_row_cells(s);
    if exists|k: int| 0 <= k < s.len() && !is_delim_byte(#[trigger] s[k]) {
        None
    } else if cells.len() == 0 {
        None
    } else if exists|i: int| 0 <= i < cells.len() && spec_cell_align(s, #[trigger] cells[i].0, cells[i].1) is None {
        None
    } else {
        Some(Seq::new(cells.len(), |i: int| spec_cell_align(s, cells[i].0, cells[i].1)->0))
    }
}

#[verifier::loop_isolation(false)]
fn cell_align(s: &[u8], a: usize, b: usize) -> (r: Option<TableAlign>)
    requires
        a <= b <= s.len(),
    ensures
        r == spec_cell_align(s@, a as int, b as int),
{
    let left = a < b && s[a] == 58;
    let right = a < b && s[b - 1] == 58 && b - a > 1;
    let da = if left { a + 1 } else { a };
    let db = if right { b - 1 } else { b };
    if da >= db {
        return None;
    }
    let mut k = da;
    while k < db
        invariant
            da <= k <= db <= s.len(),
            forall|j: int| da <= j < k ==> s@[j] == 45,
        decreases db - k,
    {
        if s[k] != 45 {
            assert(s@[k as int] != 45);
            return None;
        }
        k = k + 1;
    }
    if left && right {
        Some(TableAlign::Center)
    } else if left {
        Some(TableAlign::Left)
    } else if right {
        Some(TableAlign::Right)
    } else {
        Some(TableAlign::Unspecified)
    }
}

/// A table delimiter row: cells of `:?-+:?` only.
/// No pipe is required; all-dash rows never reach here because setext/thematic-break/list probes win first.
/// Returns per-column alignment.
#[verifier::loop_isolation(false)]
pub fn table_delimiter_row(tail: &[u8]) -> (r: Option<Vec<TableAlign>>)
    requires
        tail.len() <= isize::MAX,
    ensures
        r is Some <==> spec_table_delimiter_row(tail@) is Some,
        r matches Some(v) ==> spec_table_delimiter_row(tail@) == Some(v@),
{
    let mut k: usize = 0;
    while k < tail.len()
        invariant
            k <= tail.len(),
            forall|j: int| 0 <= j < k ==> is_delim_byte(#[trigger] tail@[j]),
        decreases tail.len() - k,
    {
        let b = tail[k];
        if !(b == 124 || b == 45 || b == 58 || b == 32 || b == 9) {
            return None;
        }
        k = k + 1;
    }
    let cells = table_row_cells(tail);
    if cells.len() == 0 {
        return None;
    }
    let ghost spec_cells = spec_table_row_cells(tail@);
    let mut align: Vec<TableAlign> = Vec::new();
    let mut i: usize = 0;
    while i < cells.len()
        invariant
            i <= cells.len(),
            align@.len() == i,
            forall|j: int| 0 <= j < i ==> spec_cell_align(tail@, spec_cells[j].0, spec_cells[j].1) == Some(#[trigger] align@[j]),
        decreases cells.len() - i,
    {
        let a0 = cells[i].start;
        let b0 = cells[i].end;
        assert((cells@[i as int].start as int, cells@[i as int].end as int) == spec_cells[i as int]);
        match cell_align(tail, a0, b0) {
            Some(a) => align.push(a),
            None => {
                assert(spec_cell_align(tail@, spec_cells[i as int].0, spec_cells[i as int].1) is None);
                return None;
            },
        }
        i = i + 1;
    }
    proof {
        assert(!exists|i: int| 0 <= i < spec_cells.len() && spec_cell_align(tail@, #[trigger] spec_cells[i].0, spec_cells[i].1) is None) by {
            assert forall|i: int| 0 <= i < spec_cells.len() implies spec_cell_align(tail@, #[trigger] spec_cells[i].0, spec_cells[i].1) is Some by {
                assert(spec_cell_align(tail@, spec_cells[i].0, spec_cells[i].1) == Some(align@[i]));
            }
        }
        assert(align@ =~= Seq::new(spec_cells.len(), |i: int| spec_cell_align(tail@, spec_cells[i].0, spec_cells[i].1)->0));
    }
    Some(align)
}

} // verus!
