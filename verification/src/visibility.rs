//! Hidden and visible sets of rows and columns, kept consistent with merged
//! cells: the top-left cell of a merged region speaks for all of it.

use vstd::prelude::*;
use std::collections::HashSet;
use crate::sheet::{CellRange, SheetData};

verus! {

broadcast use {
    vstd::std_specs::hash::group_hash_axioms,
    vstd::std_specs::hash::axiom_u32_obeys_hash_table_key_model,
    vstd::std_specs::hash::axiom_random_state_builds_valid_hashers,
};

/// The numbers `a..=b`.
pub open spec fn span(a: u32, b: u32) -> Set<u32> {
    Set::new(|x: u32| a <= x <= b)
}

/// Adds (`add`) or removes the numbers `a..=b`.
pub fn set_span(h: &mut HashSet<u32>, a: u32, b: u32, add: bool)
    ensures
        final(h)@ == (if add {
            old(h)@.union(span(a, b))
        } else {
            old(h)@.difference(span(a, b))
        }),
{
    if a > b {
        assert(span(a, b) =~= Set::<u32>::empty());
        assert(h@.union(span(a, b)) =~= h@);
        assert(h@.difference(span(a, b)) =~= h@);
        return;
    }
    let count: u64 = (b - a) as u64 + 1;
    let mut k: u64 = 0;
    while k < count
        invariant
            a <= b,
            count == b - a + 1,
            k <= count,
            h@ == (if add {
                old(h)@.union(Set::new(|x: u32| a <= x < a + k))
            } else {
                old(h)@.difference(Set::new(|x: u32| a <= x < a + k))
            }),
        decreases count - k,
    {
        let x: u32 = a + k as u32;
        if add {
            h.insert(x);
        } else {
            h.remove(&x);
        }
        k += 1;
        assert(h@ =~= (if add {
            old(h)@.union(Set::new(|y: u32| a <= y < a + k))
        } else {
            old(h)@.difference(Set::new(|y: u32| a <= y < a + k))
        }));
    }
    assert(Set::new(|y: u32| a <= y < a + count) =~= span(a, b));
}

/// One merged region applied to the hidden columns of row `row`: a region
/// spanning several columns and covering the row is shown whole when its
/// first column is shown, and hidden whole otherwise.
pub open spec fn col_step(h: Set<u32>, mr: CellRange, row: u32) -> Set<u32> {
    if mr.start_col == mr.end_col || row < mr.start_row || row > mr.end_row {
        h
    } else if !h.contains(mr.start_col) {
        h.difference(span(mr.start_col, mr.end_col))
    } else {
        h.union(span(mr.start_col, mr.end_col))
    }
}

pub open spec fn cols_aligned(h: Set<u32>, mrs: Seq<CellRange>, row: u32) -> Set<u32>
    decreases mrs.len(),
{
    if mrs.len() == 0 {
        h
    } else {
        col_step(cols_aligned(h, mrs.drop_last(), row), mrs.last(), row)
    }
}

/// The same for the hidden rows of column `col` and regions spanning
/// several rows.
pub open spec fn row_step(h: Set<u32>, mr: CellRange, col: u32) -> Set<u32> {
    if mr.start_row == mr.end_row || col < mr.start_col || col > mr.end_col {
        h
    } else if !h.contains(mr.start_row) {
        h.difference(span(mr.start_row, mr.end_row))
    } else {
        h.union(span(mr.start_row, mr.end_row))
    }
}

pub open spec fn rows_aligned(h: Set<u32>, mrs: Seq<CellRange>, col: u32) -> Set<u32>
    decreases mrs.len(),
{
    if mrs.len() == 0 {
        h
    } else {
        row_step(rows_aligned(h, mrs.drop_last(), col), mrs.last(), col)
    }
}

/// A merged region that spans several rows and covers column `col`.
pub open spec fn covers_rows(mr: CellRange, col: u32) -> bool {
    mr.start_row < mr.end_row && mr.start_col <= col <= mr.end_col
}

/// The covering regions of `mrs` share no row.
pub open spec fn row_regions_apart(mrs: Seq<CellRange>, col: u32) -> bool {
    forall|i: int, j: int|
        0 <= i < j < mrs.len() && covers_rows(#[trigger] mrs[i], col) && covers_rows(#[trigger] mrs[j], col)
            ==> mrs[i].end_row < mrs[j].start_row || mrs[j].end_row < mrs[i].start_row
}

/// Row `r` lies in one of the covering regions of `mrs`.
pub open spec fn in_row_region(mrs: Seq<CellRange>, col: u32, r: u32) -> bool {
    exists|i: int| 0 <= i < mrs.len() && covers_rows(#[trigger] mrs[i], col) && mrs[i].start_row <= r <= mrs[i].end_row
}

/// Aligning the hidden rows keeps merged regions whole: with the regions
/// that cover the column sharing no row (as merged regions do), every row of
/// such a region ends up hidden exactly when the region's first row was
/// hidden before, so a region is shown or hidden whole and follows its first
/// row; a row outside every such region keeps its state.
pub proof fn lemma_rows_aligned_whole(h: Set<u32>, mrs: Seq<CellRange>, col: u32)
    requires
        row_regions_apart(mrs, col),
    ensures
        forall|i: int, r: u32|
            0 <= i < mrs.len() && covers_rows(#[trigger] mrs[i], col) && mrs[i].start_row <= r <= mrs[i].end_row
                ==> (#[trigger] rows_aligned(h, mrs, col).contains(r) == h.contains(mrs[i].start_row)),
        forall|r: u32| !in_row_region(mrs, col, r) ==> (#[trigger] rows_aligned(h, mrs, col).contains(r) == h.contains(r)),
    decreases mrs.len(),
{
    if mrs.len() > 0 {
        let pre = mrs.drop_last();
        let last = mrs.last();
        assert(row_regions_apart(pre, col)) by {
            assert forall|i: int, j: int|
                0 <= i < j < pre.len() && covers_rows(#[trigger] pre[i], col) && covers_rows(#[trigger] pre[j], col)
                implies pre[i].end_row < pre[j].start_row || pre[j].end_row < pre[i].start_row by {
                assert(pre[i] == mrs[i] && pre[j] == mrs[j]);
            }
        }
        lemma_rows_aligned_whole(h, pre, col);
        let hp = rows_aligned(h, pre, col);
        let hr = rows_aligned(h, mrs, col);
        assert(hr == row_step(hp, last, col));
        if covers_rows(last, col) {
            assert(!in_row_region(pre, col, last.start_row)) by {
                if in_row_region(pre, col, last.start_row) {
                    let i = choose|i: int|
                        0 <= i < pre.len() && covers_rows(#[trigger] pre[i], col) && pre[i].start_row <= last.start_row
                            <= pre[i].end_row;
                    assert(pre[i] == mrs[i]);
                    assert(mrs[mrs.len() - 1] == last);
                }
            }
            assert(hp.contains(last.start_row) == h.contains(last.start_row));
        }
        assert forall|i: int, r: u32|
            0 <= i < mrs.len() && covers_rows(#[trigger] mrs[i], col) && mrs[i].start_row <= r <= mrs[i].end_row
            implies (#[trigger] hr.contains(r) == h.contains(mrs[i].start_row)) by {
            if i == mrs.len() - 1 {
                assert(mrs[i] == last);
            } else {
                assert(pre[i] == mrs[i]);
                assert(mrs[mrs.len() - 1] == last);
                if covers_rows(last, col) {
                    assert(!(last.start_row <= r <= last.end_row));
                }
                assert(hp.contains(r) == h.contains(mrs[i].start_row));
            }
        }
        assert forall|r: u32| !in_row_region(mrs, col, r) implies (#[trigger] hr.contains(r) == h.contains(r)) by {
            if in_row_region(pre, col, r) {
                let i = choose|i: int|
                    0 <= i < pre.len() && covers_rows(#[trigger] pre[i], col) && pre[i].start_row <= r <= pre[i].end_row;
                assert(pre[i] == mrs[i]);
            }
            if covers_rows(last, col) && last.start_row <= r <= last.end_row {
                assert(mrs[mrs.len() - 1] == last);
            }
        }
    }
}

/// A merged region that spans several columns and covers row `row`.
pub open spec fn covers_cols(mr: CellRange, row: u32) -> bool {
    mr.start_col < mr.end_col && mr.start_row <= row <= mr.end_row
}

/// The covering regions of `mrs` share no column.
pub open spec fn col_regions_apart(mrs: Seq<CellRange>, row: u32) -> bool {
    forall|i: int, j: int|
        0 <= i < j < mrs.len() && covers_cols(#[trigger] mrs[i], row) && covers_cols(#[trigger] mrs[j], row)
            ==> mrs[i].end_col < mrs[j].start_col || mrs[j].end_col < mrs[i].start_col
}

/// Column `c` lies in one of the covering regions of `mrs`.
pub open spec fn in_col_region(mrs: Seq<CellRange>, row: u32, c: u32) -> bool {
    exists|i: int| 0 <= i < mrs.len() && covers_cols(#[trigger] mrs[i], row) && mrs[i].start_col <= c <= mrs[i].end_col
}

/// Aligning the hidden columns keeps merged regions whole: with the regions
/// that cover the row sharing no column (as merged regions do), every column
/// of such a region ends up hidden exactly when the region's first column
/// was hidden before, so a region is shown or hidden whole and follows its
/// first column; a column outside every such region keeps its state.
pub proof fn lemma_cols_aligned_whole(h: Set<u32>, mrs: Seq<CellRange>, row: u32)
    requires
        col_regions_apart(mrs, row),
    ensures
        forall|i: int, c: u32|
            0 <= i < mrs.len() && covers_cols(#[trigger] mrs[i], row) && mrs[i].start_col <= c <= mrs[i].end_col
                ==> (#[trigger] cols_aligned(h, mrs, row).contains(c) == h.contains(mrs[i].start_col)),
        forall|c: u32| !in_col_region(mrs, row, c) ==> (#[trigger] cols_aligned(h, mrs, row).contains(c) == h.contains(c)),
    decreases mrs.len(),
{
    if mrs.len() > 0 {
        let pre = mrs.drop_last();
        let last = mrs.last();
        assert(col_regions_apart(pre, row)) by {
            assert forall|i: int, j: int|
                0 <= i < j < pre.len() && covers_cols(#[trigger] pre[i], row) && covers_cols(#[trigger] pre[j], row)
                implies pre[i].end_col < pre[j].start_col || pre[j].end_col < pre[i].start_col by {
                assert(pre[i] == mrs[i] && pre[j] == mrs[j]);
            }
        }
        lemma_cols_aligned_whole(h, pre, row);
        let hp = cols_aligned(h, pre, row);
        let hr = cols_aligned(h, mrs, row);
        assert(hr == col_step(hp, last, row));
        if covers_cols(last, row) {
            assert(!in_col_region(pre, row, last.start_col)) by {
                if in_col_region(pre, row, last.start_col) {
                    let i = choose|i: int|
                        0 <= i < pre.len() && covers_cols(#[trigger] pre[i], row) && pre[i].start_col <= last.start_col
                            <= pre[i].end_col;
                    assert(pre[i] == mrs[i]);
                    assert(mrs[mrs.len() - 1] == last);
                }
            }
            assert(hp.contains(last.start_col) == h.contains(last.start_col));
        }
        assert forall|i: int, c: u32|
            0 <= i < mrs.len() && covers_cols(#[trigger] mrs[i], row) && mrs[i].start_col <= c <= mrs[i].end_col
            implies (#[trigger] hr.contains(c) == h.contains(mrs[i].start_col)) by {
            if i == mrs.len() - 1 {
                assert(mrs[i] == last);
            } else {
                assert(pre[i] == mrs[i]);
                assert(mrs[mrs.len() - 1] == last);
                if covers_cols(last, row) {
                    assert(!(last.start_col <= c <= last.end_col));
                }
                assert(hp.contains(c) == h.contains(mrs[i].start_col));
            }
        }
        assert forall|c: u32| !in_col_region(mrs, row, c) implies (#[trigger] hr.contains(c) == h.contains(c)) by {
            if in_col_region(pre, row, c) {
                let i = choose|i: int|
                    0 <= i < pre.len() && covers_cols(#[trigger] pre[i], row) && pre[i].start_col <= c <= pre[i].end_col;
                assert(pre[i] == mrs[i]);
            }
            if covers_cols(last, row) && last.start_col <= c <= last.end_col {
                assert(mrs[mrs.len() - 1] == last);
            }
        }
    }
}

/// Aligns the hidden columns with the merged regions that cover `target_row`,
/// one region after the other in the sheet's order.
pub fn expand_hidden_for_merged_cells(sheet: &SheetData, hidden_columns: &mut HashSet<u32>, target_row: u32)
    ensures
        final(hidden_columns)@ == cols_aligned(old(hidden_columns)@, sheet.merged_cells@, target_row),
{
    let ghost mrs = sheet.merged_cells@;
    let mut i: usize = 0;
    assert(mrs.take(0) =~= Seq::<CellRange>::empty());
    while i < sheet.merged_cells.len()
        invariant
            mrs == sheet.merged_cells@,
            i <= mrs.len(),
            hidden_columns@ == cols_aligned(old(hidden_columns)@, mrs.take(i as int), target_row),
        decreases mrs.len() - i,
    {
        let mr = sheet.merged_cells[i];
        assert(mrs.take(i + 1).drop_last() =~= mrs.take(i as int));
        assert(mrs.take(i + 1).last() == mr);
        if mr.start_col != mr.end_col && target_row >= mr.start_row && target_row <= mr.end_row {
            let shown = !hidden_columns.contains(&mr.start_col);
            set_span(hidden_columns, mr.start_col, mr.end_col, !shown);
        }
        i += 1;
    }
    assert(mrs.take(mrs.len() as int) =~= mrs);
}

/// Aligns the hidden rows with the merged regions that cover `target_col`.
pub fn expand_hidden_rows_for_merged_cells(sheet: &SheetData, hidden_rows: &mut HashSet<u32>, target_col: u32)
    ensures
        final(hidden_rows)@ == rows_aligned(old(hidden_rows)@, sheet.merged_cells@, target_col),
{
    let ghost mrs = sheet.merged_cells@;
    let mut i: usize = 0;
    assert(mrs.take(0) =~= Seq::<CellRange>::empty());
    while i < sheet.merged_cells.len()
        invariant
            mrs == sheet.merged_cells@,
            i <= mrs.len(),
            hidden_rows@ == rows_aligned(old(hidden_rows)@, mrs.take(i as int), target_col),
        decreases mrs.len() - i,
    {
        let mr = sheet.merged_cells[i];
        assert(mrs.take(i + 1).drop_last() =~= mrs.take(i as int));
        assert(mrs.take(i + 1).last() == mr);
        if mr.start_row != mr.end_row && target_col >= mr.start_col && target_col <= mr.end_col {
            let shown = !hidden_rows.contains(&mr.start_row);
            set_span(hidden_rows, mr.start_row, mr.end_row, !shown);
        }
        i += 1;
    }
    assert(mrs.take(mrs.len() as int) =~= mrs);
}

/// Whether one of the anchor rows lies in `a..=b`.
pub open spec fn overlaps(rows: Seq<u32>, a: u32, b: u32) -> bool {
    exists|i: int| 0 <= i < rows.len() && a <= #[trigger] rows[i] <= b
}

/// One merged region applied to the visible columns: a region spanning
/// several columns that covers an anchor row is shown whole when its first
/// column is visible, and hidden whole otherwise.
pub open spec fn visible_step(v: Set<u32>, mr: CellRange, rows: Seq<u32>) -> Set<u32> {
    if mr.start_col == mr.end_col || !overlaps(rows, mr.start_row, mr.end_row) {
        v
    } else if v.contains(mr.start_col) {
        v.union(span(mr.start_col, mr.end_col))
    } else {
        v.difference(span(mr.start_col, mr.end_col))
    }
}

pub open spec fn visible_aligned(v: Set<u32>, mrs: Seq<CellRange>, rows: Seq<u32>) -> Set<u32>
    decreases mrs.len(),
{
    if mrs.len() == 0 {
        v
    } else {
        visible_step(visible_aligned(v, mrs.drop_last(), rows), mrs.last(), rows)
    }
}

/// A merged region that spans several columns and covers one of the rows.
pub open spec fn covers_anchor(mr: CellRange, rows: Seq<u32>) -> bool {
    mr.start_col < mr.end_col && overlaps(rows, mr.start_row, mr.end_row)
}

/// The covering regions of `mrs` share no column.
pub open spec fn anchor_regions_apart(mrs: Seq<CellRange>, rows: Seq<u32>) -> bool {
    forall|i: int, j: int|
        0 <= i < j < mrs.len() && covers_anchor(#[trigger] mrs[i], rows) && covers_anchor(#[trigger] mrs[j], rows)
            ==> mrs[i].end_col < mrs[j].start_col || mrs[j].end_col < mrs[i].start_col
}

/// Column `c` lies in one of the covering regions of `mrs`.
pub open spec fn in_anchor_region(mrs: Seq<CellRange>, rows: Seq<u32>, c: u32) -> bool {
    exists|i: int| 0 <= i < mrs.len() && covers_anchor(#[trigger] mrs[i], rows) && mrs[i].start_col <= c <= mrs[i].end_col
}

/// Aligning the visible columns keeps merged regions whole: with the
/// regions that cover one of the rows sharing no column (as merged regions
/// do), every column of such a region ends up visible exactly when the
/// region's first column was visible before, so a region is shown or hidden
/// whole and follows its first column; a column outside every such region
/// keeps its state.
pub proof fn lemma_visible_aligned_whole(v: Set<u32>, mrs: Seq<CellRange>, rows: Seq<u32>)
    requires
        anchor_regions_apart(mrs, rows),
    ensures
        forall|i: int, c: u32|
            0 <= i < mrs.len() && covers_anchor(#[trigger] mrs[i], rows) && mrs[i].start_col <= c <= mrs[i].end_col
                ==> (#[trigger] visible_aligned(v, mrs, rows).contains(c) == v.contains(mrs[i].start_col)),
        forall|c: u32| !in_anchor_region(mrs, rows, c) ==> (#[trigger] visible_aligned(v, mrs, rows).contains(c) == v.contains(c)),
    decreases mrs.len(),
{
    if mrs.len() > 0 {
        let pre = mrs.drop_last();
        let last = mrs.last();
        assert(anchor_regions_apart(pre, rows)) by {
            assert forall|i: int, j: int|
                0 <= i < j < pre.len() && covers_anchor(#[trigger] pre[i], rows) && covers_anchor(#[trigger] pre[j], rows)
                implies pre[i].end_col < pre[j].start_col || pre[j].end_col < pre[i].start_col by {
                assert(pre[i] == mrs[i] && pre[j] == mrs[j]);
            }
        }
        lemma_visible_aligned_whole(v, pre, rows);
        let hp = visible_aligned(v, pre, rows);
        let hr = visible_aligned(v, mrs, rows);
        assert(hr == visible_step(hp, last, rows));
        if covers_anchor(last, rows) {
            assert(!in_anchor_region(pre, rows, last.start_col)) by {
                if in_anchor_region(pre, rows, last.start_col) {
                    let i = choose|i: int|
                        0 <= i < pre.len() && covers_anchor(#[trigger] pre[i], rows) && pre[i].start_col <= last.start_col
                            <= pre[i].end_col;
                    assert(pre[i] == mrs[i]);
                    assert(mrs[mrs.len() - 1] == last);
                }
            }
            assert(hp.contains(last.start_col) == v.contains(last.start_col));
        }
        assert forall|i: int, c: u32|
            0 <= i < mrs.len() && covers_anchor(#[trigger] mrs[i], rows) && mrs[i].start_col <= c <= mrs[i].end_col
            implies (#[trigger] hr.contains(c) == v.contains(mrs[i].start_col)) by {
            if i == mrs.len() - 1 {
                assert(mrs[i] == last);
            } else {
                assert(pre[i] == mrs[i]);
                assert(mrs[mrs.len() - 1] == last);
                if covers_anchor(last, rows) {
                    assert(!(last.start_col <= c <= last.end_col));
                }
                assert(hp.contains(c) == v.contains(mrs[i].start_col));
            }
        }
        assert forall|c: u32| !in_anchor_region(mrs, rows, c) implies (#[trigger] hr.contains(c) == v.contains(c)) by {
            if in_anchor_region(pre, rows, c) {
                let i = choose|i: int|
                    0 <= i < pre.len() && covers_anchor(#[trigger] pre[i], rows) && pre[i].start_col <= c <= pre[i].end_col;
                assert(pre[i] == mrs[i]);
            }
            if covers_anchor(last, rows) && last.start_col <= c <= last.end_col {
                assert(mrs[mrs.len() - 1] == last);
            }
        }
    }
}


fn any_in(rows: &[u32], a: u32, b: u32) -> (r: bool)
    ensures
        r == overlaps(rows@, a, b),
{
    let mut i: usize = 0;
    while i < rows.len()
        invariant
            i <= rows@.len(),
            forall|j: int| 0 <= j < i ==> !(a <= #[trigger] rows@[j] <= b),
        decreases rows@.len() - i,
    {
        if rows[i] >= a && rows[i] <= b {
            return true;
        }
        i += 1;
    }
    false
}

/// Aligns the visible columns with the merged regions that cover one of the
/// anchor rows.
pub fn align_visible_for_merged(sheet: &SheetData, visible: &mut HashSet<u32>, anchor_rows: &[u32])
    ensures
        final(visible)@ == visible_aligned(old(visible)@, sheet.merged_cells@, anchor_rows@),
{
    let ghost mrs = sheet.merged_cells@;
    let mut i: usize = 0;
    assert(mrs.take(0) =~= Seq::<CellRange>::empty());
    while i < sheet.merged_cells.len()
        invariant
            mrs == sheet.merged_cells@,
            i <= mrs.len(),
            visible@ == visible_aligned(old(visible)@, mrs.take(i as int), anchor_rows@),
        decreases mrs.len() - i,
    {
        let mr = sheet.merged_cells[i];
        assert(mrs.take(i + 1).drop_last() =~= mrs.take(i as int));
        assert(mrs.take(i + 1).last() == mr);
        if mr.start_col != mr.end_col && any_in(anchor_rows, mr.start_row, mr.end_row) {
            let shown = visible.contains(&mr.start_col);
            set_span(visible, mr.start_col, mr.end_col, shown);
        }
        i += 1;
    }
    assert(mrs.take(mrs.len() as int) =~= mrs);
}

} // verus!
