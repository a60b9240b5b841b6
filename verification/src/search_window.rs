//! What the search window's controls do: running the search (column filters,
//! then row filters), loading the options once, adding and removing filter
//! lines, clearing the row results when a keyword is emptied, and closing.

use vstd::prelude::*;
use std::collections::HashSet;
use crate::column_search::{execute_multi_column_search, multi_search_outcome};
use crate::matching::{numeric_ok, NumOrder};
use crate::row_search::{
    active_row_filters, execute_row_search, row_filter_active, row_search_outcome,
};
use crate::search::{
    active_filters, blank_column_filter, blank_row_filter, is_blank_column_filter,
    is_blank_row_filter, load_column_options, load_row_options, loaded_options, opt_views,
    reset_search, ColumnFilter, RowFilterCondition, SearchWindowState,
};
use crate::sheet::{ExcelData, SheetData};


verus! {

broadcast use {
    vstd::std_specs::hash::group_hash_axioms,
    vstd::std_specs::hash::axiom_u32_obeys_hash_table_key_model,
    vstd::std_specs::hash::axiom_random_state_builds_valid_hashers,
};

/// Whether some column filter takes part.
fn any_active_column(fs: &Vec<ColumnFilter>) -> (r: bool)
    ensures
        r == (active_filters(fs@).len() > 0),
{
    let mut found = false;
    let mut i: usize = 0;
    assert(fs@.take(0) =~= Seq::<ColumnFilter>::empty());
    while i < fs.len()
        invariant
            i <= fs@.len(),
            found == (active_filters(fs@.take(i as int)).len() > 0),
        decreases fs@.len() - i,
    {
        assert(fs@.take(i + 1).drop_last() =~= fs@.take(i as int));
        assert(fs@.take(i + 1).last() == fs@[i as int]);
        if fs[i].is_active() {
            found = true;
        }
        i += 1;
    }
    assert(fs@.take(fs@.len() as int) =~= fs@);
    found
}

/// Whether some row filter takes part.
fn any_active_row(fs: &Vec<RowFilterCondition>) -> (r: bool)
    ensures
        r == (active_row_filters(fs@).len() > 0),
{
    let mut found = false;
    let mut i: usize = 0;
    assert(fs@.take(0) =~= Seq::<RowFilterCondition>::empty());
    while i < fs.len()
        invariant
            i <= fs@.len(),
            found == (active_row_filters(fs@.take(i as int)).len() > 0),
        decreases fs@.len() - i,
    {
        assert(fs@.take(i + 1).drop_last() =~= fs@.take(i as int));
        assert(fs@.take(i + 1).last() == fs@[i as int]);
        if fs[i].is_active() {
            found = true;
        }
        i += 1;
    }
    assert(fs@.take(fs@.len() as int) =~= fs@);
    found
}

/// The two steps of a search: the column step takes the window from
/// `before` to `mid` (or only shows every column again when no column
/// filter takes part), then the row step takes it from `mid` to `after` (or
/// leaves it when no row filter takes part).
pub open spec fn search_steps<F: Fn(&String, &String) -> Option<NumOrder>>(
    before: SearchWindowState,
    sheet: SheetData,
    cols_before: Set<u32>,
    rows_before: Set<u32>,
    mid: SearchWindowState,
    after: SearchWindowState,
    cols_after: Set<u32>,
    rows_after: Set<u32>,
    numeric: F,
) -> bool {
    &&& if active_filters(before.column_filters@).len() > 0 {
        multi_search_outcome(before, sheet, cols_before, mid, cols_after, numeric)
    } else {
        mid == before && cols_after == Set::<u32>::empty()
    }
    &&& if active_row_filters(before.row_filters@).len() > 0 {
        row_search_outcome(mid, sheet, after, rows_after, numeric)
    } else {
        after == mid && rows_after == rows_before
    }
}

/// The search the window runs (its button, or Enter in a filter line): the
/// column filters when one takes part (else every column is shown again),
/// then the row filters when one takes part (else the rows stay as they
/// are). Tells whether either ran.
pub fn run_search<F: Fn(&String, &String) -> Option<NumOrder>>(
    state: &mut SearchWindowState,
    sheet: &SheetData,
    hidden_columns: &mut HashSet<u32>,
    hidden_rows: &mut HashSet<u32>,
    numeric: &F,
) -> (ran: bool)
    requires
        numeric_ok(*numeric),
        active_filters(old(state).column_filters@).len() > 0 ==> active_filters(
            old(state).column_filters@,
        )[0].column_index < old(state).column_options@.len(),
    ensures
        ({
            let has_col = active_filters(old(state).column_filters@).len() > 0;
            let has_row = active_row_filters(old(state).row_filters@).len() > 0;
            &&& ran == (has_col || has_row)
            &&& exists|mid: SearchWindowState|
                #[trigger] search_steps(
                    *old(state),
                    *sheet,
                    old(hidden_columns)@,
                    old(hidden_rows)@,
                    mid,
                    *final(state),
                    final(hidden_columns)@,
                    final(hidden_rows)@,
                    *numeric,
                )
        }),
{
    let has_col = any_active_column(&state.column_filters);
    let has_row = any_active_row(&state.row_filters);
    if has_col {
        execute_multi_column_search(state, sheet, hidden_columns, numeric);
    } else {
        hidden_columns.clear();
    }
    let ghost mid = *state;
    proof {
        if has_col {
            assert(mid.row_filters == old(state).row_filters);
        }
    }
    if has_row {
        execute_row_search(state, sheet, hidden_rows, numeric);
    }
    assert(search_steps(
        *old(state),
        *sheet,
        old(hidden_columns)@,
        old(hidden_rows)@,
        mid,
        *state,
        hidden_columns@,
        hidden_rows@,
        *numeric,
    ));
    has_col || has_row
}

/// Loads the options the first time the window shows them: the column and
/// row options from the configuration text; a selection past the end of
/// non-empty column options goes back to the first; a blank row filter
/// line is offered when there are row options and no line yet. Once loaded,
/// nothing changes.
pub fn load_options_once(
    state: &mut SearchWindowState,
    excel_data: &ExcelData,
    current_sheet: usize,
    config: &str,
)
    ensures
        old(state).options_loaded ==> *final(state) == *old(state),
        !old(state).options_loaded ==> {
            let copts = loaded_options(*excel_data, current_sheet, config@, "column"@);
            let ropts = loaded_options(*excel_data, current_sheet, config@, "row"@);
            &&& final(state).options_loaded
            &&& opt_views(final(state).column_options@) == copts
            &&& opt_views(final(state).row_options@) == ropts
            &&& final(state).selected_index == if copts.len() > 0 && old(state).selected_index
                >= copts.len() {
                0
            } else {
                old(state).selected_index
            }
            &&& if old(state).row_filters@.len() == 0 && ropts.len() > 0 {
                final(state).row_filters@.len() == 1 && is_blank_row_filter(
                    final(state).row_filters@[0],
                )
            } else {
                final(state).row_filters == old(state).row_filters
            }
            &&& final(state).column_filters == old(state).column_filters
            &&& final(state).visible == old(state).visible
            &&& final(state).collapsed == old(state).collapsed
            &&& final(state).is_searching == old(state).is_searching
            &&& final(state).is_row_searching == old(state).is_row_searching
        },
{
    if state.options_loaded {
        return;
    }
    state.column_options = load_column_options(excel_data, current_sheet, config);
    state.options_loaded = true;
    if state.column_options.len() > 0 && state.selected_index >= state.column_options.len() {
        state.selected_index = 0;
    }
    state.row_options = load_row_options(excel_data, current_sheet, config);
    if state.row_filters.len() == 0 && state.row_options.len() > 0 {
        state.row_filters.push(blank_row_filter());
    }
}

/// Adds a blank column filter line.
pub fn add_column_filter(state: &mut SearchWindowState)
    ensures
        final(state).column_filters@.len() == old(state).column_filters@.len() + 1,
        final(state).column_filters@.take(old(state).column_filters@.len() as int)
            == old(state).column_filters@,
        is_blank_column_filter(final(state).column_filters@.last()),
        final(state).row_filters == old(state).row_filters,
{
    state.column_filters.push(blank_column_filter());
}

/// Adds a blank row filter line.
pub fn add_row_filter(state: &mut SearchWindowState)
    ensures
        final(state).row_filters@.len() == old(state).row_filters@.len() + 1,
        final(state).row_filters@.take(old(state).row_filters@.len() as int) == old(
            state,
        ).row_filters@,
        is_blank_row_filter(final(state).row_filters@.last()),
        final(state).column_filters == old(state).column_filters,
{
    state.row_filters.push(blank_row_filter());
}

/// Removes column filter line `idx`; the last line left is kept.
pub fn remove_column_filter(state: &mut SearchWindowState, idx: usize) -> (removed: bool)
    ensures
        removed == (old(state).column_filters@.len() > 1 && idx < old(state).column_filters@.len()),
        removed ==> final(state).column_filters@ == old(state).column_filters@.remove(idx as int),
        !removed ==> final(state).column_filters@ == old(state).column_filters@,
        final(state).row_filters == old(state).row_filters,
{
    if state.column_filters.len() > 1 && idx < state.column_filters.len() {
        state.column_filters.remove(idx);
        true
    } else {
        false
    }
}

/// Removes row filter line `idx`; the last line left is kept.
pub fn remove_row_filter(state: &mut SearchWindowState, idx: usize) -> (removed: bool)
    ensures
        removed == (old(state).row_filters@.len() > 1 && idx < old(state).row_filters@.len()),
        removed ==> final(state).row_filters@ == old(state).row_filters@.remove(idx as int),
        !removed ==> final(state).row_filters@ == old(state).row_filters@,
        final(state).column_filters == old(state).column_filters,
{
    if state.row_filters.len() > 1 && idx < state.row_filters.len() {
        state.row_filters.remove(idx);
        true
    } else {
        false
    }
}

/// After row filter line `idx` was edited: when its keyword is now blank
/// and row results are shown, every row is shown again and the row results
/// are cleared. Tells whether they were.
pub fn row_keyword_edited(state: &mut SearchWindowState, idx: usize, hidden_rows: &mut HashSet<u32>) -> (cleared: bool)
    ensures
        cleared == (idx < old(state).row_filters@.len() && !row_filter_active(
            old(state).row_filters@[idx as int],
        ) && old(state).is_row_searching),
        cleared ==> {
            &&& final(hidden_rows)@ == Set::<u32>::empty()
            &&& !final(state).is_row_searching
            &&& final(state).row_matched_count == 0
            &&& final(state).row_total_searched == 0
            &&& final(state).row_debug_info@.len() == 0
            &&& final(state).row_filters == old(state).row_filters
            &&& final(state).column_filters == old(state).column_filters
            &&& final(state).is_searching == old(state).is_searching
            &&& final(state).visible == old(state).visible
            &&& final(state).collapsed == old(state).collapsed
            &&& final(state).column_options == old(state).column_options
            &&& final(state).selected_index == old(state).selected_index
            &&& final(state).options_loaded == old(state).options_loaded
            &&& final(state).search_keyword == old(state).search_keyword
            &&& final(state).matched_count == old(state).matched_count
            &&& final(state).total_searched == old(state).total_searched
            &&& final(state).use_binary_search == old(state).use_binary_search
            &&& final(state).debug_info == old(state).debug_info
            &&& final(state).row_options == old(state).row_options
            &&& final(state).filter_logic == old(state).filter_logic
        },
        !cleared ==> *final(state) == *old(state) && final(hidden_rows)@ == old(hidden_rows)@,
{
    if idx < state.row_filters.len() && !state.row_filters[idx].is_active() && state.is_row_searching {
        hidden_rows.clear();
        state.is_row_searching = false;
        state.row_matched_count = 0;
        state.row_total_searched = 0;
        state.row_debug_info = String::new();
        true
    } else {
        false
    }
}

/// Closes the window, putting the table back as it was before the search.
pub fn close_search(state: &mut SearchWindowState, hidden_columns: &mut HashSet<u32>, hidden_rows: &mut HashSet<u32>)
    ensures
        !final(state).visible,
        final(hidden_columns)@ == Set::<u32>::empty(),
        final(hidden_rows)@ == Set::<u32>::empty(),
        !final(state).is_searching,
        !final(state).is_row_searching,
        final(state).column_filters@.len() == 1,
        is_blank_column_filter(final(state).column_filters@[0]),
        final(state).row_filters@.len() == (if old(state).row_options@.len() > 0 {
            1int
        } else {
            0int
        }),
        old(state).row_options@.len() > 0 ==> is_blank_row_filter(final(state).row_filters@[0]),
        final(state).matched_count == 0,
        final(state).total_searched == 0,
        final(state).search_keyword@.len() == 0,
        final(state).debug_info@.len() == 0,
        final(state).row_matched_count == 0,
        final(state).row_total_searched == 0,
        final(state).row_debug_info@.len() == 0,
        final(state).collapsed == old(state).collapsed,
        final(state).selected_index == old(state).selected_index,
        final(state).options_loaded == old(state).options_loaded,
        final(state).use_binary_search == old(state).use_binary_search,
        final(state).filter_logic == old(state).filter_logic,
        final(state).column_options == old(state).column_options,
        final(state).row_options == old(state).row_options,
{
    reset_search(state, hidden_columns, hidden_rows);
    state.visible = false;
}

} // verus!
