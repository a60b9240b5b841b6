use std::collections::HashSet;
use umya_excel::matching::NumOrder;
use umya_excel::search::{ColumnFilter, CompareOp, FilterLogic, RangeOption, RowFilterCondition, SearchWindowState};
use umya_excel::search_window::{
    add_column_filter, add_row_filter, close_search, load_options_once, remove_column_filter,
    remove_row_filter, row_keyword_edited, run_search,
};
use umya_excel::sheet::{ExcelData, SheetData};

fn numeric(a: &String, b: &String) -> Option<NumOrder> {
    let x: f64 = a.trim().parse().ok()?;
    let y: f64 = b.trim().parse().ok()?;
    match x.partial_cmp(&y)? {
        std::cmp::Ordering::Less => Some(NumOrder::Less),
        std::cmp::Ordering::Equal => Some(NumOrder::Equal),
        std::cmp::Ordering::Greater => Some(NumOrder::Greater),
    }
}

fn s(v: &str) -> String {
    v.to_string()
}

fn set(v: &[u32]) -> HashSet<u32> {
    v.iter().copied().collect()
}

fn option(title: &str, cells: Vec<(u32, u32)>) -> RangeOption {
    RangeOption { title: s(title), cell_ref: s(""), cells, is_step: false, expr: s("") }
}

fn table() -> SheetData {
    let mut sh = SheetData::new(s("S"), 4, 3);
    sh.set_cell(1, 1, s("名称"), s("名称"));
    sh.set_cell(1, 2, s("apple"), s("apple"));
    sh.set_cell(1, 3, s("pear"), s("pear"));
    for (r, v) in [(2, "x"), (3, "y"), (4, "x")] {
        sh.set_cell(r, 1, s(v), s(v));
    }
    sh
}

fn window() -> SearchWindowState {
    let mut st = SearchWindowState::default();
    st.column_options = vec![option("名称", vec![(1, 1)])];
    st.row_options = vec![option("名称", vec![(1, 1)])];
    st
}

#[test]
fn search_runs_columns_then_rows() {
    let sh = table();
    let mut st = window();
    st.column_filters = vec![ColumnFilter {
        column_index: 0,
        filter_value: s("app"),
        logic: FilterLogic::And,
        op: CompareOp::Contains,
    }];
    st.row_filters = vec![RowFilterCondition {
        range_index: 0,
        keyword: s("x"),
        logic: FilterLogic::And,
        op: CompareOp::Equal,
    }];
    let mut cols = HashSet::new();
    let mut rows = set(&[9]);
    assert!(run_search(&mut st, &sh, &mut cols, &mut rows, &numeric));
    assert_eq!(cols, set(&[3]));
    assert_eq!(rows, set(&[3]));
    assert!(st.is_searching && st.is_row_searching);
}

#[test]
fn search_without_column_filter_shows_all_columns_and_keeps_rows() {
    let sh = table();
    let mut st = window();
    let mut cols = set(&[2, 3]);
    let mut rows = set(&[4]);
    assert!(!run_search(&mut st, &sh, &mut cols, &mut rows, &numeric));
    assert!(cols.is_empty());
    assert_eq!(rows, set(&[4]));
    assert!(!st.is_searching && !st.is_row_searching);
}

#[test]
fn options_load_once_with_blank_row_line() {
    let excel = ExcelData { sheets: vec![table()] };
    let mut st = SearchWindowState::default();
    st.row_filters.clear();
    st.selected_index = 5;
    let config = "search:\n  column: A1\n  row: A1\n";
    load_options_once(&mut st, &excel, 0, config);
    assert!(st.options_loaded);
    assert_eq!(st.column_options.len(), 1);
    assert_eq!(st.row_options.len(), 1);
    assert_eq!(st.selected_index, 0);
    assert_eq!(st.row_filters.len(), 1);
    assert_eq!(st.row_filters[0].keyword, "");
    st.column_options.clear();
    load_options_once(&mut st, &excel, 0, config);
    assert!(st.column_options.is_empty());
}

#[test]
fn filter_lines_add_and_keep_the_last_one() {
    let mut st = SearchWindowState::default();
    let n = st.column_filters.len();
    add_column_filter(&mut st);
    assert_eq!(st.column_filters.len(), n + 1);
    while st.column_filters.len() > 1 {
        assert!(remove_column_filter(&mut st, 0));
    }
    assert!(!remove_column_filter(&mut st, 0));
    assert_eq!(st.column_filters.len(), 1);
    st.row_filters.clear();
    add_row_filter(&mut st);
    add_row_filter(&mut st);
    assert!(!remove_row_filter(&mut st, 5));
    assert!(remove_row_filter(&mut st, 1));
    assert!(!remove_row_filter(&mut st, 0));
    assert_eq!(st.row_filters.len(), 1);
}

#[test]
fn emptied_row_keyword_clears_row_results() {
    let mut st = window();
    st.row_filters = vec![RowFilterCondition {
        range_index: 0,
        keyword: s("  "),
        logic: FilterLogic::And,
        op: CompareOp::Contains,
    }];
    st.is_row_searching = true;
    st.row_matched_count = 2;
    st.row_debug_info = s("info");
    let mut rows = set(&[2, 3]);
    assert!(row_keyword_edited(&mut st, 0, &mut rows));
    assert!(rows.is_empty());
    assert!(!st.is_row_searching);
    assert_eq!(st.row_matched_count, 0);
    assert_eq!(st.row_debug_info, "");
    let mut rows = set(&[2]);
    assert!(!row_keyword_edited(&mut st, 0, &mut rows));
    assert_eq!(rows, set(&[2]));
}

#[test]
fn closing_restores_the_table() {
    let mut st = window();
    st.visible = true;
    st.is_searching = true;
    let mut cols = set(&[2]);
    let mut rows = set(&[3]);
    close_search(&mut st, &mut cols, &mut rows);
    assert!(!st.visible && !st.is_searching);
    assert!(cols.is_empty() && rows.is_empty());
    assert_eq!(st.column_filters.len(), 1);
    assert_eq!(st.row_filters.len(), 1);
}
