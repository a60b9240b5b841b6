use std::collections::HashSet;
use umya_excel::column_search::{
    compute_column_matches, execute_multi_column_search, execute_search,
};
use umya_excel::matching::{
    compare_value, match_filter_value, parse_row_keywords, row_fuzzy_match, text_less, NumOrder,
};
use umya_excel::row_search::{collect_column_values, execute_row_search, sorted_col_list};
use umya_excel::scan::{find_rows_in_sorted, find_sorted_column_matches, search_sorted};
use umya_excel::search::{
    execute_column_filter, ColumnFilter, CompareOp, FilterLogic, RangeOption, RowFilterCondition,
    SearchWindowState,
};
use umya_excel::sheet::{CellRange, SheetData};

fn numeric(a: &String, b: &String) -> Option<NumOrder> {
    let x: f64 = a.trim().parse().ok()?;
    let y: f64 = b.trim().parse().ok()?;
    match x.partial_cmp(&y)? {
        std::cmp::Ordering::Less => Some(NumOrder::Less),
        std::cmp::Ordering::Equal => Some(NumOrder::Equal),
        std::cmp::Ordering::Greater => Some(NumOrder::Greater),
    }
}

fn s(v: &str) -> String {
    v.to_string()
}

fn option(title: &str, cells: Vec<(u32, u32)>) -> RangeOption {
    RangeOption { title: s(title), cell_ref: s(""), cells, is_step: false, expr: s("") }
}

fn set(v: &[u32]) -> HashSet<u32> {
    v.iter().copied().collect()
}

// ── comparison ──

#[test]
fn compare_text_operators() {
    assert!(compare_value("  Apple Pie ", "apple", CompareOp::Contains, &numeric));
    assert!(!compare_value("Apple", "pear", CompareOp::Contains, &numeric));
    assert!(compare_value("Apple", "pear", CompareOp::NotContains, &numeric));
    assert!(compare_value("ABC", " abc ", CompareOp::Equal, &numeric));
    assert!(!compare_value("ABC", "abd", CompareOp::Equal, &numeric));
    assert!(compare_value("ABC", "abd", CompareOp::NotEqual, &numeric));
}

#[test]
fn compare_numbers_then_text() {
    // numbers compare as numbers: 10 > 9 although "10" < "9" as text
    assert!(compare_value("10", "9", CompareOp::GreaterThan, &numeric));
    assert!(!compare_value("10", "9", CompareOp::LessThan, &numeric));
    assert!(compare_value("2.5", "2.50", CompareOp::GreaterEqual, &numeric));
    assert!(compare_value("2.5", "2.50", CompareOp::LessEqual, &numeric));
    // text falls back to text order
    assert!(compare_value("b", "a", CompareOp::GreaterThan, &numeric));
    assert!(compare_value("abc", "10", CompareOp::GreaterThan, &numeric));
    assert!(!compare_value("a", "a", CompareOp::LessThan, &numeric));
}

#[test]
fn fuzzy_ignores_case() {
    assert!(row_fuzzy_match("HeLLo World", "world"));
    assert!(!row_fuzzy_match("Hello", "xyz"));
    assert!(row_fuzzy_match("anything", ""));
}

#[test]
fn text_order_is_code_point_order() {
    assert!(text_less(&['a'], &['b']));
    assert!(text_less(&['a'], &['a', 'a']));
    assert!(!text_less(&['b'], &['a', 'z']));
    assert!(text_less(&['Z'], &['a']));
    assert!(text_less(&['z'], &['中']));
}

// ── row filter keywords ──

#[test]
fn row_keywords_single_multi_range() {
    assert_eq!(parse_row_keywords("xxxx"), (vec![s("xxxx")], false));
    assert_eq!(parse_row_keywords(" 'xxx1','xxx2' "), (vec![s("xxx1"), s("xxx2")], false));
    assert_eq!(parse_row_keywords("'xxx3'-'xxx4'"), (vec![s("xxx3"), s("xxx4")], true));
    assert_eq!(parse_row_keywords("   "), (vec![], false));
    assert_eq!(parse_row_keywords("a, b,,c"), (vec![s("a"), s("b"), s("c")], false));
    assert_eq!(parse_row_keywords("'',''"), (vec![s("'',''")], false));
    assert_eq!(parse_row_keywords("2024-01"), (vec![s("2024-01")], false));
}

#[test]
fn filter_value_range_and_any() {
    let range = vec![s("b"), s("d")];
    assert!(match_filter_value(" c ", &range, true, CompareOp::Contains, &numeric));
    assert!(match_filter_value("b", &range, true, CompareOp::Contains, &numeric));
    assert!(!match_filter_value("e", &range, true, CompareOp::Contains, &numeric));
    let any = vec![s("x"), s("lo")];
    assert!(match_filter_value("hello", &any, false, CompareOp::Contains, &numeric));
    assert!(!match_filter_value("abc", &any, false, CompareOp::Contains, &numeric));
}

// ── sorted scans ──

#[test]
fn sorted_column_scan() {
    let cv = vec![(2, s("apple")), (3, s("banana")), (4, s("cherry"))];
    assert_eq!(find_sorted_column_matches(&cv, "b"), set(&[3]));
    // the scan stops at the first value beyond the keyword that shares no
    // prefix with it, though later values contain it
    assert_eq!(find_sorted_column_matches(&cv, "an"), set(&[]));
    let mut hidden = set(&[9]);
    search_sorted(&cv, "b", &mut hidden);
    assert_eq!(hidden, set(&[2, 4, 9]));
}

#[test]
fn sorted_rows_range_and_fuzzy() {
    let rv = vec![(2, s("a")), (3, s("b")), (4, s("c")), (5, s("d"))];
    assert_eq!(find_rows_in_sorted(&rv, &[s("b"), s("c")], true), set(&[3, 4]));
    let rv2 = vec![(2, s("ab")), (3, s("abc")), (4, s("b"))];
    assert_eq!(find_rows_in_sorted(&rv2, &[s("ab")], false), set(&[2, 3]));
}

#[test]
fn sorted_columns_of_cells() {
    assert_eq!(sorted_col_list(&vec![(3, 1), (1, 2), (3, 5), (2, 2)]), vec![1, 2, 3]);
}

// ── column search ──

fn header_sheet() -> SheetData {
    let mut sh = SheetData::new(s("S"), 3, 4);
    sh.set_cell(1, 1, s("名称"), s("名称"));
    sh.set_cell(1, 2, s("cherry"), s("cherry"));
    sh.set_cell(1, 3, s("Banana"), s("Banana"));
    sh.set_cell(1, 4, s("apple"), s("apple"));
    sh
}

#[test]
fn column_matches_linear() {
    let sh = header_sheet();
    let o = option("名称", vec![(1, 1)]);
    let (vis, total, binary) = compute_column_matches(&sh, &o, "AN", CompareOp::Contains, &numeric);
    assert_eq!(vis, set(&[3]));
    assert_eq!(total, 3);
    assert!(!binary);
    let (vis, _, _) = compute_column_matches(&sh, &o, "an", CompareOp::NotContains, &numeric);
    assert_eq!(vis, set(&[2, 4]));
}

#[test]
fn column_matches_no_anchor() {
    let sh = header_sheet();
    let o = option("x", vec![]);
    let (vis, total, binary) = compute_column_matches(&sh, &o, "a", CompareOp::Contains, &numeric);
    assert!(vis.is_empty());
    assert_eq!(total, 0);
    assert!(!binary);
}

#[test]
fn single_search_hides_and_reports() {
    let sh = header_sheet();
    let mut st = SearchWindowState::default();
    st.column_options = vec![option("名称", vec![(1, 1)])];
    st.selected_index = 0;
    st.search_keyword = s("an");
    let mut hidden = set(&[7]);
    execute_search(&mut st, &sh, &mut hidden);
    assert_eq!(hidden, set(&[2, 4]));
    assert_eq!(st.total_searched, 3);
    assert_eq!(st.matched_count, 1);
    assert!(!st.use_binary_search);
    assert!(st.is_searching);
    assert_eq!(st.debug_info, "选中A1 | 行1 B→D 共3列 | 匹配1列 隐藏2列 | 匹配: C='banana'");
}

#[test]
fn single_search_no_columns() {
    let mut sh = SheetData::new(s("S"), 3, 1);
    sh.set_cell(1, 1, s("名称"), s("名称"));
    let mut st = SearchWindowState::default();
    st.column_options = vec![option("名称", vec![(1, 1)])];
    let mut hidden = HashSet::new();
    execute_search(&mut st, &sh, &mut hidden);
    assert!(hidden.is_empty());
    assert_eq!(st.total_searched, 0);
    assert_eq!(st.debug_info, "选中A1 → 行1右侧无列可搜索（max_col=1）");
}

#[test]
fn single_search_merged_region_follows_top_left() {
    let mut sh = header_sheet();
    // C1:D1 merged: C1 matches, so D1 shows too
    sh.merged_cells.push(CellRange::new(1, 3, 1, 4));
    let mut st = SearchWindowState::default();
    st.column_options = vec![option("名称", vec![(1, 1)])];
    st.search_keyword = s("an");
    let mut hidden = HashSet::new();
    execute_search(&mut st, &sh, &mut hidden);
    assert_eq!(hidden, set(&[2]));
}

#[test]
fn single_search_sorted_row_keeps_every_match() {
    let mut sh = SheetData::new(s("S"), 1, 5);
    sh.set_cell(1, 1, s("名称"), s("名称"));
    sh.set_cell(1, 2, s("a"), s("a"));
    sh.set_cell(1, 3, s("ab"), s("ab"));
    sh.set_cell(1, 4, s("b"), s("b"));
    sh.set_cell(1, 5, s("cab"), s("cab"));
    let mut st = SearchWindowState::default();
    st.column_options = vec![option("名称", vec![(1, 1)])];
    st.search_keyword = s("AB");
    let mut hidden = HashSet::new();
    execute_search(&mut st, &sh, &mut hidden);
    // the values right of A1 are sorted; "cab" still matches
    assert_eq!(hidden, set(&[2, 4]));
    assert_eq!(st.total_searched, 4);
    assert_eq!(st.matched_count, 2);
}

fn filter_sheet() -> SheetData {
    let mut sh = SheetData::new(s("S"), 4, 1);
    sh.set_cell(1, 1, s("名称"), s("名称"));
    sh.set_cell(2, 1, s("abc"), s("abc"));
    sh.set_cell(3, 1, s("b"), s("b"));
    sh.set_cell(4, 1, s("B"), s("B"));
    sh
}

#[test]
fn column_filter_equal_is_exact() {
    let sh = filter_sheet();
    let mut st = SearchWindowState::default();
    st.column_options = vec![option("名称", vec![(1, 1)])];
    st.column_filters = vec![ColumnFilter {
        column_index: 0,
        filter_value: s("b"),
        logic: FilterLogic::And,
        op: CompareOp::Equal,
    }];
    let mut hidden = set(&[9]);
    execute_column_filter(&st, &sh, &mut hidden, &numeric);
    // "abc" holds "b" but is not equal to it; the configuration row stays
    assert_eq!(hidden, set(&[2, 9]));
}

#[test]
fn column_filter_contains_and_not_contains() {
    let sh = filter_sheet();
    let mut st = SearchWindowState::default();
    st.column_options = vec![option("名称", vec![(1, 1)])];
    st.column_filters = vec![ColumnFilter {
        column_index: 0,
        filter_value: s("c"),
        logic: FilterLogic::And,
        op: CompareOp::Contains,
    }];
    let mut hidden = HashSet::new();
    execute_column_filter(&st, &sh, &mut hidden, &numeric);
    assert_eq!(hidden, set(&[3, 4]));
    st.column_filters[0].op = CompareOp::NotContains;
    let mut hidden = HashSet::new();
    execute_column_filter(&st, &sh, &mut hidden, &numeric);
    assert_eq!(hidden, set(&[2]));
}

#[test]
fn multi_column_and_binds_tighter() {
    let sh = header_sheet();
    let mut st = SearchWindowState::default();
    st.column_options = vec![option("名称", vec![(1, 1)])];
    st.column_filters = vec![
        ColumnFilter { column_index: 0, filter_value: s("cherry"), logic: FilterLogic::Or, op: CompareOp::Contains },
        ColumnFilter { column_index: 0, filter_value: s("a"), logic: FilterLogic::And, op: CompareOp::Contains },
        ColumnFilter { column_index: 0, filter_value: s("p"), logic: FilterLogic::And, op: CompareOp::Contains },
    ];
    let mut hidden = HashSet::new();
    execute_multi_column_search(&mut st, &sh, &mut hidden, &numeric);
    // cherry OR (contains a AND contains p): B and D
    assert_eq!(hidden, set(&[3]));
    assert_eq!(st.matched_count, 2);
    assert_eq!(st.total_searched, 3);
    assert_eq!(st.search_keyword, "cherry");
    assert_eq!(st.debug_info, "选中A1 | 共3列 | 匹配2列 隐藏1列");
}

#[test]
fn multi_column_without_active_filter_changes_nothing() {
    let sh = header_sheet();
    let mut st = SearchWindowState::default();
    let mut hidden = set(&[5]);
    execute_multi_column_search(&mut st, &sh, &mut hidden, &numeric);
    assert_eq!(hidden, set(&[5]));
    assert!(!st.is_searching);
}

// ── row search ──

fn data_sheet() -> SheetData {
    let mut sh = SheetData::new(s("S"), 5, 2);
    sh.set_cell(1, 1, s("类别"), s("类别"));
    sh.set_cell(1, 2, s("数量"), s("数量"));
    let rows = [("fruit", "12"), ("veg", "3"), ("fruit", "7"), ("meat", "30")];
    for (i, (a, b)) in rows.iter().enumerate() {
        let r = i as u32 + 2;
        sh.set_cell(r, 1, s(a), s(a));
        sh.set_cell(r, 2, s(b), s(b));
    }
    sh
}

fn row_state(filters: Vec<RowFilterCondition>) -> SearchWindowState {
    let mut st = SearchWindowState::default();
    st.row_options = vec![option("类别", vec![(1, 1)]), option("数量", vec![(2, 1)])];
    st.row_filters = filters;
    st
}

#[test]
fn row_search_numeric_and() {
    let sh = data_sheet();
    let mut st = row_state(vec![
        RowFilterCondition { range_index: 0, keyword: s("fruit"), logic: FilterLogic::And, op: CompareOp::Contains },
        RowFilterCondition { range_index: 1, keyword: s("10"), logic: FilterLogic::And, op: CompareOp::GreaterThan },
    ]);
    let mut hidden = HashSet::new();
    execute_row_search(&mut st, &sh, &mut hidden, &numeric);
    assert_eq!(hidden, set(&[3, 4, 5]));
    assert_eq!(st.row_total_searched, 4);
    assert_eq!(st.row_matched_count, 1);
    assert_eq!(st.row_debug_info, "行筛选[串行]: [类别=A, 数量=B] 行2→5 共4行 | 匹配1行 隐藏3行");
}

#[test]
fn row_search_or_and_list() {
    let sh = data_sheet();
    let mut st = row_state(vec![
        RowFilterCondition { range_index: 0, keyword: s("'veg','meat'"), logic: FilterLogic::Or, op: CompareOp::Contains },
        RowFilterCondition { range_index: 1, keyword: s("7"), logic: FilterLogic::And, op: CompareOp::Equal },
    ]);
    let mut hidden = HashSet::new();
    execute_row_search(&mut st, &sh, &mut hidden, &numeric);
    assert_eq!(hidden, set(&[2]));
}

#[test]
fn row_search_messages() {
    let sh = data_sheet();
    let mut st = SearchWindowState::default();
    let mut hidden = set(&[1]);
    execute_row_search(&mut st, &sh, &mut hidden, &numeric);
    assert!(hidden.is_empty());
    assert_eq!(st.row_debug_info, "行筛选未配置");
    let mut st = row_state(vec![RowFilterCondition {
        range_index: 0,
        keyword: s("  "),
        logic: FilterLogic::And,
        op: CompareOp::Contains,
    }]);
    execute_row_search(&mut st, &sh, &mut hidden, &numeric);
    assert_eq!(st.row_debug_info, "请输入行筛选关键字");
}

#[test]
fn row_search_binary_path_on_sorted_column() {
    let mut sh = SheetData::new(s("S"), 5, 1);
    sh.set_cell(1, 1, s("k"), s("k"));
    for (i, v) in ["a", "b", "c", "d"].iter().enumerate() {
        sh.set_cell(i as u32 + 2, 1, s(v), s(v));
    }
    let mut st = SearchWindowState::default();
    st.row_options = vec![option("k", vec![(1, 1)])];
    st.row_filters = vec![RowFilterCondition {
        range_index: 0,
        keyword: s("'b'-'c'"),
        logic: FilterLogic::And,
        op: CompareOp::Contains,
    }];
    let mut hidden = HashSet::new();
    execute_row_search(&mut st, &sh, &mut hidden, &numeric);
    assert_eq!(hidden, set(&[2, 5]));
    assert!(st.row_debug_info.starts_with("行筛选[二分]"));
}

#[test]
fn column_values_below_anchor() {
    let sh = data_sheet();
    let cv = collect_column_values(&sh, 1, 1);
    assert_eq!(cv, vec![(2, s("fruit")), (3, s("veg")), (4, s("fruit")), (5, s("meat"))]);
}
