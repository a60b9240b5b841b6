use umya_excel::sheet::{CellRange, SheetData};
use umya_excel::table_input::{
    click_cell, copy_selection, drag_start, drag_to, edit_start, next_cell, paste_grid, paste_plan,
    selection_span, NavKey, PasteWrite,
};

fn grid(rows: &[&[&str]]) -> Vec<Vec<String>> {
    rows.iter().map(|r| r.iter().map(|s| s.to_string()).collect()).collect()
}

fn sheet_with_merge(max_row: u32, max_col: u32, merges: &[(u32, u32, u32, u32)]) -> SheetData {
    let mut s = SheetData::new("S".to_string(), max_row, max_col);
    for &(sr, sc, er, ec) in merges {
        s.merged_cells.push(CellRange::new(sr, sc, er, ec));
    }
    s
}

#[test]
fn tab_moves_right_and_wraps_to_next_row() {
    let s = sheet_with_merge(3, 3, &[]);
    assert_eq!(next_cell(Some(&s), 1, 1, 3, 3, NavKey::Tab), (2, 1));
    assert_eq!(next_cell(Some(&s), 3, 1, 3, 3, NavKey::Tab), (1, 2));
    assert_eq!(next_cell(Some(&s), 3, 3, 3, 3, NavKey::Tab), (3, 3));
}

#[test]
fn tab_and_shift_tab_step_over_merged_range() {
    // columns 2..3 of row 1 are merged
    let s = sheet_with_merge(2, 4, &[(1, 2, 1, 3)]);
    assert_eq!(next_cell(Some(&s), 1, 1, 4, 2, NavKey::Tab), (2, 1));
    assert_eq!(next_cell(Some(&s), 2, 1, 4, 2, NavKey::Tab), (4, 1));
    assert_eq!(next_cell(Some(&s), 4, 1, 4, 2, NavKey::ShiftTab), (2, 1));
    assert_eq!(next_cell(Some(&s), 2, 1, 4, 2, NavKey::ShiftTab), (1, 1));
    assert_eq!(next_cell(Some(&s), 3, 1, 4, 2, NavKey::Right), (4, 1));
    assert_eq!(next_cell(Some(&s), 4, 1, 4, 2, NavKey::Left), (2, 1));
}

#[test]
fn shift_tab_wraps_up_and_stays_in_first_column() {
    let s = sheet_with_merge(3, 3, &[(2, 1, 2, 2)]);
    assert_eq!(next_cell(Some(&s), 2, 2, 3, 3, NavKey::ShiftTab), (3, 1));
    assert_eq!(next_cell(Some(&s), 1, 3, 3, 3, NavKey::ShiftTab), (1, 3));
    assert_eq!(next_cell(Some(&s), 2, 1, 3, 3, NavKey::ShiftTab), (1, 1));
    assert_eq!(next_cell(Some(&s), 1, 1, 3, 3, NavKey::ShiftTab), (1, 1));
}

#[test]
fn arrows_move_one_step_without_wrapping() {
    // rows 1..2 of column 2 are merged
    let s = sheet_with_merge(3, 3, &[(1, 2, 2, 2)]);
    assert_eq!(next_cell(Some(&s), 2, 3, 3, 3, NavKey::Up), (2, 1));
    assert_eq!(next_cell(Some(&s), 1, 1, 3, 3, NavKey::Down), (1, 2));
    assert_eq!(next_cell(Some(&s), 1, 3, 3, 3, NavKey::Down), (1, 3));
    assert_eq!(next_cell(Some(&s), 1, 1, 3, 3, NavKey::Up), (1, 1));
    assert_eq!(next_cell(Some(&s), 1, 2, 3, 3, NavKey::Left), (1, 2));
    assert_eq!(next_cell(Some(&s), 3, 2, 3, 3, NavKey::Right), (3, 2));
    assert_eq!(next_cell(None, 2, 3, 3, 3, NavKey::Up), (2, 2));
}

#[test]
fn every_key_keeps_selection_in_sheet() {
    let s = sheet_with_merge(3, 4, &[(1, 2, 2, 3), (3, 1, 3, 4)]);
    let keys = [NavKey::Tab, NavKey::ShiftTab, NavKey::Up, NavKey::Down, NavKey::Left, NavKey::Right];
    for col in 1..=4 {
        for row in 1..=3 {
            for k in keys {
                let (c, r) = next_cell(Some(&s), col, row, 4, 3, k);
                assert!((1..=4).contains(&c) && (1..=3).contains(&r));
            }
        }
    }
}

#[test]
fn copy_writes_formulas_and_shown_text_as_tab_separated_rows() {
    let mut s = SheetData::new("S".to_string(), 2, 2);
    s.set_cell(1, 1, "a".to_string(), "a".to_string());
    s.set_formula_cell(1, 2, "SUM(A1)".to_string(), "3".to_string(), "3".to_string());
    s.set_formula_cell(2, 1, "=B1".to_string(), "3".to_string(), "3".to_string());
    let text = copy_selection(&s, Some((1, 1)), Some((2, 2, 1, 1)));
    assert_eq!(text.as_deref(), Some("a\t=SUM(A1)\n=B1\t\n"));
    assert_eq!(copy_selection(&s, Some((2, 1)), None).as_deref(), Some("=SUM(A1)\n"));
    assert_eq!(copy_selection(&s, Some((1, 2)), None).as_deref(), Some("=B1\n"));
    assert_eq!(copy_selection(&s, None, None), None);
    assert_eq!(copy_selection(&s, None, Some((0, 1, 2, 2))), None);
}

#[test]
fn paste_splits_lines_and_tabs_and_skips_empty_lines() {
    assert_eq!(paste_grid("a\tb\n\nc\n"), Some(grid(&[&["a", "b"], &["c"]])));
    assert_eq!(paste_grid("x\t\ty"), Some(grid(&[&["x", "", "y"]])));
    assert_eq!(paste_grid(""), None);
    assert_eq!(paste_grid("\n\n"), None);
}

#[test]
fn paste_reads_back_a_copy() {
    let mut s = SheetData::new("S".to_string(), 2, 3);
    s.set_cell(1, 1, "1".to_string(), "1".to_string());
    s.set_cell(1, 3, "x".to_string(), "x".to_string());
    s.set_formula_cell(2, 2, "A1*2".to_string(), "2".to_string(), "2".to_string());
    let text = copy_selection(&s, None, Some((1, 1, 3, 2))).expect("copied");
    assert_eq!(paste_grid(&text), Some(grid(&[&["1", "", "x"], &["", "=A1*2", ""]])));
}

#[test]
fn edit_starts_at_merged_range_with_cell_text_or_typed_seed() {
    let mut s = sheet_with_merge(3, 3, &[(1, 1, 2, 2)]);
    s.set_formula_cell(1, 1, "B3+1".to_string(), "5".to_string(), "5".to_string());
    s.set_cell(3, 3, "v".to_string(), "shown".to_string());
    let e = edit_start(&s, 2, 2, None);
    assert_eq!((e.col, e.row), (1, 1));
    assert_eq!(e.text, "=B3+1");
    assert_eq!(e.value_before, "5");
    assert_eq!(e.formula_before, "B3+1");
    let e = edit_start(&s, 3, 3, Some("q".to_string()));
    assert_eq!((e.col, e.row), (3, 3));
    assert_eq!(e.text, "q");
    assert_eq!(e.value_before, "v");
    assert_eq!(e.formula_before, "");
    let e = edit_start(&s, 3, 3, None);
    assert_eq!(e.text, "shown");
    let e = edit_start(&s, 3, 1, None);
    assert_eq!((e.text.as_str(), e.value_before.as_str()), ("", ""));
}

#[test]
fn paste_writes_rows_from_the_selected_cell() {
    let rows = paste_grid("1\t=A1*2\nx\n").expect("rows");
    let plan = paste_plan(&rows, 3, 5);
    let w = |col: u32, row: u32, text: &str, is_formula: bool| PasteWrite { col, row, text: text.to_string(), is_formula };
    assert_eq!(plan.writes, vec![w(3, 5, "1", false), w(4, 5, "=A1*2", true), w(3, 6, "x", false)]);
    assert!(plan.has_formula);
    assert_eq!(plan.selected_range, Some((3, 5, 4, 6)));
    let single = paste_plan(&paste_grid("v").expect("rows"), 2, 2);
    assert_eq!(single.writes, vec![w(2, 2, "v", false)]);
    assert!(!single.has_formula);
    assert_eq!(single.selected_range, None);
}

#[test]
fn clicks_and_shift_clicks_select_whole_merged_ranges() {
    // B7:C7 and D9:E9 are merged
    let s = sheet_with_merge(20, 10, &[(7, 2, 7, 3), (9, 4, 9, 5)]);
    assert_eq!(selection_span(&s, (3, 7), (4, 9)), (2, 7, 5, 9));
    assert_eq!(selection_span(&s, (1, 1), (1, 1)), (1, 1, 1, 1));
    let (mut cell, mut range, mut anchor) = (None, None, None);
    click_cell(&s, &mut cell, &mut range, &mut anchor, 3, 7, true);
    assert_eq!((cell, range, anchor), (Some((3, 7)), None, Some((3, 7))));
    click_cell(&s, &mut cell, &mut range, &mut anchor, 4, 9, true);
    assert_eq!((cell, range, anchor), (Some((3, 7)), Some((2, 7, 5, 9)), Some((3, 7))));
    click_cell(&s, &mut cell, &mut range, &mut anchor, 3, 7, true);
    assert_eq!(range, None);
    click_cell(&s, &mut cell, &mut range, &mut anchor, 6, 6, false);
    assert_eq!((cell, anchor), (Some((6, 6)), Some((6, 6))));
}

#[test]
fn dragging_selects_from_the_merged_anchor() {
    let s = sheet_with_merge(20, 10, &[(7, 2, 7, 3)]);
    let (mut drag, mut cell, mut range) = (None, None, None);
    drag_start(&s, &mut drag, &mut cell, &mut range, 3, 7);
    assert_eq!((drag, cell, range), (Some((2, 7)), Some((3, 7)), Some((2, 7, 3, 7))));
    drag_to(&s, drag, &mut range, 1, 9);
    assert_eq!(range, Some((1, 7, 3, 9)));
    drag_to(&s, None, &mut range, 5, 5);
    assert_eq!(range, Some((1, 7, 3, 9)));
}
