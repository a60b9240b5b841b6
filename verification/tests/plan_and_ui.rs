use umya_excel::cellref::{name_box_jump, name_box_text, parse_cell_reference};
use umya_excel::convert::{CellRef, TargetItem};
use umya_excel::convert_plan::{
    build_target_map, cell_write, convert_file_name, fill_max_row, map_sqref, map_sqref_part,
    merge_range_text, plan_convert, reference_mapping, rules_status, CellWrite,
};
use umya_excel::sheet::{ExcelData, SheetData};
use umya_excel::ui_state::{
    CondFormatPopupState, HelpPopupState, LicensePopupState, SearchPage, SettingsPage,
    UserCondFormatRule,
};

fn s(v: &str) -> String {
    v.to_string()
}

#[test]
fn name_box_references() {
    assert_eq!(parse_cell_reference("A1"), Some((1, 1)));
    assert_eq!(parse_cell_reference(" h8 "), Some((8, 8)));
    assert_eq!(parse_cell_reference("AA100"), Some((27, 100)));
    assert_eq!(parse_cell_reference("1a"), Some((1, 1)));
    assert_eq!(parse_cell_reference("A0"), None);
    assert_eq!(parse_cell_reference("A-1"), None);
    assert_eq!(parse_cell_reference(""), None);
    assert_eq!(parse_cell_reference("ABC"), None);
    assert_eq!(parse_cell_reference("12"), None);
    assert_eq!(parse_cell_reference("é1"), None);
}

#[test]
fn popup_defaults() {
    assert!(!HelpPopupState::default().visible);
    let c = CondFormatPopupState::default();
    assert!(!c.visible && c.rules.is_empty() && !c.needs_reapply);
    assert_ne!(SettingsPage::ColumnConfig, SettingsPage::RowConfig);
    assert_eq!(SearchPage::RowFilter, SearchPage::RowFilter);
}

#[test]
fn cond_rules_from_yaml() {
    let doc = "conditionalFormatting:\n  - operator: '>'\n    value: '10'\n    color: 'ff0000'\n    range: 'A1:A10'\n  - operator: '<'\n    value: '3'\n    color: '#00ff00'\n    range: 'B1:B5'\n  - operator: '='\n    value: 'x'\n";
    let st = CondFormatPopupState::load_from_yaml(doc);
    assert!(!st.visible && !st.needs_reapply);
    assert_eq!(st.rules.len(), 2);
    assert_eq!(st.rules[0].operator, ">");
    assert_eq!(st.rules[0].color, "#ff0000");
    assert_eq!(st.rules[1].color, "#00ff00");
    assert_eq!(st.rules[1].range, "B1:B5");
    let e = st.yaml_entries();
    assert_eq!(e[0], (s(">"), s("10"), s("ff0000"), s("A1:A10")));
    assert_eq!(e[1].2, "00ff00");
    assert!(CondFormatPopupState::load_from_yaml("not: [yaml").rules.is_empty());
    assert!(CondFormatPopupState::load_from_yaml("search:\n  column: A1\n").rules.is_empty());
}

#[test]
fn add_rule_copies_last() {
    let mut st = CondFormatPopupState::default();
    st.add_rule();
    assert_eq!(st.rules[0].operator, "");
    st.rules[0] = UserCondFormatRule { operator: s(">"), value: s("5"), color: s("#123456"), range: s("A1:A3") };
    st.add_rule();
    assert_eq!(st.rules.len(), 2);
    assert_eq!(st.rules[1].operator, ">");
    assert_eq!(st.rules[1].color, "#123456");
    assert_eq!(st.rules[1].range, "");
}

fn book() -> ExcelData {
    let mut sh = SheetData::new(s("Data"), 20, 20);
    sh.set_cell(2, 1, s("x"), s("x"));
    ExcelData { sheets: vec![sh] }
}

#[test]
fn plan_simple_rule() {
    let plan = plan_convert("A2:C2->A1:|~;", &book(), 0).ok().expect("plan");
    assert_eq!(plan.mappings.len(), 3);
    assert_eq!(plan.mappings[0].0, CellRef { col: 1, row: 2 });
    assert_eq!(plan.mappings[0].1.cell, CellRef { col: 1, row: 1 });
    assert_eq!(plan.mappings[2].0, CellRef { col: 3, row: 2 });
    assert_eq!(plan.mappings[2].1.cell, CellRef { col: 1, row: 3 });
    assert!(plan.formulas.is_empty());
}

#[test]
fn plan_errors() {
    assert_eq!(plan_convert("A2:C2->A1:|~;", &book(), 3).err(), Some(s("当前工作表无效")));
    assert!(plan_convert("not a rule", &book(), 0).is_err());
}

#[test]
fn writer_texts() {
    let t = TargetItem { cell: CellRef { col: 2, row: 5 }, merge_cols: 2, merge_rows: 1 };
    assert_eq!(merge_range_text(&t), Some(s("B5:C5")));
    let single = TargetItem { cell: CellRef { col: 2, row: 5 }, merge_cols: 1, merge_rows: 1 };
    assert_eq!(merge_range_text(&single), None);
    assert_eq!(fill_max_row("=SUM(B2:B~)", 12), "=SUM(B2:B12)");
    assert_eq!(convert_file_name("report", "20240101120000", "xlsx", 0), "report-convert-20240101120000.xlsx");
    assert_eq!(convert_file_name("report", "20240101120000", "xlsx", 2), "report-convert-20240101120000_2.xlsx");
}

#[test]
fn sqref_moves_to_targets() {
    let m = vec![
        (CellRef { col: 1, row: 2 }, TargetItem { cell: CellRef { col: 3, row: 7 }, merge_cols: 1, merge_rows: 1 }),
        (CellRef { col: 1, row: 3 }, TargetItem { cell: CellRef { col: 2, row: 9 }, merge_cols: 1, merge_rows: 1 }),
        (CellRef { col: 1, row: 3 }, TargetItem { cell: CellRef { col: 4, row: 8 }, merge_cols: 1, merge_rows: 1 }),
    ];
    let tm = build_target_map(&m);
    assert_eq!(map_sqref_part(&tm, 1, 1, 1, 5), Some(s("C7:D8")));
    assert_eq!(map_sqref_part(&tm, 2, 1, 3, 5), None);
    assert_eq!(map_sqref(&tm, &vec![(1, 2, 1, 2), (5, 5, 6, 6), (1, 3, 1, 3)]), Some(s("C7:C7 D8:D8")));
    assert_eq!(map_sqref(&tm, &vec![(5, 5, 6, 6)]), None);
}

#[test]
fn name_box_shows_selection_and_jumps_within_sheet() {
    assert_eq!(name_box_text(Some((2, 7))), "B7");
    assert_eq!(name_box_text(Some((28, 100))), "AB100");
    assert_eq!(name_box_text(None), "");
    assert_eq!(name_box_jump(" c3 ", 5, 5), Some((3, 3)));
    assert_eq!(name_box_jump("F3", 5, 5), None);
    assert_eq!(name_box_jump("A6", 5, 5), None);
    assert_eq!(name_box_jump("E5", 5, 5), Some((5, 5)));
    assert_eq!(name_box_jump("5E", 5, 5), Some((5, 5)));
    assert_eq!(name_box_jump("A-1", 5, 5), None);
}

#[test]
fn copied_cells_write_value_or_rewritten_formula() {
    let copies = vec![
        (CellRef::new(5, 3), TargetItem { cell: CellRef::new(2, 5), merge_cols: 1, merge_rows: 1 }),
        (CellRef::new(1, 1), TargetItem { cell: CellRef::new(4, 4), merge_cols: 2, merge_rows: 1 }),
    ];
    let pairs = reference_mapping(&copies);
    assert_eq!(pairs, vec![((5, 3), (2, 5)), ((1, 1), (4, 4))]);
    let mut sh = SheetData::new(s("S"), 9, 9);
    sh.set_formula_cell(3, 5, s("=E3-TODAY()"), s("12"), s("12"));
    sh.set_formula_cell(3, 6, s("A1+F2"), s(""), s(""));
    sh.set_cell(2, 2, s("x"), s("x"));
    sh.set_cell(2, 3, s(""), s(""));
    assert_eq!(
        cell_write(sh.get_cell(3, 5), &pairs, -3, 2),
        CellWrite::Formula { formula: s("=B5-TODAY()"), result: Some(s("12")) }
    );
    assert_eq!(
        cell_write(sh.get_cell(3, 6), &pairs, -3, 2),
        CellWrite::Formula { formula: s("D4+C4"), result: None }
    );
    assert_eq!(cell_write(sh.get_cell(2, 2), &pairs, 0, 0), CellWrite::Value(s("x")));
    assert_eq!(cell_write(sh.get_cell(2, 3), &pairs, 0, 0), CellWrite::Nothing);
    assert_eq!(cell_write(sh.get_cell(9, 9), &pairs, 0, 0), CellWrite::Nothing);
}

#[test]
fn typed_rule_text_status() {
    let line_err = Some(s("第1行: 规则格式错误"));
    let other = Some(s("当前工作表无效"));
    assert_eq!(rules_status("   ", &line_err), (false, line_err.clone()));
    assert_eq!(rules_status("A2:M2->A1:|~;", &line_err), (true, None));
    assert_eq!(rules_status("A2:M2->A1:|~;", &other), (true, other.clone()));
    assert_eq!(rules_status("A2:M2->A1:|~;", &None), (true, None));
    let (ok, err) = rules_status("A2:M2 nonsense", &None);
    assert!(!ok);
    assert!(err.is_some());
}

#[test]
fn license_popup_reset_clears_input_and_error() {
    let mut st = LicensePopupState::default();
    assert!(!st.visible && st.license_input.is_empty() && st.error.is_none());
    st.visible = true;
    st.license_input = s("ABC.DEF");
    st.error = Some("授权码无效");
    st.machine_code = s("M-1");
    st.reset();
    assert!(st.license_input.is_empty());
    assert!(st.error.is_none());
    assert!(st.visible);
    assert_eq!(st.machine_code, "M-1");
}
