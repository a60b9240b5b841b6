use umya_excel::config::{
    insert_block_text, insert_column_config_text, load_insert_column, load_search_inputs,
    search_config_text, InsertColumnSettings,
};
use umya_excel::ui_state::{CondFormatPopupState, UserCondFormatRule};

fn sample() -> InsertColumnSettings {
    InsertColumnSettings {
        col_start: 2,
        col_end: 10,
        col_group: 3,
        row_start: 1,
        row_end: 40,
        row_group: 2,
        copy_formula: false,
        copy_style: true,
        copy_value: true,
    }
}

#[test]
fn insert_defaults() {
    let d = InsertColumnSettings::default();
    assert_eq!((d.col_start, d.col_end, d.col_group), (0, 0, 0));
    assert_eq!((d.row_start, d.row_end, d.row_group), (0, 0, 0));
    assert!(d.copy_formula && !d.copy_style && !d.copy_value);
}

#[test]
fn insert_block_lists_every_key() {
    assert_eq!(
        insert_block_text(&sample()),
        "col_start: 2\ncol_end: 10\ncol_group: 3\nrow_start: 1\nrow_end: 40\nrow_group: 2\n\
         copy_formula: false\ncopy_style: true\ncopy_value: true\n"
    );
}

#[test]
fn insert_save_keeps_other_blocks() {
    let text = insert_column_config_text("keep: 1\ninsert:\n  other: x\n", &sample()).expect("mapping");
    assert_eq!(
        text,
        "keep: 1\ninsert:\n  other: x\n  column:\n    col_start: 2\n    col_end: 10\n    col_group: 3\n    \
         row_start: 1\n    row_end: 40\n    row_group: 2\n    copy_formula: false\n    copy_style: true\n    \
         copy_value: true\n"
    );
}

#[test]
fn insert_save_replaces_a_block_that_is_no_mapping() {
    let text = insert_column_config_text("insert: 5\n", &InsertColumnSettings::default()).expect("mapping");
    assert!(text.starts_with("insert:\n  column:\n    col_start: 0\n"));
    assert_eq!(load_insert_column(&text), InsertColumnSettings::default());
}

#[test]
fn insert_save_on_unreadable_text_starts_empty() {
    let text = insert_column_config_text("a: [", &sample()).expect("mapping");
    assert!(text.starts_with("insert:\n  column:\n"));
    assert_eq!(text.lines().filter(|l| !l.starts_with(' ')).count(), 1);
}

#[test]
fn insert_save_on_a_list_document_fails() {
    assert!(insert_column_config_text("- 1\n- 2\n", &sample()).is_none());
}

#[test]
fn insert_save_then_load_gives_the_settings_back() {
    let text = insert_column_config_text("{}", &sample()).expect("mapping");
    assert_eq!(load_insert_column(&text), sample());
}

#[test]
fn insert_load_defaults_and_truncation() {
    assert_eq!(load_insert_column("nothing: 1\n"), InsertColumnSettings::default());
    assert_eq!(load_insert_column("a: ["), InsertColumnSettings::default());
    let got = load_insert_column(
        "insert:\n  column:\n    col_start: 4294967297\n    col_end: -3\n    copy_formula: maybe\n    copy_value: true\n",
    );
    assert_eq!(got.col_start, 1);
    assert_eq!(got.col_end, 0);
    assert!(got.copy_formula);
    assert!(got.copy_value);
    assert!(!got.copy_style);
}

#[test]
fn search_save_sets_column_then_row() {
    let text = search_config_text("search:\n  row: old\n  x: 1\nkeep: 2\n", "A1-A3", "B2").expect("mapping");
    assert_eq!(text, "search:\n  row: B2\n  x: 1\n  column: A1-A3\nkeep: 2\n");
    assert_eq!(load_search_inputs(&text), ("A1-A3".to_string(), "B2".to_string()));
}

#[test]
fn search_load_without_block_is_empty() {
    assert_eq!(load_search_inputs("keep: 1\n"), (String::new(), String::new()));
}

#[test]
fn cond_format_save_strips_hash_and_keeps_blocks() {
    let mut st = CondFormatPopupState::default();
    st.rules = vec![UserCondFormatRule {
        operator: ">".to_string(),
        value: "10".to_string(),
        color: "#FF0000".to_string(),
        range: "A1:B5".to_string(),
    }];
    let text = st.cond_format_config_text("keep: 1\n").expect("yaml");
    assert_eq!(
        text,
        "keep: 1\nconditionalFormatting:\n- operator: '>'\n  value: '10'\n  color: FF0000\n  range: A1:B5\n"
    );
    let back = CondFormatPopupState::load_from_yaml(&text);
    assert_eq!(back.rules.len(), 1);
    assert_eq!(back.rules[0].color, "#FF0000");
    assert_eq!(back.rules[0].value, "10");
}

#[test]
fn cond_format_save_leaves_a_list_document() {
    let st = CondFormatPopupState::default();
    assert_eq!(st.cond_format_config_text("- 1\n").as_deref(), Some("- 1\n"));
}
