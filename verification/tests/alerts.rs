use std::collections::HashSet;
use umya_excel::alerts::{
    check_alert_rules, compare_alert_value, filter_by_triggered_rule, parse_alert_range, parse_cell_ref_str, reset_filter,
    resolve_dynamic_range, triggered_label, update_alert_range_expansions_for_col,
    update_alert_range_expansions_for_row, AlertNotifyState, AlertRule, FloatCmp, TriggeredRule,
};
use umya_excel::sheet::{CellRange, SheetData};

fn s(v: &str) -> String {
    v.to_string()
}

fn set(v: &[u32]) -> HashSet<u32> {
    v.iter().copied().collect()
}

fn compare(value: &String, op: &String, threshold: &String) -> bool {
    match (value.trim().parse::<f64>(), threshold.trim().parse::<f64>()) {
        (Ok(a), Ok(b)) => match op.as_str() {
            ">" => a > b,
            "<" => a < b,
            ">=" => a >= b,
            "<=" => a <= b,
            "=" => a == b,
            "!=" => a != b,
            _ => false,
        },
        _ => false,
    }
}

fn rule(range: &str, op: &str, value: &str, message: &str) -> AlertRule {
    AlertRule {
        range: s(range),
        operator: s(op),
        value: s(value),
        message: s(message),
        range_expand_col: 0,
        range_expand_row: 0,
    }
}

/// Row 2 holds scores in B..E; column B holds scores in rows 3..5.
fn scores() -> SheetData {
    let mut sh = SheetData::new(s("S"), 5, 5);
    for (c, v) in [(2, "70"), (3, "50"), (4, "90"), (5, "40")] {
        sh.set_cell(2, c, s(v), s(v));
    }
    for (r, v) in [(3, "10"), (4, "80"), (5, "30")] {
        sh.set_cell(r, 2, s(v), s(v));
    }
    sh
}

#[test]
fn tilde_ends_follow_the_sheet() {
    let sh = scores();
    assert_eq!(resolve_dynamic_range("B2:~2", &sh), "B2:E2");
    assert_eq!(resolve_dynamic_range("B3:B~", &sh), "B3:B5");
    assert_eq!(resolve_dynamic_range("B2:~", &sh), "B2:E5");
    assert_eq!(resolve_dynamic_range("B2:C4", &sh), "B2:C4");
}

#[test]
fn alert_ranges_read_with_direction_and_growth() {
    let sh = scores();
    assert_eq!(parse_alert_range("=B2:~2", &sh, 0, 0), Some((2, 2, 5, 2, true)));
    assert_eq!(parse_alert_range("=$B$3:B~", &sh, 0, 0), Some((2, 3, 2, 5, false)));
    assert_eq!(parse_alert_range("=B2:D2", &sh, 1, 0), Some((2, 2, 5, 2, true)));
    assert_eq!(parse_alert_range("=B3:B4", &sh, 0, 1), Some((2, 3, 2, 5, false)));
    assert_eq!(parse_alert_range("=oops", &sh, 0, 0), None);
}

#[test]
fn rules_trigger_when_a_cell_meets_them() {
    let sh = scores();
    let rules = vec![
        rule("=B2:~2", "<", "60", "low score"),
        rule("=B3:B~", ">", "100", "too high"),
        rule("", ">", "0", "no range"),
    ];
    let hits = check_alert_rules(&rules, &sh, &compare);
    assert_eq!(hits.len(), 1);
    assert_eq!(hits[0].message, "low score");
    assert_eq!(hits[0].resolved_range, Some((2, 2, 5, 2)));
    assert!(hits[0].is_horizontal);
}

#[test]
fn filtering_hides_what_does_not_meet_the_rule() {
    let mut sh = scores();
    let hits = check_alert_rules(&vec![rule("=B2:~2", "<", "60", "")], &sh, &compare);
    let mut cols = set(&[1]);
    let mut rows = set(&[1]);
    filter_by_triggered_rule(&hits[0], &sh, &mut cols, &mut rows, &compare);
    assert_eq!(cols, set(&[2, 4]));
    assert!(rows.is_empty());
    // a merged range follows its first cell: C2:D2 shown with C2
    sh.merged_cells.push(CellRange::new(2, 3, 2, 4));
    filter_by_triggered_rule(&hits[0], &sh, &mut cols, &mut rows, &compare);
    assert_eq!(cols, set(&[2]));
    let down = check_alert_rules(&vec![rule("=B3:B~", ">=", "30", "")], &sh, &compare);
    filter_by_triggered_rule(&down[0], &sh, &mut cols, &mut rows, &compare);
    assert!(cols.is_empty());
    assert_eq!(rows, set(&[3]));
    let mut st = AlertNotifyState::default();
    st.is_filtering = true;
    reset_filter(&mut cols, &mut rows, &mut st);
    assert!(cols.is_empty() && rows.is_empty() && !st.is_filtering);
}

#[test]
fn inserted_columns_and_rows_grow_fixed_ranges() {
    let sh = scores();
    let mut rules = vec![rule("=B2:D2", "<", "60", ""), rule("=B2:~2", "<", "60", ""), rule("=F2:G2", "<", "1", "")];
    update_alert_range_expansions_for_col(&mut rules, 3, 2, &sh);
    assert_eq!(rules[0].range_expand_col, 2);
    assert_eq!(rules[1].range_expand_col, 0);
    assert_eq!(rules[2].range_expand_col, 0);
    // just past the grown end still counts
    update_alert_range_expansions_for_col(&mut rules, 7, 1, &sh);
    assert_eq!(rules[0].range_expand_col, 3);
    let mut down = vec![rule("=B3:B5", ">", "1", "")];
    update_alert_range_expansions_for_row(&mut down, 4, 1, &sh);
    assert_eq!(down[0].range_expand_row, 1);
    update_alert_range_expansions_for_row(&mut down, 2, 1, &sh);
    assert_eq!(down[0].range_expand_row, 1);
}

#[test]
fn triggered_rule_label_falls_back_to_its_terms() {
    let mut t = TriggeredRule {
        message: s(""),
        range: s("=B2:~2"),
        operator: s("<"),
        value: s("60"),
        resolved_range: Some((2, 2, 5, 2)),
        is_horizontal: true,
    };
    assert_eq!(triggered_label(0, &t), "规则1: < 60  (范围: =B2:~2)");
    t.message = s("低分预警");
    assert_eq!(triggered_label(4, &t), "低分预警");
}

#[test]
fn alert_cell_ref_takes_ascii_letters_after_upper_casing() {
    assert_eq!(parse_cell_ref_str(" b8 "), Some((2, 8)));
    assert_eq!(parse_cell_ref_str("é1"), None);
    assert_eq!(parse_cell_ref_str("ß1"), Some((513, 1)));
}

fn float_cmp(a: &String, b: &String) -> Option<FloatCmp> {
    let x: f64 = a.parse().ok()?;
    let y: f64 = b.parse().ok()?;
    Some(FloatCmp { near: (x - y).abs() < f64::EPSILON, lt: x < y, gt: x > y, le: x <= y, ge: x >= y })
}

fn cmp(v: &str, op: &str, t: &str) -> bool {
    compare_alert_value(&s(v), &s(op), &s(t), &float_cmp)
}

#[test]
fn alert_compare_numbers_then_text() {
    assert!(cmp(" 10 ", ">", "9"));
    assert!(!cmp("10", "<", "9"));
    assert!(cmp("10", ">=", "10.0"));
    assert!(cmp("0.30000000000000004", "=", "0.3"));
    assert!(cmp("0.5", "!=", "0.3"));
    // text falls back to lower-cased code point order
    assert!(cmp("Apple", "=", " apple "));
    assert!(cmp("b", ">", "Apple"));
    assert!(cmp("abc", "<=", "ABD"));
    assert!(!cmp("x", "<", "X"));
    // NaN reads as a number and no order holds for it
    assert!(!cmp("NaN", ">=", "1"));
    assert!(!cmp("NaN", "<", "1"));
    assert!(!cmp("1", "~", "1"));
}
