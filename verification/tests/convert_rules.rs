use umya_excel::convert::{
    adjust_formula_by_mapping, expand_batch_rule, parse_rules, shift_formula_columns, Direction,
    ParsedRule, SourceRange, TargetPosition,
};


#[test]
fn test_parse_rule1_simple_continuous() {
    let text = "A2:M2->A1:|~;";
    let rules = parse_rules(text).unwrap();
    assert_eq!(rules.len(), 1);
    let r = &rules[0];
    assert!(matches!(r.source_range, SourceRange::Continuous { .. }));
    assert!(matches!(r.target_start, TargetPosition::Simple(_)));
    assert_eq!(r.direction, Direction::Vertical);
}

#[test]
fn test_parse_rule2_merged_pair() {
    let text = "(N1:O1):(BV1:BW1)->A15:|~;";
    let rules = parse_rules(text).unwrap();
    assert_eq!(rules.len(), 1);
    let r = &rules[0];
    assert!(matches!(r.source_range, SourceRange::MergedPair { .. }));
    assert_eq!(r.direction, Direction::Vertical);
}

#[test]
fn test_parse_rule3_merged_target() {
    let text = "A3:A12->(B1:C1):-~;";
    let rules = parse_rules(text).unwrap();
    assert_eq!(rules.len(), 1);
    let r = &rules[0];
    assert!(matches!(r.source_range, SourceRange::Continuous { .. }));
    assert!(matches!(r.target_start, TargetPosition::Merged(_)));
    assert_eq!(r.direction, Direction::Horizontal);
}

#[test]
fn test_parse_rule4_horizontal() {
    let text = "N1:BW1->B14:-~;";
    let rules = parse_rules(text).unwrap();
    assert_eq!(rules.len(), 1);
    assert_eq!(rules[0].direction, Direction::Horizontal);
}

#[test]
fn test_parse_rule5_stepped() {
    let text = "(N3+2):BV3->B15:|~;";
    let rules = parse_rules(text).unwrap();
    assert_eq!(rules.len(), 1);
    let r = &rules[0];
    assert!(matches!(r.source_range, SourceRange::Stepped { .. }));
    assert_eq!(r.direction, Direction::Vertical);
}

#[test]
fn test_parse_all_five_rules_multiline() {
    let text = "A2:M2->A1:|~;
(N1:O1):(BV1:BW1)->A15:|~;
A3:A12->(B1:C1):-~;
N1:BW1->B14:-~;
(N3+2):BV3->B15:|~;";
    let rules = parse_rules(text).unwrap();
    assert_eq!(rules.len(), 5);
}

#[test]
fn test_parse_all_five_rules_compact_no_trailing_newline() {
    let text = "A2:M2->A1:|~;(N1:O1):(BV1:BW1)->A15:|~;A3:A12->(B1:C1):-~;N1:BW1->B14:-~;(N3+2):BV3->B15:|~;";
    let rules = parse_rules(text).unwrap();
    assert_eq!(rules.len(), 5);
}

#[test]
fn test_parse_batch_columns_rule() {
    let text = "(A:M)3:(A:M)12->B(1:13):C(1:13):-~;";
    let rules = parse_rules(text).unwrap();
    assert_eq!(rules.len(), 1);
    let r = &rules[0];
    assert!(matches!(r.source_range, SourceRange::BatchColumns { .. }));
    assert!(matches!(r.target_start, TargetPosition::BatchTarget { .. }));
    assert_eq!(r.direction, Direction::Horizontal);
}

#[test]
fn test_batch_rule_expansion() {
    let text = "(A:M)3:(A:M)12->B(1:13):C(1:13):-~;";
    let rules = parse_rules(text).unwrap();
    let expanded: Vec<ParsedRule> = rules.iter().flat_map(|r| expand_batch_rule(r)).collect();
    // 13 列 (A..M) → 13 条逐列规则
    assert_eq!(expanded.len(), 13);
    // 每条应是 Continuous + Merged + Horizontal
    for (i, r) in expanded.iter().enumerate() {
        assert!(matches!(r.source_range, SourceRange::Continuous { .. }));
        assert!(matches!(r.target_start, TargetPosition::Merged(_)));
        assert_eq!(r.direction, Direction::Horizontal);
        // 验证行号递增
        if let TargetPosition::Merged(ref range) = r.target_start {
            assert_eq!(range.start_row, (i + 1) as u32);
        }
    }
}

#[test]
fn test_parse_batch_rule_compact() {
    let text = "(A:M)3:(A:M)12->B(1:13):C(1:13):-~;";
    let rules = parse_rules(text).unwrap();
    let expanded: Vec<ParsedRule> = rules.iter().flat_map(|r| expand_batch_rule(r)).collect();
    // 应等价的13条逐列规则: A3:A12->(B1:C1):-~; 到 M3:M12->(B13:C13):-~;
    assert_eq!(expanded.len(), 13);
    // 第一条: A3:A12->(B1:C1):-~;
    let first = &expanded[0];
    if let SourceRange::Continuous { start, end } = &first.source_range {
        assert_eq!(start.col, 1); // A
        assert_eq!(start.row, 3);
        assert_eq!(end.col, 1); // A
        assert_eq!(end.row, 12);
    } else {
        panic!("Expected Continuous");
    }
    if let TargetPosition::Merged(range) = &first.target_start {
        assert_eq!(range.start_col, 2); // B
        assert_eq!(range.end_col, 3);   // C
        assert_eq!(range.start_row, 1);
    } else {
        panic!("Expected Merged");
    }
    // 最后一条: M3:M12->(B13:C13):-~;
    let last = &expanded[12];
    if let SourceRange::Continuous { start, end } = &last.source_range {
        assert_eq!(start.col, 13); // M
        assert_eq!(start.row, 3);
        assert_eq!(end.col, 13); // M
        assert_eq!(end.row, 12);
    } else {
        panic!("Expected Continuous");
    }
    if let TargetPosition::Merged(range) = &last.target_start {
        assert_eq!(range.start_col, 2); // B
        assert_eq!(range.end_col, 3);   // C
        assert_eq!(range.start_row, 13);
    } else {
        panic!("Expected Merged");
    }
}

#[test]
fn test_parse_batch_target_outer_parens() {
    // 外层括号格式：(B(1:13):C(1:13)):
    let text = "(A:M)3:(A:M)12->(B(1:13):C(1:13)):-~;";
    let rules = parse_rules(text).unwrap();
    assert_eq!(rules.len(), 1);
    assert!(matches!(rules[0].target_start, TargetPosition::BatchTarget { .. }));
    let expanded: Vec<ParsedRule> = rules.iter().flat_map(|r| expand_batch_rule(r)).collect();
    assert_eq!(expanded.len(), 13);
    if let TargetPosition::Merged(range) = &expanded[0].target_start {
        assert_eq!(range.start_row, 1);
        assert_eq!(range.start_col, 2);
        assert_eq!(range.end_col, 3);
    } else {
        panic!("Expected Merged");
    }
}

#[test]
fn test_parse_user_six_rules() {
    let text = "A2:M2->A1:|~;
(N1:O1):(BV1:BW1)->A15:|~;
(A:M)3:(A:M)12->(B(1:13):C(1:13)):-~;
N2:BW2->B14:-~;
(N3+2):BV3->B15:|~;
(O3+2):BW3->C15:|~;";
    let rules = parse_rules(text).unwrap();
    assert_eq!(rules.len(), 6);
    let expanded: Vec<ParsedRule> = rules.iter().flat_map(|r| expand_batch_rule(r)).collect();
    assert_eq!(expanded.len(), 18);
}

#[test]
fn test_parse_batch_stepped_basic() {
    let text = "(N(3:12)+2):BV(3:12)->(B+2)15:|~;";
    let rules = parse_rules(text).unwrap();
    assert_eq!(rules.len(), 1);
    let r = &rules[0];
    assert!(matches!(r.source_range, SourceRange::BatchStepped { .. }));
    assert!(matches!(r.target_start, TargetPosition::SteppedTarget { .. }));
    assert_eq!(r.direction, Direction::Vertical);
}

#[test]
fn test_batch_stepped_expansion() {
    let text = "(N(3:12)+2):BV(3:12)->(B+2)15:|~;";
    let rules = parse_rules(text).unwrap();
    let expanded: Vec<ParsedRule> = rules.iter().flat_map(|r| expand_batch_rule(r)).collect();
    // 10 行 (3..12) → 10 条逐行规则
    assert_eq!(expanded.len(), 10);

    // 第一条：行3 → (N3+2):BV3->B15:|~;
    let first = &expanded[0];
    if let SourceRange::Stepped { start, step, end } = &first.source_range {
        assert_eq!(start.col, 14); // N
        assert_eq!(start.row, 3);
        assert_eq!(*step, 2);
        assert_eq!(end.col, 74); // BV
    } else { panic!("Expected Stepped"); }
    if let TargetPosition::Simple(cell) = &first.target_start {
        assert_eq!(cell.col, 2); // B
        assert_eq!(cell.row, 15);
    } else { panic!("Expected Simple"); }

    // 最后一条：行12 → (N12+2):BV12->T15:|~;
    let last = &expanded[9];
    if let SourceRange::Stepped { start, .. } = &last.source_range {
        assert_eq!(start.row, 12);
    } else { panic!("Expected Stepped"); }
    if let TargetPosition::Simple(cell) = &last.target_start {
        assert_eq!(cell.col, 20); // T = 20 (B+9*2 = 2+18 = 20)
        assert_eq!(cell.row, 15);
    } else { panic!("Expected Simple"); }
}

#[test]
fn test_parse_user_rules_with_batch_stepped() {
    let text = "A2:M2->A1:|~;
(N1:O1):(BV1:BW1)->A15:|~;
(A:M)3:(A:M)12->(B(1:13):C(1:13)):-~;
N2:BW2->B14:-~;
(N(3:12)+2):BV(3:12)->(B+2)15:|~;
(O3+2):BW3->C15:|~;";
    let rules = parse_rules(text).unwrap();
    assert_eq!(rules.len(), 6);
    let expanded: Vec<ParsedRule> = rules.iter().flat_map(|r| expand_batch_rule(r)).collect();
    // 4 条普通 + 13 (BatchColumns) + 10 (BatchStepped) = 27
    assert_eq!(expanded.len(), 27);
}

#[test]
fn test_formula_mapping_cross_column_reference() {
    // 模拟: (A:M)3:(A:M)12 -> (B(1:13):C(1:13)):-~;
    // G3(7,3)→B7(2,7), E3(5,3)→B5(2,5)
    // G3 公式 =E3-TODAY() 应变成 =B5-TODAY()
    let mut mapping: Vec<((u32, u32), (u32, u32))> = Vec::new();
    // G3 → B7
    mapping.push(((7, 3), (2, 7)));
    // E3 → B5
    mapping.push(((5, 3), (2, 5)));

    let adjusted = adjust_formula_by_mapping(
        "=E3-TODAY()",
        &mapping,
        -5,  // fallback: G3→B7 col offset
        4,   // fallback: G3→B7 row offset
    );
    assert_eq!(adjusted, "=B5-TODAY()");
}

#[test]
fn test_formula_mapping_fallback_for_unmapped_ref() {
    // 引用不在映射表中 → 使用 fallback 偏移
    let mapping: Vec<((u32, u32), (u32, u32))> = Vec::new();
    let adjusted = adjust_formula_by_mapping(
        "=E3*2",
        &mapping,
        -5,
        4,
    );
    // E3: col=5+(-5)=0→A(1), row=3+4=7 → A7
    assert_eq!(adjusted, "=A7*2");
}

#[test]
fn test_formula_mapping_absolute_ref_preserved() {
    // $E$3 在映射表中 → 保持绝对引用不变
    let mut mapping: Vec<((u32, u32), (u32, u32))> = Vec::new();
    mapping.push(((5, 3), (2, 5)));
    let adjusted = adjust_formula_by_mapping(
        "=$E$3",
        &mapping,
        0,
        0,
    );
    // $E$3: 两者都绝对，即使有映射也不变
    assert_eq!(adjusted, "=$E$3");
}

// ---- 自定义公式测试 ----

#[test]
fn test_parse_rule_with_custom_formula() {
    let text = "(A:M)3:(A:M)12->(B(1:13):C(1:13)),formula(B12=SUM(B15:B~),B13=SUM($C$15:$C$~)):-~;";
    let rules = parse_rules(text).unwrap();
    assert_eq!(rules.len(), 1);
    let r = &rules[0];
    assert_eq!(r.custom_formulas.len(), 2);
    assert_eq!(r.custom_formulas[0].target_cell.col, 2); // B
    assert_eq!(r.custom_formulas[0].target_cell.row, 12);
    assert_eq!(r.custom_formulas[0].raw_text, "SUM(B15:B~)");
    assert_eq!(r.custom_formulas[1].target_cell.col, 2); // B
    assert_eq!(r.custom_formulas[1].target_cell.row, 13);
    assert_eq!(r.custom_formulas[1].raw_text, "SUM($C$15:$C$~)");
}

#[test]
fn test_parse_rule_without_custom_formula_still_works() {
    // 不含 formula 的规则应正常解析
    let text = "(A:M)3:(A:M)12->(B(1:13):C(1:13)):-~;";
    let rules = parse_rules(text).unwrap();
    assert_eq!(rules.len(), 1);
    assert!(rules[0].custom_formulas.is_empty());
}

#[test]
fn test_parse_simple_rule_with_custom_formula() {
    let text = "A2:M2->A1:|~;";
    let rules = parse_rules(text).unwrap();
    assert_eq!(rules.len(), 1);
    assert!(rules[0].custom_formulas.is_empty());
}

#[test]
fn test_parse_custom_formula_with_nested_parens() {
    let text = "(A:M)3:(A:M)12->(B(1:13):C(1:13)),formula(B12=SUM(B15:B~)+AVERAGE(D15:D~)):-~;";
    let rules = parse_rules(text).unwrap();
    assert_eq!(rules.len(), 1);
    assert_eq!(rules[0].custom_formulas[0].raw_text, "SUM(B15:B~)+AVERAGE(D15:D~)");
}

// ---- 公式列偏移测试 ----

#[test]
fn test_shift_formula_columns_basic() {
    assert_eq!(shift_formula_columns("SUM(B15:B~)", 2), "SUM(D15:D~)");
    assert_eq!(shift_formula_columns("B12=SUM(B15:B~)", 2), "D12=SUM(D15:D~)");
}

#[test]
fn test_shift_formula_columns_absolute() {
    assert_eq!(
        shift_formula_columns("SUM($C$15:$C$~)", 2),
        "SUM($E$15:$E$~)"
    );
}

#[test]
fn test_shift_formula_columns_zero() {
    assert_eq!(shift_formula_columns("SUM(B15:B~)", 0), "SUM(B15:B~)");
}

#[test]
fn test_batch_rule_expands_custom_formulas() {
    // 批量规则 + 自定义公式 → 公式按源数据行数横向展开到匹配的子规则
    // (A:C)3:(A:C)12 → 3列 × 10行源数据，目标行1-3，公式在行1和行2
    let text = "(A:C)3:(A:C)12->(B(1:3):C(1:3)),formula(B1=SUM(B15:B~),B2=SUM($C$15:$C$~)):-~;";
    let rules = parse_rules(text).unwrap();
    let expanded: Vec<ParsedRule> = rules.iter().flat_map(|r| expand_batch_rule(r)).collect();
    // A,B,C = 3 列 → 3 条展开规则
    assert_eq!(expanded.len(), 3);

    // 子规则 0 (A, tgt_row=1): B1 公式横向填充 10 份
    let r0 = &expanded[0];
    assert_eq!(r0.custom_formulas.len(), 10); // 仅 B1，填充 10 列
    assert_eq!(r0.custom_formulas[0].target_cell.col, 2); // B1
    assert_eq!(r0.custom_formulas[0].raw_text, "SUM(B15:B~)");
    // 第 10 份 (j=9, col_shift=18): B+18=20=T1
    assert_eq!(r0.custom_formulas[9].target_cell.col, 20); // T
    assert_eq!(r0.custom_formulas[9].raw_text, "SUM(T15:T~)");

    // 子规则 1 (B, tgt_row=2): B2 公式横向填充 10 份
    let r1 = &expanded[1];
    assert_eq!(r1.custom_formulas.len(), 10); // 仅 B2，填充 10 列
    assert_eq!(r1.custom_formulas[0].target_cell.col, 2); // B2
    assert_eq!(r1.custom_formulas[0].raw_text, "SUM($C$15:$C$~)");
    // 第 10 份 (j=9, col_shift=18): 目标列 B(2)+18=20=T2，公式引用 C(3)+18=21=U
    assert_eq!(r1.custom_formulas[9].target_cell.col, 20); // T2
    assert_eq!(r1.custom_formulas[9].raw_text, "SUM($U$15:$U$~)");

    // 子规则 2 (C, tgt_row=3): 无匹配公式
    assert_eq!(expanded[2].custom_formulas.len(), 0);
}

#[test]
fn test_batch_rule_with_13_cols_formula_expansion() {
    // 完整 13 列场景，公式在 B12/B13（在目标行范围 1-13 内）
    // 源 10 行，公式横向填充 10 份
    let text = "(A:M)3:(A:M)12->(B(1:13):C(1:13)),formula(B12=SUM(B15:B~),B13=SUM($C$15:$C$~)):-~;";
    let rules = parse_rules(text).unwrap();
    let expanded: Vec<ParsedRule> = rules.iter().flat_map(|r| expand_batch_rule(r)).collect();
    assert_eq!(expanded.len(), 13);

    // 子规则 11 (L, tgt_row=12): B12 公式横向填充 10 份
    let r11 = &expanded[11];
    assert_eq!(r11.custom_formulas.len(), 10);
    assert_eq!(r11.custom_formulas[0].target_cell.col, 2); // B12
    assert_eq!(r11.custom_formulas[9].target_cell.col, 20); // T = B(2) + 9*2 = 20
    assert_eq!(r11.custom_formulas[0].raw_text, "SUM(B15:B~)");
    assert!(r11.custom_formulas[9].raw_text.contains("SUM(T15:T~)"),
        "Expected T in formula, got: {}", r11.custom_formulas[9].raw_text);

    // 子规则 12 (M, tgt_row=13): B13 公式横向填充 10 份
    let r12 = &expanded[12];
    assert_eq!(r12.custom_formulas.len(), 10);
    assert_eq!(r12.custom_formulas[0].target_cell.col, 2); // B13
    assert_eq!(r12.custom_formulas[9].target_cell.col, 20); // T = B(2) + 9*2 = 20，公式引用 U = C(3) + 18 = 21
    assert_eq!(r12.custom_formulas[0].raw_text, "SUM($C$15:$C$~)");
    assert!(r12.custom_formulas[9].raw_text.contains("SUM($U$15:$U$~)"),
        "Expected U in formula, got: {}", r12.custom_formulas[9].raw_text);

    // 子规则 0-10 无匹配公式
    for i in 0..11 {
        assert_eq!(expanded[i].custom_formulas.len(), 0, "sub-rule {} should have no formulas", i);
    }
}

#[test]
fn test_batch_rule_formula_horizontal_fill_matches_data_extent() {
    // 模拟用户场景：公式横向填充应覆盖数据实际分布范围，而非批量列数
    // (A:C)3:(A:C)5 -> 3列 × 3行源数据(行3,4,5)，目标行1-3
    // 每列源数据有 3 行 → 横向填充 3 个单元格
    // merge_width=2 → 列偏移 0, 2, 4 → 覆盖列 2,4,6 (B,D,F)
    let text = "(A:C)3:(A:C)5->(B(1:3):C(1:3)),formula(B1=COLUMN()/2):-~;";
    let rules = parse_rules(text).unwrap();
    let expanded: Vec<ParsedRule> = rules.iter().flat_map(|r| expand_batch_rule(r)).collect();
    assert_eq!(expanded.len(), 3);

    // 子规则 0 (A, tgt_row=1): B1 匹配 row=1，横向填充 3 份
    let r0 = &expanded[0];
    assert_eq!(r0.custom_formulas.len(), 3,
        "公式应在子规则0中按源数据行数(3)横向填充");
    // j=0: B1(col=2)
    assert_eq!(r0.custom_formulas[0].target_cell.col, 2);
    assert_eq!(r0.custom_formulas[0].target_cell.row, 1);
    // j=1: D1(col=4)
    assert_eq!(r0.custom_formulas[1].target_cell.col, 4);
    assert_eq!(r0.custom_formulas[1].target_cell.row, 1);
    // j=2: F1(col=6)
    assert_eq!(r0.custom_formulas[2].target_cell.col, 6);
    assert_eq!(r0.custom_formulas[2].target_cell.row, 1);

    // 子规则 1,2: 无匹配公式 (公式仅在 row=1，不在 row=2,3)
    assert_eq!(expanded[1].custom_formulas.len(), 0);
    assert_eq!(expanded[2].custom_formulas.len(), 0);

    // 关键验证：公式填充到了数据末尾列 F(6)，而非仅到批量列数边界 C(2) 或 D(4)
    // 旧行为：公式仅填充 3 份(batch列数)，列偏移 0,2,4 → 最后到 F1(col=6)，碰巧和正确结果一致
    // 但用更大的源行数验证：
    // (A:C)3:(A:C)12 → 源 10 行，batch 3 列，公式应填充 10 份而非 3 份
    let text2 = "(A:C)3:(A:C)12->(B(1:3):C(1:3)),formula(B1=COLUMN()/2):-~;";
    let rules2 = parse_rules(text2).unwrap();
    let expanded2: Vec<ParsedRule> = rules2.iter().flat_map(|r| expand_batch_rule(r)).collect();
    assert_eq!(expanded2.len(), 3);

    let r0_2 = &expanded2[0];
    assert_eq!(r0_2.custom_formulas.len(), 10,
        "公式应按源数据行数(10)填充，而非批量列数(3)");
    // 最后一份在 col=2+9*2=20=T1
    assert_eq!(r0_2.custom_formulas[9].target_cell.col, 20); // T1
    assert_eq!(r0_2.custom_formulas[9].target_cell.row, 1);
}
