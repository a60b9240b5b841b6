use umya_excel::search::{
    parse_cell_ref, parse_cell_ref_bound, parse_search_segments, RangeOption, RangeSegment,
};


// ── parse_cell_ref / parse_cell_ref_bound ──

#[test]
fn single_cell_ref() {
    assert_eq!(parse_cell_ref("A1"), Some((1, 1)));
    assert_eq!(parse_cell_ref("B14"), Some((2, 14)));
    assert_eq!(parse_cell_ref("AA100"), Some((27, 100)));
    assert_eq!(parse_cell_ref(""), None);
    assert_eq!(parse_cell_ref("A"), None);
    assert_eq!(parse_cell_ref("1"), None);
}

#[test]
fn cell_ref_bound_no_tilde() {
    assert_eq!(parse_cell_ref_bound("A1", 10, 20), Some((1, 1)));
    assert_eq!(parse_cell_ref_bound("B14", 10, 20), Some((2, 14)));
}

#[test]
fn cell_ref_bound_tilde_last_col() {
    assert_eq!(parse_cell_ref_bound("~14", 10, 20), Some((10, 14)));
    assert_eq!(parse_cell_ref_bound("~1", 5, 100), Some((5, 1)));
    assert_eq!(parse_cell_ref_bound("~0", 10, 20), None); // row 0 invalid
}

#[test]
fn cell_ref_bound_tilde_last_row() {
    assert_eq!(parse_cell_ref_bound("A~", 10, 20), Some((1, 20)));
    assert_eq!(parse_cell_ref_bound("Z~", 10, 50), Some((26, 50)));
}

#[test]
fn cell_ref_bound_tilde_both() {
    assert_eq!(parse_cell_ref_bound("~", 10, 20), Some((10, 20)));
    assert_eq!(parse_cell_ref_bound("~", 0, 0), Some((1, 1))); // .max(1)
}

// ── parse_search_segments ──

fn seg_cells(segs: &[RangeSegment]) -> Vec<Vec<(u32, u32)>> {
    segs.iter().map(|s| s.cells.clone()).collect()
}

fn seg_exprs(segs: &[RangeSegment]) -> Vec<&str> {
    segs.iter().map(|s| s.expr.as_str()).collect()
}

fn seg_is_step(segs: &[RangeSegment]) -> Vec<bool> {
    segs.iter().map(|s| s.is_step).collect()
}

const MAX: (u32, u32) = (10, 20);

#[test]
fn flat_single_cell() {
    let segs = parse_search_segments("A14", MAX.0, MAX.1);
    assert_eq!(seg_cells(&segs), vec![vec![(1, 14)]]);
    assert!(!segs[0].is_step);
}

#[test]
fn flat_range_same_col() {
    // A1-A3 → 3 flat segments, each 1 cell
    let segs = parse_search_segments("A1-A3", MAX.0, MAX.1);
    assert_eq!(seg_cells(&segs), vec![vec![(1, 1)], vec![(1, 2)], vec![(1, 3)]]);
    assert_eq!(seg_is_step(&segs), vec![false, false, false]);
}

#[test]
fn flat_range_same_row() {
    // A1-C1 → 3 flat segments
    let segs = parse_search_segments("A1-C1", MAX.0, MAX.1);
    assert_eq!(seg_cells(&segs), vec![vec![(1, 1)], vec![(2, 1)], vec![(3, 1)]]);
}

#[test]
fn flat_comma_separated() {
    let segs = parse_search_segments("A14,D14", MAX.0, MAX.1);
    assert_eq!(seg_cells(&segs), vec![vec![(1, 14)], vec![(4, 14)]]);
}

#[test]
fn step_vertical_with_end() {
    // A(1:+2):A13 → 1 step segment, 7 cells (col A rows 1,3,5,7,9,11,13)
    let segs = parse_search_segments("A(1:+2):A13", MAX.0, MAX.1);
    assert_eq!(seg_cells(&segs), vec![vec![(1, 1), (1, 3), (1, 5), (1, 7), (1, 9), (1, 11), (1, 13)]]);
    assert!(segs[0].is_step);
}

#[test]
fn step_vertical_no_end() {
    // A(1:+2) → steps to max_row (20)
    let segs = parse_search_segments("A(1:+2)", MAX.0, MAX.1);
    let cells = &segs[0].cells;
    assert!(segs[0].is_step);
    assert_eq!(cells[0], (1, 1));
    assert_eq!(*cells.last().unwrap(), (1, 19)); // 1,3,5,7,9,11,13,15,17,19
    assert_eq!(cells.len(), 10);
}

#[test]
fn step_vertical_aa_col() {
    // AA(1:+2):AA7 → col 27, rows 1..7 step 2
    let segs = parse_search_segments("AA(1:+2):AA7", MAX.0, MAX.1);
    assert_eq!(seg_cells(&segs), vec![vec![(27, 1), (27, 3), (27, 5), (27, 7)]]);
    assert!(segs[0].is_step);
}

#[test]
fn step_horizontal_with_end() {
    // (B:+2)14:~14 → row 14, cols B, D, F (last=G=7)
    let segs = parse_search_segments("(B:+2)14:~14", 7, MAX.1);
    assert_eq!(seg_cells(&segs), vec![vec![(2, 14), (4, 14), (6, 14)]]);
    assert!(segs[0].is_step);
}

#[test]
fn step_horizontal_no_end() {
    // (B:+2)14 → steps to max_col (10)
    let segs = parse_search_segments("(B:+2)14", MAX.0, MAX.1);
    let cells = &segs[0].cells;
    assert!(segs[0].is_step);
    assert_eq!(cells[0], (2, 14));
    assert_eq!(*cells.last().unwrap(), (10, 14)); // B,D,F,H,J (2,4,6,8,10)
    assert_eq!(cells.len(), 5);
}

#[test]
fn step_horizontal_tilde_explicit_end() {
    // (B:+2)14:F14 → row 14, cols B, D, F (end=F=6)
    let segs = parse_search_segments("(B:+2)14:F14", MAX.0, MAX.1);
    assert_eq!(seg_cells(&segs), vec![vec![(2, 14), (4, 14), (6, 14)]]);
    assert!(segs[0].is_step);
}

#[test]
fn step_mixed_with_flat() {
    let segs = parse_search_segments("A14,(B:+2)14:~14", 7, MAX.1);
    assert_eq!(seg_cells(&segs), vec![vec![(1, 14)], vec![(2, 14), (4, 14), (6, 14)]]);
    assert_eq!(seg_is_step(&segs), vec![false, true]);
}

#[test]
fn step_zero_rejected() {
    let segs = parse_search_segments("A(1:+0):A13", MAX.0, MAX.1);
    assert!(segs.is_empty());
}

#[test]
fn malformed_step_falls_through() {
    // "(A:+2)14" — inner has letters but before="A" not empty → vertical branch
    // tries parse on left="A" as u32 → fails → falls through. "" is returned
    let segs = parse_search_segments("(A:+2)14", MAX.0, MAX.1);
    // before empty? "(A:+2)14": before="" inner="A:+2", left="A" (alpha), row=14, start_col=A=1, end=none→max_col=10. So it IS a valid horizontal step!
    // Actually: before="" (empty), inner="A:+2", left="A" is alpha, tail="14", prefix="14", end=None → horizontal step
    assert_eq!(segs.len(), 1, "should parse as horizontal step");
    assert!(segs[0].is_step);
}

#[test]
fn step_invalid_nested_parens_skipped() {
    // Nested parens: just try to parse, if fails returns empty
    let segs = parse_search_segments("A((1:+2):A13", MAX.0, MAX.1);
    // Step parser expects clean inner; inner="(1:+2" → find ':' in inner → "..." doesn't make sense → None
    assert!(segs.is_empty() || segs.iter().all(|s| !s.is_step));
}

#[test]
fn empty_input() {
    let segs = parse_search_segments("", MAX.0, MAX.1);
    assert!(segs.is_empty());
    let segs = parse_search_segments("   ", MAX.0, MAX.1);
    assert!(segs.is_empty());
}

#[test]
fn flat_range_with_tilde_end() {
    // A1-A~ → flat range from row 1 to max_row (20)
    let segs = parse_search_segments("A1-A~", MAX.0, MAX.1);
    assert_eq!(segs.len(), 20);
    assert_eq!(segs[0].cells, vec![(1, 1)]);
    assert_eq!(segs[19].cells, vec![(1, 20)]);
}

// ── RangeOption::display ──

#[test]
fn range_option_display_normal() {
    let opt = RangeOption {
        title: "入库".into(),
        cell_ref: "A14".into(),
        cells: vec![(1, 14)],
        is_step: false,
        expr: "A14".into(),
    };
    assert_eq!(opt.display(), "入库 (A14)");
}

#[test]
fn range_option_display_step() {
    let opt = RangeOption {
        title: "入库".into(),
        cell_ref: "B14".into(),
        cells: vec![(2, 14), (4, 14), (6, 14)],
        is_step: true,
        expr: "(B:+2)14:~14".into(),
    };
    assert_eq!(opt.display(), "入库((B:+2)14:~14)");
}

#[test]
fn range_option_first_col_row() {
    let opt = RangeOption {
        title: "".into(),
        cell_ref: "".into(),
        cells: vec![(3, 5), (3, 7)],
        is_step: true,
        expr: "".into(),
    };
    assert_eq!(opt.first_col(), 3);
    assert_eq!(opt.first_row(), 5);
}

#[test]
fn range_option_empty_cells() {
    let opt = RangeOption {
        title: "".into(),
        cell_ref: "".into(),
        cells: vec![],
        is_step: false,
        expr: "".into(),
    };
    assert_eq!(opt.first_col(), 0);
    assert_eq!(opt.first_row(), 0);
}

// ── parse_cell_ref_bound edges ──

#[test]
fn bound_weird_ab_form() {
    // A~B — falls through to parse_cell_ref, row_part "~B" fails parse → None
    assert_eq!(parse_cell_ref_bound("A~B", 10, 20), None);
}

#[test]
fn cell_ref_letters_are_unicode() {
    // upper-cased as `str::to_uppercase` does; any alphabetic character counts
    assert_eq!(parse_cell_ref("é1"), Some((137, 1)));
    assert_eq!(parse_cell_ref("ß1"), Some((513, 1)));
    assert_eq!(parse_cell_ref_bound("é~", 5, 9), Some((137, 9)));
}
