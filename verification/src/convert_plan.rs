//! Planning a conversion: from the rule text and the current sheet to the
//! list of (source cell, target position) copies and the custom formulas,
//! plus the texts the writer needs (merged ranges, formulas with `~` filled
//! in, and conditional-format ranges moved to their targets).

use vstd::prelude::*;
use crate::cellref::{col_letters, push_col_letters};
use crate::convert::{
    compute_targets, expand_batch_rule, expandable, expanded, formulas_view, merged_walk,
    merged_walk_in_range, parse_rules, resolvable, resolve_source_items, source_items, sp_rules,
    span, targets, targets_fit, target_block, walk_len, walk_pos, CellRef, CustomFormula, Direction,
    ParsedRule, RuleV, SourceRange, TargetItem, TargetPosition, MERGED_PAIR_LIMIT,
    adjust_formula_by_mapping, remapped_from,
};
use crate::sheet::{CellData, CellRange, ExcelData};
use crate::sheet::{cell_key, cell_key_exec};
use crate::text::{chars_of, contains_char, dec, push_dec, push_str, string_from, trim, trim_vec};

verus! {

// ---------------------------------------------------------------------------
// Range checks
// ---------------------------------------------------------------------------

fn span_exec(a: u32, b: u32) -> (r: u64)
    ensures
        r == span(a, b),
{
    if a >= b {
        (a - b) as u64 + 1
    } else {
        (b - a) as u64 + 1
    }
}

/// Whether a merged-pair walk stays within `u32` (see
/// [`merged_walk_in_range`]).
pub fn merged_walk_ok(a: CellRange, b: CellRange) -> (r: bool)
    ensures
        r == merged_walk_in_range(a, b),
{
    let horiz = b.start_col != a.start_col;
    let fwd = if horiz {
        b.start_col > a.start_col
    } else {
        b.start_row > a.start_row
    };
    let (s, t, w) = if horiz {
        (a.start_col, b.start_col, span_exec(a.start_col, a.end_col))
    } else {
        (a.start_row, b.start_row, span_exec(a.start_row, a.end_row))
    };
    assert(merged_walk(a, b) == (horiz, fwd, s, t, w as int));
    // steps until reaching the target
    let n: u64 = if fwd {
        if s >= t {
            0
        } else {
            ((t - s) as u64 + w - 1) / w
        }
    } else {
        if s <= t {
            0
        } else {
            ((s - t) as u64 + w - 1) / w
        }
    };
    assert(n == walk_len(s, t, w as int, fwd));
    let limit = MERGED_PAIR_LIMIT as u64;
    let m: u64 = if n < limit {
        n
    } else {
        limit + 1
    };
    assert(m * w <= 10001 * 4294967296) by (nonlinear_arith)
        requires
            m <= 10001,
            w <= 4294967296,
    ;
    let step: i128 = m as i128 * w as i128;
    assert(step == m * w) by (nonlinear_arith)
        requires
            step == (m as i128) * (w as i128),
    ;
    let pos: i128 = if fwd {
        s as i128 + step
    } else {
        s as i128 - step
    };
    assert(pos == walk_pos(s, w as int, fwd, m as int));
    span_exec(a.start_col, a.end_col) <= u32::MAX as u64 && span_exec(a.start_row, a.end_row)
        <= u32::MAX as u64 && 0 <= pos && pos <= u32::MAX as i128
}

/// Whether a source range can be listed without leaving `u32` (see
/// [`resolvable`]).
pub fn range_resolvable(r: &SourceRange) -> (b: bool)
    ensures
        b == resolvable(*r),
{
    match *r {
        SourceRange::Stepped { step, .. } => step != 0,
        SourceRange::MergedPair { start_pair, end_pair } => merged_walk_ok(start_pair, end_pair),
        _ => true,
    }
}

/// Whether a rule can be expanded without leaving the integer ranges (see
/// [`expandable`]).
pub fn rule_expandable(rule: &ParsedRule) -> (b: bool)
    ensures
        b == expandable(rule@),
{
    match (rule.source_range, rule.target_start) {
        (
            SourceRange::BatchColumns { col_start, col_end, row_start, row_end },
            TargetPosition::BatchTarget { value_col, merge_col, row_start: trs, row_end: tre },
        ) => {
            if !(value_col <= merge_col && (merge_col - value_col) < u32::MAX && col_start <= col_end
                && row_start <= row_end && (row_end - row_start) < u32::MAX && (col_end - col_start)
                < u32::MAX && trs as u64 + (col_end - col_start) as u64 <= u32::MAX as u64) {
                return false;
            }
            let width: u128 = (merge_col - value_col) as u128 + 1;
            let d: u128 = (row_end - row_start) as u128;
            assert(d * width <= 4294967296 * 4294967296) by (nonlinear_arith)
                requires
                    d <= 4294967296,
                    width <= 4294967296,
            ;
            let fill: u128 = d * width;
            assert(fill == (row_end - row_start) * (merge_col - value_col + 1)) by (nonlinear_arith)
                requires
                    fill == d * width,
                    d == row_end - row_start,
                    width == merge_col - value_col + 1,
            ;
            let ghost fs = rule@.4;
            let ghost amount: int = (row_end - row_start) * (merge_col - value_col + 1);
            let n = rule.custom_formulas.len();
            assert(fs.len() == n);
            if n > 0 && fill > (i32::MAX - crate::cellref::MAX_COL as i32) as u128 {
                assert(!(amount <= i32::MAX - crate::cellref::MAX_COL));
                assert(rule@.0 == rule.source_range && rule@.1 == rule.target_start);
                assert(!expandable(rule@)) by {
                    let f0 = fs[0];
                }
                return false;
            }
            let mut k: usize = 0;
            while k < n
                invariant
                    fs == formulas_view(rule.custom_formulas@),
                    fs == rule@.4,
                    rule.source_range == (SourceRange::BatchColumns { col_start, col_end, row_start, row_end }),
                    rule.target_start == (TargetPosition::BatchTarget {
                        value_col,
                        merge_col,
                        row_start: trs,
                        row_end: tre,
                    }),
                    n == fs.len(),
                    k <= n,
                    fill == amount,
                    fill <= 4294967296 * 4294967296,
                    amount == (row_end - row_start) * (merge_col - value_col + 1),
                    forall|q: int| 0 <= q < k ==> (#[trigger] fs[q]).0.col as i32 + amount <= i32::MAX,
                decreases n - k,
            {
                let c: i32 = rule.custom_formulas[k].target_cell.col as i32;
                assert(fs[k as int].0.col as i32 == c);
                if (c as i128) + (fill as i128) > i32::MAX as i128 {
                    assert(rule@.0 == rule.source_range && rule@.1 == rule.target_start);
                    assert(!(fs[k as int].0.col as i32 + amount <= i32::MAX));
                    return false;
                }
                k += 1;
            }
            assert(rule@.0 == rule.source_range);
            assert(rule@.1 == rule.target_start);
            assert(n > 0 ==> amount <= i32::MAX - crate::cellref::MAX_COL);
            assert(expandable(rule@));
            true
        },
        (
            SourceRange::BatchStepped { col_start, row_start, row_end, col_step, col_end },
            TargetPosition::SteppedTarget { col_start: tcs, col_step: tstep, row_start: trs },
        ) => {
            if !(row_start <= row_end && (row_end - row_start) < u32::MAX) {
                return false;
            }
            let d: u128 = (row_end - row_start) as u128;
            let st: u128 = tstep as u128;
            assert(d * st <= 4294967296 * 4294967296) by (nonlinear_arith)
                requires
                    d <= 4294967296,
                    st <= 4294967296,
            ;
            let moved: u128 = d * st;
            assert(moved == (row_end - row_start) * tstep) by (nonlinear_arith)
                requires
                    moved == d * st,
                    d == row_end - row_start,
                    st == tstep,
            ;
            let res = tcs as u128 + moved <= i32::MAX as u128;
            assert(res == (tcs + (row_end - row_start) * tstep <= i32::MAX));
            assert(rule@.0 == rule.source_range);
            assert(res == expandable(rule@));
            res
        },
        _ => true,
    }
}

/// Whether the targets of `n` items fit in `u32` (see [`targets_fit`]).
pub fn targets_fit_exec(n: usize, t: &TargetPosition, dir: Direction) -> (b: bool)
    ensures
        b == targets_fit(n as nat, *t, dir),
{
    let (c, r, mc, mr): (u32, u32, u32, u32) = match *t {
        TargetPosition::Simple(p) => (p.col, p.row, 1, 1),
        TargetPosition::Merged(range) => {
            if range.end_col >= range.start_col && range.end_col - range.start_col >= u32::MAX {
                return false;
            }
            if range.end_row >= range.start_row && range.end_row - range.start_row >= u32::MAX {
                return false;
            }
            let w = if range.end_col >= range.start_col {
                range.end_col - range.start_col + 1
            } else {
                1
            };
            let h = if range.end_row >= range.start_row {
                range.end_row - range.start_row + 1
            } else {
                1
            };
            (range.start_col, range.start_row, w, h)
        },
        _ => (1, 1, 1, 1),
    };
    assert(target_block(*t) == (c, r, mc, mr));
    match dir {
        Direction::Horizontal => {
            let nn: u128 = n as u128;
            let mm: u128 = mc as u128;
            assert(nn * mm <= 18446744073709551616 * 4294967296) by (nonlinear_arith)
                requires
                    nn <= 18446744073709551616,
                    mm <= 4294967296,
            ;
            let reach: u128 = nn * mm;
            assert(reach == n * mc) by (nonlinear_arith)
                requires
                    reach == nn * mm,
                    nn == n,
                    mm == mc,
            ;
            c as u128 + reach <= u32::MAX as u128
        },
        Direction::Vertical => {
            let nn: u128 = n as u128;
            let mm: u128 = mr as u128;
            assert(nn * mm <= 18446744073709551616 * 4294967296) by (nonlinear_arith)
                requires
                    nn <= 18446744073709551616,
                    mm <= 4294967296,
            ;
            let reach: u128 = nn * mm;
            assert(reach == n * mr) by (nonlinear_arith)
                requires
                    reach == nn * mm,
                    nn == n,
                    mm == mr,
            ;
            r as u128 + reach <= u32::MAX as u128
        },
    }
}

// ---------------------------------------------------------------------------
// The plan
// ---------------------------------------------------------------------------

/// The error of a rule whose numbers leave the integer ranges.
pub open spec fn out_of_range_message() -> Seq<char> {
    "规则中的数值超出范围"@
}

/// All rules with their batch rules expanded, in order.
pub open spec fn expanded_all(rs: Seq<RuleV>) -> Seq<RuleV>
    decreases rs.len(),
{
    if rs.len() == 0 {
        Seq::empty()
    } else {
        expanded_all(rs.drop_last()) + expanded(rs.last())
    }
}

/// Every rule can be expanded.
pub open spec fn all_expandable(rs: Seq<RuleV>) -> bool {
    forall|i: int| 0 <= i < rs.len() ==> expandable(#[trigger] rs[i])
}

/// The source cells paired with their targets.
pub open spec fn zip_items(src: Seq<CellRef>, tg: Seq<TargetItem>) -> Seq<(CellRef, TargetItem)> {
    Seq::new(src.len(), |k: int| (src[k], tg[k]))
}

/// The copies of one expanded rule: `None` where its numbers leave the
/// integer ranges, `Some(None)` where its source range is refused.
pub open spec fn rule_copies(e: RuleV) -> Option<Option<Seq<(CellRef, TargetItem)>>> {
    if !resolvable(e.0) {
        None
    } else {
        match source_items(e.0) {
            None => Some(None),
            Some(src) => if !targets_fit(src.len(), e.1, e.2) {
                None
            } else {
                Some(Some(zip_items(src, targets(src.len(), e.1, e.2))))
            },
        }
    }
}

/// The copies of all expanded rules, in order, stopping at the first rule
/// that fails.
pub open spec fn copies_of(es: Seq<RuleV>) -> Option<Option<Seq<(CellRef, TargetItem)>>>
    decreases es.len(),
{
    if es.len() == 0 {
        Some(Some(Seq::empty()))
    } else {
        match copies_of(es.drop_last()) {
            Some(Some(m)) => match rule_copies(es.last()) {
                Some(Some(c)) => Some(Some(m + c)),
                other => other,
            },
            other => other,
        }
    }
}

/// The custom formulas of all expanded rules, in order.
pub open spec fn formulas_of(es: Seq<RuleV>) -> Seq<(CellRef, Seq<char>)>
    decreases es.len(),
{
    if es.len() == 0 {
        Seq::empty()
    } else {
        formulas_of(es.drop_last()) + es.last().4
    }
}

/// What a conversion writes: each source cell with its target position, in
/// rule order, and the custom formulas to set afterwards.
pub struct ConvertPlan {
    pub mappings: Vec<(CellRef, TargetItem)>,
    pub formulas: Vec<CustomFormula>,
}

pub open spec fn rule_views(v: Seq<ParsedRule>) -> Seq<RuleV> {
    v.map_values(|x: ParsedRule| x@)
}

fn message(s: &str) -> (r: String)
    ensures
        r@ == s@,
{
    string_from(chars_of(s).as_slice())
}

/// Plans the conversion of the current sheet by the rule text: the rules
/// are parsed and their batch rules expanded; each rule's source cells are
/// paired, in order, with their target positions. Fails when the text does
/// not parse, the sheet does not exist (`当前工作表无效`), a source range is
/// refused, or nothing is to be copied (`没有需要复制的单元格`); a rule whose
/// numbers leave the integer ranges is refused as out of range.
pub fn plan_convert(text: &str, excel_data: &ExcelData, current_sheet: usize) -> (r: Result<ConvertPlan, String>)
    requires
        text@.len() < usize::MAX,
    ensures
        ({
            let rs = sp_rules(text@, 0);
            let parsed = rs is Some && rs->0.len() > 0;
            let es = expanded_all(rs->0);
            &&& !parsed ==> r is Err
            &&& parsed && !all_expandable(rs->0) ==> r is Err && r->Err_0@ == out_of_range_message()
            &&& parsed && all_expandable(rs->0) && current_sheet >= excel_data.sheets@.len() ==> r is Err
                && r->Err_0@ == "当前工作表无效"@
            &&& parsed && all_expandable(rs->0) && current_sheet < excel_data.sheets@.len() ==> match copies_of(es) {
                None => r is Err && r->Err_0@ == out_of_range_message(),
                Some(None) => r is Err,
                Some(Some(m)) => if m.len() == 0 {
                    r is Err && r->Err_0@ == "没有需要复制的单元格"@
                } else {
                    r is Ok && r->Ok_0.mappings@ == m && formulas_view(r->Ok_0.formulas@) == formulas_of(es)
                },
            }
        }),
{
    let rules = match parse_rules(text) {
        Ok(v) => v,
        Err(e) => return Err(e),
    };
    let ghost rs = rule_views(rules@);
    let mut i: usize = 0;
    while i < rules.len()
        invariant
            rs == rule_views(rules@),
            sp_rules(text@, 0) == Some(rs),
            rs.len() > 0,
            i <= rules@.len(),
            forall|q: int| 0 <= q < i ==> expandable(#[trigger] rs[q]),
        decreases rules@.len() - i,
    {
        if !rule_expandable(&rules[i]) {
            assert(!expandable(rs[i as int]));
            return Err(message("规则中的数值超出范围"));
        }
        i += 1;
    }
    let mut ex: Vec<ParsedRule> = Vec::new();
    let mut i: usize = 0;
    assert(rs.take(0) =~= Seq::<RuleV>::empty());
    while i < rules.len()
        invariant
            rs == rule_views(rules@),
            all_expandable(rs),
            i <= rules@.len(),
            rule_views(ex@) == expanded_all(rs.take(i as int)),
        decreases rules@.len() - i,
    {
        assert(expandable(rs[i as int]));
        let mut part = expand_batch_rule(&rules[i]);
        let ghost before = ex@;
        ex.append(&mut part);
        proof {
            assert(rs.take(i + 1).drop_last() =~= rs.take(i as int));
            assert(rs.take(i + 1).last() == rs[i as int]);
            assert(rule_views(ex@) =~= rule_views(before) + expanded(rs[i as int]));
        }
        i += 1;
    }
    assert(rs.take(rules@.len() as int) =~= rs);
    let ghost es = expanded_all(rs);
    let sheet = match excel_data.get_sheet(current_sheet) {
        Some(s) => s,
        None => return Err(message("当前工作表无效")),
    };
    let mut mappings: Vec<(CellRef, TargetItem)> = Vec::new();
    let mut i: usize = 0;
    assert(es.take(0) =~= Seq::<RuleV>::empty());
    while i < ex.len()
        invariant
            rule_views(ex@) == es,
            sp_rules(text@, 0) == Some(rs),
            rs.len() > 0,
            all_expandable(rs),
            es == expanded_all(rs),
            current_sheet < excel_data.sheets@.len(),
            i <= ex@.len(),
            copies_of(es.take(i as int)) == Some(Some(mappings@)),
        decreases ex@.len() - i,
    {
        let e = &ex[i];
        assert(e@ == es[i as int]);
        assert(es.take(i + 1).drop_last() =~= es.take(i as int));
        assert(es.take(i + 1).last() == es[i as int]);
        if !range_resolvable(&e.source_range) {
            proof {
                lemma_copies_stay(es, i as int + 1);
            }
            return Err(message("规则中的数值超出范围"));
        }
        let src = match resolve_source_items(&e.source_range, sheet) {
            Ok(v) => v,
            Err(m) => {
                proof {
                    lemma_copies_stay(es, i as int + 1);
                }
                return Err(m);
            },
        };
        if !targets_fit_exec(src.len(), &e.target_start, e.direction) {
            proof {
                lemma_copies_stay(es, i as int + 1);
            }
            return Err(message("规则中的数值超出范围"));
        }
        let tg = compute_targets(src.as_slice(), &e.target_start, e.direction);
        let ghost before = mappings@;
        let mut k: usize = 0;
        while k < src.len()
            invariant
                tg@.len() == src@.len(),
                k <= src@.len(),
                mappings@ == before + zip_items(src@, tg@).take(k as int),
            decreases src@.len() - k,
        {
            mappings.push((src[k], tg[k]));
            k += 1;
            assert(mappings@ =~= before + zip_items(src@, tg@).take(k as int));
        }
        assert(zip_items(src@, tg@).take(src@.len() as int) =~= zip_items(src@, tg@));
        i += 1;
    }
    assert(es.take(ex@.len() as int) =~= es);
    if mappings.len() == 0 {
        return Err(message("没有需要复制的单元格"));
    }
    let mut formulas: Vec<CustomFormula> = Vec::new();
    let mut i: usize = 0;
    while i < ex.len()
        invariant
            rule_views(ex@) == es,
            i <= ex@.len(),
            formulas_view(formulas@) == formulas_of(es.take(i as int)),
        decreases ex@.len() - i,
    {
        let e = &ex[i];
        assert(e@ == es[i as int]);
        assert(es.take(i + 1).drop_last() =~= es.take(i as int));
        assert(es.take(i + 1).last() == es[i as int]);
        let ghost before = formulas_view(formulas@);
        let mut k: usize = 0;
        while k < e.custom_formulas.len()
            invariant
                k <= e.custom_formulas@.len(),
                formulas_view(formulas@) == before + formulas_view(e.custom_formulas@).take(k as int),
            decreases e.custom_formulas@.len() - k,
        {
            let ghost pre = formulas@;
            formulas.push(e.custom_formulas[k].duplicate());
            k += 1;
            assert(formulas_view(formulas@) =~= formulas_view(pre).push(e.custom_formulas@[k - 1]@));
            assert(formulas_view(formulas@) =~= before + formulas_view(e.custom_formulas@).take(k as int));
        }
        assert(formulas_view(e.custom_formulas@).take(e.custom_formulas@.len() as int) =~= formulas_view(
            e.custom_formulas@,
        ));
        i += 1;
    }
    assert(es.take(ex@.len() as int) =~= es);
    Ok(ConvertPlan { mappings, formulas })
}

/// Once the copies of a prefix fail, the copies of the whole fail the same
/// way.
proof fn lemma_copies_stay(es: Seq<RuleV>, n: int)
    requires
        0 <= n <= es.len(),
        !(copies_of(es.take(n)) matches Some(Some(_))),
    ensures
        copies_of(es) == copies_of(es.take(n)),
    decreases es.len() - n,
{
    if n < es.len() {
        assert(es.take(n + 1).drop_last() =~= es.take(n));
        lemma_copies_stay(es, n + 1);
    } else {
        assert(es.take(n) =~= es);
    }
}

// ---------------------------------------------------------------------------
// Texts for the writer
// ---------------------------------------------------------------------------

/// `A1:B2` for the given corners.
pub open spec fn range_text(c0: u32, r0: u32, c1: u32, r1: u32) -> Seq<char> {
    col_letters(c0 as nat) + dec(r0 as nat) + ":"@ + col_letters(c1 as nat) + dec(r1 as nat)
}

fn push_range(v: &mut Vec<char>, c0: u32, r0: u32, c1: u32, r1: u32)
    ensures
        final(v)@ == old(v)@ + range_text(c0, r0, c1, r1),
{
    push_col_letters(v, c0);
    push_dec(v, r0 as u64);
    push_str(v, ":");
    push_col_letters(v, c1);
    push_dec(v, r1 as u64);
    assert(final(v)@ =~= old(v)@ + range_text(c0, r0, c1, r1));
}

/// The merged range a target covers, when it covers more than one cell.
pub fn merge_range_text(t: &TargetItem) -> (r: Option<String>)
    requires
        t.merge_cols >= 1,
        t.merge_rows >= 1,
        t.cell.col + t.merge_cols - 1 <= u32::MAX,
        t.cell.row + t.merge_rows - 1 <= u32::MAX,
    ensures
        t.merge_cols > 1 || t.merge_rows > 1 ==> r is Some && r->0@ == range_text(
            t.cell.col,
            t.cell.row,
            (t.cell.col + t.merge_cols - 1) as u32,
            (t.cell.row + t.merge_rows - 1) as u32,
        ),
        !(t.merge_cols > 1 || t.merge_rows > 1) ==> r is None,
{
    if t.merge_cols > 1 || t.merge_rows > 1 {
        let mut v: Vec<char> = Vec::new();
        push_range(&mut v, t.cell.col, t.cell.row, t.cell.col + (t.merge_cols - 1), t.cell.row + (t.merge_rows - 1));
        assert(v@ =~= range_text(
            t.cell.col,
            t.cell.row,
            (t.cell.col + t.merge_cols - 1) as u32,
            (t.cell.row + t.merge_rows - 1) as u32,
        ));
        Some(string_from(v.as_slice()))
    } else {
        None
    }
}

/// `raw` with every `~` replaced by `d`.
pub open spec fn fill_tilde(raw: Seq<char>, d: Seq<char>) -> Seq<char>
    decreases raw.len(),
{
    if raw.len() == 0 {
        Seq::empty()
    } else {
        fill_tilde(raw.drop_last(), d) + if raw.last() == '~' {
            d
        } else {
            seq![raw.last()]
        }
    }
}

/// A custom formula's text with `~` replaced by the last row of the output
/// sheet.
pub fn fill_max_row(raw: &str, max_row: u32) -> (r: String)
    ensures
        r@ == fill_tilde(raw@, dec(max_row as nat)),
{
    let c = chars_of(raw);
    let mut v: Vec<char> = Vec::new();
    let mut i: usize = 0;
    assert(c@.take(0) =~= Seq::<char>::empty());
    while i < c.len()
        invariant
            i <= c@.len(),
            v@ == fill_tilde(c@.take(i as int), dec(max_row as nat)),
        decreases c@.len() - i,
    {
        assert(c@.take(i + 1).drop_last() =~= c@.take(i as int));
        assert(c@.take(i + 1).last() == c@[i as int]);
        if c[i] == '~' {
            push_dec(&mut v, max_row as u64);
        } else {
            v.push(c[i]);
        }
        i += 1;
    }
    assert(c@.take(c@.len() as int) =~= c@);
    string_from(v.as_slice())
}

/// Where each source cell goes: the target of its last mapping.
pub open spec fn target_map(m: Seq<(CellRef, TargetItem)>) -> Map<u64, (u32, u32)>
    decreases m.len(),
{
    if m.len() == 0 {
        Map::empty()
    } else {
        target_map(m.drop_last()).insert(
            cell_key(m.last().0.col, m.last().0.row),
            (m.last().1.cell.col, m.last().1.cell.row),
        )
    }
}

/// The targets of the mapped cells of the rectangle `sc..=ec` by `sr..=er`.
pub open spec fn mapped_in(tm: Map<u64, (u32, u32)>, sc: u32, sr: u32, ec: u32, er: u32) -> Set<(u32, u32)> {
    Set::new(
        |t: (u32, u32)|
            exists|c: u32, r: u32|
                sc <= c <= ec && sr <= r <= er && #[trigger] tm.contains_key(cell_key(c, r)) && tm[cell_key(
                    c,
                    r,
                )] == t,
    )
}

/// `(c0, r0, c1, r1)` are the least and greatest columns and rows of `s`.
pub open spec fn is_bounds(s: Set<(u32, u32)>, b: (u32, u32, u32, u32)) -> bool {
    &&& forall|t: (u32, u32)| s.contains(t) ==> b.0 <= t.0 <= b.2 && b.1 <= t.1 <= b.3
    &&& exists|t: (u32, u32)| s.contains(t) && t.0 == b.0
    &&& exists|t: (u32, u32)| s.contains(t) && t.1 == b.1
    &&& exists|t: (u32, u32)| s.contains(t) && t.0 == b.2
    &&& exists|t: (u32, u32)| s.contains(t) && t.1 == b.3
}

/// The map from source cell keys to targets.
pub fn build_target_map(m: &Vec<(CellRef, TargetItem)>) -> (r: std::collections::HashMap<u64, (u32, u32)>)
    ensures
        r@ == target_map(m@),
{
    let mut r: std::collections::HashMap<u64, (u32, u32)> = std::collections::HashMap::new();
    let mut i: usize = 0;
    assert(m@.take(0) =~= Seq::<(CellRef, TargetItem)>::empty());
    assert(target_map(m@.take(0)) =~= Map::<u64, (u32, u32)>::empty());
    while i < m.len()
        invariant
            i <= m@.len(),
            r@ == target_map(m@.take(i as int)),
        decreases m@.len() - i,
    {
        let (src, tgt) = m[i];
        assert(m@.take(i + 1).drop_last() =~= m@.take(i as int));
        assert(m@.take(i + 1).last() == m@[i as int]);
        r.insert(cell_key_exec(src.col, src.row), (tgt.cell.col, tgt.cell.row));
        i += 1;
    }
    assert(m@.take(m@.len() as int) =~= m@);
    r
}

/// The targets of the mapped cells of the rectangle met before row `r`,
/// column `c` (row by row).
pub open spec fn mapped_upto(tm: Map<u64, (u32, u32)>, sc: u32, ec: u32, sr: u32, r: int, c: int) -> Set<(u32, u32)> {
    Set::new(
        |t: (u32, u32)|
            exists|x: u32, y: u32|
                sc <= x <= ec && sr <= y && (y < r || (y == r && x < c)) && #[trigger] tm.contains_key(
                    cell_key(x, y),
                ) && tm[cell_key(x, y)] == t,
    )
}

/// The bounds after meeting one more target.
pub open spec fn grow_bounds(found: bool, b: (u32, u32, u32, u32), t: (u32, u32)) -> (u32, u32, u32, u32) {
    if !found {
        (t.0, t.1, t.0, t.1)
    } else {
        (
            if t.0 < b.0 { t.0 } else { b.0 },
            if t.1 < b.1 { t.1 } else { b.1 },
            if t.0 > b.2 { t.0 } else { b.2 },
            if t.1 > b.3 { t.1 } else { b.3 },
        )
    }
}

proof fn lemma_bounds_insert(s: Set<(u32, u32)>, found: bool, b: (u32, u32, u32, u32), t: (u32, u32))
    requires
        found ==> is_bounds(s, b),
        !found ==> s == Set::<(u32, u32)>::empty(),
    ensures
        is_bounds(s.insert(t), grow_bounds(found, b, t)),
{
    let nb = grow_bounds(found, b, t);
    let s2 = s.insert(t);
    assert(s2.contains(t));
    if found {
        let w0 = choose|u: (u32, u32)| s.contains(u) && u.0 == b.0;
        let w1 = choose|u: (u32, u32)| s.contains(u) && u.1 == b.1;
        let w2 = choose|u: (u32, u32)| s.contains(u) && u.0 == b.2;
        let w3 = choose|u: (u32, u32)| s.contains(u) && u.1 == b.3;
        assert(s2.contains(w0) && s2.contains(w1) && s2.contains(w2) && s2.contains(w3));
        if t.0 < b.0 {
            assert(s2.contains(t) && t.0 == nb.0);
        } else {
            assert(s2.contains(w0) && w0.0 == nb.0);
        }
        if t.1 < b.1 {
            assert(s2.contains(t) && t.1 == nb.1);
        } else {
            assert(s2.contains(w1) && w1.1 == nb.1);
        }
        if t.0 > b.2 {
            assert(s2.contains(t) && t.0 == nb.2);
        } else {
            assert(s2.contains(w2) && w2.0 == nb.2);
        }
        if t.1 > b.3 {
            assert(s2.contains(t) && t.1 == nb.3);
        } else {
            assert(s2.contains(w3) && w3.1 == nb.3);
        }
    } else {
        assert forall|u: (u32, u32)| s2.contains(u) implies u == t by {}
    }
}

/// The moved text of one conditional-format range: the smallest range
/// holding the targets of its mapped cells, or nothing when none of its
/// cells is mapped.
pub fn map_sqref_part(
    tm: &std::collections::HashMap<u64, (u32, u32)>,
    sc: u32,
    sr: u32,
    ec: u32,
    er: u32,
) -> (r: Option<String>)
    ensures
        (mapped_in(tm@, sc, sr, ec, er) == Set::<(u32, u32)>::empty()) <==> r is None,
        r is Some ==> exists|b: (u32, u32, u32, u32)|
            is_bounds(mapped_in(tm@, sc, sr, ec, er), b) && r->0@ == range_text(b.0, b.1, b.2, b.3),
{
    let ghost m = tm@;
    let mut found = false;
    let mut b: (u32, u32, u32, u32) = (0, 0, 0, 0);
    let mut y: u64 = sr as u64;
    assert(mapped_upto(m, sc, ec, sr, sr as int, sc as int) =~= Set::<(u32, u32)>::empty());
    while y <= er as u64
        invariant
            m == tm@,
            sr <= y,
            y <= er as int + 1 || y == sr,
            found ==> is_bounds(mapped_upto(m, sc, ec, sr, y as int, sc as int), b),
            !found ==> mapped_upto(m, sc, ec, sr, y as int, sc as int) == Set::<(u32, u32)>::empty(),
        decreases er as int + 1 - y,
    {
        let row = y as u32;
        let mut x: u64 = sc as u64;
        assert(mapped_upto(m, sc, ec, sr, y as int, sc as int) =~= mapped_upto(m, sc, ec, sr, y as int, sc as int));
        while x <= ec as u64
            invariant
                m == tm@,
                row == y,
                sr <= y <= er,
                sc <= x,
                x <= ec as int + 1 || x == sc,
                found ==> is_bounds(mapped_upto(m, sc, ec, sr, y as int, x as int), b),
                !found ==> mapped_upto(m, sc, ec, sr, y as int, x as int) == Set::<(u32, u32)>::empty(),
            decreases ec as int + 1 - x,
        {
            let col = x as u32;
            let ghost before = mapped_upto(m, sc, ec, sr, y as int, x as int);
            let key = cell_key_exec(col, row);
            match tm.get(&key) {
                Some(t) => {
                    let t = *t;
                    proof {
                        lemma_bounds_insert(before, found, b, t);
                        assert(mapped_upto(m, sc, ec, sr, y as int, x + 1) =~= before.insert(t));
                    }
                    b = (
                        if t.0 < b.0 || !found { t.0 } else { b.0 },
                        if t.1 < b.1 || !found { t.1 } else { b.1 },
                        if t.0 > b.2 || !found { t.0 } else { b.2 },
                        if t.1 > b.3 || !found { t.1 } else { b.3 },
                    );
                    found = true;
                },
                None => {
                    assert(mapped_upto(m, sc, ec, sr, y as int, x + 1) =~= before);
                },
            }
            x += 1;
        }
        proof {
            if sc <= ec {
                assert(mapped_upto(m, sc, ec, sr, y as int, x as int) =~= mapped_upto(m, sc, ec, sr, y + 1, sc as int));
            } else {
                assert(mapped_upto(m, sc, ec, sr, y as int, x as int) =~= mapped_upto(m, sc, ec, sr, y + 1, sc as int));
            }
        }
        y += 1;
    }
    assert(mapped_upto(m, sc, ec, sr, y as int, sc as int) =~= mapped_in(m, sc, sr, ec, er));
    if found {
        let mut v: Vec<char> = Vec::new();
        push_range(&mut v, b.0, b.1, b.2, b.3);
        assert(v@ =~= range_text(b.0, b.1, b.2, b.3));
        let s = string_from(v.as_slice());
        proof {
            let w = choose|u: (u32, u32)| mapped_in(m, sc, sr, ec, er).contains(u) && u.0 == b.0;
            assert(mapped_in(m, sc, sr, ec, er).contains(w));
        }
        Some(s)
    } else {
        None
    }
}

/// The moved text of a conditional format's ranges: the moved text of each
/// range that has mapped cells, joined with spaces, or nothing when none has.
pub open spec fn sqref_parts(tm: Map<u64, (u32, u32)>, ranges: Seq<(u32, u32, u32, u32)>, texts: Seq<Option<Seq<char>>>) -> bool {
    &&& texts.len() == ranges.len()
    &&& forall|i: int|
        0 <= i < ranges.len() ==> {
            let q = #[trigger] ranges[i];
            &&& (mapped_in(tm, q.0, q.1, q.2, q.3) == Set::<(u32, u32)>::empty()) <==> texts[i] is None
            &&& texts[i] is Some ==> exists|b: (u32, u32, u32, u32)|
                is_bounds(mapped_in(tm, q.0, q.1, q.2, q.3), b) && texts[i]->0 == range_text(b.0, b.1, b.2, b.3)
        }
}

/// The present texts joined with single spaces.
pub open spec fn join_present(texts: Seq<Option<Seq<char>>>) -> Seq<char>
    decreases texts.len(),
{
    if texts.len() == 0 {
        Seq::empty()
    } else {
        let rest = join_present(texts.drop_last());
        match texts.last() {
            None => rest,
            Some(t) => if rest.len() == 0 {
                t
            } else {
                rest + " "@ + t
            },
        }
    }
}

/// The moved text of a conditional format's ranges `(first col, first row,
/// last col, last row)`: the moved text of every range that has mapped
/// cells, joined with spaces; nothing when no range has one.
#[verifier::spinoff_prover]
pub fn map_sqref(tm: &std::collections::HashMap<u64, (u32, u32)>, ranges: &Vec<(u32, u32, u32, u32)>) -> (r: Option<String>)
    ensures
        exists|texts: Seq<Option<Seq<char>>>|
            sqref_parts(tm@, ranges@, texts) && (r is None <==> join_present(texts).len() == 0) && (r is Some
                ==> r->0@ == join_present(texts)),
{
    let ghost mut texts: Seq<Option<Seq<char>>> = Seq::empty();
    let mut v: Vec<char> = Vec::new();
    let mut i: usize = 0;
    while i < ranges.len()
        invariant
            i <= ranges@.len(),
            sqref_parts(tm@, ranges@.take(i as int), texts),
            v@ == join_present(texts),
        decreases ranges@.len() - i,
    {
        let q = ranges[i];
        let part = map_sqref_part(tm, q.0, q.1, q.2, q.3);
        let ghost before = texts;
        match &part {
            Some(p) => {
                let pc = chars_of(p.as_str());
                if v.len() > 0 {
                    push_str(&mut v, " ");
                }
                let mut k: usize = 0;
                let ghost v0 = v@;
                while k < pc.len()
                    invariant
                        k <= pc@.len(),
                        v@ == v0 + pc@.take(k as int),
                    decreases pc@.len() - k,
                {
                    v.push(pc[k]);
                    k += 1;
                    assert(v@ =~= v0 + pc@.take(k as int));
                }
                assert(pc@.take(pc@.len() as int) =~= pc@);
                proof {
                    texts = texts.push(Some(p@));
                    assert(texts.drop_last() =~= before);
                }
            },
            None => {
                proof {
                    texts = texts.push(None);
                    assert(texts.drop_last() =~= before);
                }
            },
        }
        proof {
            assert forall|j: int| 0 <= j < i + 1 implies {
                let q = #[trigger] ranges@.take(i + 1)[j];
                &&& (mapped_in(tm@, q.0, q.1, q.2, q.3) == Set::<(u32, u32)>::empty()) <==> texts[j] is None
                &&& texts[j] is Some ==> exists|b: (u32, u32, u32, u32)|
                    is_bounds(mapped_in(tm@, q.0, q.1, q.2, q.3), b) && texts[j]->0 == range_text(b.0, b.1, b.2, b.3)
            } by {
                if j < i {
                    assert(ranges@.take(i + 1)[j] == ranges@.take(i as int)[j]);
                    assert(texts[j] == before[j]);
                } else {
                    assert(ranges@.take(i + 1)[j] == q);
                    assert(texts[j] == (match part {
                        Some(p) => Some(p@),
                        None => None,
                    }));
                }
            }
            assert(texts.len() == i + 1);
            assert(sqref_parts(tm@, ranges@.take(i + 1), texts));
        }
        i += 1;
    }
    assert(ranges@.take(ranges@.len() as int) =~= ranges@);
    if v.len() > 0 {
        Some(string_from(v.as_slice()))
    } else {
        None
    }
}

/// The name of the converted file: `stem-convert-ts.ext`, and
/// `stem-convert-ts_n.ext` for the `n`-th alternative when that name is
/// taken.
pub open spec fn output_file_name(stem: Seq<char>, ts: Seq<char>, ext: Seq<char>, n: nat) -> Seq<char> {
    stem + "-convert-"@ + ts + (if n == 0 {
        Seq::empty()
    } else {
        seq!['_'] + dec(n)
    }) + "."@ + ext
}

/// The name of the converted file (see [`output_file_name`]).
pub fn convert_file_name(stem: &str, ts: &str, ext: &str, n: u64) -> (r: String)
    ensures
        r@ == output_file_name(stem@, ts@, ext@, n as nat),
{
    let mut v: Vec<char> = Vec::new();
    push_str(&mut v, stem);
    push_str(&mut v, "-convert-");
    push_str(&mut v, ts);
    if n > 0 {
        v.push('_');
        push_dec(&mut v, n);
    }
    push_str(&mut v, ".");
    push_str(&mut v, ext);
    assert(v@ =~= output_file_name(stem@, ts@, ext@, n as nat));
    string_from(v.as_slice())
}

// ---------------------------------------------------------------------------
// What is written for each copied cell
// ---------------------------------------------------------------------------

/// The references a copied formula is rewritten with: each copy's source
/// `(col, row)` to its target `(col, row)`, in the order of the copies.
pub open spec fn reference_pairs(m: Seq<(CellRef, TargetItem)>) -> Seq<((u32, u32), (u32, u32))> {
    m.map_values(|x: (CellRef, TargetItem)| ((x.0.col, x.0.row), (x.1.cell.col, x.1.cell.row)))
}

/// The source-to-target pairs of the copies, for rewriting formulas.
pub fn reference_mapping(m: &Vec<(CellRef, TargetItem)>) -> (r: Vec<((u32, u32), (u32, u32))>)
    ensures
        r@ == reference_pairs(m@),
{
    let mut r: Vec<((u32, u32), (u32, u32))> = Vec::new();
    let mut i: usize = 0;
    while i < m.len()
        invariant
            i <= m@.len(),
            r@ == reference_pairs(m@.take(i as int)),
        decreases m@.len() - i,
    {
        let (src, tgt) = (m[i].0, m[i].1.cell);
        r.push(((src.col, src.row), (tgt.col, tgt.row)));
        assert(r@ =~= reference_pairs(m@.take(i + 1)));
        i += 1;
    }
    assert(m@.take(m@.len() as int) =~= m@);
    r
}

/// What the output gets at a copy's target: nothing for a missing or empty
/// cell, the value, or the formula (rewritten for its new place) with the
/// value as its cached result when there is one.
#[derive(Debug, PartialEq, Eq)]
pub enum CellWrite {
    Nothing,
    Value(String),
    Formula { formula: String, result: Option<String> },
}

/// What is written for the source cell `c`, its formula rewritten with the
/// copies' pairs and the copy's offset.
pub open spec fn cell_write_spec(
    c: Option<CellData>,
    pairs: Seq<((u32, u32), (u32, u32))>,
    dc: int,
    dr: int,
) -> (Option<(Seq<char>, Option<Seq<char>>)>, Option<Seq<char>>) {
    match c {
        None => (None, None),
        Some(cd) => if cd.formula@.len() > 0 {
            (
                Some(
                    (
                        remapped_from(cd.formula@, 0, pairs, dc, dr),
                        if cd.value@.len() > 0 {
                            Some(cd.value@)
                        } else {
                            None
                        },
                    ),
                ),
                None,
            )
        } else if cd.value@.len() > 0 {
            (None, Some(cd.value@))
        } else {
            (None, None)
        },
    }
}

/// A write as plain values: the formula and its result, or the value.
pub open spec fn write_view(w: CellWrite) -> (Option<(Seq<char>, Option<Seq<char>>)>, Option<Seq<char>>) {
    match w {
        CellWrite::Nothing => (None, None),
        CellWrite::Value(v) => (None, Some(v@)),
        CellWrite::Formula { formula, result } => (
            Some(
                (
                    formula@,
                    match result {
                        Some(x) => Some(x@),
                        None => None,
                    },
                ),
            ),
            None,
        ),
    }
}

/// What the output gets for the source cell `cell` copied with the offset
/// `(col_offset, row_offset)`.
pub fn cell_write(
    cell: Option<&CellData>,
    pairs: &Vec<((u32, u32), (u32, u32))>,
    col_offset: i32,
    row_offset: i32,
) -> (r: CellWrite)
    ensures
        write_view(r) == cell_write_spec(
            match cell {
                Some(c) => Some(*c),
                None => None,
            },
            pairs@,
            col_offset as int,
            row_offset as int,
        ),
{
    let c = match cell {
        Some(c) => c,
        None => {
            return CellWrite::Nothing;
        },
    };
    let f = chars_of(c.formula.as_str());
    let v = chars_of(c.value.as_str());
    if f.len() > 0 {
        let formula = adjust_formula_by_mapping(c.formula.as_str(), pairs, col_offset, row_offset);
        let result = if v.len() > 0 {
            Some(string_from(v.as_slice()))
        } else {
            None
        };
        CellWrite::Formula { formula, result }
    } else if v.len() > 0 {
        CellWrite::Value(string_from(v.as_slice()))
    } else {
        CellWrite::Nothing
    }
}

// ---------------------------------------------------------------------------
// The rule text as it is typed
// ---------------------------------------------------------------------------

/// Whether the typed rule text holds rules that read: not blank, and every
/// rule follows the grammar.
pub open spec fn rules_valid(text: Seq<char>) -> bool {
    &&& trim(text).len() > 0
    &&& sp_rules(text, 0) matches Some(rs) && rs.len() > 0
}

/// Checks the typed rule text, as the window does on every change: whether
/// conversion may start (the text holds rules that read), and the error
/// shown next: for a blank text the current one; for text that does not
/// read, the reading error; for rules that read, the current one unless it
/// was a reading error (one that names a line, `行`), which is cleared.
pub fn rules_status(text: &str, error_message: &Option<String>) -> (r: (bool, Option<String>))
    requires
        text@.len() < usize::MAX,
    ensures
        r.0 == rules_valid(text@),
        trim(text@).len() == 0 ==> crate::license::store::opt_str(r.1) == crate::license::store::opt_str(*error_message),
        trim(text@).len() > 0 && !rules_valid(text@) ==> r.1 is Some,
        rules_valid(text@) ==> crate::license::store::opt_str(r.1) == match *error_message {
            Some(m) => if m@.contains('行') {
                None
            } else {
                Some(m@)
            },
            None => None,
        },
{
    let tv = chars_of(text);
    let t = trim_vec(tv.as_slice());
    if t.len() == 0 {
        let kept = match error_message {
            Some(m) => Some(crate::text::string_clone(m)),
            None => None,
        };
        return (false, kept);
    }
    match parse_rules(text) {
        Err(e) => (false, Some(e)),
        Ok(_) => {
            let kept = match error_message {
                Some(m) => {
                    let mv = chars_of(m.as_str());
                    assert(mv@.subrange(0, mv@.len() as int) =~= mv@);
                    if contains_char(mv.as_slice(), 0, mv.len(), '行') {
                        None
                    } else {
                        Some(crate::text::string_clone(m))
                    }
                },
                None => None,
            };
            (true, kept)
        },
    }
}

} // verus!
