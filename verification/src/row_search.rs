//! Row search: which data rows below the anchor rows show, given one or
//! several row filters combined with AND and OR.

use vstd::prelude::*;
use std::collections::HashSet;
use crate::cellref::{col_letters, push_col_letters};
use crate::column_search::{cols_after, join_comma, lemma_join_push, sat_sub};
use crate::matching::{
    filter_value_holds, match_filter_value, numeric_ok, parse_row_keywords, row_keywords, text_le,
    texts, NumOrder,
};
use crate::scan::{
    adjacent_sorted, find_rows_in_sorted, fuzzy_hits, is_sorted, lemma_adjacent_sorted, numbers_where,
    pair_texts, scan_keeps, views,
};
use crate::search::{
    cell_text, expr_holds, opt_first_col, opt_first_row, row_matches_expr, CompareOp, FilterLogic,
    RangeOption, RowFilterCondition, SearchWindowState,
};
use crate::sheet::SheetData;
use crate::text::{chars_of, dec, push_all, push_dec, push_str, string_from, trim};
use crate::visibility::{expand_hidden_rows_for_merged_cells, rows_aligned};

verus! {

broadcast use {
    vstd::std_specs::hash::group_hash_axioms,
    vstd::std_specs::hash::axiom_u32_obeys_hash_table_key_model,
    vstd::std_specs::hash::axiom_random_state_builds_valid_hashers,
};

/// A row filter takes part once its keyword holds more than whitespace.
pub open spec fn row_filter_active(f: RowFilterCondition) -> bool {
    trim(f.keyword@).len() > 0
}

/// The active row filters, in order.
pub open spec fn active_row_filters(fs: Seq<RowFilterCondition>) -> Seq<RowFilterCondition>
    decreases fs.len(),
{
    if fs.len() == 0 {
        Seq::empty()
    } else {
        active_row_filters(fs.drop_last()) + if row_filter_active(fs.last()) {
            seq![fs.last()]
        } else {
            Seq::empty()
        }
    }
}

/// `s` with `x` put in its place (kept once) in an increasing list.
pub open spec fn insert_sorted(s: Seq<u32>, x: u32) -> Seq<u32>
    decreases s.len(),
{
    if s.len() == 0 {
        seq![x]
    } else if x == s[0] {
        s
    } else if x < s[0] {
        seq![x] + s
    } else {
        seq![s[0]] + insert_sorted(s.drop_first(), x)
    }
}

/// The columns of the cells, increasing, each once.
pub open spec fn sorted_cols(cells: Seq<(u32, u32)>) -> Seq<u32>
    decreases cells.len(),
{
    if cells.len() == 0 {
        Seq::empty()
    } else {
        insert_sorted(sorted_cols(cells.drop_last()), cells.last().0)
    }
}

/// Strictly increasing.
pub open spec fn increasing(s: Seq<u32>) -> bool {
    forall|i: int, j: int| 0 <= i < j < s.len() ==> s[i] < s[j]
}

proof fn lemma_insert_sorted(s: Seq<u32>, x: u32, j: int)
    requires
        increasing(s),
        0 <= j <= s.len(),
        forall|k: int| 0 <= k < j ==> s[k] < x,
        j < s.len() ==> x <= s[j],
    ensures
        insert_sorted(s, x) == (if j < s.len() && s[j] == x {
            s
        } else {
            s.insert(j, x)
        }),
        increasing(insert_sorted(s, x)),
    decreases s.len(),
{
    if s.len() == 0 {
        assert(s.insert(0, x) =~= seq![x]);
    } else if j == 0 {
        if x == s[0] {
        } else {
            assert(s.insert(0, x) =~= seq![x] + s);
        }
    } else {
        assert(x != s[0] && !(x < s[0]));
        let t = s.drop_first();
        lemma_insert_sorted(t, x, j - 1);
        if j < s.len() && s[j] == x {
            assert(seq![s[0]] + t =~= s);
        } else {
            assert(seq![s[0]] + t.insert(j - 1, x) =~= s.insert(j, x));
        }
        let r = insert_sorted(s, x);
        assert forall|a: int, b: int| 0 <= a < b < r.len() implies r[a] < r[b] by {
            if a == 0 {
                let u = insert_sorted(t, x);
                assert(r[b] == u[b - 1]);
                if j < s.len() && s[j] == x {
                    assert(u == t);
                } else {
                    assert(u == t.insert(j - 1, x));
                    if b - 1 == j - 1 {
                    } else if b - 1 < j - 1 {
                        assert(u[b - 1] == t[b - 1]);
                    } else {
                        assert(u[b - 1] == t[b - 2]);
                    }
                }
            } else {
                assert(r[a] == insert_sorted(t, x)[a - 1]);
                assert(r[b] == insert_sorted(t, x)[b - 1]);
            }
        }
    }
}

/// The columns of `cells`, increasing, each once.
pub fn sorted_col_list(cells: &Vec<(u32, u32)>) -> (r: Vec<u32>)
    ensures
        r@ == sorted_cols(cells@),
        increasing(r@),
{
    let mut r: Vec<u32> = Vec::new();
    let mut i: usize = 0;
    assert(cells@.take(0) =~= Seq::<(u32, u32)>::empty());
    while i < cells.len()
        invariant
            i <= cells@.len(),
            r@ == sorted_cols(cells@.take(i as int)),
            increasing(r@),
        decreases cells@.len() - i,
    {
        let x = cells[i].0;
        let mut j: usize = 0;
        while j < r.len() && r[j] < x
            invariant
                j <= r@.len(),
                forall|k: int| 0 <= k < j ==> r@[k] < x,
            decreases r@.len() - j,
        {
            j += 1;
        }
        proof {
            lemma_insert_sorted(r@, x, j as int);
            assert(cells@.take(i + 1).drop_last() =~= cells@.take(i as int));
            assert(cells@.take(i + 1).last() == cells@[i as int]);
        }
        if !(j < r.len() && r[j] == x) {
            r.insert(j, x);
        }
        i += 1;
    }
    assert(cells@.take(cells@.len() as int) =~= cells@);
    r
}

// ---------------------------------------------------------------------------
// What a row search does
// ---------------------------------------------------------------------------

/// The anchor columns of a filter's option, increasing (none without an
/// option).
pub open spec fn filter_cols_sorted(ropts: Seq<RangeOption>, fl: RowFilterCondition) -> Seq<u32> {
    if fl.range_index < ropts.len() {
        sorted_cols(ropts[fl.range_index as int]@.2)
    } else {
        Seq::empty()
    }
}

/// Whether row `row` meets a row filter: the searched text of one of its
/// anchor columns meets the filter's keywords.
pub open spec fn row_hit<F: Fn(&String, &String) -> Option<NumOrder>>(
    f: F,
    sheet: SheetData,
    ropts: Seq<RangeOption>,
    fl: RowFilterCondition,
    row: u32,
) -> bool {
    let cols = filter_cols_sorted(ropts, fl);
    let k = row_keywords(fl.keyword@);
    exists|j: int|
        0 <= j < cols.len() && filter_value_holds(f, cell_text(sheet, row, #[trigger] cols[j]), k.0, k.1, fl.op)
}

/// An OR joins two of the filters.
pub open spec fn has_or_link(act: Seq<RowFilterCondition>) -> bool {
    exists|i: int| 0 <= i < act.len() - 1 && (#[trigger] act[i]).logic == FilterLogic::Or
}

/// Whether a row passes the active filters: AND binds tighter than OR.
pub open spec fn row_passes_filters<F: Fn(&String, &String) -> Option<NumOrder>>(
    f: F,
    sheet: SheetData,
    ropts: Seq<RangeOption>,
    act: Seq<RowFilterCondition>,
    row: u32,
) -> bool {
    if has_or_link(act) {
        expr_holds(
            act.map_values(|fl: RowFilterCondition| row_hit(f, sheet, ropts, fl, row)),
            act.map_values(|fl: RowFilterCondition| fl.logic),
        )
    } else {
        forall|i: int| 0 <= i < act.len() ==> row_hit(f, sheet, ropts, #[trigger] act[i], row)
    }
}

/// The searched texts of column `col` in the data rows below `start_row`.
pub open spec fn column_texts(sheet: SheetData, col: u32, start_row: u32) -> Seq<Seq<char>> {
    Seq::new(cols_after(start_row, sheet.max_row) as nat, |i: int| cell_text(sheet, (start_row + 1 + i) as u32, col))
}

/// The search takes the binary path: only AND links, the first filter has
/// one anchor column whose texts are sorted, and it is a range or uses
/// `Contains`.
pub open spec fn binary_path(sheet: SheetData, ropts: Seq<RangeOption>, act: Seq<RowFilterCondition>, start_row: u32) -> bool {
    let c0 = filter_cols_sorted(ropts, act[0]);
    &&& !has_or_link(act)
    &&& c0.len() == 1
    &&& adjacent_sorted(column_texts(sheet, c0[0], start_row))
    &&& (row_keywords(act[0].keyword@).1 || act[0].op == CompareOp::Contains)
}

/// On the binary path, whether the data row at index `i` is a candidate of
/// the first filter: inside its range, or kept by the scan for its first
/// keyword (hitting when it contains one of its keywords, case ignored).
pub open spec fn sorted_candidate(sheet: SheetData, ropts: Seq<RangeOption>, act: Seq<RowFilterCondition>, start_row: u32, i: int) -> bool {
    let c0 = filter_cols_sorted(ropts, act[0]);
    let k0 = row_keywords(act[0].keyword@);
    let vals = column_texts(sheet, c0[0], start_row);
    if k0.1 && k0.0.len() == 2 {
        text_le(k0.0[0], vals[i]) && text_le(vals[i], k0.0[1])
    } else {
        scan_keeps(vals, k0.0[0], fuzzy_hits(vals, k0.0), i)
    }
}

/// The data rows the filters hide, before merged regions are applied.
pub open spec fn rows_filtered_out<F: Fn(&String, &String) -> Option<NumOrder>>(
    f: F,
    sheet: SheetData,
    ropts: Seq<RangeOption>,
    act: Seq<RowFilterCondition>,
    start_row: u32,
) -> Set<u32> {
    if binary_path(sheet, ropts, act, start_row) {
        Set::new(
            |r: u32|
                start_row < r <= sheet.max_row && !(sorted_candidate(sheet, ropts, act, start_row, r - start_row - 1)
                    && forall|i: int| 1 <= i < act.len() ==> row_hit(f, sheet, ropts, #[trigger] act[i], r)),
        )
    } else {
        Set::new(|r: u32| start_row < r <= sheet.max_row && !row_passes_filters(f, sheet, ropts, act, r))
    }
}

/// The anchor columns of all active filters, filter after filter.
pub open spec fn merge_cols(ropts: Seq<RangeOption>, act: Seq<RowFilterCondition>) -> Seq<u32>
    decreases act.len(),
{
    if act.len() == 0 {
        Seq::empty()
    } else {
        merge_cols(ropts, act.drop_last()) + filter_cols_sorted(ropts, act.last())
    }
}

/// The hidden rows aligned with the merged regions for each column in turn.
pub open spec fn rows_aligned_cols(h: Set<u32>, sheet: SheetData, cols: Seq<u32>) -> Set<u32>
    decreases cols.len(),
{
    if cols.len() == 0 {
        h
    } else {
        rows_aligned(rows_aligned_cols(h, sheet, cols.drop_last()), sheet.merged_cells@, cols.last())
    }
}

/// The rows of the anchor cells of the active filters' options.
pub open spec fn anchor_rows_of(ropts: Seq<RangeOption>, act: Seq<RowFilterCondition>) -> Set<u32> {
    Set::new(
        |r: u32|
            exists|i: int, k: int|
                0 <= i < act.len() && (#[trigger] act[i]).range_index < ropts.len() && 0 <= k < ropts[act[
                    i
                ].range_index as int]@.2.len() && (#[trigger] ropts[act[i].range_index as int]@.2[k]).1 == r,
    )
}

/// The rows a row search hides.
pub open spec fn row_search_hidden<F: Fn(&String, &String) -> Option<NumOrder>>(
    f: F,
    sheet: SheetData,
    ropts: Seq<RangeOption>,
    act: Seq<RowFilterCondition>,
    start_row: u32,
) -> Set<u32> {
    rows_aligned_cols(rows_filtered_out(f, sheet, ropts, act, start_row), sheet, merge_cols(ropts, act)).difference(
        anchor_rows_of(ropts, act),
    )
}

/// A row filter read for searching: its anchor columns (increasing, each
/// once), its keywords, whether they form a range, and its operator.
pub struct ParsedRowFilter {
    pub cols: Vec<u32>,
    pub keywords: Vec<String>,
    pub is_range: bool,
    pub op: CompareOp,
}

/// `pf` is filter `fl` read for searching.
pub open spec fn parsed_from(pf: ParsedRowFilter, ropts: Seq<RangeOption>, fl: RowFilterCondition) -> bool {
    &&& pf.cols@ == filter_cols_sorted(ropts, fl)
    &&& texts(pf.keywords@) == row_keywords(fl.keyword@).0
    &&& pf.is_range == row_keywords(fl.keyword@).1
    &&& pf.op == fl.op
}

/// Reads a row filter for searching.
fn parse_filter(ropts: &Vec<RangeOption>, fl: &RowFilterCondition) -> (pf: ParsedRowFilter)
    ensures
        parsed_from(pf, ropts@, *fl),
{
    let cols = if fl.range_index < ropts.len() {
        sorted_col_list(&ropts[fl.range_index].cells)
    } else {
        Vec::new()
    };
    let (keywords, is_range) = parse_row_keywords(fl.keyword.as_str());
    ParsedRowFilter { cols, keywords, is_range, op: fl.op }
}

/// Whether row `row` meets a parsed filter.
fn parsed_hit<F: Fn(&String, &String) -> Option<NumOrder>>(
    sheet: &SheetData,
    pf: &ParsedRowFilter,
    row: u32,
    numeric: &F,
    Ghost(ropts): Ghost<Seq<RangeOption>>,
    Ghost(fl): Ghost<RowFilterCondition>,
) -> (r: bool)
    requires
        numeric_ok(*numeric),
        parsed_from(*pf, ropts, fl),
    ensures
        r == row_hit(*numeric, *sheet, ropts, fl, row),
{
    let ghost cols = pf.cols@;
    let mut j: usize = 0;
    while j < pf.cols.len()
        invariant
            numeric_ok(*numeric),
            parsed_from(*pf, ropts, fl),
            cols == pf.cols@,
            j <= cols.len(),
            forall|q: int|
                0 <= q < j ==> !filter_value_holds(
                    *numeric,
                    cell_text(*sheet, row, #[trigger] cols[q]),
                    row_keywords(fl.keyword@).0,
                    row_keywords(fl.keyword@).1,
                    fl.op,
                ),
        decreases cols.len() - j,
    {
        let s = crate::column_search::cell_search_text(sheet, row, pf.cols[j]);
        if match_filter_value(s.as_str(), pf.keywords.as_slice(), pf.is_range, pf.op, numeric) {
            return true;
        }
        j += 1;
    }
    false
}

/// The positions of the active row filters.
fn row_active_positions(fs: &Vec<RowFilterCondition>) -> (idx: Vec<usize>)
    ensures
        idx@.len() == active_row_filters(fs@).len(),
        forall|k: int|
            0 <= k < idx@.len() ==> #[trigger] idx@[k] < fs@.len() && fs@[idx@[k] as int] == active_row_filters(fs@)[k],
{
    let mut idx: Vec<usize> = Vec::new();
    let mut i: usize = 0;
    assert(fs@.take(0) =~= Seq::<RowFilterCondition>::empty());
    while i < fs.len()
        invariant
            i <= fs@.len(),
            idx@.len() == active_row_filters(fs@.take(i as int)).len(),
            forall|k: int|
                0 <= k < idx@.len() ==> #[trigger] idx@[k] < i && fs@[idx@[k] as int] == active_row_filters(
                    fs@.take(i as int),
                )[k],
        decreases fs@.len() - i,
    {
        let ghost prev = active_row_filters(fs@.take(i as int));
        assert(fs@.take(i + 1).drop_last() =~= fs@.take(i as int));
        assert(fs@.take(i + 1).last() == fs@[i as int]);
        let ghost old_idx = idx@;
        if fs[i].is_active() {
            idx.push(i);
            let ghost nxt = prev + seq![fs@[i as int]];
            assert(active_row_filters(fs@.take(i + 1)) == nxt);
            assert forall|k: int| 0 <= k < idx@.len() implies #[trigger] idx@[k] < i + 1 && fs@[idx@[k] as int]
                == active_row_filters(fs@.take(i + 1))[k] by {
                if k < old_idx.len() {
                    assert(idx@[k] == old_idx[k]);
                    assert(nxt[k] == prev[k]);
                }
            }
        } else {
            assert(active_row_filters(fs@.take(i + 1)) =~= prev);
            assert forall|k: int| 0 <= k < idx@.len() implies #[trigger] idx@[k] < i + 1 && fs@[idx@[k] as int]
                == active_row_filters(fs@.take(i + 1))[k] by {
                assert(active_row_filters(fs@.take(i + 1))[k] == prev[k]);
            }
        }
        i += 1;
    }
    assert(fs@.take(fs@.len() as int) =~= fs@);
    assert forall|k: int| 0 <= k < idx@.len() implies #[trigger] idx@[k] < fs@.len() && fs@[idx@[k] as int]
        == active_row_filters(fs@)[k] by {
        assert(active_row_filters(fs@.take(fs@.len() as int))[k] == active_row_filters(fs@)[k]);
    }
    idx
}

/// The (row, searched text) pairs of column `col` in the data rows below
/// `start_row`.
pub fn collect_column_values(sheet: &SheetData, col: u32, start_row: u32) -> (cv: Vec<(u32, String)>)
    ensures
        cv@.len() == cols_after(start_row, sheet.max_row),
        forall|i: int| 0 <= i < cv@.len() ==> (#[trigger] cv@[i]).0 == start_row + 1 + i,
        pair_texts(cv@) == column_texts(*sheet, col, start_row),
{
    let ghost t = column_texts(*sheet, col, start_row);
    let max = sheet.max_row;
    let mut cv: Vec<(u32, String)> = Vec::new();
    if max <= start_row {
        assert(pair_texts(cv@) =~= t);
        return cv;
    }
    let mut r: u64 = start_row as u64 + 1;
    while r <= max as u64
        invariant
            max == sheet.max_row,
            start_row < max,
            start_row + 1 <= r <= max as int + 1,
            t == column_texts(*sheet, col, start_row),
            cv@.len() == r - start_row - 1,
            forall|i: int| 0 <= i < cv@.len() ==> (#[trigger] cv@[i]).0 == start_row + 1 + i,
            pair_texts(cv@) == t.take(r - start_row - 1),
        decreases max as int + 1 - r,
    {
        let row = r as u32;
        let s = crate::column_search::cell_search_text(sheet, row, col);
        cv.push((row, s));
        assert(pair_texts(cv@) =~= t.take(r - start_row));
        r += 1;
    }
    assert(t.take(t.len() as int) =~= t);
    cv
}

/// The label of a filter in the summary line: the option's title, `=`, and
/// the letters of its first column.
pub open spec fn row_label(ropts: Seq<RangeOption>, fl: RowFilterCondition) -> Seq<char> {
    if fl.range_index < ropts.len() {
        ropts[fl.range_index as int]@.0 + "="@ + col_letters(opt_first_col(ropts[fl.range_index as int]@) as nat)
    } else {
        "="@
    }
}

/// The summary line of a row search.
pub open spec fn row_debug(
    mode: Seq<char>,
    labels: Seq<char>,
    start_row: u32,
    max_row: u32,
    total: nat,
    matched: nat,
    hidden: nat,
) -> Seq<char> {
    "行筛选["@ + mode + "]: ["@ + labels + "] 行"@ + dec((start_row + 1) as nat) + "→"@ + dec(max_row as nat)
        + " 共"@ + dec(total) + "行 | 匹配"@ + dec(matched) + "行 隐藏"@ + dec(hidden) + "行"@
}

/// The name of the path a row search took.
pub open spec fn row_mode(binary: bool, total: int) -> Seq<char> {
    if binary {
        "二分"@
    } else if total > 1000 {
        "并行"@
    } else {
        "串行"@
    }
}

/// Whether an OR joins two of the filters at the given positions.
fn any_or_link(fs: &Vec<RowFilterCondition>, idx: &Vec<usize>, Ghost(act): Ghost<Seq<RowFilterCondition>>) -> (r: bool)
    requires
        idx@.len() == act.len(),
        forall|k: int| 0 <= k < idx@.len() ==> #[trigger] idx@[k] < fs@.len() && fs@[idx@[k] as int] == act[k],
    ensures
        r == has_or_link(act),
{
    let mut k: usize = 0;
    while idx.len() > 0 && k < idx.len() - 1
        invariant
            idx@.len() == act.len(),
            forall|q: int| 0 <= q < idx@.len() ==> #[trigger] idx@[q] < fs@.len() && fs@[idx@[q] as int] == act[q],
            k <= idx@.len(),
            forall|q: int| 0 <= q < k && q < act.len() - 1 ==> (#[trigger] act[q]).logic != FilterLogic::Or,
        decreases idx@.len() - k,
    {
        assert(idx@[k as int] < fs@.len());
        if fs[idx[k]].logic == FilterLogic::Or {
            assert(act[k as int].logic == FilterLogic::Or);
            return true;
        }
        k += 1;
    }
    false
}

/// The data rows the filters hide before merged regions are applied, and
/// whether the binary path was taken.
fn filtered_out_rows<F: Fn(&String, &String) -> Option<NumOrder>>(
    sheet: &SheetData,
    fs: &Vec<RowFilterCondition>,
    idx: &Vec<usize>,
    parsed: &Vec<ParsedRowFilter>,
    start_row: u32,
    numeric: &F,
    Ghost(ropts): Ghost<Seq<RangeOption>>,
    Ghost(act): Ghost<Seq<RowFilterCondition>>,
) -> (r: (HashSet<u32>, bool))
    requires
        numeric_ok(*numeric),
        act.len() > 0,
        start_row < sheet.max_row,
        idx@.len() == act.len(),
        forall|k: int| 0 <= k < idx@.len() ==> #[trigger] idx@[k] < fs@.len() && fs@[idx@[k] as int] == act[k],
        parsed@.len() == act.len(),
        forall|k: int| 0 <= k < parsed@.len() ==> parsed_from(#[trigger] parsed@[k], ropts, act[k]),
        forall|k: int| 0 <= k < act.len() ==> row_filter_active(#[trigger] act[k]),
    ensures
        r.0@ == rows_filtered_out(*numeric, *sheet, ropts, act, start_row),
        r.1 == binary_path(*sheet, ropts, act, start_row),
{
    let ghost out = rows_filtered_out(*numeric, *sheet, ropts, act, start_row);
    let max_row = sheet.max_row;
    let n = parsed.len();
    let has_or = any_or_link(fs, idx, Ghost(act));
    let p0 = &parsed[0];
    assert(parsed_from(*p0, ropts, act[0]));
    let first_single = p0.cols.len() == 1;
    let mut binary = false;
    let mut candidates: HashSet<u32> = HashSet::new();
    if !has_or && first_single && (p0.is_range || p0.op == CompareOp::Contains) {
        let col0 = p0.cols[0];
        let data = collect_column_values(sheet, col0, start_row);
        let ghost vals = column_texts(*sheet, col0, start_row);
        let mut t: Vec<Vec<char>> = Vec::new();
        let mut i: usize = 0;
        while i < data.len()
            invariant
                i <= data@.len(),
                views(t@) == pair_texts(data@).take(i as int),
            decreases data@.len() - i,
        {
            let c = chars_of(data[i].1.as_str());
            let ghost before = t@;
            t.push(c);
            assert(views(t@) =~= views(before).push(c@));
            i += 1;
            assert(views(t@) =~= pair_texts(data@).take(i as int));
        }
        assert(pair_texts(data@).take(data@.len() as int) =~= pair_texts(data@));
        if is_sorted(&t) {
            proof {
                lemma_adjacent_sorted(vals);
                assert(trim(act[0].keyword@).len() > 0);
                assert(row_keywords(act[0].keyword@).0.len() > 0);
            }
            binary = true;
            candidates = find_rows_in_sorted(data.as_slice(), p0.keywords.as_slice(), p0.is_range);
            proof {
                let k0 = row_keywords(act[0].keyword@);
                assert(texts(p0.keywords@) == k0.0);
                assert forall|r: u32| start_row < r <= max_row implies candidates@.contains(r) == sorted_candidate(
                    *sheet,
                    ropts,
                    act,
                    start_row,
                    r - start_row - 1,
                ) by {
                    let i = r - start_row - 1;
                    assert(data@[i].0 == r);
                    if k0.1 && k0.0.len() == 2 {
                        let p = |i: int| text_le(texts(p0.keywords@)[0], pair_texts(data@)[i]) && text_le(
                            pair_texts(data@)[i],
                            texts(p0.keywords@)[1],
                        );
                        assert(candidates@ == numbers_where(data@, p));
                        if candidates@.contains(r) {
                            let j = choose|j: int| 0 <= j < data@.len() && data@[j].0 == r && #[trigger] p(j);
                            assert(data@[j].0 == start_row + 1 + j);
                        }
                        if sorted_candidate(*sheet, ropts, act, start_row, i) {
                            assert(p(i));
                        }
                    } else {
                        let p = |i: int| scan_keeps(
                            pair_texts(data@),
                            texts(p0.keywords@)[0],
                            fuzzy_hits(pair_texts(data@), texts(p0.keywords@)),
                            i,
                        );
                        assert(candidates@ == numbers_where(data@, p));
                        if candidates@.contains(r) {
                            let j = choose|j: int| 0 <= j < data@.len() && data@[j].0 == r && #[trigger] p(j);
                            assert(data@[j].0 == start_row + 1 + j);
                        }
                        if sorted_candidate(*sheet, ropts, act, start_row, i) {
                            assert(p(i));
                        }
                    }
                }
            }
        }
    }
    assert(binary == binary_path(*sheet, ropts, act, start_row));
    let mut hidden: HashSet<u32> = HashSet::new();
    let mut r: u64 = start_row as u64 + 1;
    while r <= max_row as u64
        invariant
            numeric_ok(*numeric),
            max_row == sheet.max_row,
            start_row < max_row,
            start_row + 1 <= r <= max_row as int + 1,
            n == parsed@.len(),
            n == act.len(),
            n > 0,
            idx@.len() == act.len(),
            forall|k: int| 0 <= k < idx@.len() ==> #[trigger] idx@[k] < fs@.len() && fs@[idx@[k] as int] == act[k],
            forall|k: int| 0 <= k < parsed@.len() ==> parsed_from(#[trigger] parsed@[k], ropts, act[k]),
            has_or == has_or_link(act),
            binary == binary_path(*sheet, ropts, act, start_row),
            binary ==> forall|x: u32| start_row < x <= max_row ==> candidates@.contains(x) == sorted_candidate(
                *sheet,
                ropts,
                act,
                start_row,
                x - start_row - 1,
            ),
            out == rows_filtered_out(*numeric, *sheet, ropts, act, start_row),
            hidden@ == out.intersect(Set::new(|x: u32| x < r)),
        decreases max_row as int + 1 - r,
    {
        let row = r as u32;
        // the results of all filters on this row
        let mut hits: Vec<bool> = Vec::new();
        let mut logic: Vec<FilterLogic> = Vec::new();
        let mut k: usize = 0;
        while k < n
            invariant
                numeric_ok(*numeric),
                n == parsed@.len(),
                n == act.len(),
                idx@.len() == act.len(),
                forall|q: int| 0 <= q < idx@.len() ==> #[trigger] idx@[q] < fs@.len() && fs@[idx@[q] as int] == act[q],
                forall|q: int| 0 <= q < parsed@.len() ==> parsed_from(#[trigger] parsed@[q], ropts, act[q]),
                k <= n,
                hits@ == act.take(k as int).map_values(|fl: RowFilterCondition| row_hit(*numeric, *sheet, ropts, fl, row)),
                logic@ == act.take(k as int).map_values(|fl: RowFilterCondition| fl.logic),
            decreases n - k,
        {
            assert(parsed_from(parsed@[k as int], ropts, act[k as int]));
            let h = parsed_hit(sheet, &parsed[k], row, numeric, Ghost(ropts), Ghost(act[k as int]));
            hits.push(h);
            assert(idx@[k as int] < fs@.len());
            logic.push(fs[idx[k]].logic);
            k += 1;
            assert(hits@ =~= act.take(k as int).map_values(|fl: RowFilterCondition| row_hit(*numeric, *sheet, ropts, fl, row)));
            assert(logic@ =~= act.take(k as int).map_values(|fl: RowFilterCondition| fl.logic));
        }
        assert(act.take(n as int) =~= act);
        let hide = if binary {
            let mut rest = true;
            let mut q: usize = 1;
            while q < n
                invariant
                    1 <= q <= n,
                    n == hits@.len(),
                    rest == forall|j: int| 1 <= j < q ==> hits@[j],
                decreases n - q,
            {
                rest = rest && hits[q];
                q += 1;
            }
            !(candidates.contains(&row) && rest)
        } else if has_or {
            !row_matches_expr(hits.as_slice(), logic.as_slice())
        } else {
            let mut all = true;
            let mut q: usize = 0;
            while q < n
                invariant
                    q <= n,
                    n == hits@.len(),
                    all == forall|j: int| 0 <= j < q ==> hits@[j],
                decreases n - q,
            {
                all = all && hits[q];
                q += 1;
            }
            !all
        };
        proof {
            let hs = act.map_values(|fl: RowFilterCondition| row_hit(*numeric, *sheet, ropts, fl, row));
            assert(hits@ == hs);
            if binary {
                assert((forall|j: int| 1 <= j < n ==> hits@[j]) == (forall|i: int|
                    1 <= i < act.len() ==> row_hit(*numeric, *sheet, ropts, #[trigger] act[i], row))) by {
                    assert forall|i: int| 1 <= i < act.len() implies hits@[i] == row_hit(
                        *numeric,
                        *sheet,
                        ropts,
                        #[trigger] act[i],
                        row,
                    ) by {
                        assert(hs[i] == row_hit(*numeric, *sheet, ropts, act[i], row));
                    }
                }
            } else if !has_or {
                assert forall|i: int| 0 <= i < act.len() implies hits@[i] == row_hit(
                    *numeric,
                    *sheet,
                    ropts,
                    #[trigger] act[i],
                    row,
                ) by {
                    assert(hs[i] == row_hit(*numeric, *sheet, ropts, act[i], row));
                }
            }
            assert(hide == out.contains(row));
        }
        if hide {
            hidden.insert(row);
        }
        r += 1;
        assert(hidden@ =~= out.intersect(Set::new(|x: u32| x < r)));
    }
    assert(hidden@ =~= out);
    (hidden, binary)
}

/// What a row search does to the window and the hidden rows (see
/// [`execute_row_search`]).
pub open spec fn row_search_outcome<F: Fn(&String, &String) -> Option<NumOrder>>(
    old_state: SearchWindowState,
    sheet: SheetData,
    new_state: SearchWindowState,
    new_hidden: Set<u32>,
    numeric: F,
) -> bool {
    let ropts = old_state.row_options@;
    let act = active_row_filters(old_state.row_filters@);
    let start_row = if act.len() > 0 && act[0].range_index < ropts.len() {
        opt_first_row(ropts[act[0].range_index as int]@)
    } else {
        0
    };
    let total = sheet.max_row - start_row;
    let hidden = row_search_hidden(numeric, sheet, ropts, act, start_row);
    &&& ropts.len() == 0 ==> new_hidden == Set::<u32>::empty() && new_state.row_debug_info@
        == "行筛选未配置"@ && new_state.is_row_searching == old_state.is_row_searching
        && new_state.row_matched_count == old_state.row_matched_count
        && new_state.row_total_searched == old_state.row_total_searched
    &&& ropts.len() > 0 && act.len() == 0 ==> new_hidden == Set::<u32>::empty() && new_state.row_debug_info@ == "请输入行筛选关键字"@ && new_state.is_row_searching == old_state.is_row_searching
        && new_state.row_matched_count == old_state.row_matched_count
        && new_state.row_total_searched == old_state.row_total_searched
    &&& ropts.len() > 0 && act.len() > 0 && sheet.max_row <= start_row ==> new_hidden == Set::<u32>::empty() && new_state.row_total_searched == 0 && new_state.row_matched_count == 0 && new_state.is_row_searching && new_state.row_debug_info@ == "行筛选: 行"@ + dec((start_row + 1) as nat)
        + "→"@ + dec(sheet.max_row as nat) + " 无数据行可搜索"@
    &&& ropts.len() > 0 && act.len() > 0 && sheet.max_row > start_row ==> {
        &&& new_hidden == hidden
        &&& new_state.row_total_searched == total
        &&& new_state.row_matched_count == sat_sub(total, hidden.len() as int)
        &&& new_state.is_row_searching
        &&& new_state.row_debug_info@ == row_debug(
            row_mode(binary_path(sheet, ropts, act, start_row), total),
            join_comma(act.map_values(|fl: RowFilterCondition| row_label(ropts, fl))),
            start_row,
            sheet.max_row,
            total as nat,
            new_state.row_matched_count as nat,
            hidden.len(),
        )
    }
    &&& new_state.row_options == old_state.row_options
    &&& new_state.row_filters == old_state.row_filters
    &&& new_state.column_options == old_state.column_options
    &&& new_state.column_filters == old_state.column_filters
    &&& new_state.selected_index == old_state.selected_index
    &&& new_state.search_keyword == old_state.search_keyword
    &&& new_state.is_searching == old_state.is_searching
    &&& new_state.matched_count == old_state.matched_count
    &&& new_state.total_searched == old_state.total_searched
    &&& new_state.use_binary_search == old_state.use_binary_search
    &&& new_state.debug_info == old_state.debug_info
}

/// The row search: every data row below the first active filter's anchor
/// row that does not pass the active row filters is hidden (AND binds
/// tighter than OR; a filter holds when one of its anchor columns meets its
/// keywords). With only AND links and a first filter whose single anchor
/// column is sorted and that is a range or uses `Contains`, the first
/// filter is decided by the scan over the sorted column. The hidden rows
/// are then aligned with the merged regions of every anchor column, and the
/// anchor rows stay shown. The window records the rows looked at, the rows
/// kept, and a summary line.
pub fn execute_row_search<F: Fn(&String, &String) -> Option<NumOrder>>(
    state: &mut SearchWindowState,
    sheet: &SheetData,
    hidden_rows: &mut HashSet<u32>,
    numeric: &F,
)
    requires
        numeric_ok(*numeric),
    ensures
        row_search_outcome(*old(state), *sheet, *final(state), final(hidden_rows)@, *numeric),
{
    hidden_rows.clear();
    let ghost ropts = state.row_options@;
    let ghost fs = state.row_filters@;
    let ghost act = active_row_filters(fs);
    if state.row_options.len() == 0 {
        state.row_debug_info = string_from(chars_of("行筛选未配置").as_slice());
        return;
    }
    let idx = row_active_positions(&state.row_filters);
    if idx.len() == 0 {
        state.row_debug_info = string_from(chars_of("请输入行筛选关键字").as_slice());
        return;
    }
    let max_row = sheet.max_row;
    assert(idx@[0] < fs.len());
    let ri0 = state.row_filters[idx[0]].range_index;
    let start_row = if ri0 < state.row_options.len() {
        state.row_options[ri0].first_row()
    } else {
        0
    };
    if max_row <= start_row {
        state.row_total_searched = 0;
        state.row_matched_count = 0;
        state.is_row_searching = true;
        let mut v: Vec<char> = Vec::new();
        push_str(&mut v, "行筛选: 行");
        push_dec(&mut v, start_row as u64 + 1);
        push_str(&mut v, "→");
        push_dec(&mut v, max_row as u64);
        push_str(&mut v, " 无数据行可搜索");
        state.row_debug_info = string_from(v.as_slice());
        return;
    }
    let total: usize = (max_row - start_row) as usize;
    state.row_total_searched = total;
    // read the filters
    let mut parsed: Vec<ParsedRowFilter> = Vec::new();
    let mut k: usize = 0;
    while k < idx.len()
        invariant
            ropts == state.row_options@,
            fs == state.row_filters@,
            act == active_row_filters(fs),
            idx@.len() == act.len(),
            forall|q: int| 0 <= q < idx@.len() ==> #[trigger] idx@[q] < fs.len() && fs[idx@[q] as int] == act[q],
            k <= idx@.len(),
            parsed@.len() == k,
            forall|q: int| 0 <= q < k ==> parsed_from(#[trigger] parsed@[q], ropts, act[q]),
        decreases idx@.len() - k,
    {
        assert(idx@[k as int] < fs.len());
        parsed.push(parse_filter(&state.row_options, &state.row_filters[idx[k]]));
        k += 1;
    }
    proof {
        assert forall|q: int| 0 <= q < act.len() implies row_filter_active(#[trigger] act[q]) by {
            lemma_active_filters_active(fs, q);
        }
    }
    let (mut hidden, binary) = filtered_out_rows(
        sheet,
        &state.row_filters,
        &idx,
        &parsed,
        start_row,
        numeric,
        Ghost(ropts),
        Ghost(act),
    );
    // merged regions, column after column
    let ghost pre = hidden@;
    let mut k: usize = 0;
    while k < parsed.len()
        invariant
            parsed@.len() == act.len(),
            forall|q: int| 0 <= q < parsed@.len() ==> parsed_from(#[trigger] parsed@[q], ropts, act[q]),
            k <= parsed@.len(),
            hidden@ == rows_aligned_cols(pre, *sheet, merge_cols(ropts, act.take(k as int))),
        decreases parsed@.len() - k,
    {
        let ghost before = merge_cols(ropts, act.take(k as int));
        assert(parsed_from(parsed@[k as int], ropts, act[k as int]));
        let mut j: usize = 0;
        while j < parsed[k].cols.len()
            invariant
                k < parsed@.len(),
                j <= parsed@[k as int].cols@.len(),
                hidden@ == rows_aligned_cols(pre, *sheet, before + parsed@[k as int].cols@.take(j as int)),
            decreases parsed@[k as int].cols@.len() - j,
        {
            let c = parsed[k].cols[j];
            expand_hidden_rows_for_merged_cells(sheet, &mut hidden, c);
            proof {
                let nxt = before + parsed@[k as int].cols@.take(j + 1);
                assert(nxt.drop_last() =~= before + parsed@[k as int].cols@.take(j as int));
                assert(nxt.last() == c);
            }
            j += 1;
        }
        proof {
            assert(parsed@[k as int].cols@.take(parsed@[k as int].cols@.len() as int) =~= parsed@[k as int].cols@);
            assert(act.take(k + 1).drop_last() =~= act.take(k as int));
            assert(act.take(k + 1).last() == act[k as int]);
        }
        k += 1;
    }
    assert(act.take(act.len() as int) =~= act);
    // the anchor rows stay shown
    let ghost aligned = hidden@;
    let mut k: usize = 0;
    while k < idx.len()
        invariant
            ropts == state.row_options@,
            fs == state.row_filters@,
            idx@.len() == act.len(),
            forall|q: int| 0 <= q < idx@.len() ==> #[trigger] idx@[q] < fs.len() && fs[idx@[q] as int] == act[q],
            k <= idx@.len(),
            hidden@ == aligned.difference(anchor_rows_of(ropts, act.take(k as int))),
        decreases idx@.len() - k,
    {
        assert(idx@[k as int] < fs.len());
        let ri = state.row_filters[idx[k]].range_index;
        if ri < state.row_options.len() {
            let cells = &state.row_options[ri].cells;
            let mut j: usize = 0;
            while j < cells.len()
                invariant
                    ropts == state.row_options@,
                    ri < ropts.len(),
                    *cells == ropts[ri as int].cells,
                    j <= cells@.len(),
                    hidden@ == aligned.difference(anchor_rows_of(ropts, act.take(k as int))).difference(
                        Set::new(|x: u32| exists|m: int| 0 <= m < j && (#[trigger] cells@[m]).1 == x),
                    ),
                decreases cells@.len() - j,
            {
                hidden.remove(&cells[j].1);
                j += 1;
                assert(hidden@ =~= aligned.difference(anchor_rows_of(ropts, act.take(k as int))).difference(
                    Set::new(|x: u32| exists|m: int| 0 <= m < j && (#[trigger] cells@[m]).1 == x),
                ));
            }
        }
        proof {
            lemma_anchor_step(ropts, act, k as int);
            assert(act[k as int].range_index == ri);
        }
        k += 1;
        assert(hidden@ =~= aligned.difference(anchor_rows_of(ropts, act.take(k as int))));
    }
    assert(hidden@ == row_search_hidden(*numeric, *sheet, ropts, act, start_row));
    let h = hidden.len();
    state.row_matched_count = if total > h {
        total - h
    } else {
        0
    };
    state.is_row_searching = true;
    // the summary line
    let mut labels: Vec<char> = Vec::new();
    let ghost mut done: Seq<Seq<char>> = Seq::empty();
    let mut k: usize = 0;
    while k < idx.len()
        invariant
            ropts == state.row_options@,
            fs == state.row_filters@,
            idx@.len() == act.len(),
            forall|q: int| 0 <= q < idx@.len() ==> #[trigger] idx@[q] < fs.len() && fs[idx@[q] as int] == act[q],
            k <= idx@.len(),
            done == act.take(k as int).map_values(|fl: RowFilterCondition| row_label(ropts, fl)),
            labels@ == join_comma(done),
        decreases idx@.len() - k,
    {
        assert(idx@[k as int] < fs.len());
        let ri = state.row_filters[idx[k]].range_index;
        let mut e: Vec<char> = Vec::new();
        if ri < state.row_options.len() {
            push_str(&mut e, state.row_options[ri].title.as_str());
            push_str(&mut e, "=");
            push_col_letters(&mut e, state.row_options[ri].first_col());
        } else {
            push_str(&mut e, "=");
        }
        assert(e@ =~= row_label(ropts, act[k as int])) by {
            if ri >= ropts.len() {
                assert(col_letters(0) =~= Seq::<char>::empty());
            }
        }
        if k > 0 {
            push_str(&mut labels, ", ");
        }
        push_all(&mut labels, e.as_slice());
        proof {
            lemma_join_push(done, e@);
            assert(labels@ =~= join_comma(done.push(e@)));
            done = done.push(e@);
            assert(done =~= act.take(k + 1).map_values(|fl: RowFilterCondition| row_label(ropts, fl)));
        }
        k += 1;
    }
    let mut v: Vec<char> = Vec::new();
    push_str(&mut v, "行筛选[");
    if binary {
        push_str(&mut v, "二分");
    } else if total > 1000 {
        push_str(&mut v, "并行");
    } else {
        push_str(&mut v, "串行");
    }
    push_str(&mut v, "]: [");
    push_all(&mut v, labels.as_slice());
    push_str(&mut v, "] 行");
    push_dec(&mut v, start_row as u64 + 1);
    push_str(&mut v, "→");
    push_dec(&mut v, max_row as u64);
    push_str(&mut v, " 共");
    push_dec(&mut v, total as u64);
    push_str(&mut v, "行 | 匹配");
    push_dec(&mut v, state.row_matched_count as u64);
    push_str(&mut v, "行 隐藏");
    push_dec(&mut v, h as u64);
    push_str(&mut v, "行");
    state.row_debug_info = string_from(v.as_slice());
    *hidden_rows = hidden;
}

/// The anchor rows of one more filter.
proof fn lemma_anchor_step(ropts: Seq<RangeOption>, act: Seq<RowFilterCondition>, k: int)
    requires
        0 <= k < act.len(),
    ensures
        anchor_rows_of(ropts, act.take(k + 1)) == anchor_rows_of(ropts, act.take(k)).union(
            if act[k].range_index < ropts.len() {
                Set::new(
                    |x: u32|
                        exists|m: int|
                            0 <= m < ropts[act[k].range_index as int]@.2.len() && (#[trigger] ropts[act[
                                k
                            ].range_index as int]@.2[m]).1 == x,
                )
            } else {
                Set::empty()
            },
        ),
{
    let a = act.take(k + 1);
    let b = act.take(k);
    let extra = if act[k].range_index < ropts.len() {
        Set::new(
            |x: u32|
                exists|m: int|
                    0 <= m < ropts[act[k].range_index as int]@.2.len() && (#[trigger] ropts[act[
                        k
                    ].range_index as int]@.2[m]).1 == x,
        )
    } else {
        Set::empty()
    };
    assert forall|x: u32| anchor_rows_of(ropts, a).contains(x) implies anchor_rows_of(ropts, b).union(extra).contains(x) by {
        let (i, m) = choose|i: int, m: int|
            0 <= i < a.len() && (#[trigger] a[i]).range_index < ropts.len() && 0 <= m < ropts[a[
                i
            ].range_index as int]@.2.len() && (#[trigger] ropts[a[i].range_index as int]@.2[m]).1 == x;
        if i < k {
            assert(b[i] == a[i]);
        } else {
            assert(a[i] == act[k]);
        }
    }
    assert forall|x: u32| anchor_rows_of(ropts, b).union(extra).contains(x) implies anchor_rows_of(ropts, a).contains(x) by {
        if anchor_rows_of(ropts, b).contains(x) {
            let (i, m) = choose|i: int, m: int|
                0 <= i < b.len() && (#[trigger] b[i]).range_index < ropts.len() && 0 <= m < ropts[b[
                    i
                ].range_index as int]@.2.len() && (#[trigger] ropts[b[i].range_index as int]@.2[m]).1 == x;
            assert(a[i] == b[i]);
        } else {
            let m = choose|m: int|
                0 <= m < ropts[act[k].range_index as int]@.2.len() && (#[trigger] ropts[act[
                    k
                ].range_index as int]@.2[m]).1 == x;
            assert(a[k] == act[k]);
        }
    }
    assert(anchor_rows_of(ropts, a) =~= anchor_rows_of(ropts, b).union(extra));
}

/// Every active filter is active.
proof fn lemma_active_filters_active(fs: Seq<RowFilterCondition>, q: int)
    requires
        0 <= q < active_row_filters(fs).len(),
    ensures
        row_filter_active(active_row_filters(fs)[q]),
    decreases fs.len(),
{
    let prev = active_row_filters(fs.drop_last());
    if q < prev.len() {
        lemma_active_filters_active(fs.drop_last(), q);
    }
}

} // verus!
