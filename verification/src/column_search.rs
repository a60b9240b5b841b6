//! Column search: which columns right of a chosen anchor cell show, given
//! one or several column filters combined with AND and OR.

use vstd::prelude::*;
use std::collections::HashSet;
use crate::matching::{compare_value, numeric_ok, op_holds, NumOrder};
use crate::scan::{adjacent_sorted, is_sorted, pair_texts, views};
use crate::cellref::{col_letters, push_col_letters};
use crate::search::{
    active_filters, all_true, cell_text, expr_holds, is_group, is_or, opt_first_col, opt_first_row,
    or_before, ColumnFilter, CompareOp, FilterLogic, OptView, RangeOption, SearchWindowState,
};
use crate::sheet::SheetData;
use crate::text::{
    chars_of, contains_seq, dec, has_substr, lowercase_of, push_all, push_dec, push_str, string_clone,
    string_from, to_lowercase,
};
use crate::visibility::{
    align_visible_for_merged, cols_aligned, expand_hidden_for_merged_cells, visible_aligned,
};

verus! {

broadcast use {
    vstd::std_specs::hash::group_hash_axioms,
    vstd::std_specs::hash::axiom_u32_obeys_hash_table_key_model,
    vstd::std_specs::hash::axiom_random_state_builds_valid_hashers,
};

/// How many columns lie right of `start`, up to `max`.
pub open spec fn cols_after(start: u32, max: u32) -> int {
    if max > start {
        max - start
    } else {
        0
    }
}

/// The searched texts of the columns right of `start` along `row`.
pub open spec fn texts_along_row(sheet: SheetData, row: u32, start: u32) -> Seq<Seq<char>> {
    Seq::new(cols_after(start, sheet.max_col) as nat, |i: int| cell_text(sheet, row, (start + 1 + i) as u32))
}

/// The searched text of a cell (lower-cased shown text, empty when there is
/// no cell).
pub fn cell_search_text(sheet: &SheetData, row: u32, col: u32) -> (s: String)
    ensures
        s@ == cell_text(*sheet, row, col),
{
    match sheet.get_cell(row, col) {
        Some(c) => to_lowercase(c.display.as_str()),
        None => {
            let e: Vec<char> = Vec::new();
            string_from(e.as_slice())
        },
    }
}

/// The (column, searched text) pairs right of `start` along `row`.
pub fn collect_row_values(sheet: &SheetData, row: u32, start: u32) -> (cv: Vec<(u32, String)>)
    ensures
        cv@.len() == cols_after(start, sheet.max_col),
        forall|i: int| 0 <= i < cv@.len() ==> (#[trigger] cv@[i]).0 == start + 1 + i,
        pair_texts(cv@) == texts_along_row(*sheet, row, start),
{
    let ghost t = texts_along_row(*sheet, row, start);
    let max = sheet.max_col;
    let mut cv: Vec<(u32, String)> = Vec::new();
    if max <= start {
        assert(pair_texts(cv@) =~= t);
        return cv;
    }
    let mut c: u64 = start as u64 + 1;
    while c <= max as u64
        invariant
            max == sheet.max_col,
            start < max,
            start + 1 <= c <= max as int + 1,
            t == texts_along_row(*sheet, row, start),
            cv@.len() == c - start - 1,
            forall|i: int| 0 <= i < cv@.len() ==> (#[trigger] cv@[i]).0 == start + 1 + i,
            pair_texts(cv@) == t.take(c - start - 1),
        decreases max as int + 1 - c,
    {
        let col = c as u32;
        let s = cell_search_text(sheet, row, col);
        let ghost before = cv@;
        cv.push((col, s));
        assert(pair_texts(cv@) =~= t.take(c - start));
        c += 1;
    }
    assert(t.take(t.len() as int) =~= t);
    cv
}

/// The rows of the anchor cells.
pub open spec fn rows_of(cells: Seq<(u32, u32)>) -> Seq<u32> {
    cells.map_values(|p: (u32, u32)| p.1)
}

/// All anchor cells lie in the row of the first.
pub open spec fn single_row(cells: Seq<(u32, u32)>) -> bool {
    forall|k: int| 0 <= k < cells.len() ==> (#[trigger] cells[k]).1 == cells[0].1
}

/// The columns a filter keeps before the merged regions are applied: along
/// one anchor row, every column whose text meets the keyword; along several
/// anchor rows, the columns where one of them meets it.
pub open spec fn raw_column_matches<F: Fn(&String, &String) -> Option<NumOrder>>(
    f: F,
    sheet: SheetData,
    cells: Seq<(u32, u32)>,
    kw: Seq<char>,
    op: CompareOp,
) -> Set<u32> {
    let start = if cells.len() > 0 { cells[0].0 } else { 0 };
    if single_row(cells) {
        Set::new(|c: u32| start < c <= sheet.max_col && op_holds(f, cell_text(sheet, cells[0].1, c), kw, op))
    } else {
        Set::new(
            |c: u32|
                start < c <= sheet.max_col && exists|k: int|
                    0 <= k < cells.len() && op_holds(f, cell_text(sheet, (#[trigger] cells[k]).1, c), kw, op),
        )
    }
}

/// What a column filter on option `o` with value `keyword` gives: the
/// columns it keeps (merged regions applied), how many columns it looked
/// at, and whether its row was sorted for a `Contains` filter (shown as the
/// binary case).
pub open spec fn column_matches<F: Fn(&String, &String) -> Option<NumOrder>>(
    f: F,
    sheet: SheetData,
    o: OptView,
    keyword: Seq<char>,
    op: CompareOp,
) -> (Set<u32>, int, bool) {
    let cells = o.2;
    let kw = lowercase_of(keyword);
    let start = if cells.len() > 0 { cells[0].0 } else { 0 };
    let total = cols_after(start, sheet.max_col);
    if start == 0 || (single_row(cells) && total == 0) {
        (Set::empty(), 0, false)
    } else {
        (
            visible_aligned(raw_column_matches(f, sheet, cells, kw, op), sheet.merged_cells@, rows_of(cells)),
            total,
            single_row(cells) && adjacent_sorted(texts_along_row(sheet, cells[0].1, start)) && op
                == CompareOp::Contains,
        )
    }
}

fn anchor_rows(cells: &Vec<(u32, u32)>) -> (r: (Vec<u32>, bool))
    ensures
        r.0@ == rows_of(cells@),
        r.1 == single_row(cells@),
{
    let mut rows: Vec<u32> = Vec::new();
    let mut same = true;
    let mut i: usize = 0;
    while i < cells.len()
        invariant
            i <= cells@.len(),
            rows@ == rows_of(cells@).take(i as int),
            same == forall|k: int| 0 <= k < i ==> (#[trigger] cells@[k]).1 == cells@[0].1,
        decreases cells@.len() - i,
    {
        rows.push(cells[i].1);
        if cells[i].1 != cells[0].1 {
            same = false;
        }
        i += 1;
        assert(rows@ =~= rows_of(cells@).take(i as int));
    }
    assert(rows_of(cells@).take(cells@.len() as int) =~= rows_of(cells@));
    (rows, same)
}

/// The columns right of the option's first anchor cell that a filter keeps
/// (see [`column_matches`]), how many columns it looked at, and whether its
/// row was sorted for a `Contains` filter.
pub fn compute_column_matches<F: Fn(&String, &String) -> Option<NumOrder>>(
    sheet: &SheetData,
    option: &RangeOption,
    keyword: &str,
    op: CompareOp,
    numeric: &F,
) -> (r: (HashSet<u32>, usize, bool))
    requires
        numeric_ok(*numeric),
    ensures
        (r.0@, r.1 as int, r.2) == column_matches(*numeric, *sheet, option@, keyword@, op),
{
    let ghost cells = option.cells@;
    let kw = to_lowercase(keyword);
    let max = sheet.max_col;
    let start = option.first_col();
    if start == 0 {
        return (HashSet::new(), 0, false);
    }
    let (rows, single) = anchor_rows(&option.cells);
    let ghost raw = raw_column_matches(*numeric, *sheet, cells, kw@, op);
    let ghost total = cols_after(start, max);
    if single {
        let row = option.cells[0].1;
        let cv = collect_row_values(sheet, row, start);
        let ghost vals = texts_along_row(*sheet, row, start);
        if cv.len() == 0 {
            return (HashSet::new(), 0, false);
        }
        let texts = {
            let mut t: Vec<Vec<char>> = Vec::new();
            let mut i: usize = 0;
            while i < cv.len()
                invariant
                    i <= cv@.len(),
                    views(t@) == pair_texts(cv@).take(i as int),
                decreases cv@.len() - i,
            {
                let c = chars_of(cv[i].1.as_str());
                let ghost before = t@;
                t.push(c);
                assert(views(t@) =~= views(before).push(c@));
                i += 1;
                assert(views(t@) =~= pair_texts(cv@).take(i as int));
            }
            assert(pair_texts(cv@).take(cv@.len() as int) =~= pair_texts(cv@));
            t
        };
        let sorted = is_sorted(&texts);
        let binary = sorted && op == CompareOp::Contains;
        let mut visible: HashSet<u32>;
        {
            visible = HashSet::new();
            let mut i: usize = 0;
            while i < cv.len()
                invariant
                    numeric_ok(*numeric),
                    i <= cv@.len(),
                    cv@.len() == total,
                    total > 0,
                    start > 0,
                    cells == option.cells@,
                    cells.len() > 0,
                    row == cells[0].1,
                    start == cells[0].0,
                    max == sheet.max_col,
                    total == cols_after(start, max),
                    single_row(cells),
                    forall|j: int| 0 <= j < cv@.len() ==> (#[trigger] cv@[j]).0 == start + 1 + j,
                    pair_texts(cv@) == vals,
                    vals == texts_along_row(*sheet, row, start),
                    raw == raw_column_matches(*numeric, *sheet, cells, kw@, op),
                    visible@ == raw.intersect(Set::new(|c: u32| c < start + 1 + i)),
                decreases cv@.len() - i,
            {
                let ghost c = cv@[i as int].0;
                assert(cv@[i as int].1@ == vals[i as int]);
                assert(vals[i as int] == cell_text(*sheet, row, (start + 1 + i) as u32));
                assert(c == start + 1 + i);
                if compare_value(cv[i].1.as_str(), kw.as_str(), op, numeric) {
                    visible.insert(cv[i].0);
                }
                i += 1;
                assert(visible@ =~= raw.intersect(Set::new(|c: u32| c < start + 1 + i)));
            }
            assert(visible@ =~= raw);
        }
        align_visible_for_merged(sheet, &mut visible, rows.as_slice());
        (visible, cv.len(), binary)
    } else {
        let mut visible: HashSet<u32> = HashSet::new();
        let mut total_n: usize = 0;
        if max > start {
            let mut c: u64 = start as u64 + 1;
            while c <= max as u64
                invariant
                    numeric_ok(*numeric),
                    max == sheet.max_col,
                    start < max,
                    start + 1 <= c <= max as int + 1,
                    total_n == c - start - 1,
                    cells == option.cells@,
                    cells.len() > 0,
                    start == cells[0].0,
                    !single_row(cells),
                    raw == raw_column_matches(*numeric, *sheet, cells, kw@, op),
                    visible@ == raw.intersect(Set::new(|x: u32| x < c)),
                decreases max as int + 1 - c,
            {
                let col = c as u32;
                let mut hit = false;
                let mut k: usize = 0;
                while k < option.cells.len()
                    invariant
                        numeric_ok(*numeric),
                        cells == option.cells@,
                        k <= cells.len(),
                        hit == exists|q: int| 0 <= q < k && op_holds(*numeric, cell_text(*sheet, (#[trigger] cells[q]).1, col), kw@, op),
                    decreases cells.len() - k,
                {
                    let s = cell_search_text(sheet, option.cells[k].1, col);
                    if compare_value(s.as_str(), kw.as_str(), op, numeric) {
                        hit = true;
                    }
                    k += 1;
                }
                if hit {
                    visible.insert(col);
                }
                total_n += 1;
                c += 1;
                assert(visible@ =~= raw.intersect(Set::new(|x: u32| x < c)));
            }
        }
        assert(visible@ =~= raw);
        align_visible_for_merged(sheet, &mut visible, rows.as_slice());
        (visible, total_n, false)
    }
}

} // verus!

verus! {

/// Appending an element to a sequence adds it to the sequence's set.
pub proof fn lemma_push_to_set(s: Seq<u32>, a: u32)
    ensures
        s.push(a).to_set() == s.to_set().insert(a),
{
    assert forall|x: u32| s.push(a).to_set().contains(x) == s.to_set().insert(a).contains(x) by {
        if s.push(a).contains(x) {
            let i = choose|i: int| 0 <= i < s.push(a).len() && s.push(a)[i] == x;
            if i < s.len() {
                assert(s[i] == x);
            }
        }
        if s.contains(x) {
            let i = choose|i: int| 0 <= i < s.len() && s[i] == x;
            assert(s.push(a)[i] == x);
        }
        if x == a {
            assert(s.push(a)[s.len() as int] == a);
        }
    }
    assert(s.push(a).to_set() =~= s.to_set().insert(a));
}

/// Adds the members of `src` to `dst`.
pub fn union_into(dst: &mut HashSet<u32>, src: &HashSet<u32>)
    ensures
        final(dst)@ == old(dst)@.union(src@),
{
    let ghost base = dst@;
    for x in it: src.iter()
        invariant
            it.seq().unref().to_set() == src@,
            dst@ == base.union(it.seq().take(it.index() as int).unref().to_set()),
            it.index() == it.seq().len() ==> dst@ == base.union(src@),
    {
        assert(0 <= it.index() < it.seq().len());
        assert(*x == *it.seq()[it.index() as int]);
        dst.insert(*x);
        assert(it.seq().take(it.index() + 1).unref() =~= it.seq().take(it.index() as int).unref().push(*x));
        proof {
            lemma_push_to_set(it.seq().take(it.index() as int).unref(), *x);
        }
        assert(dst@ =~= base.union(it.seq().take(it.index() + 1).unref().to_set()));
        assert(it.index() + 1 == it.seq().len() ==> it.seq().take(it.index() + 1) =~= it.seq());
    }
}

/// The members of `a` that `b` holds.
pub fn intersect_sets(a: &HashSet<u32>, b: &HashSet<u32>) -> (r: HashSet<u32>)
    ensures
        r@ == a@.intersect(b@),
{
    let mut r: HashSet<u32> = HashSet::new();
    for x in it: a.iter()
        invariant
            it.seq().unref().to_set() == a@,
            r@ == it.seq().take(it.index() as int).unref().to_set().intersect(b@),
            it.index() == it.seq().len() ==> r@ == a@.intersect(b@),
    {
        assert(*x == *it.seq()[it.index() as int]);
        if b.contains(x) {
            r.insert(*x);
        }
        assert(it.seq().take(it.index() + 1).unref() =~= it.seq().take(it.index() as int).unref().push(*x));
        proof {
            lemma_push_to_set(it.seq().take(it.index() as int).unref(), *x);
        }
        assert(r@ =~= it.seq().take(it.index() + 1).unref().to_set().intersect(b@));
        assert(it.index() + 1 == it.seq().len() ==> it.seq().take(it.index() + 1) =~= it.seq());
    }
    r
}

// ---------------------------------------------------------------------------
// Several column filters
// ---------------------------------------------------------------------------

/// A filter whose option exists.
pub open spec fn valid_filter(opts: Seq<RangeOption>, fl: ColumnFilter) -> bool {
    fl.column_index < opts.len()
}

/// What one (valid) filter gives (see [`column_matches`]).
pub open spec fn filter_cols<F: Fn(&String, &String) -> Option<NumOrder>>(
    f: F,
    sheet: SheetData,
    opts: Seq<RangeOption>,
    fl: ColumnFilter,
) -> (Set<u32>, int, bool) {
    column_matches(f, sheet, opts[fl.column_index as int]@, fl.filter_value@, fl.op)
}

/// Filter `i` joins the group before it with AND: the first filter, or the
/// filter before it says AND.
pub open spec fn joins_by_and(act: Seq<ColumnFilter>, i: int) -> bool {
    i == 0 || act[i - 1].logic == FilterLogic::And
}

/// After the first `n` active filters: the union of the finished OR groups
/// and the group being built (the intersection of its filters). Filters
/// without an option are passed over.
pub open spec fn groups_upto<F: Fn(&String, &String) -> Option<NumOrder>>(
    f: F,
    sheet: SheetData,
    opts: Seq<RangeOption>,
    act: Seq<ColumnFilter>,
    n: int,
) -> (Set<u32>, Option<Set<u32>>)
    decreases n,
{
    if n <= 0 {
        (Set::empty(), None)
    } else {
        let prev = groups_upto(f, sheet, opts, act, n - 1);
        let fl = act[n - 1];
        if !valid_filter(opts, fl) {
            prev
        } else {
            let s = filter_cols(f, sheet, opts, fl).0;
            if joins_by_and(act, n - 1) {
                match prev.1 {
                    Some(g) => (prev.0, Some(g.intersect(s))),
                    None => (prev.0, Some(s)),
                }
            } else {
                match prev.1 {
                    Some(g) => (prev.0.union(g), Some(s)),
                    None => (prev.0, Some(s)),
                }
            }
        }
    }
}

/// The largest number of columns one of the first `n` filters looked at.
pub open spec fn total_upto<F: Fn(&String, &String) -> Option<NumOrder>>(
    f: F,
    sheet: SheetData,
    opts: Seq<RangeOption>,
    act: Seq<ColumnFilter>,
    n: int,
) -> int
    decreases n,
{
    if n <= 0 {
        0
    } else {
        let prev = total_upto(f, sheet, opts, act, n - 1);
        if valid_filter(opts, act[n - 1]) && filter_cols(f, sheet, opts, act[n - 1]).1 > prev {
            filter_cols(f, sheet, opts, act[n - 1]).1
        } else {
            prev
        }
    }
}

/// Whether one of the first `n` filters had a sorted row with `Contains`.
pub open spec fn binary_upto<F: Fn(&String, &String) -> Option<NumOrder>>(
    f: F,
    sheet: SheetData,
    opts: Seq<RangeOption>,
    act: Seq<ColumnFilter>,
    n: int,
) -> bool
    decreases n,
{
    if n <= 0 {
        false
    } else {
        binary_upto(f, sheet, opts, act, n - 1) || (valid_filter(opts, act[n - 1]) && filter_cols(
            f,
            sheet,
            opts,
            act[n - 1],
        ).2)
    }
}

/// The columns the active filters keep together: AND binds tighter than OR,
/// so the filters are cut into groups at each OR, each group keeps what all
/// its filters keep, and the result is what some group keeps.
pub open spec fn combined_visible<F: Fn(&String, &String) -> Option<NumOrder>>(
    f: F,
    sheet: SheetData,
    opts: Seq<RangeOption>,
    act: Seq<ColumnFilter>,
) -> Set<u32> {
    let g = groups_upto(f, sheet, opts, act, act.len() as int);
    match g.1 {
        Some(c) => g.0.union(c),
        None => g.0,
    }
}

/// The first columns of the options of the valid active filters.
pub open spec fn anchor_cols(opts: Seq<RangeOption>, act: Seq<ColumnFilter>) -> Set<u32> {
    Set::new(
        |c: u32|
            exists|i: int|
                0 <= i < act.len() && valid_filter(opts, #[trigger] act[i]) && opt_first_col(
                    opts[act[i].column_index as int]@,
                ) == c,
    )
}

/// The columns `1..=max_col` that are not visible, the anchor columns
/// excepted.
pub open spec fn columns_hidden(visible: Set<u32>, max_col: u32, anchors: Set<u32>) -> Set<u32> {
    Set::new(|c: u32| 1 <= c <= max_col && !visible.contains(c)).difference(anchors)
}

/// The summary line of a column search.
pub open spec fn multi_debug(o: OptView, total: nat, matched: nat, hidden: nat) -> Seq<char> {
    "选中"@ + col_letters(opt_first_col(o) as nat) + dec(opt_first_row(o) as nat) + " | 共"@ + dec(total)
        + "列 | 匹配"@ + dec(matched) + "列 隐藏"@ + dec(hidden) + "列"@
}

/// The view of an optional set.
pub open spec fn opt_set(o: Option<HashSet<u32>>) -> Option<Set<u32>> {
    match o {
        Some(h) => Some(h@),
        None => None,
    }
}

/// The positions of the active filters.
fn active_positions(fs: &Vec<ColumnFilter>) -> (idx: Vec<usize>)
    ensures
        idx@.len() == active_filters(fs@).len(),
        forall|k: int| 0 <= k < idx@.len() ==> #[trigger] idx@[k] < fs@.len() && fs@[idx@[k] as int] == active_filters(fs@)[k],
{
    let mut idx: Vec<usize> = Vec::new();
    let mut i: usize = 0;
    assert(fs@.take(0) =~= Seq::<ColumnFilter>::empty());
    while i < fs.len()
        invariant
            i <= fs@.len(),
            idx@.len() == active_filters(fs@.take(i as int)).len(),
            forall|k: int|
                0 <= k < idx@.len() ==> #[trigger] idx@[k] < i && fs@[idx@[k] as int] == active_filters(
                    fs@.take(i as int),
                )[k],
        decreases fs@.len() - i,
    {
        let ghost prev = active_filters(fs@.take(i as int));
        assert(fs@.take(i + 1).drop_last() =~= fs@.take(i as int));
        assert(fs@.take(i + 1).last() == fs@[i as int]);
        let ghost old_idx = idx@;
        if fs[i].is_active() {
            idx.push(i);
            let ghost nxt = prev + seq![fs@[i as int]];
            assert(active_filters(fs@.take(i + 1)) == nxt);
            assert forall|k: int| 0 <= k < idx@.len() implies #[trigger] idx@[k] < i + 1 && fs@[idx@[k] as int]
                == active_filters(fs@.take(i + 1))[k] by {
                if k < old_idx.len() {
                    assert(idx@[k] == old_idx[k]);
                    assert(nxt[k] == prev[k]);
                }
            }
        } else {
            assert(active_filters(fs@.take(i + 1)) =~= prev);
            assert forall|k: int| 0 <= k < idx@.len() implies #[trigger] idx@[k] < i + 1 && fs@[idx@[k] as int]
                == active_filters(fs@.take(i + 1))[k] by {
                assert(active_filters(fs@.take(i + 1))[k] == prev[k]);
            }
        }
        i += 1;
    }
    assert(fs@.take(fs@.len() as int) =~= fs@);
    assert forall|k: int| 0 <= k < idx@.len() implies #[trigger] idx@[k] < fs@.len() && fs@[idx@[k] as int]
        == active_filters(fs@)[k] by {
        assert(active_filters(fs@.take(fs@.len() as int))[k] == active_filters(fs@)[k]);
    }
    idx
}

/// What a multi-filter column search does to the window and the hidden
/// columns (see [`execute_multi_column_search`]).
pub open spec fn multi_search_outcome<F: Fn(&String, &String) -> Option<NumOrder>>(
    old_state: SearchWindowState,
    sheet: SheetData,
    old_hidden: Set<u32>,
    new_state: SearchWindowState,
    new_hidden: Set<u32>,
    numeric: F,
) -> bool {
    let act = active_filters(old_state.column_filters@);
    let opts = old_state.column_options@;
    let vis = combined_visible(numeric, sheet, opts, act);
    &&& act.len() == 0 ==> new_state == old_state && new_hidden == old_hidden
    &&& act.len() > 0 ==> {
        &&& new_hidden == columns_hidden(vis, sheet.max_col, anchor_cols(opts, act))
        &&& new_state.selected_index == act[0].column_index
        &&& new_state.search_keyword@ == act[0].filter_value@
        &&& new_state.total_searched == total_upto(numeric, sheet, opts, act, act.len() as int)
        &&& new_state.matched_count == vis.len()
        &&& new_state.use_binary_search == binary_upto(numeric, sheet, opts, act, act.len() as int)
        &&& new_state.is_searching
        &&& new_state.debug_info@ == multi_debug(
            opts[act[0].column_index as int]@,
            new_state.total_searched as nat,
            new_state.matched_count as nat,
            new_hidden.len(),
        )
        &&& new_state.column_options == old_state.column_options
        &&& new_state.column_filters == old_state.column_filters
        &&& new_state.row_options == old_state.row_options
        &&& new_state.row_filters == old_state.row_filters
        &&& new_state.is_row_searching == old_state.is_row_searching
        &&& new_state.row_matched_count == old_state.row_matched_count
        &&& new_state.row_total_searched == old_state.row_total_searched
        &&& new_state.row_debug_info == old_state.row_debug_info
    }
}

/// Runs the active column filters together (AND binds tighter than OR) and
/// hides every column `1..=max_col` that no group keeps, except the filters'
/// own anchor columns. The first active filter's choice and value become the
/// window's selection; the window records the columns looked at (the most
/// any filter looked at), the columns kept, whether a filter's row was
/// sorted for `Contains`, and a summary line. Without an active filter nothing changes.
pub fn execute_multi_column_search<F: Fn(&String, &String) -> Option<NumOrder>>(
    state: &mut SearchWindowState,
    sheet: &SheetData,
    hidden_columns: &mut HashSet<u32>,
    numeric: &F,
)
    requires
        numeric_ok(*numeric),
        active_filters(old(state).column_filters@).len() > 0 ==> active_filters(
            old(state).column_filters@,
        )[0].column_index < old(state).column_options@.len(),
    ensures
        multi_search_outcome(
            *old(state),
            *sheet,
            old(hidden_columns)@,
            *final(state),
            final(hidden_columns)@,
            *numeric,
        ),
{
    let ghost fs = state.column_filters@;
    let ghost opts = state.column_options@;
    let ghost act = active_filters(fs);
    let idx = active_positions(&state.column_filters);
    assert forall|q: int| 0 <= q < idx@.len() implies #[trigger] idx@[q] < fs.len() && fs[idx@[q] as int] == act[q] by {
        assert(act[q] == active_filters(state.column_filters@)[q]);
    }
    if idx.len() == 0 {
        return;
    }
    let first_ci = state.column_filters[idx[0]].column_index;
    let first_kw = string_clone(&state.column_filters[idx[0]].filter_value);
    let mut groups: HashSet<u32> = HashSet::new();
    let mut current: Option<HashSet<u32>> = None;
    let mut max_total: usize = 0;
    let mut any_binary = false;
    let mut k: usize = 0;
    while k < idx.len()
        invariant
            numeric_ok(*numeric),
            fs == state.column_filters@,
            opts == state.column_options@,
            act == active_filters(fs),
            idx@.len() == act.len(),
            forall|q: int| 0 <= q < idx@.len() ==> #[trigger] idx@[q] < fs.len() && fs[idx@[q] as int] == act[q],
            k <= idx@.len(),
            groups@ == groups_upto(*numeric, *sheet, opts, act, k as int).0,
            opt_set(current) == groups_upto(*numeric, *sheet, opts, act, k as int).1,
            max_total == total_upto(*numeric, *sheet, opts, act, k as int),
            any_binary == binary_upto(*numeric, *sheet, opts, act, k as int),
        decreases idx@.len() - k,
    {
        let fl = &state.column_filters[idx[k]];
        assert(*fl == act[k as int]);
        if fl.column_index < state.column_options.len() {
            let (vis, t, b) = compute_column_matches(
                sheet,
                &state.column_options[fl.column_index],
                fl.filter_value.as_str(),
                fl.op,
                numeric,
            );
            if t > max_total {
                max_total = t;
            }
            any_binary = any_binary || b;
            let and = k == 0 || state.column_filters[idx[k - 1]].logic == FilterLogic::And;
            proof {
                if k > 0 {
                    assert(state.column_filters@[idx@[k - 1] as int] == act[k - 1]);
                }
            }
            if and {
                current = match current {
                    Some(g) => Some(intersect_sets(&g, &vis)),
                    None => Some(vis),
                };
            } else {
                match current {
                    Some(g) => union_into(&mut groups, &g),
                    None => {},
                }
                current = Some(vis);
            }
        }
        k += 1;
    }
    match current {
        Some(g) => union_into(&mut groups, &g),
        None => {},
    }
    let visible = groups;
    assert(visible@ == combined_visible(*numeric, *sheet, opts, act));
    hidden_columns.clear();
    let max = sheet.max_col;
    let mut c: u64 = 1;
    while c <= max as u64
        invariant
            max == sheet.max_col,
            1 <= c <= max as int + 1,
            hidden_columns@ == Set::new(|x: u32| 1 <= x < c && !visible@.contains(x)),
        decreases max as int + 1 - c,
    {
        let col = c as u32;
        if !visible.contains(&col) {
            hidden_columns.insert(col);
        }
        c += 1;
        assert(hidden_columns@ =~= Set::new(|x: u32| 1 <= x < c && !visible@.contains(x)));
    }
    let ghost shown = hidden_columns@;
    let mut q: usize = 0;
    while q < idx.len()
        invariant
            fs == state.column_filters@,
            opts == state.column_options@,
            idx@.len() == act.len(),
            forall|j: int| 0 <= j < idx@.len() ==> #[trigger] idx@[j] < fs.len() && fs[idx@[j] as int] == act[j],
            q <= idx@.len(),
            hidden_columns@ == shown.difference(
                Set::new(
                    |x: u32|
                        exists|i: int|
                            0 <= i < q && valid_filter(opts, #[trigger] act[i]) && opt_first_col(
                                opts[act[i].column_index as int]@,
                            ) == x,
                ),
            ),
        decreases idx@.len() - q,
    {
        let fl = &state.column_filters[idx[q]];
        assert(*fl == act[q as int]);
        if fl.column_index < state.column_options.len() {
            let a = state.column_options[fl.column_index].first_col();
            hidden_columns.remove(&a);
        }
        q += 1;
        assert(hidden_columns@ =~= shown.difference(
            Set::new(
                |x: u32|
                    exists|i: int|
                        0 <= i < q && valid_filter(opts, #[trigger] act[i]) && opt_first_col(
                            opts[act[i].column_index as int]@,
                        ) == x,
            ),
        ));
    }
    assert(hidden_columns@ =~= columns_hidden(visible@, max, anchor_cols(opts, act)));
    state.selected_index = first_ci;
    state.search_keyword = first_kw;
    state.total_searched = max_total;
    state.matched_count = visible.len();
    state.use_binary_search = any_binary;
    state.is_searching = true;
    let o = &state.column_options[first_ci];
    let mut v: Vec<char> = Vec::new();
    push_str(&mut v, "选中");
    push_col_letters(&mut v, o.first_col());
    push_dec(&mut v, o.first_row() as u64);
    push_str(&mut v, " | 共");
    push_dec(&mut v, max_total as u64);
    push_str(&mut v, "列 | 匹配");
    push_dec(&mut v, visible.len() as u64);
    push_str(&mut v, "列 隐藏");
    push_dec(&mut v, hidden_columns.len() as u64);
    push_str(&mut v, "列");
    assert(v@ =~= multi_debug(o@, max_total as nat, visible@.len(), hidden_columns@.len()));
    state.debug_info = string_from(v.as_slice());
}

// ---------------------------------------------------------------------------
// The single-keyword search
// ---------------------------------------------------------------------------

/// `a - b`, or 0 when `b` is larger.
pub open spec fn sat_sub(a: int, b: int) -> int {
    if a > b {
        a - b
    } else {
        0
    }
}

/// A sample entry `B='text'` of the summary line.
pub open spec fn sample_entry(col: u32, text: Seq<char>) -> Seq<char> {
    col_letters(col as nat) + "='"@ + text + "'"@
}

/// The entries for the first `k` columns from index `i` on that `keep` picks
/// (columns `start + 1 + i` with texts `vals[i]`).
pub open spec fn samples_from(start: u32, vals: Seq<Seq<char>>, keep: spec_fn(int) -> bool, i: int, k: nat) -> Seq<Seq<char>>
    decreases vals.len() - i,
{
    if i < 0 || i >= vals.len() || k == 0 {
        Seq::empty()
    } else if keep(i) {
        seq![sample_entry((start + 1 + i) as u32, vals[i])] + samples_from(start, vals, keep, i + 1, (k - 1) as nat)
    } else {
        samples_from(start, vals, keep, i + 1, k)
    }
}

/// The items joined with `, `.
pub open spec fn join_comma(items: Seq<Seq<char>>) -> Seq<char>
    decreases items.len(),
{
    if items.len() == 0 {
        Seq::empty()
    } else if items.len() == 1 {
        items[0]
    } else {
        items[0] + ", "@ + join_comma(items.drop_first())
    }
}

/// The summary line of a single-keyword search that looked at some columns.
pub open spec fn search_debug(
    o: OptView,
    max_col: u32,
    vals: Seq<Seq<char>>,
    total: nat,
    matched: nat,
    hidden: Set<u32>,
    hidden_before: nat,
) -> Seq<char> {
    let col = opt_first_col(o);
    let row = opt_first_row(o);
    let effect = sat_sub(hidden.len() as int, hidden_before as int);
    let shown = samples_from(col, vals, |i: int| !hidden.contains((col + 1 + i) as u32), 0, 5);
    let nonempty = samples_from(col, vals, |i: int| vals[i].len() > 0, 0, 3);
    "选中"@ + col_letters(col as nat) + dec(row as nat) + " | 行"@ + dec(row as nat) + " "@ + col_letters(
        (col + 1) as nat,
    ) + "→"@ + col_letters(max_col as nat) + " 共"@ + dec(total) + "列 | 匹配"@ + dec(matched) + "列 隐藏"@
        + dec(hidden.len()) + "列"@ + (if effect > 0 {
        " (含合并扩展+"@ + dec(effect as nat) + ")"@
    } else {
        Seq::empty()
    }) + (if shown.len() > 0 {
        " | 匹配: "@ + join_comma(shown)
    } else {
        " | ⚠ 无匹配列!"@ + (if nonempty.len() > 0 {
            " 被隐藏列样本: "@ + join_comma(nonempty)
        } else {
            Seq::empty()
        })
    })
}

/// The summary line when no column lies right of the anchor.
pub open spec fn empty_search_debug(o: OptView, max_col: u32) -> Seq<char> {
    "选中"@ + col_letters(opt_first_col(o) as nat) + dec(opt_first_row(o) as nat) + " → 行"@ + dec(
        opt_first_row(o) as nat,
    ) + "右侧无列可搜索（max_col="@ + dec(max_col as nat) + "）"@
}

/// The columns a single-keyword search hides before merged regions are
/// applied: every column right of the anchor whose text does not contain
/// the keyword.
pub open spec fn search_misses(sheet: SheetData, row: u32, start: u32, kw: Seq<char>) -> Set<u32> {
    Set::new(|c: u32| start < c <= sheet.max_col && !has_substr(cell_text(sheet, row, c), kw))
}

/// Appends the joined sample entries for the first `k` columns from index
/// `i` on whose flag is `want`.
fn push_samples(
    out: &mut Vec<char>,
    start: u32,
    cv: &Vec<(u32, String)>,
    flags: &Vec<bool>,
    k: usize,
    Ghost(vals): Ghost<Seq<Seq<char>>>,
    Ghost(keep): Ghost<spec_fn(int) -> bool>,
) -> (n: usize)
    requires
        flags@.len() == cv@.len(),
        vals == pair_texts(cv@),
        forall|i: int| 0 <= i < cv@.len() ==> (#[trigger] cv@[i]).0 == start + 1 + i,
        forall|i: int| 0 <= i < cv@.len() ==> flags@[i] == #[trigger] keep(i),
    ensures
        final(out)@ == old(out)@ + join_comma(samples_from(start, vals, keep, 0, k as nat)),
        n == samples_from(start, vals, keep, 0, k as nat).len(),
{
    let ghost all = samples_from(start, vals, keep, 0, k as nat);
    let mut i: usize = 0;
    let mut left: usize = k;
    let mut n: usize = 0;
    let ghost mut done: Seq<Seq<char>> = Seq::empty();
    while i < cv.len() && left > 0
        invariant
            flags@.len() == cv@.len(),
            vals == pair_texts(cv@),
            forall|j: int| 0 <= j < cv@.len() ==> (#[trigger] cv@[j]).0 == start + 1 + j,
            forall|j: int| 0 <= j < cv@.len() ==> flags@[j] == #[trigger] keep(j),
            i <= cv@.len(),
            left <= k,
            n <= i,
            n == done.len(),
            all == done + samples_from(start, vals, keep, i as int, left as nat),
            out@ == old(out)@ + join_comma(done),
        decreases cv@.len() - i,
    {
        if flags[i] {
            let ghost e = sample_entry((start + 1 + i) as u32, vals[i as int]);
            assert(cv@[i as int].0 == start + 1 + i);
            if n > 0 {
                push_str(out, ", ");
            }
            push_col_letters(out, cv[i].0);
            push_str(out, "='");
            push_str(out, cv[i].1.as_str());
            push_str(out, "'");
            proof {
                assert(cv@[i as int].1@ == vals[i as int]);
                lemma_join_push(done, e);
                assert(all == done.push(e) + samples_from(start, vals, keep, i + 1, (left - 1) as nat)) by {
                    assert(seq![e] + samples_from(start, vals, keep, i + 1, (left - 1) as nat) == samples_from(
                        start,
                        vals,
                        keep,
                        i as int,
                        left as nat,
                    ));
                    assert(done + (seq![e] + samples_from(start, vals, keep, i + 1, (left - 1) as nat)) =~= done.push(
                        e,
                    ) + samples_from(start, vals, keep, i + 1, (left - 1) as nat));
                }
                done = done.push(e);
            }
            n += 1;
            left -= 1;
        }
        i += 1;
    }
    proof {
        assert(samples_from(start, vals, keep, i as int, left as nat) =~= Seq::<Seq<char>>::empty());
        assert(all =~= done);
    }
    n
}

/// Joining one more item.
pub proof fn lemma_join_push(items: Seq<Seq<char>>, e: Seq<char>)
    ensures
        join_comma(items.push(e)) == (if items.len() == 0 {
            e
        } else {
            join_comma(items) + ", "@ + e
        }),
    decreases items.len(),
{
    if items.len() == 0 {
        assert(items.push(e) =~= seq![e]);
    } else if items.len() == 1 {
        assert(items.push(e).drop_first() =~= seq![e]);
        assert(join_comma(seq![e]) == e);
    } else {
        lemma_join_push(items.drop_first(), e);
        assert(items.push(e).drop_first() =~= items.drop_first().push(e));
        assert(join_comma(items.push(e)) == items[0] + ", "@ + join_comma(items.drop_first().push(e)));
        assert(items[0] + ", "@ + (join_comma(items.drop_first()) + ", "@ + e) =~= (items[0] + ", "@ + join_comma(
            items.drop_first(),
        )) + ", "@ + e);
    }
}

/// The texts of the pairs as character vectors.
fn texts_of(cv: &Vec<(u32, String)>) -> (t: Vec<Vec<char>>)
    ensures
        views(t@) == pair_texts(cv@),
{
    let mut t: Vec<Vec<char>> = Vec::new();
    let mut i: usize = 0;
    while i < cv.len()
        invariant
            i <= cv@.len(),
            views(t@) == pair_texts(cv@).take(i as int),
        decreases cv@.len() - i,
    {
        let c = chars_of(cv[i].1.as_str());
        let ghost before = t@;
        t.push(c);
        assert(views(t@) =~= views(before).push(c@));
        i += 1;
        assert(views(t@) =~= pair_texts(cv@).take(i as int));
    }
    assert(pair_texts(cv@).take(cv@.len() as int) =~= pair_texts(cv@));
    t
}

/// The columns a single-keyword search hides before merged regions are
/// applied, and whether the texts were sorted.
fn search_miss_set(sheet: &SheetData, cv: &Vec<(u32, String)>, kw: &String, row: u32, col: u32) -> (r: (
    HashSet<u32>,
    bool,
))
    requires
        cv@.len() == cols_after(col, sheet.max_col),
        forall|i: int| 0 <= i < cv@.len() ==> (#[trigger] cv@[i]).0 == col + 1 + i,
        pair_texts(cv@) == texts_along_row(*sheet, row, col),
    ensures
        r.0@ == search_misses(*sheet, row, col, kw@),
        r.1 == adjacent_sorted(texts_along_row(*sheet, row, col)),
{
    let ghost vals = texts_along_row(*sheet, row, col);
    let ghost misses = search_misses(*sheet, row, col, kw@);
    let max = sheet.max_col;
    let texts = texts_of(cv);
    let sorted = is_sorted(&texts);
    let mut hidden: HashSet<u32> = HashSet::new();
    {
        let kc = chars_of(kw.as_str());
        let mut i: usize = 0;
        while i < cv.len()
            invariant
                i <= cv@.len(),
                cv@.len() == cols_after(col, max),
                max == sheet.max_col,
                kc@ == kw@,
                forall|j: int| 0 <= j < cv@.len() ==> (#[trigger] cv@[j]).0 == col + 1 + j,
                pair_texts(cv@) == vals,
                vals == texts_along_row(*sheet, row, col),
                misses == search_misses(*sheet, row, col, kw@),
                hidden@ == misses.intersect(Set::new(|c: u32| c < col + 1 + i)),
            decreases cv@.len() - i,
        {
            assert(cv@[i as int].1@ == vals[i as int]);
            assert(vals[i as int] == cell_text(*sheet, row, (col + 1 + i) as u32));
            let tc = chars_of(cv[i].1.as_str());
            if !contains_seq(tc.as_slice(), kc.as_slice()) {
                hidden.insert(cv[i].0);
            }
            i += 1;
            assert(hidden@ =~= misses.intersect(Set::new(|c: u32| c < col + 1 + i)));
        }
        assert(hidden@ =~= misses);
    }
    (hidden, sorted)
}

/// The summary line of a single-keyword search (see [`search_debug`]).
fn search_summary(
    o: &RangeOption,
    max: u32,
    cv: &Vec<(u32, String)>,
    matched: usize,
    hidden: &HashSet<u32>,
    before: usize,
) -> (s: String)
    requires
        cv@.len() == cols_after(opt_first_col(o@), max),
        cv@.len() > 0,
        forall|i: int| 0 <= i < cv@.len() ==> (#[trigger] cv@[i]).0 == opt_first_col(o@) + 1 + i,
    ensures
        s@ == search_debug(o@, max, pair_texts(cv@), cv@.len(), matched as nat, hidden@, before as nat),
{
    let ghost vals = pair_texts(cv@);
    let col = o.first_col();
    let row = o.first_row();
    let total = cv.len();
    let h = hidden.len();
    let mut shown: Vec<bool> = Vec::new();
    let mut filled: Vec<bool> = Vec::new();
    let mut i: usize = 0;
    while i < cv.len()
        invariant
            i <= cv@.len(),
            shown@.len() == i,
            filled@.len() == i,
            forall|j: int| 0 <= j < i ==> shown@[j] == !hidden@.contains(cv@[j].0),
            forall|j: int| 0 <= j < i ==> filled@[j] == (cv@[j].1@.len() > 0),
        decreases cv@.len() - i,
    {
        shown.push(!hidden.contains(&cv[i].0));
        filled.push(chars_of(cv[i].1.as_str()).len() > 0);
        i += 1;
    }
    let mut v: Vec<char> = Vec::new();
    push_str(&mut v, "选中");
    push_col_letters(&mut v, col);
    push_dec(&mut v, row as u64);
    push_str(&mut v, " | 行");
    push_dec(&mut v, row as u64);
    push_str(&mut v, " ");
    push_col_letters(&mut v, col + 1);
    push_str(&mut v, "→");
    push_col_letters(&mut v, max);
    push_str(&mut v, " 共");
    push_dec(&mut v, total as u64);
    push_str(&mut v, "列 | 匹配");
    push_dec(&mut v, matched as u64);
    push_str(&mut v, "列 隐藏");
    push_dec(&mut v, h as u64);
    push_str(&mut v, "列");
    if h > before {
        push_str(&mut v, " (含合并扩展+");
        push_dec(&mut v, (h - before) as u64);
        push_str(&mut v, ")");
    }
    let ghost hid = hidden@;
    let ghost keep_shown = |i: int| !hid.contains((col + 1 + i) as u32);
    let ghost keep_filled = |i: int| vals[i].len() > 0;
    assert forall|i: int| 0 <= i < cv@.len() implies shown@[i] == #[trigger] keep_shown(i) by {
        assert(cv@[i].0 == col + 1 + i);
    }
    assert forall|i: int| 0 <= i < cv@.len() implies filled@[i] == #[trigger] keep_filled(i) by {
        assert(vals[i] == cv@[i].1@);
    }
    let mut sv: Vec<char> = Vec::new();
    let ns = push_samples(&mut sv, col, cv, &shown, 5, Ghost(vals), Ghost(keep_shown));
    if ns > 0 {
        push_str(&mut v, " | 匹配: ");
        push_all(&mut v, sv.as_slice());
    } else {
        push_str(&mut v, " | ⚠ 无匹配列!");
        let mut fv: Vec<char> = Vec::new();
        let nf = push_samples(&mut fv, col, cv, &filled, 3, Ghost(vals), Ghost(keep_filled));
        if nf > 0 {
            push_str(&mut v, " 被隐藏列样本: ");
            push_all(&mut v, fv.as_slice());
        }
    }
    assert(v@ =~= search_debug(o@, max, vals, total as nat, matched as nat, hid, before as nat));
    string_from(v.as_slice())
}

/// The single-keyword search: along the row of the selected option's first
/// anchor cell, every column right of it whose text (lower-cased) does not
/// contain the keyword (lower-cased) is hidden; merged regions are then aligned
/// and the anchor column stays shown. The window records the columns looked
/// at, the columns kept, whether the texts were sorted, and a summary line.
/// With no selected option only the hidden columns are cleared.
pub fn execute_search(state: &mut SearchWindowState, sheet: &SheetData, hidden_columns: &mut HashSet<u32>)
    ensures
        old(state).selected_index >= old(state).column_options@.len() ==> *final(state) == *old(state)
            && final(hidden_columns)@ == Set::<u32>::empty(),
        old(state).selected_index < old(state).column_options@.len() ==> ({
            let o = old(state).column_options@[old(state).selected_index as int]@;
            let col = opt_first_col(o);
            let row = opt_first_row(o);
            let kw = lowercase_of(old(state).search_keyword@);
            let total = cols_after(col, sheet.max_col);
            let vals = texts_along_row(*sheet, row, col);
            let misses = search_misses(*sheet, row, col, kw);
            let hidden = cols_aligned(misses, sheet.merged_cells@, row).remove(col);
            &&& final(state).total_searched == total
            &&& final(state).is_searching
            &&& total == 0 ==> final(hidden_columns)@ == Set::<u32>::empty() && final(state).matched_count
                == 0 && final(state).use_binary_search == old(state).use_binary_search
                && final(state).debug_info@ == empty_search_debug(o, sheet.max_col)
            &&& total > 0 ==> final(hidden_columns)@ == hidden && final(state).use_binary_search
                == adjacent_sorted(vals) && final(state).matched_count == sat_sub(total, hidden.len() as int)
                && final(state).debug_info@ == search_debug(
                o,
                sheet.max_col,
                vals,
                total as nat,
                final(state).matched_count as nat,
                hidden,
                misses.len(),
            )
            &&& final(state).column_options == old(state).column_options
            &&& final(state).column_filters == old(state).column_filters
            &&& final(state).selected_index == old(state).selected_index
            &&& final(state).search_keyword == old(state).search_keyword
            &&& final(state).row_options == old(state).row_options
            &&& final(state).row_filters == old(state).row_filters
            &&& final(state).is_row_searching == old(state).is_row_searching
            &&& final(state).row_matched_count == old(state).row_matched_count
            &&& final(state).row_total_searched == old(state).row_total_searched
            &&& final(state).row_debug_info == old(state).row_debug_info
        }),
{
    hidden_columns.clear();
    if state.selected_index >= state.column_options.len() {
        return;
    }
    let ghost o = state.column_options@[state.selected_index as int]@;
    let kw = to_lowercase(state.search_keyword.as_str());
    let col = state.column_options[state.selected_index].first_col();
    let row = state.column_options[state.selected_index].first_row();
    let max = sheet.max_col;
    let cv = collect_row_values(sheet, row, col);
    state.total_searched = cv.len();
    if cv.len() == 0 {
        state.matched_count = 0;
        state.is_searching = true;
        let mut v: Vec<char> = Vec::new();
        push_str(&mut v, "选中");
        push_col_letters(&mut v, col);
        push_dec(&mut v, row as u64);
        push_str(&mut v, " → 行");
        push_dec(&mut v, row as u64);
        push_str(&mut v, "右侧无列可搜索（max_col=");
        push_dec(&mut v, max as u64);
        push_str(&mut v, "）");
        assert(v@ =~= empty_search_debug(o, max));
        state.debug_info = string_from(v.as_slice());
        return;
    }
    let (misses, sorted) = search_miss_set(sheet, &cv, &kw, row, col);
    state.use_binary_search = sorted;
    let mut hidden = misses;
    let before = hidden.len();
    expand_hidden_for_merged_cells(sheet, &mut hidden, row);
    hidden.remove(&col);
    let total = cv.len();
    let h = hidden.len();
    state.matched_count = if total > h {
        total - h
    } else {
        0
    };
    state.is_searching = true;
    state.debug_info = search_summary(
        &state.column_options[state.selected_index],
        max,
        &cv,
        state.matched_count,
        &hidden,
        before,
    );
    *hidden_columns = hidden;
}

// ---------------------------------------------------------------------------
// The column groups follow the filter expression
// ---------------------------------------------------------------------------

/// Where the AND-group holding condition `n - 1` starts.
pub open spec fn group_start(logic: Seq<FilterLogic>, n: int) -> int
    decreases n,
{
    if n <= 1 {
        0
    } else if is_or(logic, n - 2) {
        n - 1
    } else {
        group_start(logic, n - 1)
    }
}

proof fn lemma_group_start(logic: Seq<FilterLogic>, n: int)
    requires
        n >= 1,
    ensures
        0 <= group_start(logic, n) <= n - 1,
        group_start(logic, n) == 0 || is_or(logic, group_start(logic, n) - 1),
        forall|k: int| group_start(logic, n) < k < n ==> !#[trigger] or_before(logic, k),
    decreases n,
{
    if n > 1 && !is_or(logic, n - 2) {
        lemma_group_start(logic, n - 1);
    }
}

/// The groups ending by `n` are those ending by the start of the current
/// group, and the current group `[start, n)` when an OR (or the end) follows.
proof fn lemma_groups_upto_end(m: Seq<bool>, logic: Seq<FilterLogic>, len: int, n: int)
    requires
        1 <= n <= len,
        n == len || is_or(logic, n - 1),
    ensures
        (exists|s: int, e: int| is_group(len, logic, s, e) && e <= n && all_true(m, s, e)) == ((exists|
            s: int,
            e: int,
        | is_group(len, logic, s, e) && e <= group_start(logic, n) && all_true(m, s, e)) || all_true(
            m,
            group_start(logic, n),
            n,
        )),
{
    let gs = group_start(logic, n);
    lemma_group_start(logic, n);
    assert(is_group(len, logic, gs, n));
    if exists|s: int, e: int| is_group(len, logic, s, e) && e <= n && all_true(m, s, e) {
        let (s, e) = choose|s: int, e: int| is_group(len, logic, s, e) && e <= n && all_true(m, s, e);
        if e > gs {
            if s < gs {
                assert(or_before(logic, gs));
            } else if s > gs {
                assert(or_before(logic, s));
            } else if e < n {
                assert(or_before(logic, e));
            }
        }
    }
}

/// Law: with every active filter naming an option, a column is kept by the
/// combined column filters exactly when the filter expression holds for it,
/// each filter counting as true where it keeps the column: the same AND
/// before OR grouping as [`expr_holds`], which the row filters use.
pub proof fn lemma_column_groups_follow_expr<F: Fn(&String, &String) -> Option<NumOrder>>(
    f: F,
    sheet: SheetData,
    opts: Seq<RangeOption>,
    act: Seq<ColumnFilter>,
    c: u32,
)
    requires
        act.len() > 0,
        forall|i: int| 0 <= i < act.len() ==> valid_filter(opts, #[trigger] act[i]),
    ensures
        combined_visible(f, sheet, opts, act).contains(c) == expr_holds(
            act.map_values(|fl: ColumnFilter| filter_cols(f, sheet, opts, fl).0.contains(c)),
            act.map_values(|fl: ColumnFilter| fl.logic),
        ),
{
    let m = act.map_values(|fl: ColumnFilter| filter_cols(f, sheet, opts, fl).0.contains(c));
    let lg = act.map_values(|fl: ColumnFilter| fl.logic);
    let len = act.len() as int;
    lemma_groups_step(f, sheet, opts, act, c, len);
    lemma_groups_upto_end(m, lg, len, len);
}

proof fn lemma_groups_step<F: Fn(&String, &String) -> Option<NumOrder>>(
    f: F,
    sheet: SheetData,
    opts: Seq<RangeOption>,
    act: Seq<ColumnFilter>,
    c: u32,
    n: int,
)
    requires
        1 <= n <= act.len(),
        forall|i: int| 0 <= i < act.len() ==> valid_filter(opts, #[trigger] act[i]),
    ensures
        ({
            let m = act.map_values(|fl: ColumnFilter| filter_cols(f, sheet, opts, fl).0.contains(c));
            let lg = act.map_values(|fl: ColumnFilter| fl.logic);
            let g = groups_upto(f, sheet, opts, act, n);
            &&& g.1 is Some
            &&& g.1->0.contains(c) == all_true(m, group_start(lg, n), n)
            &&& g.0.contains(c) == exists|s: int, e: int|
                is_group(act.len() as int, lg, s, e) && e <= group_start(lg, n) && all_true(m, s, e)
        }),
    decreases n,
{
    let m = act.map_values(|fl: ColumnFilter| filter_cols(f, sheet, opts, fl).0.contains(c));
    let lg = act.map_values(|fl: ColumnFilter| fl.logic);
    let len = act.len() as int;
    assert(valid_filter(opts, act[n - 1]));
    if n == 1 {
        assert(groups_upto(f, sheet, opts, act, 0) == (Set::<u32>::empty(), None::<Set<u32>>));
        assert(all_true(m, 0, 1) == m[0]);
        assert forall|s: int, e: int| is_group(len, lg, s, e) implies !(e <= 0) by {}
    } else {
        lemma_groups_step(f, sheet, opts, act, c, n - 1);
        let gs = group_start(lg, n - 1);
        lemma_group_start(lg, n - 1);
        assert(lg[n - 2] == act[n - 2].logic);
        if joins_by_and(act, n - 1) {
            assert(!is_or(lg, n - 2));
            assert(group_start(lg, n) == gs);
            assert(all_true(m, gs, n) == (all_true(m, gs, n - 1) && m[n - 1]));
        } else {
            assert(is_or(lg, n - 2));
            assert(group_start(lg, n) == n - 1);
            lemma_groups_upto_end(m, lg, len, n - 1);
            assert(all_true(m, n - 1, n) == m[n - 1]);
        }
    }
}

} // verus!
