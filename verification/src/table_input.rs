//! What the keys and the mouse do to the selection in the table (Tab,
//! Shift+Tab and the arrows step over merged ranges; clicks, Shift+clicks and
//! drags never cut one), what entering edit mode starts from, what a copy
//! puts on the clipboard, and what a paste reads from it and writes.

use vstd::prelude::*;
use crate::sheet::{merged_at, CellData, CellRange, SheetData};
use crate::text::{
    chars_of, lacks, lemma_split_cons, lemma_split_single, lemma_split_step, piece_end,
    slice_to_vec, split_on, string_from,
};

verus! {

/// A key that moves the selection.
#[derive(Debug, Clone, Copy, PartialEq, Eq, Structural)]
pub enum NavKey {
    Tab,
    ShiftTab,
    Up,
    Down,
    Left,
    Right,
}

/// The merged ranges of the sheet, none when there is no sheet.
pub open spec fn merges_of(sheet: Option<&SheetData>) -> Seq<CellRange> {
    match sheet {
        Some(s) => s.merged_cells@,
        None => Seq::empty(),
    }
}

/// The first column of the merged range at the cell, else the column.
pub open spec fn start_col_at(ms: Seq<CellRange>, col: u32, row: u32) -> u32 {
    match merged_at(ms, col, row) {
        Some(m) => m.start_col,
        None => col,
    }
}

/// The last column of the merged range at the cell, else the column.
pub open spec fn end_col_at(ms: Seq<CellRange>, col: u32, row: u32) -> u32 {
    match merged_at(ms, col, row) {
        Some(m) => m.end_col,
        None => col,
    }
}

/// The first row of the merged range at the cell, else the row.
pub open spec fn start_row_at(ms: Seq<CellRange>, col: u32, row: u32) -> u32 {
    match merged_at(ms, col, row) {
        Some(m) => m.start_row,
        None => row,
    }
}

/// Where a key moves the selection from `(col, row)` on a sheet of
/// `max_col` columns and `max_row` rows: Tab goes right past the end of a
/// merged range and wraps to column 1 of the next row, Shift+Tab goes left
/// and wraps to the last column of the row above (from column 1 it stays),
/// the arrows move one step without wrapping; a cell landed on inside a
/// merged range becomes the range's first column (or first row, for up and
/// down).
pub open spec fn nav_target(ms: Seq<CellRange>, col: u32, row: u32, max_col: u32, max_row: u32, key: NavKey) -> (u32, u32) {
    match key {
        NavKey::Tab => {
            let cur = end_col_at(ms, col, row);
            if cur < max_col {
                (start_col_at(ms, (cur + 1) as u32, row), row)
            } else if row < max_row {
                (start_col_at(ms, 1, (row + 1) as u32), (row + 1) as u32)
            } else {
                (col, row)
            }
        },
        NavKey::ShiftTab => {
            let cur = start_col_at(ms, col, row);
            if col <= 1 {
                (col, row)
            } else if cur > 1 {
                (start_col_at(ms, (cur - 1) as u32, row), row)
            } else if row > 1 {
                (start_col_at(ms, max_col, (row - 1) as u32), (row - 1) as u32)
            } else {
                (col, row)
            }
        },
        NavKey::Up => if row > 1 {
            (col, start_row_at(ms, col, (row - 1) as u32))
        } else {
            (col, row)
        },
        NavKey::Down => if row < max_row {
            (col, start_row_at(ms, col, (row + 1) as u32))
        } else {
            (col, row)
        },
        NavKey::Left => {
            let cur = start_col_at(ms, col, row);
            if col > 1 && cur > 1 {
                (start_col_at(ms, (cur - 1) as u32, row), row)
            } else {
                (col, row)
            }
        },
        NavKey::Right => {
            let cur = end_col_at(ms, col, row);
            if cur < max_col {
                (start_col_at(ms, (cur + 1) as u32, row), row)
            } else {
                (col, row)
            }
        },
    }
}

fn merged_of(sheet: Option<&SheetData>, col: u32, row: u32) -> (r: Option<CellRange>)
    ensures
        r == merged_at(merges_of(sheet), col, row),
{
    match sheet {
        Some(s) => s.get_merged_range(col, row),
        None => None,
    }
}

fn start_col_of(sheet: Option<&SheetData>, col: u32, row: u32) -> (r: u32)
    ensures
        r == start_col_at(merges_of(sheet), col, row),
{
    match merged_of(sheet, col, row) {
        Some(m) => m.start_col,
        None => col,
    }
}

fn end_col_of(sheet: Option<&SheetData>, col: u32, row: u32) -> (r: u32)
    ensures
        r == end_col_at(merges_of(sheet), col, row),
{
    match merged_of(sheet, col, row) {
        Some(m) => m.end_col,
        None => col,
    }
}

fn start_row_of(sheet: Option<&SheetData>, col: u32, row: u32) -> (r: u32)
    ensures
        r == start_row_at(merges_of(sheet), col, row),
{
    match merged_of(sheet, col, row) {
        Some(m) => m.start_row,
        None => row,
    }
}

/// Where `key` moves the selected cell `(col, row)`; the sheet (when there
/// is one) gives the merged ranges.
pub fn next_cell(sheet: Option<&SheetData>, col: u32, row: u32, max_col: u32, max_row: u32, key: NavKey) -> (r: (
    u32,
    u32,
))
    ensures
        r == nav_target(merges_of(sheet), col, row, max_col, max_row, key),
{
    match key {
        NavKey::Tab => {
            let cur = end_col_of(sheet, col, row);
            if cur < max_col {
                (start_col_of(sheet, cur + 1, row), row)
            } else if row < max_row {
                (start_col_of(sheet, 1, row + 1), row + 1)
            } else {
                (col, row)
            }
        },
        NavKey::ShiftTab => {
            if col <= 1 {
                return (col, row);
            }
            let cur = start_col_of(sheet, col, row);
            if cur > 1 {
                (start_col_of(sheet, cur - 1, row), row)
            } else if row > 1 {
                (start_col_of(sheet, max_col, row - 1), row - 1)
            } else {
                (col, row)
            }
        },
        NavKey::Up => {
            if row > 1 {
                (col, start_row_of(sheet, col, row - 1))
            } else {
                (col, row)
            }
        },
        NavKey::Down => {
            if row < max_row {
                (col, start_row_of(sheet, col, row + 1))
            } else {
                (col, row)
            }
        },
        NavKey::Left => {
            if col <= 1 {
                return (col, row);
            }
            let cur = start_col_of(sheet, col, row);
            if cur > 1 {
                (start_col_of(sheet, cur - 1, row), row)
            } else {
                (col, row)
            }
        },
        NavKey::Right => {
            let cur = end_col_of(sheet, col, row);
            if cur < max_col {
                (start_col_of(sheet, cur + 1, row), row)
            } else {
                (col, row)
            }
        },
    }
}


// ---------------------------------------------------------------------------
// Clipboard text: rows ended by `\n`, cells within a row joined by `\t`
// ---------------------------------------------------------------------------

/// The texts of a list of strings.
pub open spec fn strs(v: Seq<String>) -> Seq<Seq<char>> {
    v.map_values(|s: String| s@)
}

/// The texts of a grid of strings.
pub open spec fn grid_view(v: Seq<Vec<String>>) -> Seq<Seq<Seq<char>>> {
    v.map_values(|r: Vec<String>| strs(r@))
}

/// The cells of a row joined with tabs.
pub open spec fn join_tab(cells: Seq<Seq<char>>) -> Seq<char>
    decreases cells.len(),
{
    if cells.len() == 0 {
        Seq::empty()
    } else if cells.len() == 1 {
        cells[0]
    } else {
        cells[0] + seq!['\t'] + join_tab(cells.drop_first())
    }
}

/// Rows as clipboard text: each row joined with tabs and ended by `\n`.
pub open spec fn tsv_of(rows: Seq<Seq<Seq<char>>>) -> Seq<char>
    decreases rows.len(),
{
    if rows.len() == 0 {
        Seq::empty()
    } else {
        join_tab(rows[0]) + seq!['\n'] + tsv_of(rows.drop_first())
    }
}

/// The rows a paste reads from lines: empty lines are skipped, the others
/// are split at tabs.
pub open spec fn paste_rows(lines: Seq<Seq<char>>) -> Seq<Seq<Seq<char>>>
    decreases lines.len(),
{
    if lines.len() == 0 {
        Seq::empty()
    } else {
        (if lines[0].len() > 0 {
            seq![split_on(lines[0], '\t')]
        } else {
            Seq::empty()
        }) + paste_rows(lines.drop_first())
    }
}

/// What a paste of `text` reads: its lines split at tabs, empty lines left
/// out; nothing when no line is left.
pub open spec fn paste_spec(text: Seq<char>) -> Option<Seq<Seq<Seq<char>>>> {
    let rows = paste_rows(split_on(text, '\n'));
    if rows.len() > 0 {
        Some(rows)
    } else {
        None
    }
}

/// `t[lo..hi]` split at `c`, as strings.
fn split_strings(t: &[char], lo: usize, hi: usize, c: char) -> (r: Vec<String>)
    requires
        lo <= hi <= t@.len(),
    ensures
        strs(r@) == split_on(t@.subrange(lo as int, hi as int), c),
{
    let piece = slice_to_vec(t, lo, hi);
    let p = piece.as_slice();
    let n = p.len();
    let ghost whole = split_on(p@, c);
    let mut out: Vec<String> = Vec::new();
    let mut pos: usize = 0;
    assert(p@.skip(0) =~= p@);
    loop
        invariant_except_break
            n == p@.len(),
            pos <= n,
            strs(out@) + split_on(p@.skip(pos as int), c) == whole,
        ensures
            strs(out@) == whole,
        decreases n - pos,
    {
        let end = piece_end(p, pos, c);
        proof {
            lemma_split_step(p@, c, pos as int, end as int);
        }
        let ghost tail = if end < n {
            split_on(p@.skip(end + 1), c)
        } else {
            Seq::<Seq<char>>::empty()
        };
        let ghost before = strs(out@);
        let v = slice_to_vec(p, pos, end);
        out.push(string_from(v.as_slice()));
        assert(strs(out@) =~= before + seq![v@]);
        if end == n {
            assert(strs(out@) =~= whole);
            break;
        }
        pos = end + 1;
        assert(strs(out@) + split_on(p@.skip(pos as int), c) =~= whole);
    }
    out
}

/// What a paste of `text` gives: the rows of cells it holds (lines split at
/// `\n`, empty lines left out, cells split at `\t`), nothing when there is
/// no row.
pub fn paste_grid(text: &str) -> (r: Option<Vec<Vec<String>>>)
    ensures
        match r {
            Some(rows) => paste_spec(text@) == Some(grid_view(rows@)),
            None => paste_spec(text@) is None,
        },
{
    let tv = chars_of(text);
    let t = tv.as_slice();
    let n = t.len();
    let ghost whole = paste_rows(split_on(t@, '\n'));
    let mut rows: Vec<Vec<String>> = Vec::new();
    let mut pos: usize = 0;
    assert(t@.skip(0) =~= t@);
    loop
        invariant_except_break
            n == t@.len(),
            t@ == text@,
            pos <= n,
            grid_view(rows@) + paste_rows(split_on(t@.skip(pos as int), '\n')) == whole,
        ensures
            grid_view(rows@) == whole,
        decreases n - pos,
    {
        let end = piece_end(t, pos, '\n');
        proof {
            lemma_split_step(t@, '\n', pos as int, end as int);
        }
        let ghost tail = if end < n {
            split_on(t@.skip(end + 1), '\n')
        } else {
            Seq::<Seq<char>>::empty()
        };
        let ghost line = t@.subrange(pos as int, end as int);
        let ghost before = grid_view(rows@);
        proof {
            assert((seq![line] + tail).drop_first() =~= tail);
            assert((seq![line] + tail)[0] == line);
        }
        if end > pos {
            let cells = split_strings(t, pos, end, '\t');
            rows.push(cells);
            assert(grid_view(rows@) =~= before + seq![split_on(line, '\t')]);
        } else {
            assert(line.len() == 0);
        }
        if end == n {
            assert(paste_rows(Seq::<Seq<char>>::empty()) =~= Seq::<Seq<Seq<char>>>::empty());
            assert(grid_view(rows@) =~= whole);
            break;
        }
        pos = end + 1;
        assert(grid_view(rows@) + paste_rows(split_on(t@.skip(pos as int), '\n')) =~= whole);
    }
    assert(grid_view(rows@).len() == rows@.len());
    if rows.len() > 0 {
        Some(rows)
    } else {
        None
    }
}


proof fn lemma_join_push(cells: Seq<Seq<char>>, x: Seq<char>)
    ensures
        join_tab(cells.push(x)) == if cells.len() == 0 {
            x
        } else {
            join_tab(cells) + seq!['\t'] + x
        },
    decreases cells.len(),
{
    let p = cells.push(x);
    if cells.len() == 0 {
        assert(p.len() == 1 && p[0] == x);
    } else if cells.len() == 1 {
        assert(p.drop_first() =~= seq![x]);
        assert(join_tab(seq![x]) == x);
    } else {
        assert(p.drop_first() =~= cells.drop_first().push(x));
        lemma_join_push(cells.drop_first(), x);
        assert(join_tab(p) =~= join_tab(cells) + seq!['\t'] + x);
    }
}

proof fn lemma_tsv_push(rows: Seq<Seq<Seq<char>>>, row: Seq<Seq<char>>)
    ensures
        tsv_of(rows.push(row)) == tsv_of(rows) + join_tab(row) + seq!['\n'],
    decreases rows.len(),
{
    let p = rows.push(row);
    if rows.len() == 0 {
        assert(p.drop_first() =~= Seq::<Seq<Seq<char>>>::empty());
        assert(p[0] == row);
        assert(tsv_of(Seq::<Seq<Seq<char>>>::empty()) == Seq::<char>::empty());
        assert(tsv_of(rows) == Seq::<char>::empty());
        assert(tsv_of(p) =~= tsv_of(rows) + join_tab(row) + seq!['\n']);
    } else {
        assert(p.drop_first() =~= rows.drop_first().push(row));
        lemma_tsv_push(rows.drop_first(), row);
        assert(tsv_of(p) =~= tsv_of(rows) + join_tab(row) + seq!['\n']);
    }
}

/// A formula as it is shown for editing and copied: with a leading `=`.
pub open spec fn formula_text(f: Seq<char>) -> Seq<char> {
    if f.len() > 0 && f[0] == '=' {
        f
    } else {
        seq!['='] + f
    }
}

/// The text of a cell for editing and copying: its formula when it has one,
/// else the text shown for it.
pub open spec fn cell_text(c: CellData) -> Seq<char> {
    if c.formula@.len() > 0 {
        formula_text(c.formula@)
    } else {
        c.display@
    }
}

/// The text copied for the cell at `(row, col)`: empty when there is none.
pub open spec fn copy_cell(sheet: SheetData, row: int, col: int) -> Seq<char> {
    match sheet.cell(row as u32, col as u32) {
        Some(c) => cell_text(c),
        None => Seq::empty(),
    }
}

/// The texts of the cells of columns `sc..=ec`, rows `sr..=er`, row by row.
pub open spec fn copy_grid(sheet: SheetData, sc: u32, sr: u32, ec: u32, er: u32) -> Seq<Seq<Seq<char>>> {
    Seq::new(
        (er - sr + 1) as nat,
        |i: int| Seq::new((ec - sc + 1) as nat, |j: int| copy_cell(sheet, sr + i, sc + j)),
    )
}

/// The block a copy takes: the selected range with its corners put in
/// order, else the selected cell, else nothing (column 0).
pub open spec fn copy_bounds(cell: Option<(u32, u32)>, range: Option<(u32, u32, u32, u32)>) -> (u32, u32, u32, u32) {
    match range {
        Some((c0, r0, c1, r1)) => (
            if c0 < c1 { c0 } else { c1 },
            if r0 < r1 { r0 } else { r1 },
            if c0 > c1 { c0 } else { c1 },
            if r0 > r1 { r0 } else { r1 },
        ),
        None => match cell {
            Some((c, r)) => (c, r, c, r),
            None => (0, 0, 0, 0),
        },
    }
}

/// What a copy puts on the clipboard: the block's rows as tab-separated
/// lines, nothing when the block starts at column 0.
pub open spec fn copy_spec(sheet: SheetData, cell: Option<(u32, u32)>, range: Option<(u32, u32, u32, u32)>) -> Option<Seq<char>> {
    let (sc, sr, ec, er) = copy_bounds(cell, range);
    if sc > 0 {
        Some(tsv_of(copy_grid(sheet, sc, sr, ec, er)))
    } else {
        None
    }
}

/// The text of a cell for editing and copying.
pub fn cell_edit_text(cell: &CellData) -> (r: String)
    ensures
        r@ == cell_text(*cell),
{
    let f = chars_of(cell.formula.as_str());
    if f.len() > 0 {
        if f[0] == '=' {
            string_from(f.as_slice())
        } else {
            let mut v: Vec<char> = Vec::new();
            v.push('=');
            crate::text::push_all(&mut v, f.as_slice());
            assert(v@ =~= seq!['='] + cell.formula@);
            string_from(v.as_slice())
        }
    } else {
        crate::text::string_clone(&cell.display)
    }
}

fn copy_cell_chars(sheet: &SheetData, row: u32, col: u32) -> (r: Vec<char>)
    ensures
        r@ == copy_cell(*sheet, row as int, col as int),
{
    match sheet.get_cell(row, col) {
        Some(c) => chars_of(cell_edit_text(c).as_str()),
        None => Vec::new(),
    }
}

/// What a copy of the selection puts on the clipboard.
pub fn copy_selection(sheet: &SheetData, selected_cell: Option<(u32, u32)>, selected_range: Option<(u32, u32, u32, u32)>) -> (r: Option<String>)
    ensures
        match r {
            Some(t) => copy_spec(*sheet, selected_cell, selected_range) == Some(t@),
            None => copy_spec(*sheet, selected_cell, selected_range) is None,
        },
{
    let (sc, sr, ec, er) = match selected_range {
        Some((c0, r0, c1, r1)) => (
            if c0 < c1 { c0 } else { c1 },
            if r0 < r1 { r0 } else { r1 },
            if c0 > c1 { c0 } else { c1 },
            if r0 > r1 { r0 } else { r1 },
        ),
        None => match selected_cell {
            Some((c, r)) => (c, r, c, r),
            None => (0, 0, 0, 0),
        },
    };
    if sc == 0 {
        return None;
    }
    let ghost grid = copy_grid(*sheet, sc, sr, ec, er);
    let mut out: Vec<char> = Vec::new();
    let mut r: u64 = sr as u64;
    assert(grid.take(0) =~= Seq::<Seq<Seq<char>>>::empty());
    while r <= er as u64
        invariant
            sr <= er,
            sc <= ec,
            sr <= r <= er as u64 + 1,
            grid == copy_grid(*sheet, sc, sr, ec, er),
            out@ == tsv_of(grid.take(r - sr)),
        decreases er as u64 + 1 - r,
    {
        let ghost row = grid[r - sr];
        let mut line: Vec<char> = Vec::new();
        let mut c: u64 = sc as u64;
        assert(row.take(0) =~= Seq::<Seq<char>>::empty());
        while c <= ec as u64
            invariant
                sc <= ec,
                sc <= c <= ec as u64 + 1,
                sr <= r <= er,
                row == grid[r - sr],
                grid == copy_grid(*sheet, sc, sr, ec, er),
                line@ == join_tab(row.take(c - sc)),
            decreases ec as u64 + 1 - c,
        {
            let ghost before = row.take(c - sc);
            if c > sc as u64 {
                line.push('\t');
            }
            let cell = copy_cell_chars(sheet, r as u32, c as u32);
            crate::text::push_all(&mut line, cell.as_slice());
            proof {
                assert(row[c - sc] == copy_cell(*sheet, r as int, c as int));
                assert(row.take(c - sc + 1) =~= before.push(cell@));
                lemma_join_push(before, cell@);
                if c > sc {
                    assert(line@ =~= join_tab(before) + seq!['\t'] + cell@);
                } else {
                    assert(line@ =~= cell@);
                }
            }
            c += 1;
        }
        let ghost prev = grid.take(r - sr);
        crate::text::push_all(&mut out, line.as_slice());
        out.push('\n');
        proof {
            assert(row.take(c - sc) =~= row);
            assert(grid.take(r - sr + 1) =~= prev.push(row));
            lemma_tsv_push(prev, row);
            assert(out@ =~= tsv_of(prev) + join_tab(row) + seq!['\n']);
        }
        r += 1;
    }
    assert(grid.take(r - sr) =~= grid);
    Some(string_from(out.as_slice()))
}


proof fn lemma_split_join(row: Seq<Seq<char>>)
    requires
        row.len() >= 1,
        forall|j: int| 0 <= j < row.len() ==> lacks(#[trigger] row[j], '\t') && lacks(row[j], '\n'),
    ensures
        split_on(join_tab(row), '\t') == row,
        lacks(join_tab(row), '\n'),
    decreases row.len(),
{
    if row.len() == 1 {
        lemma_split_single(row[0], '\t');
        assert(seq![row[0]] =~= row);
    } else {
        let rest = row.drop_first();
        assert forall|j: int| 0 <= j < rest.len() implies lacks(#[trigger] rest[j], '\t') && lacks(
            rest[j],
            '\n',
        ) by {
            assert(rest[j] == row[j + 1]);
        }
        lemma_split_join(rest);
        assert(lacks(row[0], '\t') && lacks(row[0], '\n'));
        lemma_split_cons(row[0], join_tab(rest), '\t');
        assert(seq![row[0]] + rest =~= row);
        let s = row[0] + seq!['\t'] + join_tab(rest);
        assert forall|i: int| 0 <= i < s.len() implies s[i] != '\n' by {
            if i < row[0].len() {
                assert(s[i] == row[0][i]);
            } else if i > row[0].len() {
                assert(s[i] == join_tab(rest)[i - row[0].len() - 1]);
            }
        }
    }
}

/// Whether rows come back from the clipboard as they went in: each has a
/// cell, no cell holds a tab or a line break, and no row's line is empty.
pub open spec fn clipboard_safe(rows: Seq<Seq<Seq<char>>>) -> bool {
    forall|i: int|
        0 <= i < rows.len() ==> (#[trigger] rows[i]).len() >= 1 && join_tab(rows[i]).len() > 0
            && forall|j: int|
            0 <= j < rows[i].len() ==> lacks(#[trigger] rows[i][j], '\t') && lacks(rows[i][j], '\n')
}

proof fn lemma_paste_rows_tsv(rows: Seq<Seq<Seq<char>>>)
    requires
        clipboard_safe(rows),
    ensures
        paste_rows(split_on(tsv_of(rows), '\n')) == rows,
    decreases rows.len(),
{
    if rows.len() == 0 {
        lemma_split_single(Seq::<char>::empty(), '\n');
        let e = seq![Seq::<char>::empty()];
        assert(e.drop_first() =~= Seq::<Seq<char>>::empty());
        assert(e[0].len() == 0);
        assert(paste_rows(Seq::<Seq<char>>::empty()) == Seq::<Seq<Seq<char>>>::empty());
        assert(paste_rows(e) =~= Seq::<Seq<Seq<char>>>::empty());
    } else {
        let rest = rows.drop_first();
        assert forall|i: int| 0 <= i < rest.len() implies (#[trigger] rest[i]).len() >= 1 && join_tab(
            rest[i],
        ).len() > 0 && forall|j: int|
            0 <= j < rest[i].len() ==> lacks(#[trigger] rest[i][j], '\t') && lacks(rest[i][j], '\n') by {
            assert(rest[i] == rows[i + 1]);
        }
        lemma_paste_rows_tsv(rest);
        let row = rows[0];
        assert(row.len() >= 1 && join_tab(row).len() > 0);
        assert forall|j: int| 0 <= j < row.len() implies lacks(#[trigger] row[j], '\t') && lacks(
            row[j],
            '\n',
        ) by {
            assert(row[j] == rows[0][j]);
        }
        lemma_split_join(row);
        let line = join_tab(row);
        lemma_split_cons(line, tsv_of(rest), '\n');
        let lines = seq![line] + split_on(tsv_of(rest), '\n');
        assert(lines.drop_first() =~= split_on(tsv_of(rest), '\n'));
        assert(lines[0] == line);
        assert(seq![row] + rest =~= rows);
    }
}

/// A paste reads back what a copy wrote: rows put on the clipboard as
/// tab-separated lines come back as the same rows, as long as each row has
/// a cell, no cell holds a tab or a line break, and no row's line is empty
/// (such a row is skipped by the paste).
pub proof fn lemma_paste_reads_copy(rows: Seq<Seq<Seq<char>>>)
    requires
        rows.len() > 0,
        clipboard_safe(rows),
    ensures
        paste_spec(tsv_of(rows)) == Some(rows),
{
    lemma_paste_rows_tsv(rows);
}

proof fn lemma_merged_at_covers(ms: Seq<CellRange>, col: u32, row: u32)
    ensures
        merged_at(ms, col, row) matches Some(m) ==> m.covers(col, row) && ms.contains(m),
    decreases ms.len(),
{
    if ms.len() > 0 && !ms[0].covers(col, row) {
        lemma_merged_at_covers(ms.drop_first(), col, row);
        if let Some(m) = merged_at(ms.drop_first(), col, row) {
            let k = choose|k: int| 0 <= k < ms.drop_first().len() && ms.drop_first()[k] == m;
            assert(ms[k + 1] == m);
        }
    } else if ms.len() > 0 {
        assert(ms[0] == ms[0]);
    }
}

/// Whether the merged ranges start inside the sheet (row and column 1 on).
pub open spec fn merges_start_in_sheet(ms: Seq<CellRange>) -> bool {
    forall|i: int| 0 <= i < ms.len() ==> (#[trigger] ms[i]).start_col >= 1 && ms[i].start_row >= 1
}

proof fn lemma_at_bounds(ms: Seq<CellRange>, c: u32, r: u32)
    requires
        1 <= c,
        1 <= r,
        merges_start_in_sheet(ms),
    ensures
        1 <= start_col_at(ms, c, r) <= c,
        1 <= start_row_at(ms, c, r) <= r,
        c <= end_col_at(ms, c, r),
{
    lemma_merged_at_covers(ms, c, r);
    if let Some(m) = merged_at(ms, c, r) {
        let k = choose|k: int| 0 <= k < ms.len() && ms[k] == m;
        assert(ms[k].start_col >= 1 && ms[k].start_row >= 1);
    }
}

/// The keys keep the selection inside the sheet: from a cell of a sheet of
/// `max_col` columns and `max_row` rows whose merged ranges start inside it,
/// every key lands on a cell of the sheet.
pub proof fn lemma_nav_stays_in_sheet(ms: Seq<CellRange>, col: u32, row: u32, max_col: u32, max_row: u32, key: NavKey)
    requires
        1 <= col <= max_col,
        1 <= row <= max_row,
        merges_start_in_sheet(ms),
    ensures
        ({
            let t = nav_target(ms, col, row, max_col, max_row, key);
            1 <= t.0 <= max_col && 1 <= t.1 <= max_row
        }),
{
    lemma_at_bounds(ms, col, row);
    let ec = end_col_at(ms, col, row);
    let sc = start_col_at(ms, col, row);
    match key {
        NavKey::Tab => {
            if ec < max_col {
                lemma_at_bounds(ms, (ec + 1) as u32, row);
            } else if row < max_row {
                lemma_at_bounds(ms, 1, (row + 1) as u32);
            }
        },
        NavKey::ShiftTab => {
            if col > 1 && sc > 1 {
                lemma_at_bounds(ms, (sc - 1) as u32, row);
            } else if col > 1 && row > 1 {
                lemma_at_bounds(ms, max_col, (row - 1) as u32);
            }
        },
        NavKey::Up => {
            if row > 1 {
                lemma_at_bounds(ms, col, (row - 1) as u32);
            }
        },
        NavKey::Down => {
            if row < max_row {
                lemma_at_bounds(ms, col, (row + 1) as u32);
            }
        },
        NavKey::Left => {
            if col > 1 && sc > 1 {
                lemma_at_bounds(ms, (sc - 1) as u32, row);
            }
        },
        NavKey::Right => {
            if ec < max_col {
                lemma_at_bounds(ms, (ec + 1) as u32, row);
            }
        },
    }
}


/// What entering edit mode starts from: the cell edited (the first cell of
/// the merged range that holds the selection), the text in the editor, and
/// the cell's value and formula before the edit.
#[derive(Debug)]
pub struct EditStart {
    pub col: u32,
    pub row: u32,
    pub text: String,
    pub value_before: String,
    pub formula_before: String,
}

/// The cell that editing the selected cell `(col, row)` edits.
pub open spec fn edit_cell(ms: Seq<CellRange>, col: u32, row: u32) -> (u32, u32) {
    match merged_at(ms, col, row) {
        Some(m) => (m.start_col, m.start_row),
        None => (col, row),
    }
}

/// Enters edit mode on the selected cell `(col, row)`: the editor holds the
/// typed text when editing began by typing (`seed`), else the cell's text
/// (its formula with a leading `=`, or its shown text; empty for no cell).
pub fn edit_start(sheet: &SheetData, col: u32, row: u32, seed: Option<String>) -> (r: EditStart)
    ensures
        (r.col, r.row) == edit_cell(sheet.merged_cells@, col, row),
        r.text@ == match seed {
            Some(s) => s@,
            None => copy_cell(*sheet, r.row as int, r.col as int),
        },
        r.value_before@ == match sheet.cell(r.row, r.col) {
            Some(c) => c.value@,
            None => Seq::empty(),
        },
        r.formula_before@ == match sheet.cell(r.row, r.col) {
            Some(c) => c.formula@,
            None => Seq::empty(),
        },
{
    let (ec, er) = match sheet.get_merged_range(col, row) {
        Some(m) => (m.start_col, m.start_row),
        None => (col, row),
    };
    let text = match seed {
        Some(s) => s,
        None => string_from(copy_cell_chars(sheet, er, ec).as_slice()),
    };
    let (ov, of) = match sheet.get_cell(er, ec) {
        Some(c) => (crate::text::string_clone(&c.value), crate::text::string_clone(&c.formula)),
        None => (String::new(), String::new()),
    };
    EditStart { col: ec, row: er, text, value_before: ov, formula_before: of }
}

// ---------------------------------------------------------------------------
// Writing a paste into the sheet
// ---------------------------------------------------------------------------

/// One cell a paste writes: its column and row, the pasted text, and
/// whether the text is a formula (it starts with `=`; it then replaces the
/// cell's formula, else its value, clearing the formula).
#[derive(Debug, PartialEq, Eq)]
pub struct PasteWrite {
    pub col: u32,
    pub row: u32,
    pub text: String,
    pub is_formula: bool,
}

/// Whether a pasted text is a formula.
pub open spec fn is_formula_text(t: Seq<char>) -> bool {
    t.len() > 0 && t[0] == '='
}

/// The cells one pasted row writes, from column `c` along row `r`.
pub open spec fn row_writes(vals: Seq<Seq<char>>, c: int, r: int) -> Seq<(int, int, Seq<char>)> {
    Seq::new(vals.len(), |j: int| (c + j, r, vals[j]))
}

/// The cells a paste of `rows` at `(c, r)` writes, row after row.
pub open spec fn grid_writes(rows: Seq<Seq<Seq<char>>>, c: int, r: int) -> Seq<(int, int, Seq<char>)>
    decreases rows.len(),
{
    if rows.len() == 0 {
        Seq::empty()
    } else {
        grid_writes(rows.drop_last(), c, r) + row_writes(rows.last(), c, r + rows.len() - 1)
    }
}

pub open spec fn write_views(v: Seq<PasteWrite>) -> Seq<(int, int, Seq<char>)> {
    v.map_values(|w: PasteWrite| (w.col as int, w.row as int, w.text@))
}

/// What a paste does: the cells it writes, whether one of them is a
/// formula (the sheet is then evaluated again as a whole), and the range
/// selected afterwards (the pasted block, when it is more than one cell).
#[derive(Debug)]
pub struct PastePlan {
    pub writes: Vec<PasteWrite>,
    pub has_formula: bool,
    pub selected_range: Option<(u32, u32, u32, u32)>,
}

/// Whether every cell of a paste of `rows` at `(col, row)` lies within
/// `u32` positions.
pub open spec fn paste_fits(rows: Seq<Seq<Seq<char>>>, col: u32, row: u32) -> bool {
    &&& row + rows.len() <= u32::MAX + 1
    &&& forall|i: int| 0 <= i < rows.len() ==> col + (#[trigger] rows[i]).len() <= u32::MAX + 1
}

/// The paste of the rows read from the clipboard at the selected cell
/// `(col, row)`.
pub fn paste_plan(rows: &Vec<Vec<String>>, col: u32, row: u32) -> (p: PastePlan)
    requires
        rows@.len() > 0,
        rows@[0]@.len() > 0,
        paste_fits(grid_view(rows@), col, row),
    ensures
        write_views(p.writes@) == grid_writes(grid_view(rows@), col as int, row as int),
        forall|i: int| 0 <= i < p.writes@.len() ==> (#[trigger] p.writes@[i]).is_formula == is_formula_text(
            p.writes@[i].text@,
        ),
        p.has_formula == exists|i: int| 0 <= i < p.writes@.len() && (#[trigger] p.writes@[i]).is_formula,
        p.selected_range == (if rows@.len() > 1 || rows@[0]@.len() > 1 {
            Some((col, row, (col + rows@[0]@.len() - 1) as u32, (row + rows@.len() - 1) as u32))
        } else {
            None
        }),
{
    let ghost g = grid_view(rows@);
    let mut writes: Vec<PasteWrite> = Vec::new();
    let mut has_formula = false;
    let mut dr: usize = 0;
    assert(g.take(0) =~= Seq::<Seq<Seq<char>>>::empty());
    while dr < rows.len()
        invariant
            g == grid_view(rows@),
            rows@.len() > 0,
            paste_fits(g, col, row),
            dr <= rows@.len(),
            write_views(writes@) == grid_writes(g.take(dr as int), col as int, row as int),
            forall|i: int| 0 <= i < writes@.len() ==> (#[trigger] writes@[i]).is_formula == is_formula_text(
                writes@[i].text@,
            ),
            has_formula == exists|i: int| 0 <= i < writes@.len() && (#[trigger] writes@[i]).is_formula,
        decreases rows@.len() - dr,
    {
        let vals = &rows[dr];
        let ghost before = write_views(writes@);
        let ghost gr = g[dr as int];
        assert(gr == strs(vals@));
        assert(col + gr.len() <= u32::MAX + 1);
        let r: u32 = row + dr as u32;
        let mut dc: usize = 0;
        assert(gr.take(0) =~= Seq::<Seq<char>>::empty());
        assert(before + row_writes(gr.take(0), col as int, r as int) =~= before);
        while dc < vals.len()
            invariant
                gr == strs(vals@),
                col + gr.len() <= u32::MAX + 1,
                dc <= vals@.len(),
                write_views(writes@) == before + row_writes(gr.take(dc as int), col as int, r as int),
                forall|i: int| 0 <= i < writes@.len() ==> (#[trigger] writes@[i]).is_formula == is_formula_text(
                    writes@[i].text@,
                ),
                has_formula == exists|i: int| 0 <= i < writes@.len() && (#[trigger] writes@[i]).is_formula,
            decreases vals@.len() - dc,
        {
            let text = crate::text::string_clone(&vals[dc]);
            let tc = chars_of(text.as_str());
            let f = tc.len() > 0 && tc[0] == '=';
            let c: u32 = col + dc as u32;
            let ghost w0 = writes@;
            writes.push(PasteWrite { col: c, row: r, text, is_formula: f });
            if f {
                has_formula = true;
            }
            proof {
                assert(writes@.last().is_formula == f);
                assert(write_views(writes@) =~= write_views(w0).push((c as int, r as int, gr[dc as int])));
                assert(row_writes(gr.take(dc + 1), col as int, r as int) =~= row_writes(
                    gr.take(dc as int),
                    col as int,
                    r as int,
                ).push((c as int, r as int, gr[dc as int])));
                assert forall|i: int| 0 <= i < writes@.len() implies (#[trigger] writes@[i]).is_formula
                    == is_formula_text(writes@[i].text@) by {
                    if i < w0.len() {
                        assert(writes@[i] == w0[i]);
                    }
                }
                if f {
                    assert(writes@[writes@.len() - 1].is_formula);
                } else {
                    if exists|i: int| 0 <= i < writes@.len() && (#[trigger] writes@[i]).is_formula {
                        let i = choose|i: int| 0 <= i < writes@.len() && (#[trigger] writes@[i]).is_formula;
                        if i < w0.len() {
                            assert(writes@[i] == w0[i]);
                        }
                    }
                    if exists|i: int| 0 <= i < w0.len() && (#[trigger] w0[i]).is_formula {
                        let i = choose|i: int| 0 <= i < w0.len() && (#[trigger] w0[i]).is_formula;
                        assert(writes@[i] == w0[i]);
                    }
                }
            }
            dc += 1;
        }
        proof {
            assert(gr.take(dc as int) =~= gr);
            assert(g.take(dr + 1).drop_last() =~= g.take(dr as int));
            assert(g.take(dr + 1).last() == gr);
        }
        dr += 1;
    }
    assert(g.take(rows@.len() as int) =~= g);
    let n_rows = rows.len();
    let n_cols = rows[0].len();
    let selected_range = if n_rows > 1 || n_cols > 1 {
        proof {
            assert(g[0] == strs(rows@[0]@));
            assert(col + g[0].len() <= u32::MAX + 1);
        }
        Some((col, row, (col as u64 + n_cols as u64 - 1) as u32, (row as u64 + n_rows as u64 - 1) as u32))
    } else {
        None
    };
    let ghost ws = writes@;
    assert(has_formula == exists|i: int| 0 <= i < ws.len() && (#[trigger] ws[i]).is_formula);
    let plan = PastePlan { writes, has_formula, selected_range };
    assert(plan.writes@ == ws);
    plan
}

// ---------------------------------------------------------------------------
// Selecting with the mouse
// ---------------------------------------------------------------------------

/// The block a cell stands for when selecting: its merged range, else the
/// cell alone, as `(start_col, start_row, end_col, end_row)`.
pub open spec fn block_at(ms: Seq<CellRange>, col: u32, row: u32) -> (u32, u32, u32, u32) {
    match merged_at(ms, col, row) {
        Some(m) => (m.start_col, m.start_row, m.end_col, m.end_row),
        None => (col, row, col, row),
    }
}

pub open spec fn min_u32(a: u32, b: u32) -> u32 {
    if a < b {
        a
    } else {
        b
    }
}

pub open spec fn max_u32(a: u32, b: u32) -> u32 {
    if a > b {
        a
    } else {
        b
    }
}

/// The range selected from the anchor `a` to the cell `b`: the smallest
/// range holding both blocks, so a merged range is never cut.
pub open spec fn span_of(ms: Seq<CellRange>, a: (u32, u32), b: (u32, u32)) -> (u32, u32, u32, u32) {
    let x = block_at(ms, a.0, a.1);
    let y = block_at(ms, b.0, b.1);
    (min_u32(x.0, y.0), min_u32(x.1, y.1), max_u32(x.2, y.2), max_u32(x.3, y.3))
}

fn block_of(sheet: &SheetData, col: u32, row: u32) -> (r: (u32, u32, u32, u32))
    ensures
        r == block_at(sheet.merged_cells@, col, row),
{
    match sheet.get_merged_range(col, row) {
        Some(m) => (m.start_col, m.start_row, m.end_col, m.end_row),
        None => (col, row, col, row),
    }
}

/// The range selected from the anchor `a` to the cell `b`.
pub fn selection_span(sheet: &SheetData, a: (u32, u32), b: (u32, u32)) -> (r: (u32, u32, u32, u32))
    ensures
        r == span_of(sheet.merged_cells@, a, b),
{
    let x = block_of(sheet, a.0, a.1);
    let y = block_of(sheet, b.0, b.1);
    (
        if x.0 < y.0 { x.0 } else { y.0 },
        if x.1 < y.1 { x.1 } else { y.1 },
        if x.2 > y.2 { x.2 } else { y.2 },
        if x.3 > y.3 { x.3 } else { y.3 },
    )
}

/// A click on the cell `(col, row)`. A plain click makes it the selected
/// cell and the anchor. A Shift+click selects from the anchor to it (a
/// click on the anchor itself clears the range) and leaves the selected
/// cell and the anchor; without an anchor it counts as a plain click.
pub fn click_cell(
    sheet: &SheetData,
    selected_cell: &mut Option<(u32, u32)>,
    selected_range: &mut Option<(u32, u32, u32, u32)>,
    anchor: &mut Option<(u32, u32)>,
    col: u32,
    row: u32,
    shift: bool,
)
    ensures
        shift && old(anchor).is_some() ==> {
            &&& *final(selected_cell) == *old(selected_cell)
            &&& *final(anchor) == *old(anchor)
            &&& *final(selected_range) == if old(anchor)->0 == (col, row) {
                None
            } else {
                Some(span_of(sheet.merged_cells@, old(anchor)->0, (col, row)))
            }
        },
        !(shift && old(anchor).is_some()) ==> {
            &&& *final(selected_cell) == Some((col, row))
            &&& *final(anchor) == Some((col, row))
            &&& *final(selected_range) == *old(selected_range)
        },
{
    if shift {
        match *anchor {
            Some(a) => {
                if a.0 == col && a.1 == row {
                    *selected_range = None;
                } else {
                    *selected_range = Some(selection_span(sheet, a, (col, row)));
                }
                return;
            },
            None => {},
        }
    }
    *anchor = Some((col, row));
    *selected_cell = Some((col, row));
}

/// A drag that starts on the cell `(col, row)`: the cell is selected, its
/// block becomes the selected range, and the block's first cell the drag
/// anchor.
pub fn drag_start(
    sheet: &SheetData,
    drag_anchor: &mut Option<(u32, u32)>,
    selected_cell: &mut Option<(u32, u32)>,
    selected_range: &mut Option<(u32, u32, u32, u32)>,
    col: u32,
    row: u32,
)
    ensures
        ({
            let b = block_at(sheet.merged_cells@, col, row);
            &&& *final(drag_anchor) == Some((b.0, b.1))
            &&& *final(selected_cell) == Some((col, row))
            &&& *final(selected_range) == Some(b)
        }),
{
    let b = block_of(sheet, col, row);
    *drag_anchor = Some((b.0, b.1));
    *selected_cell = Some((col, row));
    *selected_range = Some(b);
}

/// A drag over the cell `(col, row)`: with a drag anchor, the range from
/// the anchor to the cell is selected; without one nothing changes.
pub fn drag_to(
    sheet: &SheetData,
    drag_anchor: Option<(u32, u32)>,
    selected_range: &mut Option<(u32, u32, u32, u32)>,
    col: u32,
    row: u32,
)
    ensures
        *final(selected_range) == match drag_anchor {
            Some(a) => Some(span_of(sheet.merged_cells@, a, (col, row))),
            None => *old(selected_range),
        },
{
    match drag_anchor {
        Some(a) => {
            *selected_range = Some(selection_span(sheet, a, (col, row)));
        },
        None => {},
    }
}

proof fn lemma_block_covers(ms: Seq<CellRange>, c: u32, r: u32)
    ensures
        ({
            let b = block_at(ms, c, r);
            b.0 <= c <= b.2 && b.1 <= r <= b.3
        }),
{
    lemma_merged_at_covers(ms, c, r);
}

/// A selection from an anchor to a cell holds both, and the whole merged
/// range of each: the span contains every cell of the anchor's block and of
/// the cell's block.
pub proof fn lemma_span_holds_both(ms: Seq<CellRange>, a: (u32, u32), b: (u32, u32))
    ensures
        ({
            let s = span_of(ms, a, b);
            let x = block_at(ms, a.0, a.1);
            let y = block_at(ms, b.0, b.1);
            &&& s.0 <= a.0 <= s.2 && s.1 <= a.1 <= s.3
            &&& s.0 <= b.0 <= s.2 && s.1 <= b.1 <= s.3
            &&& s.0 <= x.0 && x.2 <= s.2 && s.1 <= x.1 && x.3 <= s.3
            &&& s.0 <= y.0 && y.2 <= s.2 && s.1 <= y.1 && y.3 <= s.3
        }),
{
    lemma_block_covers(ms, a.0, a.1);
    lemma_block_covers(ms, b.0, b.1);
}

} // verus!
