//! The library's model of a worksheet: cell values by position, the used
//! extent, and the merged regions.

use vstd::prelude::*;

verus! {

/// A rectangular range of cells, 1-based and inclusive.
#[derive(Debug, Clone, Copy, PartialEq, Eq, Structural)]
pub struct CellRange {
    pub start_row: u32,
    pub start_col: u32,
    pub end_row: u32,
    pub end_col: u32,
}

impl CellRange {
    /// Whether the range covers the cell at column `col`, row `row`.
    pub open spec fn covers(self, col: u32, row: u32) -> bool {
        self.start_col <= col <= self.end_col && self.start_row <= row <= self.end_row
    }

    pub fn new(start_row: u32, start_col: u32, end_row: u32, end_col: u32) -> (r: Self)
        ensures
            r == (CellRange { start_row, start_col, end_row, end_col }),
    {
        CellRange { start_row, start_col, end_row, end_col }
    }
}

/// The first of the merged ranges that covers the cell.
pub open spec fn merged_at(ms: Seq<CellRange>, col: u32, row: u32) -> Option<CellRange>
    decreases ms.len(),
{
    if ms.len() == 0 {
        None
    } else if ms[0].covers(col, row) {
        Some(ms[0])
    } else {
        merged_at(ms.drop_first(), col, row)
    }
}

/// The first of `ms[from..]` that covers the cell.
fn merged_from(ms: &Vec<CellRange>, from: usize, col: u32, row: u32) -> (r: Option<CellRange>)
    requires
        from <= ms@.len(),
    ensures
        r == merged_at(ms@.skip(from as int), col, row),
{
    let mut i = from;
    while i < ms.len()
        invariant
            from <= i <= ms@.len(),
            merged_at(ms@.skip(from as int), col, row) == merged_at(ms@.skip(i as int), col, row),
        decreases ms@.len() - i,
    {
        let m = ms[i];
        assert(ms@.skip(i as int)[0] == m);
        assert(ms@.skip(i as int).drop_first() =~= ms@.skip(i + 1));
        if m.start_col <= col && col <= m.end_col && m.start_row <= row && row <= m.end_row {
            return Some(m);
        }
        i += 1;
    }
    None
}

} // verus!

verus! {

broadcast use {
    vstd::std_specs::hash::group_hash_axioms,
    vstd::std_specs::hash::axiom_u64_obeys_hash_table_key_model,
    vstd::std_specs::hash::axiom_random_state_builds_valid_hashers,
};

/// What the library reads of a cell: its stored value, the text shown for
/// it (dates formatted as the sheet shows them) and its formula (empty when
/// it has none).
#[derive(Debug)]
pub struct CellData {
    pub value: String,
    pub display: String,
    pub formula: String,
}

/// A worksheet: cells by position, the used extent and the merged regions.
#[derive(Debug)]
pub struct SheetData {
    pub name: String,
    pub max_row: u32,
    pub max_col: u32,
    pub cells: std::collections::HashMap<u64, CellData>,
    pub merged_cells: Vec<CellRange>,
}

/// The key of the cell at `(row, col)`.
pub open spec fn cell_key(row: u32, col: u32) -> u64 {
    (row as int * 0x1_0000_0000 + col as int) as u64
}

pub fn cell_key_exec(row: u32, col: u32) -> (k: u64)
    ensures
        k == cell_key(row, col),
{
    row as u64 * 0x1_0000_0000 + col as u64
}

impl SheetData {
    /// The cell at `(row, col)`, if the sheet has one.
    pub open spec fn cell(&self, row: u32, col: u32) -> Option<CellData> {
        if self.cells@.contains_key(cell_key(row, col)) {
            Some(self.cells@[cell_key(row, col)])
        } else {
            None
        }
    }

    /// An empty sheet.
    pub fn new(name: String, max_row: u32, max_col: u32) -> (s: Self)
        ensures
            s.name@ == name@,
            s.max_row == max_row,
            s.max_col == max_col,
            s.cells@ == Map::<u64, CellData>::empty(),
            s.merged_cells@ == Seq::<CellRange>::empty(),
    {
        SheetData {
            name,
            max_row,
            max_col,
            cells: std::collections::HashMap::new(),
            merged_cells: Vec::new(),
        }
    }

    /// Stores a cell at `(row, col)`, replacing any earlier one.
    pub fn set_cell(&mut self, row: u32, col: u32, value: String, display: String)
        ensures
            final(self).cells@.dom() == old(self).cells@.dom().insert(cell_key(row, col)),
            forall|k: u64|
                k != cell_key(row, col) && old(self).cells@.contains_key(k) ==> final(self).cells@[k]
                    == old(self).cells@[k],
            final(self).cells@[cell_key(row, col)].value@ == value@,
            final(self).cells@[cell_key(row, col)].display@ == display@,
            final(self).cells@[cell_key(row, col)].formula@ == Seq::<char>::empty(),
            final(self).max_row == old(self).max_row,
            final(self).max_col == old(self).max_col,
            final(self).merged_cells == old(self).merged_cells,
    {
        let k = cell_key_exec(row, col);
        self.cells.insert(k, CellData { value, display, formula: String::new() });
    }

    /// Stores a cell with a formula at `(row, col)`, replacing any earlier one.
    pub fn set_formula_cell(&mut self, row: u32, col: u32, formula: String, value: String, display: String)
        ensures
            final(self).cells@ == old(self).cells@.insert(
                cell_key(row, col),
                CellData { value, display, formula },
            ),
            final(self).max_row == old(self).max_row,
            final(self).max_col == old(self).max_col,
            final(self).merged_cells == old(self).merged_cells,
    {
        let k = cell_key_exec(row, col);
        self.cells.insert(k, CellData { value, display, formula });
    }

    /// The merged range that covers the cell at column `col`, row `row`.
    pub fn get_merged_range(&self, col: u32, row: u32) -> (r: Option<CellRange>)
        ensures
            r == merged_at(self.merged_cells@, col, row),
    {
        assert(self.merged_cells@.skip(0) =~= self.merged_cells@);
        merged_from(&self.merged_cells, 0, col, row)
    }

    /// The cell at `(row, col)`.
    pub fn get_cell(&self, row: u32, col: u32) -> (r: Option<&CellData>)
        ensures
            match r {
                Some(c) => self.cell(row, col) == Some(*c),
                None => self.cell(row, col) is None,
            },
    {
        let k = cell_key_exec(row, col);
        self.cells.get(&k)
    }
}

/// A workbook: its sheets in order.
#[derive(Debug)]
pub struct ExcelData {
    pub sheets: Vec<SheetData>,
}

impl ExcelData {
    /// The sheet at `index`, if there is one.
    pub fn get_sheet(&self, index: usize) -> (r: Option<&SheetData>)
        ensures
            match r {
                Some(s) => index < self.sheets@.len() && *s == self.sheets@[index as int],
                None => index >= self.sheets@.len(),
            },
    {
        if index < self.sheets.len() {
            Some(&self.sheets[index])
        } else {
            None
        }
    }
}

} // verus!
