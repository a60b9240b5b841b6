//! Conversion rules: a small language that maps ranges of a source sheet to
//! positions in a new sheet, e.g. `A2:M2->A1:|~;` or
//! `(A:M)3:(A:M)12->B(1:13):C(1:13):-~;`.
//!
//! The grammar is given by the spec functions `sp_*` over the characters of
//! the text and a position; the executable scanner is proved to follow them.

use vstd::prelude::*;
use crate::text::{
    chars_of, dec, is_alpha, is_alpha_exec, is_digit, is_digit_exec, lower_exec, lower_seq, parse_u32,
    parse_u32_range, push_all, push_dec, push_str, string_from, upper, upper_exec, upper_seq,
};
use crate::cellref::{letters_col, letters_to_col_range};
use crate::sheet::CellRange;

verus! {

broadcast use vstd::string::group_string_axioms;

// ===========================================================================
// Types
// ===========================================================================

/// A cell position, 1-based.
#[derive(Debug, Clone, Copy, PartialEq, Eq, Structural)]
pub struct CellRef {
    pub col: u32,
    pub row: u32,
}

impl CellRef {
    pub fn new(col: u32, row: u32) -> (r: Self)
        ensures
            r == (CellRef { col, row }),
    {
        CellRef { col, row }
    }
}

/// Where the source cells of a rule come from.
#[derive(Debug, Clone, Copy, PartialEq, Eq, Structural)]
pub enum SourceRange {
    /// `A2:M2` or `A3:A12`
    Continuous { start: CellRef, end: CellRef },
    /// `(N1:O1):(BV1:BW1)`: one merged block after another
    MergedPair { start_pair: CellRange, end_pair: CellRange },
    /// `(N3+2):BV3`: every `step`-th cell
    Stepped { start: CellRef, step: u32, end: CellRef },
    /// `(A:M)3:(A:M)12`: each column of a block, rows `row_start..=row_end`
    BatchColumns { col_start: u32, col_end: u32, row_start: u32, row_end: u32 },
    /// `(N(3:12)+2):BV(3:12)`: each row of a block, every `col_step`-th column
    BatchStepped { col_start: u32, row_start: u32, row_end: u32, col_step: u32, col_end: u32 },
}

/// Where the target cells of a rule start.
#[derive(Debug, Clone, Copy, PartialEq, Eq, Structural)]
pub enum TargetPosition {
    /// `A1`
    Simple(CellRef),
    /// `(B1:C1)`: each target is a merged block of this size
    Merged(CellRange),
    /// `B(1:13):C(1:13)`: one merged row per source column
    BatchTarget { value_col: u32, merge_col: u32, row_start: u32, row_end: u32 },
    /// `(B+2)15`: target column advances by `col_step` per source row
    SteppedTarget { col_start: u32, col_step: u32, row_start: u32 },
}

/// Fill direction.
#[derive(Debug, Clone, Copy, PartialEq, Eq, Structural)]
pub enum Direction {
    /// `|`: downwards
    Vertical,
    /// `-`: to the right
    Horizontal,
}

/// `formula(B12=SUM(B15:B~))`: a formula written into a target cell; `~`
/// stands for the last row of the output.
#[derive(Debug)]
pub struct CustomFormula {
    pub target_cell: CellRef,
    pub raw_text: String,
}

impl View for CustomFormula {
    type V = (CellRef, Seq<char>);

    open spec fn view(&self) -> (CellRef, Seq<char>) {
        (self.target_cell, self.raw_text@)
    }
}

impl CustomFormula {
    /// A copy with the same cell and text.
    pub fn duplicate(&self) -> (r: Self)
        ensures
            r@ == self@,
    {
        CustomFormula { target_cell: self.target_cell, raw_text: self.raw_text.clone() }
    }
}

/// One parsed rule.
#[derive(Debug)]
pub struct ParsedRule {
    pub source_range: SourceRange,
    pub target_start: TargetPosition,
    pub direction: Direction,
    /// 1-based line of the text on which the rule starts
    pub line: usize,
    pub custom_formulas: Vec<CustomFormula>,
}

/// The abstract value of a rule.
pub type RuleV = (SourceRange, TargetPosition, Direction, int, Seq<(CellRef, Seq<char>)>);

pub open spec fn formulas_view(v: Seq<CustomFormula>) -> Seq<(CellRef, Seq<char>)> {
    v.map_values(|f: CustomFormula| f@)
}

impl View for ParsedRule {
    type V = RuleV;

    open spec fn view(&self) -> RuleV {
        (
            self.source_range,
            self.target_start,
            self.direction,
            self.line as int,
            formulas_view(self.custom_formulas@),
        )
    }
}

pub fn copy_formulas(v: &Vec<CustomFormula>) -> (r: Vec<CustomFormula>)
    ensures
        formulas_view(r@) == formulas_view(v@),
{
    let mut r: Vec<CustomFormula> = Vec::new();
    let mut i: usize = 0;
    while i < v.len()
        invariant
            i <= v@.len(),
            formulas_view(r@) == formulas_view(v@.take(i as int)),
            r@.len() == i,
        decreases v@.len() - i,
    {
        let f = v[i].duplicate();
        let ghost old_r = r@;
        r.push(f);
        proof {
            let a = formulas_view(r@);
            let b = formulas_view(v@.take(i + 1));
            assert(a.len() == b.len());
            assert forall|j: int| 0 <= j < a.len() implies a[j] == b[j] by {
                if j < i {
                    assert(a[j] == formulas_view(old_r)[j]);
                    assert(formulas_view(old_r)[j] == formulas_view(v@.take(i as int))[j]);
                } else {
                    assert(r@[j] == f);
                }
            }
            assert(a =~= b);
        }
        i += 1;
    }
    assert(v@.take(v@.len() as int) =~= v@);
    r
}

impl ParsedRule {
    /// A copy with the same view.
    pub fn duplicate(&self) -> (r: Self)
        ensures
            r@ == self@,
    {
        ParsedRule {
            source_range: self.source_range,
            target_start: self.target_start,
            direction: self.direction,
            line: self.line,
            custom_formulas: copy_formulas(&self.custom_formulas),
        }
    }
}

// ===========================================================================
// Grammar (spec)
// ===========================================================================

/// Blanks that the scanner skips between tokens (not newlines).
pub open spec fn is_blank(c: char) -> bool {
    c == ' ' || c == '\t' || c == '\r'
}

pub open spec fn at(t: Seq<char>, p: int, c: char) -> bool {
    0 <= p < t.len() && t[p] == c
}

/// Position after the blanks starting at `p`.
pub open spec fn sk(t: Seq<char>, p: int) -> int
    decreases t.len() - p,
{
    if 0 <= p < t.len() && is_blank(t[p]) {
        sk(t, p + 1)
    } else {
        p
    }
}

/// Skips blanks, then requires `c`.
pub open spec fn sp_expect(t: Seq<char>, p: int, c: char) -> Option<int> {
    let q = sk(t, p);
    if at(t, q, c) {
        Some(q + 1)
    } else {
        None
    }
}

/// End of the run of ASCII letters starting at `p`.
pub open spec fn alpha_end(t: Seq<char>, p: int) -> int
    decreases t.len() - p,
{
    if 0 <= p < t.len() && is_alpha(t[p]) {
        alpha_end(t, p + 1)
    } else {
        p
    }
}

/// End of the run of ASCII digits starting at `p`.
pub open spec fn digit_end(t: Seq<char>, p: int) -> int
    decreases t.len() - p,
{
    if 0 <= p < t.len() && is_digit(t[p]) {
        digit_end(t, p + 1)
    } else {
        p
    }
}

/// A non-empty run of letters, upper-cased.
pub open spec fn sp_col_letters(t: Seq<char>, p: int) -> Option<(Seq<char>, int)> {
    let e = alpha_end(t, p);
    if e == p {
        None
    } else {
        Some((upper_seq(t.subrange(p, e)), e))
    }
}

/// A non-empty run of digits read as `u32`.
pub open spec fn sp_row_digits(t: Seq<char>, p: int) -> Option<(u32, int)> {
    let e = digit_end(t, p);
    if e == p {
        None
    } else {
        match parse_u32(t.subrange(p, e)) {
            Some(v) => Some((v, e)),
            None => None,
        }
    }
}

/// `A1`, `$B$2`.
pub open spec fn sp_cell_ref(t: Seq<char>, p: int) -> Option<(CellRef, int)> {
    let p1 = if at(t, p, '$') {
        p + 1
    } else {
        p
    };
    match sp_col_letters(t, p1) {
        None => None,
        Some((cs, p2)) => match letters_col(cs) {
            None => None,
            Some(col) => {
                let p3 = if at(t, p2, '$') {
                    p2 + 1
                } else {
                    p2
                };
                match sp_row_digits(t, p3) {
                    None => None,
                    Some((row, p4)) => Some((CellRef { col, row }, p4)),
                }
            },
        },
    }
}

/// `cell:cell`.
pub open spec fn sp_cell_range(t: Seq<char>, p: int) -> Option<(CellRange, int)> {
    match sp_cell_ref(t, p) {
        None => None,
        Some((a, p1)) => match sp_expect(t, p1, ':') {
            None => None,
            Some(p2) => match sp_cell_ref(t, p2) {
                None => None,
                Some((b, p3)) => Some(
                    (
                        CellRange {
                            start_row: a.row,
                            start_col: a.col,
                            end_row: b.row,
                            end_col: b.col,
                        },
                        p3,
                    ),
                ),
            },
        },
    }
}


/// `(cell:cell):(cell:cell)`.
pub open spec fn sp_merged_pair(t: Seq<char>, p: int) -> Option<(SourceRange, int)> {
    match sp_expect(t, p, '(') {
        None => None,
        Some(p1) => match sp_cell_range(t, p1) {
            None => None,
            Some((a, p2)) => match sp_expect(t, p2, ')') {
                None => None,
                Some(p3) => match sp_expect(t, p3, ':') {
                    None => None,
                    Some(p4) => match sp_expect(t, p4, '(') {
                        None => None,
                        Some(p5) => match sp_cell_range(t, p5) {
                            None => None,
                            Some((b, p6)) => match sp_expect(t, p6, ')') {
                                None => None,
                                Some(p7) => Some(
                                    (SourceRange::MergedPair { start_pair: a, end_pair: b }, p7),
                                ),
                            },
                        },
                    },
                },
            },
        },
    }
}

/// `(cell+step):cell` with a non-zero step.
pub open spec fn sp_stepped(t: Seq<char>, p: int) -> Option<(SourceRange, int)> {
    match sp_expect(t, p, '(') {
        None => None,
        Some(p1) => match sp_cell_ref(t, p1) {
            None => None,
            Some((a, p2)) => match sp_expect(t, p2, '+') {
                None => None,
                Some(p3) => match sp_row_digits(t, p3) {
                    None => None,
                    Some((step, p4)) => match sp_expect(t, p4, ')') {
                        None => None,
                        Some(p5) => match sp_expect(t, p5, ':') {
                            None => None,
                            Some(p6) => match sp_cell_ref(t, p6) {
                                None => None,
                                Some((b, p7)) => if step == 0 {
                                    None
                                } else {
                                    Some((SourceRange::Stepped { start: a, step, end: b }, p7))
                                },
                            },
                        },
                    },
                },
            },
        },
    }
}

/// `(A:M)3:(A:M)12`: both column pairs must be written the same.
pub open spec fn sp_batch_columns(t: Seq<char>, p: int) -> Option<(SourceRange, int)> {
    match sp_expect(t, p, '(') {
        None => None,
        Some(p1) => match sp_col_letters(t, p1) {
            None => None,
            Some((c1, p2)) => match sp_expect(t, p2, ':') {
                None => None,
                Some(p3) => match sp_col_letters(t, p3) {
                    None => None,
                    Some((c2, p4)) => match sp_expect(t, p4, ')') {
                        None => None,
                        Some(p5) => match sp_row_digits(t, p5) {
                            None => None,
                            Some((row_start, p6)) => match sp_expect(t, p6, ':') {
                                None => None,
                                Some(p7) => match sp_expect(t, p7, '(') {
                                    None => None,
                                    Some(p8) => match sp_col_letters(t, p8) {
                                        None => None,
                                        Some((c3, p9)) => match sp_expect(t, p9, ':') {
                                            None => None,
                                            Some(p10) => match sp_col_letters(t, p10) {
                                                None => None,
                                                Some((c4, p11)) => match sp_expect(t, p11, ')') {
                                                    None => None,
                                                    Some(p12) => match sp_row_digits(t, p12) {
                                                        None => None,
                                                        Some((row_end, p13)) => if c1 != c3 || c2
                                                            != c4 {
                                                            None
                                                        } else {
                                                            match (letters_col(c1), letters_col(c2)) {
                                                                (Some(col_start), Some(col_end)) => Some(
                                                                    (
                                                                        SourceRange::BatchColumns {
                                                                            col_start,
                                                                            col_end,
                                                                            row_start,
                                                                            row_end,
                                                                        },
                                                                        p13,
                                                                    ),
                                                                ),
                                                                _ => None,
                                                            }
                                                        },
                                                    },
                                                },
                                            },
                                        },
                                    },
                                },
                            },
                        },
                    },
                },
            },
        },
    }
}

/// `(N(3:12)+2):BV(3:12)`: both row pairs equal, step non-zero.
pub open spec fn sp_batch_stepped(t: Seq<char>, p: int) -> Option<(SourceRange, int)> {
    match sp_expect(t, p, '(') {
        None => None,
        Some(p1) => match sp_col_letters(t, p1) {
            None => None,
            Some((c1, p2)) => if !at(t, p2, '(') {
                None
            } else {
                match sp_row_digits(t, p2 + 1) {
                    None => None,
                    Some((r1, p3)) => match sp_expect(t, p3, ':') {
                        None => None,
                        Some(p4) => match sp_row_digits(t, p4) {
                            None => None,
                            Some((r2, p5)) => match sp_expect(t, p5, ')') {
                                None => None,
                                Some(p6) => match sp_expect(t, p6, '+') {
                                    None => None,
                                    Some(p7) => match sp_row_digits(t, p7) {
                                        None => None,
                                        Some((step, p8)) => match sp_expect(t, p8, ')') {
                                            None => None,
                                            Some(p9) => match sp_expect(t, p9, ':') {
                                                None => None,
                                                Some(p10) => sp_batch_stepped_tail(
                                                    t,
                                                    p10,
                                                    c1,
                                                    r1,
                                                    r2,
                                                    step,
                                                ),
                                            },
                                        },
                                    },
                                },
                            },
                        },
                    },
                }
            },
        },
    }
}

/// The `BV(3:12)` end of [`sp_batch_stepped`].
pub open spec fn sp_batch_stepped_tail(
    t: Seq<char>,
    p: int,
    c1: Seq<char>,
    r1: u32,
    r2: u32,
    step: u32,
) -> Option<(SourceRange, int)> {
    match sp_col_letters(t, p) {
        None => None,
        Some((c2, q1)) => match sp_expect(t, q1, '(') {
            None => None,
            Some(q2) => match sp_row_digits(t, q2) {
                None => None,
                Some((r3, q3)) => match sp_expect(t, q3, ':') {
                    None => None,
                    Some(q4) => match sp_row_digits(t, q4) {
                        None => None,
                        Some((r4, q5)) => match sp_expect(t, q5, ')') {
                            None => None,
                            Some(q6) => if r1 != r3 || r2 != r4 || step == 0 {
                                None
                            } else {
                                match (letters_col(c1), letters_col(c2)) {
                                    (Some(col_start), Some(col_end)) => Some(
                                        (
                                            SourceRange::BatchStepped {
                                                col_start,
                                                row_start: r1,
                                                row_end: r2,
                                                col_step: step,
                                                col_end,
                                            },
                                            q6,
                                        ),
                                    ),
                                    _ => None,
                                }
                            },
                        },
                    },
                },
            },
        },
    }
}

/// A source range; forms that start with `(` are tried in the order
/// batch-stepped, batch-columns, merged pair, stepped.
pub open spec fn sp_source(t: Seq<char>, p: int) -> Option<(SourceRange, int)> {
    let q = sk(t, p);
    if at(t, q, '(') {
        match sp_batch_stepped(t, q) {
            Some(x) => Some(x),
            None => match sp_batch_columns(t, q) {
                Some(x) => Some(x),
                None => match sp_merged_pair(t, q) {
                    Some(x) => Some(x),
                    None => sp_stepped(t, q),
                },
            },
        }
    } else if 0 <= q < t.len() && is_alpha(t[q]) {
        match sp_cell_ref(t, q) {
            None => None,
            Some((a, q1)) => match sp_expect(t, q1, ':') {
                None => None,
                Some(q2) => match sp_cell_ref(t, q2) {
                    None => None,
                    Some((b, q3)) => Some((SourceRange::Continuous { start: a, end: b }, q3)),
                },
            },
        }
    } else {
        None
    }
}


/// `(cell:cell)` as a merged target; the `:` after it belongs to the rule.
pub open spec fn sp_merged_target(t: Seq<char>, p: int) -> Option<(TargetPosition, int)> {
    match sp_expect(t, p, '(') {
        None => None,
        Some(p1) => match sp_cell_range(t, p1) {
            None => None,
            Some((r, p2)) => match sp_expect(t, p2, ')') {
                None => None,
                Some(p3) => Some((TargetPosition::Merged(r), p3)),
            },
        },
    }
}

/// `(B+2)15` with a non-zero step.
pub open spec fn sp_stepped_target(t: Seq<char>, p: int) -> Option<(TargetPosition, int)> {
    match sp_expect(t, p, '(') {
        None => None,
        Some(p1) => match sp_col_letters(t, p1) {
            None => None,
            Some((cs, p2)) => if !at(t, p2, '+') {
                None
            } else {
                match sp_row_digits(t, p2 + 1) {
                    None => None,
                    Some((step, p3)) => match sp_expect(t, p3, ')') {
                        None => None,
                        Some(p4) => match sp_row_digits(t, p4) {
                            None => None,
                            Some((row_start, p5)) => if step == 0 {
                                None
                            } else {
                                match letters_col(cs) {
                                    None => None,
                                    Some(col_start) => Some(
                                        (
                                            TargetPosition::SteppedTarget {
                                                col_start,
                                                col_step: step,
                                                row_start,
                                            },
                                            p5,
                                        ),
                                    ),
                                }
                            },
                        },
                    },
                }
            },
        },
    }
}

/// The `(1:13):C(1:13)` part of a batch target whose value column is `cs`.
pub open spec fn sp_batch_body(t: Seq<char>, p: int, cs: Seq<char>) -> Option<
    (TargetPosition, int),
> {
    match letters_col(cs) {
        None => None,
        Some(value_col) => match sp_expect(t, p, '(') {
            None => None,
            Some(p1) => match sp_row_digits(t, p1) {
                None => None,
                Some((r1, p2)) => match sp_expect(t, p2, ':') {
                    None => None,
                    Some(p3) => match sp_row_digits(t, p3) {
                        None => None,
                        Some((r2, p4)) => match sp_expect(t, p4, ')') {
                            None => None,
                            Some(p5) => match sp_expect(t, p5, ':') {
                                None => None,
                                Some(p6) => match sp_col_letters(t, p6) {
                                    None => None,
                                    Some((ms, p7)) => match sp_expect(t, p7, '(') {
                                        None => None,
                                        Some(p8) => match sp_row_digits(t, p8) {
                                            None => None,
                                            Some((r3, p9)) => match sp_expect(t, p9, ':') {
                                                None => None,
                                                Some(p10) => match sp_row_digits(t, p10) {
                                                    None => None,
                                                    Some((r4, p11)) => match sp_expect(
                                                        t,
                                                        p11,
                                                        ')',
                                                    ) {
                                                        None => None,
                                                        Some(p12) => if r1 != r3 || r2 != r4 {
                                                            None
                                                        } else {
                                                            match letters_col(ms) {
                                                                None => None,
                                                                Some(merge_col) => Some(
                                                                    (
                                                                        TargetPosition::BatchTarget {
                                                                            value_col,
                                                                            merge_col,
                                                                            row_start: r1,
                                                                            row_end: r2,
                                                                        },
                                                                        p12,
                                                                    ),
                                                                ),
                                                            }
                                                        },
                                                    },
                                                },
                                            },
                                        },
                                    },
                                },
                            },
                        },
                    },
                },
            },
        },
    }
}

/// `(B(1:13):C(1:13))`: the outer parentheses are optional; a closing one is
/// taken when present.
pub open spec fn sp_batch_target_inner(t: Seq<char>, p: int) -> Option<(TargetPosition, int)> {
    let p1 = if at(t, p, '(') {
        sk(t, p + 1)
    } else {
        p
    };
    match sp_col_letters(t, p1) {
        None => None,
        Some((cs, p2)) => if !at(t, p2, '(') {
            None
        } else {
            match sp_batch_body(t, p2, cs) {
                None => None,
                Some((x, p3)) => {
                    let q = sk(t, p3);
                    Some((x, if at(t, q, ')') { q + 1 } else { q }))
                },
            }
        },
    }
}

/// `B(1:13):C(1:13)` or `(B(1:13):C(1:13))`.
pub open spec fn sp_batch_target(t: Seq<char>, p: int) -> Option<(TargetPosition, int)> {
    if at(t, p, '(') {
        sp_batch_target_inner(t, p)
    } else {
        match sp_col_letters(t, p) {
            None => None,
            Some((cs, p1)) => if !at(t, p1, '(') {
                None
            } else {
                sp_batch_body(t, p1, cs)
            },
        }
    }
}

/// A target position; tried in the order merged, stepped, batch, simple.
pub open spec fn sp_target(t: Seq<char>, p: int) -> Option<(TargetPosition, int)> {
    let q = sk(t, p);
    let m = if at(t, q, '(') {
        sp_merged_target(t, q)
    } else {
        None
    };
    let st = if at(t, q, '(') {
        sp_stepped_target(t, q)
    } else {
        None
    };
    if m is Some {
        m
    } else if st is Some {
        st
    } else {
        match sp_batch_target(t, q) {
            Some(x) => Some(x),
            None => match sp_cell_ref(t, q) {
                None => None,
                Some((c, q1)) => Some((TargetPosition::Simple(c), q1)),
            },
        }
    }
}

/// `|` (down) or `-` (right).
pub open spec fn sp_direction(t: Seq<char>, p: int) -> Option<(Direction, int)> {
    let q = sk(t, p);
    if at(t, q, '|') {
        Some((Direction::Vertical, q + 1))
    } else if at(t, q, '-') {
        Some((Direction::Horizontal, q + 1))
    } else {
        None
    }
}


/// End of a formula expression starting at `p` with `depth` open parentheses:
/// the first `,` or `)` outside any parentheses, or the end of the text.
pub open spec fn fexpr_end(t: Seq<char>, p: int, depth: nat) -> int
    decreases t.len() - p,
{
    if p < 0 || p >= t.len() {
        p
    } else if t[p] == '(' {
        fexpr_end(t, p + 1, depth + 1)
    } else if t[p] == ')' {
        if depth == 0 {
            p
        } else {
            fexpr_end(t, p + 1, (depth - 1) as nat)
        }
    } else if t[p] == ',' && depth == 0 {
        p
    } else {
        fexpr_end(t, p + 1, depth)
    }
}

/// A non-empty formula expression.
pub open spec fn sp_fexpr(t: Seq<char>, p: int) -> Option<(Seq<char>, int)> {
    let e = fexpr_end(t, p, 0);
    if e == p {
        None
    } else {
        Some((t.subrange(p, e), e))
    }
}

/// `T1=expr1,T2=expr2)`: the list after `formula(`, through the closing `)`.
pub open spec fn sp_flist(t: Seq<char>, p: int) -> Option<(Seq<(CellRef, Seq<char>)>, int)>
    decreases t.len() - p,
{
    let q = sk(t, p);
    if at(t, q, ')') {
        Some((Seq::empty(), q + 1))
    } else {
        match sp_cell_ref(t, q) {
            None => None,
            Some((c, e1)) => match sp_expect(t, e1, '=') {
                None => None,
                Some(e2) => match sp_fexpr(t, e2) {
                    None => None,
                    Some((x, e3)) => {
                        let q3 = sk(t, e3);
                        if q3 <= p {
                            None
                        } else if at(t, q3, ',') {
                            match sp_flist(t, q3 + 1) {
                                None => None,
                                Some((fs, e)) => Some((seq![(c, x)] + fs, e)),
                            }
                        } else if at(t, q3, ')') {
                            match sp_flist(t, q3) {
                                None => None,
                                Some((fs, e)) => Some((seq![(c, x)] + fs, e)),
                            }
                        } else {
                            None
                        }
                    },
                },
            },
        }
    }
}

/// The word `formula`.
pub open spec fn formula_word() -> Seq<char> {
    seq!['f', 'o', 'r', 'm', 'u', 'l', 'a']
}

/// The optional `,formula(...)` part; anything else after a `,` is left for
/// the rest of the rule.
pub open spec fn sp_opt_formulas(t: Seq<char>, p: int) -> Option<
    (Seq<(CellRef, Seq<char>)>, int),
> {
    let q = sk(t, p);
    if !at(t, q, ',') {
        Some((Seq::empty(), q))
    } else {
        let q1 = sk(t, q + 1);
        let e = alpha_end(t, q1);
        if lower_seq(t.subrange(q1, e)) != formula_word() {
            Some((Seq::empty(), q))
        } else {
            let q2 = sk(t, e);
            if !at(t, q2, '(') {
                Some((Seq::empty(), q))
            } else {
                sp_flist(t, q2 + 1)
            }
        }
    }
}

/// Skips blanks, then requires the characters of `s` in turn.
pub open spec fn sp_expect_str(t: Seq<char>, p: int, s: Seq<char>) -> Option<int>
    decreases s.len(),
{
    if s.len() == 0 {
        Some(p)
    } else {
        match sp_expect(t, p, s[0]) {
            None => None,
            Some(q) => sp_expect_str(t, q, s.drop_first()),
        }
    }
}

/// 1-based line of position `p`.
pub open spec fn line_of(t: Seq<char>, p: int) -> int {
    1 + nl_count(t.take(p))
}

/// One rule: `source->target[,formula(...)]:dir~;`.
pub open spec fn sp_rule(t: Seq<char>, p: int) -> Option<(RuleV, int)> {
    match sp_source(t, p) {
        None => None,
        Some((src, p1)) => match sp_expect_str(t, p1, seq!['-', '>']) {
            None => None,
            Some(p3) => match sp_target(t, p3) {
                None => None,
                Some((tg, p4)) => match sp_opt_formulas(t, p4) {
                    None => None,
                    Some((fs, p5)) => match sp_expect(t, p5, ':') {
                        None => None,
                        Some(p6) => match sp_direction(t, p6) {
                            None => None,
                            Some((d, p7)) => match sp_expect(t, p7, '~') {
                                None => None,
                                Some(p8) => match sp_expect(t, p8, ';') {
                                    None => None,
                                    Some(p9) => Some(((src, tg, d, line_of(t, p), fs), p9)),
                                },
                            },
                        },
                    },
                },
            },
        },
    }
}

/// Skips blanks and empty lines.
pub open spec fn skip_blank(t: Seq<char>, p: int) -> int
    decreases t.len() - p,
{
    let q = sk(t, p);
    if at(t, q, '\n') && q >= p {
        skip_blank(t, q + 1)
    } else {
        q
    }
}

/// The rules from position `p` to the end of the text.
pub open spec fn sp_rules(t: Seq<char>, p: int) -> Option<Seq<RuleV>>
    decreases t.len() - p,
{
    let q = skip_blank(t, p);
    if q >= t.len() {
        Some(Seq::empty())
    } else {
        match sp_rule(t, q) {
            None => None,
            Some((r, e)) => if p < e <= t.len() {
                match sp_rules(t, e) {
                    None => None,
                    Some(rs) => Some(seq![r] + rs),
                }
            } else {
                None
            },
        }
    }
}

pub proof fn lemma_sk_ge(t: Seq<char>, p: int)
    ensures
        sk(t, p) >= p,
        0 <= p <= t.len() ==> sk(t, p) <= t.len(),
        sk(t, sk(t, p)) == sk(t, p),
    decreases t.len() - p,
{
    if 0 <= p < t.len() && is_blank(t[p]) {
        lemma_sk_ge(t, p + 1);
    }
}

// ===========================================================================
// Scanner
// ===========================================================================

/// Number of newlines in `s`.
pub open spec fn nl_count(s: Seq<char>) -> int
    decreases s.len(),
{
    if s.len() == 0 {
        0
    } else {
        nl_count(s.drop_last()) + if s.last() == '\n' {
            1int
        } else {
            0
        }
    }
}

pub proof fn lemma_nl_count_bound(s: Seq<char>)
    ensures
        0 <= nl_count(s) <= s.len(),
    decreases s.len(),
{
    if s.len() > 0 {
        lemma_nl_count_bound(s.drop_last());
    }
}

pub proof fn lemma_sk_bounds(t: Seq<char>, p: int)
    requires
        0 <= p <= t.len(),
    ensures
        p <= sk(t, p) <= t.len(),
    decreases t.len() - p,
{
    if p < t.len() && is_blank(t[p]) {
        lemma_sk_bounds(t, p + 1);
    }
}

pub proof fn lemma_alpha_end_bounds(t: Seq<char>, p: int)
    requires
        0 <= p <= t.len(),
    ensures
        p <= alpha_end(t, p) <= t.len(),
    decreases t.len() - p,
{
    if p < t.len() && is_alpha(t[p]) {
        lemma_alpha_end_bounds(t, p + 1);
    }
}

pub proof fn lemma_digit_end_bounds(t: Seq<char>, p: int)
    requires
        0 <= p <= t.len(),
    ensures
        p <= digit_end(t, p) <= t.len(),
    decreases t.len() - p,
{
    if p < t.len() && is_digit(t[p]) {
        lemma_digit_end_bounds(t, p + 1);
    }
}

/// A `String` holding the characters of a string slice.
pub fn string_from_str(s: &str) -> (r: String)
    ensures
        r@ == s@,
{
    let v = chars_of(s);
    string_from(v.as_slice())
}

/// The result of a scanner step agrees with the grammar: success with the same
/// value and end position, or failure where the grammar fails.
pub open spec fn follows<T>(g: Option<(T, int)>, r: Result<T, String>, end: int) -> bool {
    match r {
        Ok(v) => g == Some((v, end)),
        Err(_) => g is None,
    }
}

/// Character scanner over a rule text, tracking the current line.
pub struct RuleScanner {
    pub text: Vec<char>,
    pub pos: usize,
    pub line: usize,
}

impl RuleScanner {
    /// The position is inside the text and the line counts the newlines before it.
    pub open spec fn wf(&self) -> bool {
        &&& self.pos <= self.text@.len()
        &&& self.text@.len() < usize::MAX
        &&& self.line as int == 1 + nl_count(self.text@.take(self.pos as int))
    }

    pub fn new(text: &str) -> (s: Self)
        requires
            text@.len() < usize::MAX,
        ensures
            s.wf(),
            s.text@ == text@,
            s.pos == 0,
    {
        let v = chars_of(text);
        assert(v@.take(0) =~= Seq::<char>::empty());
        RuleScanner { text: v, pos: 0, line: 1 }
    }

    pub fn peek(&self) -> (r: Option<char>)
        requires
            self.wf(),
        ensures
            r == (if self.pos < self.text@.len() {
                Some(self.text@[self.pos as int])
            } else {
                None::<char>
            }),
    {
        if self.pos < self.text.len() {
            Some(self.text[self.pos])
        } else {
            None
        }
    }

    pub fn advance(&mut self) -> (r: Option<char>)
        requires
            old(self).wf(),
        ensures
            final(self).wf(),
            final(self).text == old(self).text,
            final(self).pos >= old(self).pos,
            r == (if old(self).pos < old(self).text@.len() {
                Some(old(self).text@[old(self).pos as int])
            } else {
                None::<char>
            }),
            final(self).pos == (if old(self).pos < old(self).text@.len() {
                old(self).pos + 1
            } else {
                old(self).pos as int
            }),
    {
        if self.pos < self.text.len() {
            let c = self.text[self.pos];
            let ghost t = self.text@;
            let ghost p = self.pos as int;
            assert(t.take(p + 1).drop_last() =~= t.take(p));
            proof {
                lemma_nl_count_bound(t.take(p));
            }
            if c == '\n' {
                self.line += 1;
            }
            self.pos += 1;
            Some(c)
        } else {
            None
        }
    }

    pub fn skip_ws(&mut self)
        requires
            old(self).wf(),
        ensures
            final(self).wf(),
            final(self).text == old(self).text,
            final(self).pos >= old(self).pos,
            final(self).pos == sk(old(self).text@, old(self).pos as int),
    {
        while self.pos < self.text.len() && (self.text[self.pos] == ' ' || self.text[self.pos]
            == '\t' || self.text[self.pos] == '\r')
            invariant
                self.wf(),
                self.text == old(self).text,
                sk(old(self).text@, old(self).pos as int) == sk(self.text@, self.pos as int),
                self.pos >= old(self).pos,
            decreases self.text@.len() - self.pos,
        {
            self.advance();
        }
    }

    /// Builds `第{line}行: {body}`.
    fn err_line(&self, body: &str) -> (r: String)
        ensures
            r@ == "第"@ + dec(self.line as nat) + "行: "@ + body@,
    {
        let mut m: Vec<char> = Vec::new();
        push_str(&mut m, "第");
        push_dec(&mut m, self.line as u64);
        push_str(&mut m, "行: ");
        push_str(&mut m, body);
        assert(m@ =~= "第"@ + dec(self.line as nat) + "行: "@ + body@);
        string_from(m.as_slice())
    }

    pub fn expect_char(&mut self, expected: char) -> (r: Result<(), String>)
        requires
            old(self).wf(),
        ensures
            final(self).wf(),
            final(self).text == old(self).text,
            final(self).pos >= old(self).pos,
            match r {
                Ok(_) => sp_expect(old(self).text@, old(self).pos as int, expected) == Some(
                    final(self).pos as int,
                ) && final(self).pos > old(self).pos,
                Err(_) => sp_expect(old(self).text@, old(self).pos as int, expected) is None,
            },
    {
        self.skip_ws();
        match self.peek() {
            Some(c) => {
                if c == expected {
                    self.advance();
                    Ok(())
                } else {
                    let mut m: Vec<char> = Vec::new();
                    push_str(&mut m, "期望 '");
                    m.push(expected);
                    push_str(&mut m, "', 但找到 '");
                    m.push(c);
                    m.push('\'');
                    let body = string_from(m.as_slice());
                    Err(self.err_line(body.as_str()))
                }
            },
            None => {
                let mut m: Vec<char> = Vec::new();
                push_str(&mut m, "期望 '");
                m.push(expected);
                push_str(&mut m, "', 但已到文本末尾");
                let body = string_from(m.as_slice());
                Err(self.err_line(body.as_str()))
            },
        }
    }

    /// A run of letters, upper-cased.
    pub fn parse_col_letters(&mut self) -> (r: Result<Vec<char>, String>)
        requires
            old(self).wf(),
        ensures
            final(self).wf(),
            final(self).text == old(self).text,
            final(self).pos >= old(self).pos,
            match r {
                Ok(v) => sp_col_letters(old(self).text@, old(self).pos as int) == Some(
                    (v@, final(self).pos as int),
                ),
                Err(_) => sp_col_letters(old(self).text@, old(self).pos as int) is None,
            },
    {
        let ghost t = self.text@;
        let ghost p0 = self.pos as int;
        let mut col: Vec<char> = Vec::new();
        while self.pos < self.text.len() && is_alpha_exec(self.text[self.pos])
            invariant
                self.wf(),
                self.text == old(self).text,
                t == self.text@,
                0 <= p0 <= self.pos,
                p0 == old(self).pos,
                alpha_end(t, p0) == alpha_end(t, self.pos as int),
                col@ == upper_seq(t.subrange(p0, self.pos as int)),
            decreases self.text@.len() - self.pos,
        {
            let c = self.text[self.pos];
            let ghost op = self.pos as int;
            col.push(upper_exec(c));
            self.advance();
            assert(self.pos == op + 1);
            assert(t[op] == c);
            assert(self.pos <= t.len());
            assert(t.subrange(p0, self.pos as int) =~= t.subrange(p0, op).push(c));
            assert(col@ =~= upper_seq(t.subrange(p0, self.pos as int)));
        }
        if col.len() == 0 {
            return Err(self.err_line("期望列字母"));
        }
        Ok(col)
    }

    /// A run of digits read as `u32`.
    pub fn parse_row_digits(&mut self) -> (r: Result<u32, String>)
        requires
            old(self).wf(),
        ensures
            final(self).wf(),
            final(self).text == old(self).text,
            final(self).pos >= old(self).pos,
            match r {
                Ok(v) => sp_row_digits(old(self).text@, old(self).pos as int) == Some(
                    (v, final(self).pos as int),
                ),
                Err(_) => sp_row_digits(old(self).text@, old(self).pos as int) is None,
            },
    {
        let ghost t = self.text@;
        let start = self.pos;
        while self.pos < self.text.len() && is_digit_exec(self.text[self.pos])
            invariant
                self.wf(),
                self.text == old(self).text,
                t == self.text@,
                start <= self.pos,
                start == old(self).pos,
                digit_end(t, start as int) == digit_end(t, self.pos as int),
            decreases self.text@.len() - self.pos,
        {
            self.advance();
        }
        if self.pos == start {
            return Err(self.err_line("期望行号数字"));
        }
        match parse_u32_range(self.text.as_slice(), start, self.pos) {
            Some(v) => Ok(v),
            None => {
                let mut m: Vec<char> = Vec::new();
                push_str(&mut m, "无效行号 '");
                let mut k = start;
                while k < self.pos
                    invariant
                        start <= k <= self.pos <= self.text@.len(),
                    decreases self.pos - k,
                {
                    m.push(self.text[k]);
                    k += 1;
                }
                m.push('\'');
                let body = string_from(m.as_slice());
                Err(self.err_line(body.as_str()))
            },
        }
    }

    /// Column number of letters already read.
    fn col_of(&self, letters: &Vec<char>) -> (r: Result<u32, String>)
        requires
            self.wf(),
        ensures
            match r {
                Ok(c) => letters_col(letters@) == Some(c),
                Err(_) => letters_col(letters@) is None,
            },
    {
        assert(letters@.subrange(0, letters@.len() as int) =~= letters@);
        match letters_to_col_range(letters.as_slice(), 0, letters.len()) {
            Some(c) => Ok(c),
            None => {
                let mut m: Vec<char> = Vec::new();
                push_str(&mut m, "无效的列字母: ");
                push_all(&mut m, letters.as_slice());
                let body = string_from(m.as_slice());
                Err(self.err_line(body.as_str()))
            },
        }
    }

    /// A cell reference such as `A1` or `$B$2`.
    pub fn parse_cell_ref(&mut self) -> (r: Result<CellRef, String>)
        requires
            old(self).wf(),
        ensures
            final(self).wf(),
            final(self).text == old(self).text,
            final(self).pos >= old(self).pos,
            match r {
                Ok(c) => sp_cell_ref(old(self).text@, old(self).pos as int) == Some(
                    (c, final(self).pos as int),
                ),
                Err(_) => sp_cell_ref(old(self).text@, old(self).pos as int) is None,
            },
    {
        if self.peek() == Some('$') {
            self.advance();
        }
        let col_str = self.parse_col_letters()?;
        let col = self.col_of(&col_str)?;
        if self.peek() == Some('$') {
            self.advance();
        }
        let row = self.parse_row_digits()?;
        Ok(CellRef { col, row })
    }

    /// `cell:cell`.
    pub fn parse_cell_range(&mut self) -> (r: Result<CellRange, String>)
        requires
            old(self).wf(),
        ensures
            final(self).wf(),
            final(self).text == old(self).text,
            final(self).pos >= old(self).pos,
            match r {
                Ok(c) => sp_cell_range(old(self).text@, old(self).pos as int) == Some(
                    (c, final(self).pos as int),
                ),
                Err(_) => sp_cell_range(old(self).text@, old(self).pos as int) is None,
            },
    {
        let start_cell = self.parse_cell_ref()?;
        self.expect_char(':')?;
        let end_cell = self.parse_cell_ref()?;
        Ok(CellRange::new(start_cell.row, start_cell.col, end_cell.row, end_cell.col))
    }

    /// Returns to a saved position.
    fn restore(&mut self, pos: usize, line: usize)
        requires
            old(self).wf(),
            pos <= old(self).text@.len(),
            line as int == 1 + nl_count(old(self).text@.take(pos as int)),
        ensures
            final(self).wf(),
            final(self).text == old(self).text,
            final(self).pos == pos,
    {
        self.pos = pos;
        self.line = line;
    }

    pub fn try_parse_merged_pair(&mut self) -> (r: Result<SourceRange, String>)
        requires
            old(self).wf(),
        ensures
            final(self).wf(),
            final(self).text == old(self).text,
            final(self).pos >= old(self).pos,
            follows(sp_merged_pair(old(self).text@, old(self).pos as int), r, final(self).pos as int),
    {
        self.expect_char('(')?;
        let start_pair = self.parse_cell_range()?;
        self.expect_char(')')?;
        self.expect_char(':')?;
        self.expect_char('(')?;
        let end_pair = self.parse_cell_range()?;
        self.expect_char(')')?;
        Ok(SourceRange::MergedPair { start_pair, end_pair })
    }

    pub fn try_parse_stepped(&mut self) -> (r: Result<SourceRange, String>)
        requires
            old(self).wf(),
        ensures
            final(self).wf(),
            final(self).text == old(self).text,
            final(self).pos >= old(self).pos,
            follows(sp_stepped(old(self).text@, old(self).pos as int), r, final(self).pos as int),
    {
        self.expect_char('(')?;
        let start = self.parse_cell_ref()?;
        self.expect_char('+')?;
        let step = self.parse_row_digits()?;
        self.expect_char(')')?;
        self.expect_char(':')?;
        let end = self.parse_cell_ref()?;
        if step == 0 {
            return Err(self.err_line("步长不能为 0"));
        }
        Ok(SourceRange::Stepped { start, step, end })
    }

    /// `(A:M)3:(A:M)12`.
    pub fn try_parse_batch_columns(&mut self) -> (r: Result<SourceRange, String>)
        requires
            old(self).wf(),
        ensures
            final(self).wf(),
            final(self).text == old(self).text,
            final(self).pos >= old(self).pos,
            follows(
                sp_batch_columns(old(self).text@, old(self).pos as int),
                r,
                final(self).pos as int,
            ),
    {
        self.expect_char('(')?;
        let col_start_str = self.parse_col_letters()?;
        self.expect_char(':')?;
        let col_end_str = self.parse_col_letters()?;
        self.expect_char(')')?;
        let row_start = self.parse_row_digits()?;
        self.expect_char(':')?;
        self.expect_char('(')?;
        let col_start2_str = self.parse_col_letters()?;
        self.expect_char(':')?;
        let col_end2_str = self.parse_col_letters()?;
        self.expect_char(')')?;
        let row_end = self.parse_row_digits()?;
        if !crate::text::seq_eq(col_start_str.as_slice(), col_start2_str.as_slice())
            || !crate::text::seq_eq(col_end_str.as_slice(), col_end2_str.as_slice()) {
            return Err(self.err_line("批量列范围起止列必须一致"));
        }
        let col_start = self.col_of(&col_start_str)?;
        let col_end = self.col_of(&col_end_str)?;
        Ok(SourceRange::BatchColumns { col_start, col_end, row_start, row_end })
    }

    /// `(N(3:12)+2):BV(3:12)`.
    pub fn try_parse_batch_stepped(&mut self) -> (r: Result<SourceRange, String>)
        requires
            old(self).wf(),
        ensures
            final(self).wf(),
            final(self).text == old(self).text,
            final(self).pos >= old(self).pos,
            follows(
                sp_batch_stepped(old(self).text@, old(self).pos as int),
                r,
                final(self).pos as int,
            ),
    {
        self.expect_char('(')?;
        let col_start_str = self.parse_col_letters()?;
        if self.peek() != Some('(') {
            return Err(string_from_str("不是批量步进范围"));
        }
        self.advance();
        let row_start = self.parse_row_digits()?;
        self.expect_char(':')?;
        let row_end = self.parse_row_digits()?;
        self.expect_char(')')?;
        self.expect_char('+')?;
        let col_step = self.parse_row_digits()?;
        self.expect_char(')')?;
        self.expect_char(':')?;
        let ghost p10 = self.pos as int;
        let col_end_str = self.parse_col_letters()?;
        self.expect_char('(')?;
        let row_start2 = self.parse_row_digits()?;
        self.expect_char(':')?;
        let row_end2 = self.parse_row_digits()?;
        self.expect_char(')')?;
        if row_start != row_start2 || row_end != row_end2 {
            return Err(self.err_line("批量步进起止行必须一致"));
        }
        if col_step == 0 {
            return Err(self.err_line("步长不能为 0"));
        }
        let col_start = self.col_of(&col_start_str)?;
        let col_end = self.col_of(&col_end_str)?;
        Ok(SourceRange::BatchStepped { col_start, row_start, row_end, col_step, col_end })
    }

    /// A source range.
    pub fn parse_source_range(&mut self) -> (r: Result<SourceRange, String>)
        requires
            old(self).wf(),
        ensures
            final(self).wf(),
            final(self).text == old(self).text,
            final(self).pos >= old(self).pos,
            follows(sp_source(old(self).text@, old(self).pos as int), r, final(self).pos as int),
    {
        self.skip_ws();
        match self.peek() {
            Some('(') => {
                let saved_pos = self.pos;
                let saved_line = self.line;
                if let Ok(result) = self.try_parse_batch_stepped() {
                    return Ok(result);
                }
                self.restore(saved_pos, saved_line);
                if let Ok(result) = self.try_parse_batch_columns() {
                    return Ok(result);
                }
                self.restore(saved_pos, saved_line);
                if let Ok(result) = self.try_parse_merged_pair() {
                    return Ok(result);
                }
                self.restore(saved_pos, saved_line);
                self.try_parse_stepped()
            },
            Some(ch) => {
                if is_alpha_exec(ch) {
                    let start = self.parse_cell_ref()?;
                    self.expect_char(':')?;
                    let end = self.parse_cell_ref()?;
                    Ok(SourceRange::Continuous { start, end })
                } else {
                    let mut m: Vec<char> = Vec::new();
                    push_str(&mut m, "期望单元格引用或 '(', 但找到 '");
                    m.push(ch);
                    m.push('\'');
                    let body = string_from(m.as_slice());
                    Err(self.err_line(body.as_str()))
                }
            },
            None => Err(self.err_line("期望源范围，但已到文本末尾")),
        }
    }

    fn try_parse_merged_target(&mut self) -> (r: Result<TargetPosition, String>)
        requires
            old(self).wf(),
        ensures
            final(self).wf(),
            final(self).text == old(self).text,
            final(self).pos >= old(self).pos,
            follows(
                sp_merged_target(old(self).text@, old(self).pos as int),
                r,
                final(self).pos as int,
            ),
    {
        self.expect_char('(')?;
        let range = self.parse_cell_range()?;
        self.expect_char(')')?;
        Ok(TargetPosition::Merged(range))
    }

    /// `(B+2)15`.
    fn try_parse_stepped_target(&mut self) -> (r: Result<TargetPosition, String>)
        requires
            old(self).wf(),
        ensures
            final(self).wf(),
            final(self).text == old(self).text,
            final(self).pos >= old(self).pos,
            follows(
                sp_stepped_target(old(self).text@, old(self).pos as int),
                r,
                final(self).pos as int,
            ),
    {
        let saved_pos = self.pos;
        let saved_line = self.line;
        self.expect_char('(')?;
        let col_str = self.parse_col_letters()?;
        if self.peek() != Some('+') {
            self.restore(saved_pos, saved_line);
            return Err(string_from_str("不是步进目标"));
        }
        self.expect_char('+')?;
        let col_step = self.parse_row_digits()?;
        self.expect_char(')')?;
        let row_start = self.parse_row_digits()?;
        if col_step == 0 {
            return Err(self.err_line("目标步长不能为 0"));
        }
        let col_start = self.col_of(&col_str)?;
        Ok(TargetPosition::SteppedTarget { col_start, col_step, row_start })
    }

    fn parse_batch_target_body(&mut self, value_col_str: Vec<char>) -> (r: Result<
        TargetPosition,
        String,
    >)
        requires
            old(self).wf(),
        ensures
            final(self).wf(),
            final(self).text == old(self).text,
            final(self).pos >= old(self).pos,
            follows(
                sp_batch_body(old(self).text@, old(self).pos as int, value_col_str@),
                r,
                final(self).pos as int,
            ),
    {
        let value_col = self.col_of(&value_col_str)?;
        self.expect_char('(')?;
        let row_start = self.parse_row_digits()?;
        self.expect_char(':')?;
        let row_end = self.parse_row_digits()?;
        self.expect_char(')')?;
        self.expect_char(':')?;
        let merge_col_str = self.parse_col_letters()?;
        self.expect_char('(')?;
        let row_start2 = self.parse_row_digits()?;
        self.expect_char(':')?;
        let row_end2 = self.parse_row_digits()?;
        self.expect_char(')')?;
        if row_start != row_start2 || row_end != row_end2 {
            return Err(self.err_line("批量目标起止行必须一致"));
        }
        let merge_col = self.col_of(&merge_col_str)?;
        Ok(TargetPosition::BatchTarget { value_col, merge_col, row_start, row_end })
    }

    fn try_parse_batch_target_inner(&mut self) -> (r: Result<TargetPosition, String>)
        requires
            old(self).wf(),
        ensures
            final(self).wf(),
            final(self).text == old(self).text,
            final(self).pos >= old(self).pos,
            follows(
                sp_batch_target_inner(old(self).text@, old(self).pos as int),
                r,
                final(self).pos as int,
            ),
    {
        let saved_pos = self.pos;
        let saved_line = self.line;
        if self.peek() == Some('(') {
            self.advance();
            self.skip_ws();
        }
        let value_col_str = self.parse_col_letters()?;
        if self.peek() != Some('(') {
            self.restore(saved_pos, saved_line);
            return Err(string_from_str("不是批量目标"));
        }
        let result = self.parse_batch_target_body(value_col_str)?;
        self.skip_ws();
        if self.peek() == Some(')') {
            self.advance();
        }
        Ok(result)
    }

    fn try_parse_batch_target(&mut self) -> (r: Result<TargetPosition, String>)
        requires
            old(self).wf(),
        ensures
            final(self).wf(),
            final(self).text == old(self).text,
            final(self).pos >= old(self).pos,
            follows(
                sp_batch_target(old(self).text@, old(self).pos as int),
                r,
                final(self).pos as int,
            ),
    {
        let saved_pos = self.pos;
        let saved_line = self.line;
        let has_outer_paren = self.peek() == Some('(');
        if has_outer_paren {
            self.restore(saved_pos, saved_line);
            return self.try_parse_batch_target_inner();
        }
        let value_col_str = self.parse_col_letters()?;
        if self.peek() != Some('(') {
            self.restore(saved_pos, saved_line);
            return Err(string_from_str("不是批量目标"));
        }
        self.parse_batch_target_body(value_col_str)
    }

    /// A target position.
    pub fn parse_target_start(&mut self) -> (r: Result<TargetPosition, String>)
        requires
            old(self).wf(),
        ensures
            final(self).wf(),
            final(self).text == old(self).text,
            final(self).pos >= old(self).pos,
            follows(sp_target(old(self).text@, old(self).pos as int), r, final(self).pos as int),
    {
        self.skip_ws();
        let saved_pos = self.pos;
        let saved_line = self.line;
        if self.peek() == Some('(') {
            if let Ok(result) = self.try_parse_merged_target() {
                return Ok(result);
            }
            self.restore(saved_pos, saved_line);
        }
        if self.peek() == Some('(') {
            if let Ok(result) = self.try_parse_stepped_target() {
                return Ok(result);
            }
            self.restore(saved_pos, saved_line);
        }
        if let Ok(result) = self.try_parse_batch_target() {
            return Ok(result);
        }
        self.restore(saved_pos, saved_line);
        let cell = self.parse_cell_ref()?;
        Ok(TargetPosition::Simple(cell))
    }

    /// `|` or `-`.
    pub fn parse_direction(&mut self) -> (r: Result<Direction, String>)
        requires
            old(self).wf(),
        ensures
            final(self).wf(),
            final(self).text == old(self).text,
            final(self).pos >= old(self).pos,
            follows(
                sp_direction(old(self).text@, old(self).pos as int),
                r,
                final(self).pos as int,
            ),
    {
        self.skip_ws();
        match self.peek() {
            Some('|') => {
                self.advance();
                Ok(Direction::Vertical)
            },
            Some('-') => {
                self.advance();
                Ok(Direction::Horizontal)
            },
            Some(c) => {
                let mut m: Vec<char> = Vec::new();
                push_str(&mut m, "期望方向标记 '|' 或 '-', 但找到 '");
                m.push(c);
                m.push('\'');
                let body = string_from(m.as_slice());
                Err(self.err_line(body.as_str()))
            },
            None => Err(self.err_line("期望方向标记，但已到文本末尾")),
        }
    }

    pub fn expect_str(&mut self, expected: &str) -> (r: Result<(), String>)
        requires
            old(self).wf(),
        ensures
            final(self).wf(),
            final(self).text == old(self).text,
            final(self).pos >= old(self).pos,
            match r {
                Ok(_) => sp_expect_str(old(self).text@, old(self).pos as int, expected@) == Some(
                    final(self).pos as int,
                ),
                Err(_) => sp_expect_str(old(self).text@, old(self).pos as int, expected@) is None,
            },
    {
        let e = chars_of(expected);
        assert(e@.skip(0) =~= e@);
        let mut i: usize = 0;
        while i < e.len()
            invariant
                self.wf(),
                self.text == old(self).text,
                self.pos >= old(self).pos,
                i <= e@.len(),
                e@ == expected@,
                sp_expect_str(old(self).text@, old(self).pos as int, expected@) == sp_expect_str(
                    self.text@,
                    self.pos as int,
                    e@.skip(i as int),
                ),
            decreases e@.len() - i,
        {
            assert(e@.skip(i as int).drop_first() =~= e@.skip(i + 1));
            self.expect_char(e[i])?;
            i += 1;
        }
        assert(e@.skip(i as int).len() == 0);
        Ok(())
    }

    /// Reads a formula expression up to a `,` or `)` outside parentheses.
    pub fn parse_formula_expression(&mut self) -> (r: Result<String, String>)
        requires
            old(self).wf(),
        ensures
            final(self).wf(),
            final(self).text == old(self).text,
            final(self).pos >= old(self).pos,
            match r {
                Ok(x) => sp_fexpr(old(self).text@, old(self).pos as int) == Some(
                    (x@, final(self).pos as int),
                ),
                Err(_) => sp_fexpr(old(self).text@, old(self).pos as int) is None,
            },
    {
        let ghost t = self.text@;
        let ghost p0 = self.pos as int;
        let mut expr: Vec<char> = Vec::new();
        let mut depth: usize = 0;
        loop
            invariant
                self.wf(),
                self.text == old(self).text,
                t == self.text@,
                0 <= p0 <= self.pos,
                p0 == old(self).pos,
                depth <= self.pos,
                fexpr_end(t, p0, 0) == fexpr_end(t, self.pos as int, depth as nat),
                expr@ == t.subrange(p0, self.pos as int),
            ensures
                self.wf(),
                self.text == old(self).text,
                t == self.text@,
                0 <= p0 <= self.pos,
                fexpr_end(t, p0, 0) == self.pos,
                expr@ == t.subrange(p0, self.pos as int),
            decreases self.text@.len() - self.pos,
        {
            match self.peek() {
                None => {
                    break;
                },
                Some(ch) => {
                    let ghost op = self.pos as int;
                    if ch == '(' {
                        depth += 1;
                    } else if ch == ')' {
                        if depth == 0 {
                            break;
                        }
                        depth -= 1;
                    } else if ch == ',' && depth == 0 {
                        break;
                    }
                    expr.push(ch);
                    self.advance();
                    assert(t.subrange(p0, self.pos as int) =~= t.subrange(p0, op).push(ch));
                },
            }
        }
        if expr.len() == 0 {
            return Err(self.err_line("formula 表达式为空"));
        }
        Ok(string_from(expr.as_slice()))
    }

    /// The list after `formula(`, through the closing `)`.
    fn parse_formula_list(&mut self) -> (r: Result<Vec<CustomFormula>, String>)
        requires
            old(self).wf(),
        ensures
            final(self).wf(),
            final(self).text == old(self).text,
            final(self).pos >= old(self).pos,
            match r {
                Ok(v) => sp_flist(old(self).text@, old(self).pos as int) == Some(
                    (formulas_view(v@), final(self).pos as int),
                ),
                Err(_) => sp_flist(old(self).text@, old(self).pos as int) is None,
            },
    {
        let ghost t = self.text@;
        let ghost p0 = self.pos as int;
        let mut formulas: Vec<CustomFormula> = Vec::new();
        loop
            invariant
                self.wf(),
                self.text == old(self).text,
                t == self.text@,
                p0 == old(self).pos,
                p0 <= self.pos,
                sp_flist(t, p0) == (match sp_flist(t, self.pos as int) {
                    None => None,
                    Some((fs, e)) => Some((formulas_view(formulas@) + fs, e)),
                }),
            decreases self.text@.len() - self.pos,
        {
            let ghost cur = self.pos as int;
            proof {
                lemma_sk_ge(t, cur);
            }
            self.skip_ws();
            if self.peek() == Some(')') {
                self.advance();
                assert(formulas_view(formulas@) + Seq::empty() =~= formulas_view(formulas@));
                return Ok(formulas);
            }
            let target_cell = match self.parse_cell_ref() {
                Ok(c) => c,
                Err(_) => {
                    return Err(self.err_line("formula 中期望目标单元格引用"));
                },
            };
            let ghost e1 = self.pos as int;
            self.skip_ws();
            proof {
                lemma_sk_ge(t, e1);
            }
            self.expect_char('=')?;
            let raw_text = self.parse_formula_expression()?;
            let ghost x = raw_text@;
            let f = CustomFormula { target_cell, raw_text };
            let ghost e3 = self.pos as int;
            self.skip_ws();
            let ghost q3 = self.pos as int;
            assert(q3 > cur);
            let ghost before = formulas_view(formulas@);
            formulas.push(f);
            assert(formulas_view(formulas@) =~= before + seq![(target_cell, x)]);
            if self.peek() == Some(',') {
                self.advance();
                proof {
                    match sp_flist(t, q3 + 1) {
                        None => {},
                        Some((fs, e)) => {
                            assert(before + (seq![(target_cell, x)] + fs) =~= (before + seq![
                                (target_cell, x),
                            ]) + fs);
                        },
                    }
                }
            } else if self.peek() != Some(')') {
                return Err(self.err_line("formula 中期望 ',' 或 ')'"));
            } else {
                proof {
                    match sp_flist(t, q3) {
                        None => {},
                        Some((fs, e)) => {
                            assert(before + (seq![(target_cell, x)] + fs) =~= (before + seq![
                                (target_cell, x),
                            ]) + fs);
                        },
                    }
                }
            }
        }
    }

    /// The optional `,formula(T1=f1,T2=f2,...)` part.
    pub fn parse_optional_custom_formulas(&mut self) -> (r: Result<Vec<CustomFormula>, String>)
        requires
            old(self).wf(),
        ensures
            final(self).wf(),
            final(self).text == old(self).text,
            final(self).pos >= old(self).pos,
            match r {
                Ok(v) => sp_opt_formulas(old(self).text@, old(self).pos as int) == Some(
                    (formulas_view(v@), final(self).pos as int),
                ),
                Err(_) => sp_opt_formulas(old(self).text@, old(self).pos as int) is None,
            },
    {
        let ghost t = self.text@;
        self.skip_ws();
        let saved_pos = self.pos;
        let saved_line = self.line;
        if self.peek() != Some(',') {
            let v: Vec<CustomFormula> = Vec::new();
            assert(formulas_view(v@) =~= Seq::empty());
            return Ok(v);
        }
        self.advance();
        self.skip_ws();
        let ghost q1 = self.pos as int;
        let mut label: Vec<char> = Vec::new();
        while self.pos < self.text.len() && is_alpha_exec(self.text[self.pos])
            invariant
                self.wf(),
                self.text == old(self).text,
                t == self.text@,
                0 <= q1 <= self.pos,
                saved_pos <= q1,
                alpha_end(t, q1) == alpha_end(t, self.pos as int),
                label@ == lower_seq(t.subrange(q1, self.pos as int)),
            decreases self.text@.len() - self.pos,
        {
            let c = self.text[self.pos];
            let ghost op = self.pos as int;
            label.push(lower_exec(c));
            self.advance();
            assert(t.subrange(q1, self.pos as int) =~= t.subrange(q1, op).push(c));
            assert(label@ =~= lower_seq(t.subrange(q1, self.pos as int)));
        }
        let word = ['f', 'o', 'r', 'm', 'u', 'l', 'a'];
        assert(word@ =~= formula_word());
        if !crate::text::seq_eq(label.as_slice(), word.as_slice()) {
            self.restore(saved_pos, saved_line);
            let v: Vec<CustomFormula> = Vec::new();
            assert(formulas_view(v@) =~= Seq::empty());
            return Ok(v);
        }
        self.skip_ws();
        if self.peek() != Some('(') {
            self.restore(saved_pos, saved_line);
            let v: Vec<CustomFormula> = Vec::new();
            assert(formulas_view(v@) =~= Seq::empty());
            return Ok(v);
        }
        self.expect_char('(')?;
        self.parse_formula_list()
    }

    /// One rule.
    pub fn parse_one_rule(&mut self) -> (r: Result<ParsedRule, String>)
        requires
            old(self).wf(),
        ensures
            final(self).wf(),
            final(self).text == old(self).text,
            match r {
                Ok(rule) => sp_rule(old(self).text@, old(self).pos as int) == Some(
                    (rule@, final(self).pos as int),
                ) && final(self).pos > old(self).pos,
                Err(_) => sp_rule(old(self).text@, old(self).pos as int) is None,
            },
    {
        let ghost t = self.text@;
        let line = self.line;
        let source_range = self.parse_source_range()?;
        let ghost p1 = self.pos as int;
        self.skip_ws();
        proof {
            lemma_sk_ge(t, p1);
            reveal_strlit("->");
            assert("->"@ =~= seq!['-', '>']);
            assert(sp_expect(t, sk(t, p1), '-') == sp_expect(t, p1, '-'));
        }
        self.expect_str("->")?;
        let target_start = self.parse_target_start()?;
        let custom_formulas = self.parse_optional_custom_formulas()?;
        self.expect_char(':')?;
        let direction = self.parse_direction()?;
        self.expect_char('~')?;
        self.expect_char(';')?;
        Ok(ParsedRule { source_range, target_start, direction, line, custom_formulas })
    }
}

} // verus!

verus! {

/// Every rule of the text, in order: `Err` when some rule does not follow the
/// grammar or when there is none.
pub fn parse_rules(text: &str) -> (r: Result<Vec<ParsedRule>, String>)
    requires
        text@.len() < usize::MAX,
    ensures
        match r {
            Ok(rules) => sp_rules(text@, 0) == Some(rules@.map_values(|x: ParsedRule| x@))
                && rules@.len() > 0,
            Err(_) => match sp_rules(text@, 0) {
                None => true,
                Some(rs) => rs.len() == 0,
            },
        },
{
    let mut scanner = RuleScanner::new(text);
    let ghost t = text@;
    let mut rules: Vec<ParsedRule> = Vec::new();
    loop
        invariant
            scanner.wf(),
            scanner.text@ == t,
            t == text@,
            sp_rules(t, 0) == (match sp_rules(t, scanner.pos as int) {
                None => None,
                Some(rs) => Some(rules@.map_values(|x: ParsedRule| x@) + rs),
            }),
        ensures
            sp_rules(t, 0) == Some(rules@.map_values(|x: ParsedRule| x@)),
        decreases t.len() - scanner.pos,
    {
        let ghost p = scanner.pos as int;
        let ghost top = sp_rules(t, p);
        assert(sp_rules(t, 0) == (match top {
            None => None,
            Some(rs) => Some(rules@.map_values(|x: ParsedRule| x@) + rs),
        }));
        scanner.skip_ws();
        proof {
            lemma_sk_ge(t, p);
        }
        while scanner.peek() == Some('\n')
            invariant
                scanner.wf(),
                scanner.text@ == t,
                scanner.pos >= p,
                scanner.pos == sk(t, scanner.pos as int),
                skip_blank(t, p) == skip_blank(t, scanner.pos as int),
            decreases t.len() - scanner.pos,
        {
            let ghost q = scanner.pos as int;
            scanner.advance();
            let ghost q1 = scanner.pos as int;
            scanner.skip_ws();
            proof {
                lemma_sk_ge(t, q1);
                lemma_sk_ge(t, q);
                assert(skip_blank(t, q) == skip_blank(t, q + 1));
                assert(skip_blank(t, q1) == skip_blank(t, sk(t, q1)));
            }
        }
        let ghost q = scanner.pos as int;
        proof {
            lemma_sk_ge(t, q);
            assert(skip_blank(t, q) == q);
            assert(skip_blank(t, p) == q);
        }
        if scanner.peek().is_none() {
            assert(sp_rules(t, p) == Some(Seq::<RuleV>::empty()));
            assert(sp_rules(t, q) == Some(Seq::<RuleV>::empty()));
            assert(rules@.map_values(|x: ParsedRule| x@) + Seq::<RuleV>::empty() =~= rules@.map_values(
                |x: ParsedRule| x@,
            ));
            break;
        }
        let ghost before = rules@.map_values(|x: ParsedRule| x@);
        let rule = match scanner.parse_one_rule() {
            Ok(x) => x,
            Err(msg) => {
                assert(sp_rules(t, p) is None);
                assert(sp_rules(t, 0) is None);
                return Err(msg);
            },
        };
        let ghost rv = rule@;
        let ghost e = scanner.pos as int;
        assert(sp_rules(t, p) == (match sp_rules(t, e) {
            None => None,
            Some(rs) => Some(seq![rv] + rs),
        }));
        rules.push(rule);
        proof {
            assert(rules@.map_values(|x: ParsedRule| x@) =~= before.push(rv));
            match sp_rules(t, scanner.pos as int) {
                None => {},
                Some(rs) => {
                    assert(before + (seq![rv] + rs) =~= before.push(rv) + rs);
                },
            }
        }
    }
    if rules.len() == 0 {
        return Err(string_from_str("至少需要一条有效规则"));
    }
    Ok(rules)
}

} // verus!

verus! {

// ===========================================================================
// Formula column shifting
// ===========================================================================

/// Index just past the closing `"` of a string literal whose body starts at
/// `j` (or the end of the text).
pub open spec fn quote_end(c: Seq<char>, j: int) -> int
    decreases c.len() - j,
{
    if j < 0 || j >= c.len() {
        c.len() as int
    } else if c[j] == '"' {
        j + 1
    } else {
        quote_end(c, j + 1)
    }
}

/// End of a run of digits and `~` starting at `p`.
pub open spec fn rowtext_end(c: Seq<char>, p: int) -> int
    decreases c.len() - p,
{
    if 0 <= p < c.len() && (is_digit(c[p]) || c[p] == '~') {
        rowtext_end(c, p + 1)
    } else {
        p
    }
}

pub proof fn lemma_quote_end(c: Seq<char>, j: int)
    requires
        0 <= j,
    ensures
        j <= quote_end(c, j) || j > c.len(),
        quote_end(c, j) <= c.len(),
    decreases c.len() - j,
{
    if j < c.len() && c[j] != '"' {
        lemma_quote_end(c, j + 1);
    }
}

pub proof fn lemma_rowtext_end(c: Seq<char>, p: int)
    requires
        0 <= p <= c.len(),
    ensures
        p <= rowtext_end(c, p) <= c.len(),
    decreases c.len() - p,
{
    if p < c.len() && (is_digit(c[p]) || c[p] == '~') {
        lemma_rowtext_end(c, p + 1);
    }
}

/// `max(x, 1)`.
pub open spec fn at_least_one(x: int) -> int {
    if x < 1 {
        1
    } else {
        x
    }
}

/// One token of the shifting scan at position `i` (inside the text): the text
/// it produces and where the next token starts. A cell reference
/// (`[$]letters[$]row`, the row made of digits and `~`) is moved right by
/// `shift` columns (never left of column A) keeping its `$` marks and row
/// text; a string literal is copied unchanged; anything else is copied.
pub open spec fn shift_step(c: Seq<char>, i: int, shift: int) -> (Seq<char>, int) {
    if c[i] == '"' {
        let e = quote_end(c, i + 1);
        (c.subrange(i, e), e)
    } else if c[i] == '$' || is_alpha(c[i]) {
        let cabs = c[i] == '$';
        let p1 = if cabs {
            i + 1
        } else {
            i
        };
        let p2 = alpha_end(c, p1);
        if p2 == p1 {
            (seq![c[i]], i + 1)
        } else {
            let rabs = at(c, p2, '$');
            let p3 = if rabs {
                p2 + 1
            } else {
                p2
            };
            let p4 = rowtext_end(c, p3);
            if p4 == p3 {
                (c.subrange(i, p4), p4)
            } else {
                match letters_col(upper_seq(c.subrange(p1, p2))) {
                    None => (c.subrange(i, p4), p4),
                    Some(col) => (
                        (if cabs {
                            seq!['$']
                        } else {
                            Seq::empty()
                        }) + crate::cellref::col_letters(at_least_one(col + shift) as nat) + (
                        if rabs {
                            seq!['$']
                        } else {
                            Seq::empty()
                        }) + c.subrange(p3, p4),
                        p4,
                    ),
                }
            }
        }
    } else {
        (seq![c[i]], i + 1)
    }
}

pub proof fn lemma_shift_step_advances(c: Seq<char>, i: int, shift: int)
    requires
        0 <= i < c.len(),
    ensures
        i < shift_step(c, i, shift).1 <= c.len(),
{
    lemma_quote_end(c, i + 1);
    let p1 = if c[i] == '$' {
        i + 1
    } else {
        i
    };
    lemma_alpha_end_bounds(c, p1);
    let p2 = alpha_end(c, p1);
    let p3 = if at(c, p2, '$') {
        p2 + 1
    } else {
        p2
    };
    if p3 <= c.len() {
        lemma_rowtext_end(c, p3);
    }
}

/// The text from position `i` on, token by token.
pub open spec fn shifted_from(c: Seq<char>, i: int, shift: int) -> Seq<char>
    decreases c.len() - i,
{
    if i < 0 || i >= c.len() {
        Seq::empty()
    } else {
        let (piece, next) = shift_step(c, i, shift);
        proof {
            lemma_shift_step_advances(c, i, shift);
        }
        piece + shifted_from(c, next, shift)
    }
}

/// The whole formula shifted (unchanged when empty or when the shift is 0).
pub open spec fn shifted(c: Seq<char>, shift: int) -> Seq<char> {
    if c.len() == 0 || shift == 0 {
        c
    } else {
        shifted_from(c, 0, shift)
    }
}

/// Index of the end of the run of letters in `c[p..]`.
fn alpha_run(c: &[char], p: usize) -> (e: usize)
    requires
        p <= c@.len(),
    ensures
        e as int == alpha_end(c@, p as int),
        p <= e <= c@.len(),
{
    let mut e = p;
    while e < c.len() && is_alpha_exec(c[e])
        invariant
            p <= e <= c@.len(),
            alpha_end(c@, p as int) == alpha_end(c@, e as int),
        decreases c@.len() - e,
    {
        e += 1;
    }
    e
}

/// Index of the end of the run of digits and `~` in `c[p..]`.
fn rowtext_run(c: &[char], p: usize) -> (e: usize)
    requires
        p <= c@.len(),
    ensures
        e as int == rowtext_end(c@, p as int),
        p <= e <= c@.len(),
{
    let mut e = p;
    while e < c.len() && (is_digit_exec(c[e]) || c[e] == '~')
        invariant
            p <= e <= c@.len(),
            rowtext_end(c@, p as int) == rowtext_end(c@, e as int),
        decreases c@.len() - e,
    {
        e += 1;
    }
    e
}

/// Index just past the closing `"` of a literal whose body starts at `j`.
fn quote_run(c: &[char], j: usize) -> (e: usize)
    requires
        j <= c@.len(),
    ensures
        e as int == quote_end(c@, j as int),
        e <= c@.len(),
{
    let mut k = j;
    while k < c.len() && c[k] != '"'
        invariant
            j <= k <= c@.len(),
            quote_end(c@, j as int) == quote_end(c@, k as int),
        decreases c@.len() - k,
    {
        k += 1;
    }
    if k < c.len() {
        k + 1
    } else {
        k
    }
}

/// Upper-cased copy of `c[lo..hi]`.
fn upper_range(c: &[char], lo: usize, hi: usize) -> (v: Vec<char>)
    requires
        lo <= hi <= c@.len(),
    ensures
        v@ == upper_seq(c@.subrange(lo as int, hi as int)),
{
    let mut v: Vec<char> = Vec::new();
    let mut k = lo;
    while k < hi
        invariant
            lo <= k <= hi <= c@.len(),
            v@ == upper_seq(c@.subrange(lo as int, k as int)),
        decreases hi - k,
    {
        v.push(upper_exec(c[k]));
        k += 1;
        assert(v@ =~= upper_seq(c@.subrange(lo as int, k as int)));
    }
    v
}

/// One step of [`shift_formula_columns`]: appends the piece and returns the
/// next position.
#[verifier::rlimit(60)]
fn shift_one(c: &[char], i: usize, col_shift: i32, out: &mut Vec<char>) -> (next: usize)
    requires
        i < c@.len(),
        col_shift <= i32::MAX - crate::cellref::MAX_COL,
    ensures
        next as int == shift_step(c@, i as int, col_shift as int).1,
        final(out)@ == old(out)@ + shift_step(c@, i as int, col_shift as int).0,
{
    let ch = c[i];
    if ch == '"' {
        let e = quote_run(c, i + 1);
        proof {
            lemma_quote_end(c@, i + 1);
        }
        push_all(out, &c[i..e]);
        return e;
    }
    if ch == '$' || is_alpha_exec(ch) {
        let col_abs = ch == '$';
        let p1 = if col_abs {
            i + 1
        } else {
            i
        };
        let p2 = alpha_run(c, p1);
        if p2 == p1 {
            out.push(ch);
            return i + 1;
        }
        let row_abs = p2 < c.len() && c[p2] == '$';
        let p3 = if row_abs {
            p2 + 1
        } else {
            p2
        };
        let p4 = rowtext_run(c, p3);
        if p4 == p3 {
            push_all(out, &c[i..p4]);
            return p4;
        }
        let letters = upper_range(c, p1, p2);
        assert(letters@.subrange(0, letters@.len() as int) =~= letters@);
        match letters_to_col_range(letters.as_slice(), 0, letters.len()) {
            None => {
                push_all(out, &c[i..p4]);
                p4
            },
            Some(col_num) => {
                assert(col_num <= crate::cellref::MAX_COL);
                let sum: i32 = col_num as i32 + col_shift;
                let new_col: u32 = if sum < 1 {
                    1
                } else {
                    sum as u32
                };
                let ghost o0 = out@;
                if col_abs {
                    out.push('$');
                }
                let ghost o1 = out@;
                crate::cellref::push_col_letters(out, new_col);
                let ghost o2 = out@;
                if row_abs {
                    out.push('$');
                }
                let ghost o3 = out@;
                push_all(out, &c[p3..p4]);
                proof {
                    let a: Seq<char> = if col_abs {
                        seq!['$']
                    } else {
                        Seq::empty()
                    };
                    let b: Seq<char> = if row_abs {
                        seq!['$']
                    } else {
                        Seq::empty()
                    };
                    assert(o1 =~= o0 + a);
                    assert(o3 =~= o2 + b);
                    assert(out@ =~= o0 + (a + crate::cellref::col_letters(new_col as nat) + b
                        + c@.subrange(p3 as int, p4 as int)));
                }
                p4
            },
        }
    } else {
        out.push(ch);
        i + 1
    }
}

/// Moves every column reference of a formula right by `col_shift` columns.
/// `$` marks are kept, `~` may stand for the row, string literals are copied.
///
/// `SUM(B15:B~)` shifted by 2 is `SUM(D15:D~)`.
pub fn shift_formula_columns(formula: &str, col_shift: i32) -> (r: String)
    requires
        col_shift <= i32::MAX - crate::cellref::MAX_COL,
    ensures
        r@ == shifted(formula@, col_shift as int),
{
    let c = chars_of(formula);
    if c.len() == 0 || col_shift == 0 {
        return string_from(c.as_slice());
    }
    let ghost sh = col_shift as int;
    let mut out: Vec<char> = Vec::new();
    let mut i: usize = 0;
    while i < c.len()
        invariant
            c@ == formula@,
            i <= c@.len(),
            sh == col_shift as int,
            col_shift <= i32::MAX - crate::cellref::MAX_COL,
            out@ + shifted_from(c@, i as int, sh) == shifted_from(c@, 0, sh),
        decreases c@.len() - i,
    {
        let ghost before = out@;
        let ghost i0 = i as int;
        proof {
            lemma_shift_step_advances(c@, i0, sh);
        }
        i = shift_one(c.as_slice(), i, col_shift, &mut out);
        proof {
            let st = shift_step(c@, i0, sh);
            assert(shifted_from(c@, i0, sh) == st.0 + shifted_from(c@, st.1, sh));
            assert(before + (st.0 + shifted_from(c@, st.1, sh)) =~= (before + st.0)
                + shifted_from(c@, st.1, sh));
        }
    }
    assert(out@ =~= shifted_from(c@, 0, sh));
    string_from(out.as_slice())
}

} // verus!

verus! {

// ===========================================================================
// Batch rule expansion
// ===========================================================================

/// `max(x, 1)` as the column written by the expansion.
pub open spec fn clamp_col(x: int) -> u32 {
    if x < 1 {
        1
    } else {
        x as u32
    }
}

/// Whether a formula of a batch-columns rule belongs to the sub-rule of
/// target row `tgt_row` (the `i`-th): it sits on that row, or the sub-rule is
/// the first and the formula lies outside the target rows.
pub open spec fn formula_in_subrule(f: (CellRef, Seq<char>), i: int, tgt_row: int, trs: u32, tre: u32) -> bool {
    f.0.row == tgt_row || (i == 0 && (f.0.row < trs || f.0.row > tre))
}

/// The copies of one formula filled to the right: copy `j` moves `j * width`
/// columns.
pub open spec fn fill_copies(f: (CellRef, Seq<char>), n: nat, width: int) -> Seq<(CellRef, Seq<char>)> {
    Seq::new(
        n,
        |j: int|
            (
                CellRef { col: clamp_col(f.0.col as i32 as int + j * width), row: f.0.row },
                shifted(f.1, j * width),
            ),
    )
}

/// The formulas of sub-rule `i`, each filled `n` times.
pub open spec fn fill_formulas(
    fs: Seq<(CellRef, Seq<char>)>,
    i: int,
    tgt_row: int,
    trs: u32,
    tre: u32,
    n: nat,
    width: int,
) -> Seq<(CellRef, Seq<char>)>
    decreases fs.len(),
{
    if fs.len() == 0 {
        Seq::empty()
    } else {
        (if formula_in_subrule(fs[0], i, tgt_row, trs, tre) {
            fill_copies(fs[0], n, width)
        } else {
            Seq::empty()
        }) + fill_formulas(fs.drop_first(), i, tgt_row, trs, tre, n, width)
    }
}

/// The rules that a rule stands for: a batch-columns rule with a batch target
/// becomes one continuous rule per source column, a batch-stepped rule with a
/// stepped target one stepped rule per source row; any other rule stands for
/// itself.
pub open spec fn expanded(r: RuleV) -> Seq<RuleV> {
    match (r.0, r.1) {
        (
            SourceRange::BatchColumns { col_start, col_end, row_start, row_end },
            TargetPosition::BatchTarget { value_col, merge_col, row_start: trs, row_end: tre },
        ) => {
            let width = merge_col - value_col + 1;
            let ncols = col_end - col_start + 1;
            let nrows = row_end - row_start + 1;
            Seq::new(
                if ncols < 0 {
                    0nat
                } else {
                    ncols as nat
                },
                |i: int|
                    (
                        SourceRange::Continuous {
                            start: CellRef { col: (col_start + i) as u32, row: row_start },
                            end: CellRef { col: (col_start + i) as u32, row: row_end },
                        },
                        TargetPosition::Merged(
                            CellRange {
                                start_row: (trs + i) as u32,
                                start_col: value_col,
                                end_row: (trs + i) as u32,
                                end_col: merge_col,
                            },
                        ),
                        r.2,
                        r.3,
                        fill_formulas(r.4, i, trs + i, trs, tre, nrows as nat, width),
                    ),
            )
        },
        (
            SourceRange::BatchStepped { col_start, row_start, row_end, col_step, col_end },
            TargetPosition::SteppedTarget { col_start: tcs, col_step: tstep, row_start: trs },
        ) => {
            let n = row_end - row_start + 1;
            Seq::new(
                n as nat,
                |i: int|
                    (
                        SourceRange::Stepped {
                            start: CellRef { col: col_start, row: (row_start + i) as u32 },
                            step: col_step,
                            end: CellRef { col: col_end, row: (row_start + i) as u32 },
                        },
                        TargetPosition::Simple(
                            CellRef { col: clamp_col(tcs + i * tstep), row: trs },
                        ),
                        r.2,
                        r.3,
                        if i == 0 {
                            r.4
                        } else {
                            Seq::empty()
                        },
                    ),
            )
        },
        _ => seq![r],
    }
}

/// How many rules a rule expands to: a rule that is no batch rule comes
/// back alone and unchanged; a batch of columns gives one rule per column,
/// and a stepped batch one rule per source row (spans taken in order).
pub proof fn lemma_expanded_count(r: RuleV)
    ensures
        match (r.0, r.1) {
            (
                SourceRange::BatchColumns { col_start, col_end, .. },
                TargetPosition::BatchTarget { .. },
            ) => col_start <= col_end ==> expanded(r).len() == col_end - col_start + 1,
            (
                SourceRange::BatchStepped { row_start, row_end, .. },
                TargetPosition::SteppedTarget { .. },
            ) => row_start <= row_end ==> expanded(r).len() == row_end - row_start + 1,
            _ => expanded(r) == seq![r],
        },
{
}

/// The arithmetic of [`expand_batch_rule`] stays in range: the column and row
/// spans are not reversed, target rows and columns fit, and the column moves
/// of the filled formulas fit.
pub open spec fn expandable(r: RuleV) -> bool {
    match (r.0, r.1) {
        (
            SourceRange::BatchColumns { col_start, col_end, row_start, row_end },
            TargetPosition::BatchTarget { value_col, merge_col, row_start: trs, row_end: tre },
        ) => {
            &&& value_col <= merge_col
            &&& merge_col - value_col + 1 <= u32::MAX
            &&& col_start <= col_end
            &&& row_start <= row_end
            &&& row_end - row_start + 1 <= u32::MAX
            &&& col_end - col_start + 1 <= u32::MAX
            &&& trs + (col_end - col_start) <= u32::MAX
            &&& forall|k: int|
                0 <= k < r.4.len() ==> {
                    &&& (row_end - row_start) * (merge_col - value_col + 1) <= i32::MAX
                        - crate::cellref::MAX_COL
                    &&& (#[trigger] r.4[k]).0.col as i32 + (row_end - row_start) * (merge_col
                        - value_col + 1) <= i32::MAX
                }
        },
        (
            SourceRange::BatchStepped { col_start, row_start, row_end, col_step, col_end },
            TargetPosition::SteppedTarget { col_start: tcs, col_step: tstep, row_start: trs },
        ) => {
            &&& row_start <= row_end
            &&& row_end - row_start + 1 <= u32::MAX
            &&& tcs + (row_end - row_start) * tstep <= i32::MAX
        },
        _ => true,
    }
}

/// Fills one formula `n` times to the right, `width` columns apart.
fn push_fill_copies(out: &mut Vec<CustomFormula>, f: &CustomFormula, n: u32, width: u32)
    requires
        n >= 1,
        (n - 1) * width <= i32::MAX - crate::cellref::MAX_COL,
        f.target_cell.col as i32 + (n - 1) * width <= i32::MAX,
    ensures
        formulas_view(final(out)@) == formulas_view(old(out)@) + fill_copies(f@, n as nat, width as int),
{
    let mut j: u32 = 0;
    while j < n
        invariant
            j <= n,
            n >= 1,
            (n - 1) * width <= i32::MAX - crate::cellref::MAX_COL,
            f.target_cell.col as i32 + (n - 1) * width <= i32::MAX,
            formulas_view(out@) == formulas_view(old(out)@) + fill_copies(f@, n as nat, width as int).take(j as int),
        decreases n - j,
    {
        proof {
            assert(j * width <= (n - 1) * width) by (nonlinear_arith)
                requires j <= n - 1;
            assert(j * width >= 0) by (nonlinear_arith);
        }
        let col_shift: i32 = (j as i64 * width as i64) as i32;
        let shifted_text = shift_formula_columns(f.raw_text.as_str(), col_shift);
        let sum: i32 = f.target_cell.col as i32 + col_shift;
        let new_col: u32 = if sum < 1 { 1 } else { sum as u32 };
        let g = CustomFormula { target_cell: CellRef { col: new_col, row: f.target_cell.row }, raw_text: shifted_text };
        let ghost before = formulas_view(out@);
        out.push(g);
        j += 1;
        proof {
            let want = fill_copies(f@, n as nat, width as int);
            assert(want[j - 1] == g@);
            assert(formulas_view(out@) =~= before.push(g@));
            assert(want.take(j as int) =~= want.take(j - 1).push(want[j - 1]));
        }
    }
    assert(fill_copies(f@, n as nat, width as int).take(n as int) =~= fill_copies(f@, n as nat, width as int));
}

/// Rewrites a batch rule as the equivalent per-column or per-row rules;
/// any other rule comes back as a single copy.
pub fn expand_batch_rule(rule: &ParsedRule) -> (r: Vec<ParsedRule>)
    requires
        expandable(rule@),
    ensures
        r@.map_values(|x: ParsedRule| x@) == expanded(rule@),
{
    match (rule.source_range, rule.target_start) {
        (
            SourceRange::BatchColumns { col_start, col_end, row_start, row_end },
            TargetPosition::BatchTarget { value_col, merge_col, row_start: tgt_row_start, row_end: tgt_row_end },
        ) => {
            let merge_width = merge_col - value_col + 1;
            let num_cols = col_end - col_start + 1;
            let num_src_rows = row_end - row_start + 1;
            let ghost fs = formulas_view(rule.custom_formulas@);
            let mut expanded_rules: Vec<ParsedRule> = Vec::new();
            let mut i: u32 = 0;
            while i < num_cols
                invariant
                    i <= num_cols,
                    num_cols == col_end - col_start + 1,
                    merge_width == merge_col - value_col + 1,
                    num_src_rows == row_end - row_start + 1,
                    expandable(rule@),
                    rule.source_range == (SourceRange::BatchColumns { col_start, col_end, row_start, row_end }),
                    rule.target_start == (TargetPosition::BatchTarget { value_col, merge_col, row_start: tgt_row_start, row_end: tgt_row_end }),
                    fs == formulas_view(rule.custom_formulas@),
                    expanded_rules@.map_values(|x: ParsedRule| x@) == expanded(rule@).take(i as int),
                decreases num_cols - i,
            {
                let col = col_start + i;
                let tgt_row = tgt_row_start + i;
                let mut formulas: Vec<CustomFormula> = Vec::new();
                let mut k: usize = 0;
                assert(fs.skip(0) =~= fs);
                assert(formulas_view(formulas@) + fill_formulas(fs, i as int, tgt_row as int, tgt_row_start, tgt_row_end, num_src_rows as nat, merge_width as int)
                    =~= fill_formulas(fs, i as int, tgt_row as int, tgt_row_start, tgt_row_end, num_src_rows as nat, merge_width as int));
                while k < rule.custom_formulas.len()
                    invariant
                        k <= rule.custom_formulas@.len(),
                        i < num_cols,
                        tgt_row == tgt_row_start + i,
                        num_src_rows == row_end - row_start + 1,
                        merge_width == merge_col - value_col + 1,
                        expandable(rule@),
                        rule.source_range == (SourceRange::BatchColumns { col_start, col_end, row_start, row_end }),
                        rule.target_start == (TargetPosition::BatchTarget { value_col, merge_col, row_start: tgt_row_start, row_end: tgt_row_end }),
                        fs == formulas_view(rule.custom_formulas@),
                        formulas_view(formulas@) + fill_formulas(fs.skip(k as int), i as int, tgt_row as int, tgt_row_start, tgt_row_end, num_src_rows as nat, merge_width as int)
                            == fill_formulas(fs, i as int, tgt_row as int, tgt_row_start, tgt_row_end, num_src_rows as nat, merge_width as int),
                    decreases rule.custom_formulas@.len() - k,
                {
                    let cf = &rule.custom_formulas[k];
                    let ghost before = formulas_view(formulas@);
                    let ghost rest = fs.skip(k as int);
                    assert(rest[0] == cf@);
                    assert(rest.drop_first() =~= fs.skip(k + 1));
                    if cf.target_cell.row == tgt_row || (i == 0 && (cf.target_cell.row < tgt_row_start || cf.target_cell.row > tgt_row_end)) {
                        assert(rule@.4[k as int] == cf@);
                        push_fill_copies(&mut formulas, cf, num_src_rows, merge_width);
                        proof {
                            let c = fill_copies(cf@, num_src_rows as nat, merge_width as int);
                            assert(before + (c + fill_formulas(rest.drop_first(), i as int, tgt_row as int, tgt_row_start, tgt_row_end, num_src_rows as nat, merge_width as int))
                                =~= (before + c) + fill_formulas(rest.drop_first(), i as int, tgt_row as int, tgt_row_start, tgt_row_end, num_src_rows as nat, merge_width as int));
                        }
                    } else {
                        proof {
                            assert(Seq::<(CellRef, Seq<char>)>::empty() + fill_formulas(rest.drop_first(), i as int, tgt_row as int, tgt_row_start, tgt_row_end, num_src_rows as nat, merge_width as int)
                                =~= fill_formulas(rest.drop_first(), i as int, tgt_row as int, tgt_row_start, tgt_row_end, num_src_rows as nat, merge_width as int));
                        }
                    }
                    k += 1;
                }
                assert(fs.skip(k as int) =~= Seq::<(CellRef, Seq<char>)>::empty());
                assert(formulas_view(formulas@) + Seq::<(CellRef, Seq<char>)>::empty() =~= formulas_view(formulas@));
                let new_rule = ParsedRule {
                    source_range: SourceRange::Continuous { start: CellRef::new(col, row_start), end: CellRef::new(col, row_end) },
                    target_start: TargetPosition::Merged(CellRange::new(tgt_row, value_col, tgt_row, merge_col)),
                    direction: rule.direction,
                    line: rule.line,
                    custom_formulas: formulas,
                };
                let ghost before_rules = expanded_rules@.map_values(|x: ParsedRule| x@);
                expanded_rules.push(new_rule);
                i += 1;
                proof {
                    let want = expanded(rule@);
                    assert(want[i - 1] == new_rule@);
                    assert(expanded_rules@.map_values(|x: ParsedRule| x@) =~= before_rules.push(new_rule@));
                    assert(want.take(i as int) =~= want.take(i - 1).push(want[i - 1]));
                }
            }
            assert(expanded(rule@).take(num_cols as int) =~= expanded(rule@));
            expanded_rules
        },
        (
            SourceRange::BatchStepped { col_start, row_start, row_end, col_step, col_end },
            TargetPosition::SteppedTarget { col_start: tgt_col_start, col_step: tgt_col_step, row_start: tgt_row_start },
        ) => {
            let num_rows = row_end - row_start + 1;
            let mut expanded_rules: Vec<ParsedRule> = Vec::new();
            let mut i: u32 = 0;
            while i < num_rows
                invariant
                    i <= num_rows,
                    num_rows == row_end - row_start + 1,
                    expandable(rule@),
                    rule.source_range == (SourceRange::BatchStepped { col_start, row_start, row_end, col_step, col_end }),
                    rule.target_start == (TargetPosition::SteppedTarget { col_start: tgt_col_start, col_step: tgt_col_step, row_start: tgt_row_start }),
                    expanded_rules@.map_values(|x: ParsedRule| x@) == expanded(rule@).take(i as int),
                decreases num_rows - i,
            {
                let src_row = row_start + i;
                proof {
                    assert(i * tgt_col_step <= (row_end - row_start) * tgt_col_step) by (nonlinear_arith)
                        requires i <= row_end - row_start;
                    assert(i * tgt_col_step >= 0) by (nonlinear_arith);
                }
                let tc: i64 = tgt_col_start as i64 + i as i64 * tgt_col_step as i64;
                let tgt_col: u32 = if tc < 1 { 1 } else { tc as u32 };
                let formulas = if i == 0 { copy_formulas(&rule.custom_formulas) } else { Vec::new() };
                let new_rule = ParsedRule {
                    source_range: SourceRange::Stepped { start: CellRef::new(col_start, src_row), step: col_step, end: CellRef::new(col_end, src_row) },
                    target_start: TargetPosition::Simple(CellRef::new(tgt_col, tgt_row_start)),
                    direction: rule.direction,
                    line: rule.line,
                    custom_formulas: formulas,
                };
                let ghost before_rules = expanded_rules@.map_values(|x: ParsedRule| x@);
                expanded_rules.push(new_rule);
                i += 1;
                proof {
                    let want = expanded(rule@);
                    if i - 1 != 0 {
                        assert(formulas_view(new_rule.custom_formulas@) =~= Seq::empty());
                    }
                    assert(want[i - 1] == new_rule@);
                    assert(expanded_rules@.map_values(|x: ParsedRule| x@) =~= before_rules.push(new_rule@));
                    assert(want.take(i as int) =~= want.take(i - 1).push(want[i - 1]));
                }
            }
            assert(expanded(rule@).take(num_rows as int) =~= expanded(rule@));
            expanded_rules
        },
        _ => {
            let mut v: Vec<ParsedRule> = Vec::new();
            v.push(rule.duplicate());
            assert(v@.map_values(|x: ParsedRule| x@) =~= seq![rule@]);
            v
        },
    }
}

} // verus!

verus! {

// ===========================================================================
// Formula reference remapping
// ===========================================================================

/// The last entry of `m` for key `k` (later entries replace earlier ones).
pub open spec fn lookup(m: Seq<((u32, u32), (u32, u32))>, k: (u32, u32)) -> Option<(u32, u32)>
    decreases m.len(),
{
    if m.len() == 0 {
        None
    } else if m.last().0 == k {
        Some(m.last().1)
    } else {
        lookup(m.drop_last(), k)
    }
}

/// `x` moved by `off`, kept within `1..=max`.
pub open spec fn moved(x: int, off: int, max: int) -> int {
    let y = x + off;
    if y < 1 {
        1
    } else if y > max {
        max
    } else {
        y
    }
}

/// One token of the remapping scan at position `i`: the text it produces and
/// where the next token starts. A reference `[$]letters[$]digits` whose source
/// cell is in the mapping takes the mapped position; otherwise it moves by the
/// fallback offsets (never left of column A or above row 1). Parts marked `$`
/// stay as written. String literals and everything else are copied.
pub open spec fn remap_step(
    c: Seq<char>,
    i: int,
    m: Seq<((u32, u32), (u32, u32))>,
    dc: int,
    dr: int,
) -> (Seq<char>, int) {
    if c[i] == '"' {
        let e = quote_end(c, i + 1);
        (c.subrange(i, e), e)
    } else if c[i] == '$' || is_alpha(c[i]) {
        let cabs = c[i] == '$';
        let p1 = if cabs {
            i + 1
        } else {
            i
        };
        let p2 = alpha_end(c, p1);
        if p2 == p1 {
            (seq![c[i]], i + 1)
        } else {
            let rabs = at(c, p2, '$');
            let p3 = if rabs {
                p2 + 1
            } else {
                p2
            };
            let p4 = digit_end(c, p3);
            if p4 == p3 {
                (c.subrange(i, p4), p4)
            } else {
                match (letters_col(upper_seq(c.subrange(p1, p2))), parse_u32(c.subrange(p3, p4))) {
                    (Some(col), Some(row)) => {
                        let (nc, nr) = match lookup(m, (col, row)) {
                            Some((mc, mr)) => (mc as int, mr as int),
                            None => (
                                moved(col as int, dc, crate::cellref::MAX_COL as int),
                                moved(row as int, dr, u32::MAX as int),
                            ),
                        };
                        let oc = if cabs {
                            col as int
                        } else {
                            nc
                        };
                        let or = if rabs {
                            row as int
                        } else {
                            nr
                        };
                        (
                            (if cabs {
                                seq!['$']
                            } else {
                                Seq::empty()
                            }) + crate::cellref::col_letters(oc as nat) + (if rabs {
                                seq!['$']
                            } else {
                                Seq::empty()
                            }) + crate::text::dec(or as nat),
                            p4,
                        )
                    },
                    _ => (c.subrange(i, p4), p4),
                }
            }
        }
    } else {
        (seq![c[i]], i + 1)
    }
}

pub proof fn lemma_remap_step_advances(
    c: Seq<char>,
    i: int,
    m: Seq<((u32, u32), (u32, u32))>,
    dc: int,
    dr: int,
)
    requires
        0 <= i < c.len(),
    ensures
        i < remap_step(c, i, m, dc, dr).1 <= c.len(),
{
    lemma_quote_end(c, i + 1);
    let p1 = if c[i] == '$' {
        i + 1
    } else {
        i
    };
    lemma_alpha_end_bounds(c, p1);
    let p2 = alpha_end(c, p1);
    let p3 = if at(c, p2, '$') {
        p2 + 1
    } else {
        p2
    };
    if p3 <= c.len() {
        lemma_digit_end_bounds(c, p3);
    }
}

/// The formula from position `i` on, token by token.
pub open spec fn remapped_from(
    c: Seq<char>,
    i: int,
    m: Seq<((u32, u32), (u32, u32))>,
    dc: int,
    dr: int,
) -> Seq<char>
    decreases c.len() - i,
{
    if i < 0 || i >= c.len() {
        Seq::empty()
    } else {
        let (piece, next) = remap_step(c, i, m, dc, dr);
        proof {
            lemma_remap_step_advances(c, i, m, dc, dr);
        }
        piece + remapped_from(c, next, m, dc, dr)
    }
}

/// Finds the last mapping entry for `(col, row)`.
fn find_mapping(m: &Vec<((u32, u32), (u32, u32))>, col: u32, row: u32) -> (r: Option<(u32, u32)>)
    ensures
        r == lookup(m@, (col, row)),
{
    let mut k = m.len();
    assert(m@.take(k as int) =~= m@);
    while k > 0
        invariant
            k <= m@.len(),
            lookup(m@, (col, row)) == lookup(m@.take(k as int), (col, row)),
        decreases k,
    {
        let e = m[k - 1];
        assert(m@.take(k as int).drop_last() =~= m@.take(k - 1));
        if e.0.0 == col && e.0.1 == row {
            return Some(e.1);
        }
        k -= 1;
    }
    None
}

/// `x + off` kept within `1..=max`.
fn move_within(x: u32, off: i32, max: u32) -> (r: u32)
    requires
        max >= 1,
    ensures
        r as int == moved(x as int, off as int, max as int),
{
    let y: i64 = x as i64 + off as i64;
    if y < 1 {
        1
    } else if y > max as i64 {
        max
    } else {
        y as u32
    }
}

#[verifier::rlimit(60)]
fn remap_one(
    c: &[char],
    i: usize,
    mapping: &Vec<((u32, u32), (u32, u32))>,
    col_offset: i32,
    row_offset: i32,
    out: &mut Vec<char>,
) -> (next: usize)
    requires
        i < c@.len(),
    ensures
        next as int == remap_step(c@, i as int, mapping@, col_offset as int, row_offset as int).1,
        final(out)@ == old(out)@ + remap_step(c@, i as int, mapping@, col_offset as int, row_offset as int).0,
{
    let ch = c[i];
    if ch == '"' {
        let e = quote_run(c, i + 1);
        proof {
            lemma_quote_end(c@, i + 1);
        }
        push_all(out, &c[i..e]);
        return e;
    }
    if ch == '$' || is_alpha_exec(ch) {
        let col_abs = ch == '$';
        let p1 = if col_abs {
            i + 1
        } else {
            i
        };
        let p2 = alpha_run(c, p1);
        if p2 == p1 {
            out.push(ch);
            return i + 1;
        }
        let row_abs = p2 < c.len() && c[p2] == '$';
        let p3 = if row_abs {
            p2 + 1
        } else {
            p2
        };
        let mut p4 = p3;
        while p4 < c.len() && is_digit_exec(c[p4])
            invariant
                p3 <= p4 <= c@.len(),
                digit_end(c@, p3 as int) == digit_end(c@, p4 as int),
            decreases c@.len() - p4,
        {
            p4 += 1;
        }
        if p4 == p3 {
            push_all(out, &c[i..p4]);
            return p4;
        }
        let letters = upper_range(c, p1, p2);
        assert(letters@.subrange(0, letters@.len() as int) =~= letters@);
        let col_opt = letters_to_col_range(letters.as_slice(), 0, letters.len());
        let row_opt = parse_u32_range(c, p3, p4);
        match (col_opt, row_opt) {
            (Some(col), Some(row)) => {
                let (nc, nr) = match find_mapping(mapping, col, row) {
                    Some((mc, mr)) => (mc, mr),
                    None => (
                        move_within(col, col_offset, crate::cellref::MAX_COL),
                        move_within(row, row_offset, u32::MAX),
                    ),
                };
                let oc = if col_abs {
                    col
                } else {
                    nc
                };
                let or = if row_abs {
                    row
                } else {
                    nr
                };
                let ghost o0 = out@;
                if col_abs {
                    out.push('$');
                }
                let ghost o1 = out@;
                crate::cellref::push_col_letters(out, oc);
                let ghost o2 = out@;
                if row_abs {
                    out.push('$');
                }
                let ghost o3 = out@;
                push_dec(out, or as u64);
                proof {
                    let a: Seq<char> = if col_abs {
                        seq!['$']
                    } else {
                        Seq::empty()
                    };
                    let b: Seq<char> = if row_abs {
                        seq!['$']
                    } else {
                        Seq::empty()
                    };
                    assert(o1 =~= o0 + a);
                    assert(o3 =~= o2 + b);
                    assert(out@ =~= o0 + (a + crate::cellref::col_letters(oc as nat) + b
                        + crate::text::dec(or as nat)));
                }
                p4
            },
            _ => {
                push_all(out, &c[i..p4]);
                p4
            },
        }
    } else {
        out.push(ch);
        i + 1
    }
}

/// Rewrites the cell references of a formula copied from one place to
/// another: a referenced cell that `mapping` moves (source `(col, row)` to
/// target `(col, row)`; later entries win) takes its new position, any other
/// reference moves by `(col_offset, row_offset)`, never left of column A or
/// above row 1. Parts marked `$` are kept. `=E3-TODAY()` with `E3` mapped to
/// `B5` becomes `=B5-TODAY()`.
pub fn adjust_formula_by_mapping(
    formula: &str,
    mapping: &Vec<((u32, u32), (u32, u32))>,
    col_offset: i32,
    row_offset: i32,
) -> (r: String)
    ensures
        r@ == remapped_from(formula@, 0, mapping@, col_offset as int, row_offset as int),
{
    let c = chars_of(formula);
    let ghost dc = col_offset as int;
    let ghost dr = row_offset as int;
    let mut out: Vec<char> = Vec::new();
    let mut i: usize = 0;
    while i < c.len()
        invariant
            c@ == formula@,
            i <= c@.len(),
            dc == col_offset as int,
            dr == row_offset as int,
            out@ + remapped_from(c@, i as int, mapping@, dc, dr) == remapped_from(c@, 0, mapping@, dc, dr),
        decreases c@.len() - i,
    {
        let ghost before = out@;
        let ghost i0 = i as int;
        proof {
            lemma_remap_step_advances(c@, i0, mapping@, dc, dr);
        }
        i = remap_one(c.as_slice(), i, mapping, col_offset, row_offset, &mut out);
        proof {
            let st = remap_step(c@, i0, mapping@, dc, dr);
            assert(remapped_from(c@, i0, mapping@, dc, dr) == st.0 + remapped_from(c@, st.1, mapping@, dc, dr));
            assert(before + (st.0 + remapped_from(c@, st.1, mapping@, dc, dr)) =~= (before + st.0)
                + remapped_from(c@, st.1, mapping@, dc, dr));
        }
    }
    assert(out@ =~= remapped_from(c@, 0, mapping@, dc, dr));
    string_from(out.as_slice())
}

} // verus!

verus! {

// ===========================================================================
// Source cells and target positions
// ===========================================================================

/// The largest number of cells a merged-pair range may list.
pub const MERGED_PAIR_LIMIT: usize = 10000;

/// `|a - b| + 1`.
pub open spec fn span(a: u32, b: u32) -> int {
    if a >= b {
        a - b + 1
    } else {
        b - a + 1
    }
}

/// Number of steps of size `w` from `s` until reaching `t` (at or past it).
pub open spec fn steps_to(s: int, t: int, w: int) -> int {
    if s >= t || w <= 0 {
        0
    } else {
        (t - s + w - 1) / w
    }
}

/// The walk of a merged-pair range along one axis: from `s` towards `t` in
/// steps of `w`; forward when `fwd`.
pub open spec fn walk_len(s: u32, t: u32, w: int, fwd: bool) -> int {
    if fwd {
        steps_to(s as int, t as int, w)
    } else {
        steps_to(-(s as int), -(t as int), w)
    }
}

/// Position `k` of the walk.
pub open spec fn walk_pos(s: u32, w: int, fwd: bool, k: int) -> int {
    if fwd {
        s + k * w
    } else {
        s - k * w
    }
}

/// The walk of a merged pair: whether it is horizontal, its direction, its
/// start, target and step.
pub open spec fn merged_walk(a: CellRange, b: CellRange) -> (bool, bool, u32, u32, int) {
    let horiz = b.start_col != a.start_col;
    let fwd = if horiz {
        b.start_col > a.start_col
    } else {
        b.start_row > a.start_row
    };
    if horiz {
        (horiz, fwd, a.start_col, b.start_col, span(a.start_col, a.end_col))
    } else {
        (horiz, fwd, a.start_row, b.start_row, span(a.start_row, a.end_row))
    }
}

/// The merged-pair walk stays within `u32` up to where it stops (at the
/// target, or when the list grows past the limit).
pub open spec fn merged_walk_in_range(a: CellRange, b: CellRange) -> bool {
    let (horiz, fwd, s, t, w) = merged_walk(a, b);
    let n = walk_len(s, t, w, fwd);
    let m = if n < MERGED_PAIR_LIMIT {
        n
    } else {
        MERGED_PAIR_LIMIT as int + 1
    };
    &&& span(a.start_col, a.end_col) <= u32::MAX
    &&& span(a.start_row, a.end_row) <= u32::MAX
    &&& 0 <= walk_pos(s, w, fwd, m) <= u32::MAX
}

/// The cells a source range lists, or `None` where it is refused: batch
/// ranges (expanded beforehand), stepped ranges that are neither one row nor
/// one column, and merged pairs with more than `MERGED_PAIR_LIMIT + 1` cells.
pub open spec fn source_items(r: SourceRange) -> Option<Seq<CellRef>> {
    match r {
        SourceRange::Continuous { start, end } => {
            let c0 = if start.col <= end.col {
                start.col
            } else {
                end.col
            };
            let r0 = if start.row <= end.row {
                start.row
            } else {
                end.row
            };
            let nc = span(start.col, end.col);
            let nr = span(start.row, end.row);
            if start.row == end.row {
                Some(Seq::new(nc as nat, |k: int| CellRef { col: (c0 + k) as u32, row: start.row }))
            } else if start.col == end.col {
                Some(Seq::new(nr as nat, |k: int| CellRef { col: start.col, row: (r0 + k) as u32 }))
            } else {
                Some(
                    Seq::new(
                        (nr * nc) as nat,
                        |k: int| CellRef { col: (c0 + k % nc) as u32, row: (r0 + k / nc) as u32 },
                    ),
                )
            }
        },
        SourceRange::MergedPair { start_pair, end_pair } => {
            let (horiz, fwd, s, t, w) = merged_walk(start_pair, end_pair);
            let n = walk_len(s, t, w, fwd);
            if n > MERGED_PAIR_LIMIT {
                None
            } else {
                Some(
                    Seq::new(
                        (n + 1) as nat,
                        |k: int|
                            if horiz {
                                CellRef {
                                    col: walk_pos(s, w, fwd, k) as u32,
                                    row: start_pair.start_row,
                                }
                            } else {
                                CellRef {
                                    col: start_pair.start_col,
                                    row: walk_pos(s, w, fwd, k) as u32,
                                }
                            },
                    ),
                )
            }
        },
        SourceRange::Stepped { start, step, end } => {
            if start.row == end.row {
                let fwd = start.col <= end.col;
                let n = (span(start.col, end.col) - 1) / (step as int) + 1;
                Some(
                    Seq::new(
                        n as nat,
                        |k: int|
                            CellRef {
                                col: walk_pos(start.col, step as int, fwd, k) as u32,
                                row: start.row,
                            },
                    ),
                )
            } else if start.col == end.col {
                let fwd = start.row <= end.row;
                let n = (span(start.row, end.row) - 1) / (step as int) + 1;
                Some(
                    Seq::new(
                        n as nat,
                        |k: int|
                            CellRef {
                                col: start.col,
                                row: walk_pos(start.row, step as int, fwd, k) as u32,
                            },
                    ),
                )
            } else {
                None
            }
        },
        _ => None,
    }
}

/// What [`resolve_source_items`] needs to stay in range: a stepped range has a
/// non-zero step, a merged-pair walk stays within `u32`.
pub open spec fn resolvable(r: SourceRange) -> bool {
    match r {
        SourceRange::Stepped { step, .. } => step != 0,
        SourceRange::MergedPair { start_pair, end_pair } => merged_walk_in_range(
            start_pair,
            end_pair,
        ),
        _ => true,
    }
}

proof fn lemma_steps_to(s: int, t: int, w: int, k: int)
    requires
        w >= 1,
        0 <= k,
    ensures
        (s + k * w >= t) <==> k >= steps_to(s, t, w),
{
    if s < t {
        let n = steps_to(s, t, w);
        assert((t - s + w - 1) / w * w <= t - s + w - 1) by (nonlinear_arith)
            requires w >= 1;
        assert((t - s + w - 1) / w * w > t - s - 1) by (nonlinear_arith)
            requires w >= 1, t - s >= 1;
        if k >= n {
            assert(k * w >= n * w) by (nonlinear_arith)
                requires k >= n, w >= 1;
        } else {
            assert(k * w <= (n - 1) * w) by (nonlinear_arith)
                requires k <= n - 1, w >= 1;
            assert((n - 1) * w == n * w - w) by (nonlinear_arith);
        }
    } else {
        assert(k * w >= 0) by (nonlinear_arith)
            requires k >= 0, w >= 1;
    }
}

/// Lists the cells of a merged-pair range.
fn resolve_merged_pair(start_pair: CellRange, end_pair: CellRange) -> (r: Result<Vec<CellRef>, String>)
    requires
        merged_walk_in_range(start_pair, end_pair),
    ensures
        match r {
            Ok(v) => source_items(SourceRange::MergedPair { start_pair, end_pair }) == Some(v@),
            Err(_) => source_items(SourceRange::MergedPair { start_pair, end_pair }) is None,
        },
{
    let pair_width: u32 = if start_pair.end_col >= start_pair.start_col {
        start_pair.end_col - start_pair.start_col + 1
    } else {
        start_pair.start_col - start_pair.end_col + 1
    };
    let pair_height: u32 = if start_pair.end_row >= start_pair.start_row {
        start_pair.end_row - start_pair.start_row + 1
    } else {
        start_pair.start_row - start_pair.end_row + 1
    };
    let is_horizontal = end_pair.start_col != start_pair.start_col;
    let forward = if is_horizontal {
        end_pair.start_col > start_pair.start_col
    } else {
        end_pair.start_row > start_pair.start_row
    };
    let ghost (horiz, fwd, s, t, w) = merged_walk(start_pair, end_pair);
    let ghost n = walk_len(s, t, w, fwd);
    let ghost want = source_items(SourceRange::MergedPair { start_pair, end_pair });
    let step: u32 = if is_horizontal { pair_width } else { pair_height };
    let target: u32 = if is_horizontal { end_pair.start_col } else { end_pair.start_row };
    assert(step as int == w && target == t);
    let mut items: Vec<CellRef> = Vec::new();
    let mut col = start_pair.start_col;
    let mut row = start_pair.start_row;
    let mut pos: u32 = if is_horizontal { col } else { row };
    loop
        invariant
            step as int == w,
            w >= 1,
            target == t,
            merged_walk(start_pair, end_pair) == (horiz, fwd, s, t, w),
            is_horizontal == horiz,
            forward == fwd,
            n == walk_len(s, t, w, fwd),
            merged_walk_in_range(start_pair, end_pair),
            want == source_items(SourceRange::MergedPair { start_pair, end_pair }),
            0 <= items@.len() <= MERGED_PAIR_LIMIT,
            items@.len() <= n,
            pos as int == walk_pos(s, w, fwd, items@.len() as int),
            is_horizontal ==> col == pos && row == start_pair.start_row,
            !is_horizontal ==> row == pos && col == start_pair.start_col,
            forall|k: int| 0 <= k < items@.len() ==> #[trigger] items@[k] == (if horiz {
                CellRef { col: walk_pos(s, w, fwd, k) as u32, row: start_pair.start_row }
            } else {
                CellRef { col: start_pair.start_col, row: walk_pos(s, w, fwd, k) as u32 }
            }),
        decreases n - items@.len(),
    {
        let ghost k = items@.len() as int;
        items.push(CellRef::new(col, row));
        let done = if forward { pos >= target } else { pos <= target };
        proof {
            if fwd {
                lemma_steps_to(s as int, t as int, w, k);
            } else {
                lemma_steps_to(-(s as int), -(t as int), w, k);
            }
        }
        if done {
            assert(k == n);
            assert(items@ =~= want->0);
            return Ok(items);
        }
        proof {
            let m = if n < MERGED_PAIR_LIMIT { n } else { MERGED_PAIR_LIMIT as int + 1 };
            assert(k + 1 <= m);
            if fwd {
                assert((k + 1) * w <= m * w) by (nonlinear_arith) requires k + 1 <= m, w >= 1;
            } else {
                assert((k + 1) * w <= m * w) by (nonlinear_arith) requires k + 1 <= m, w >= 1;
            }
            assert((k + 1) * w == k * w + w) by (nonlinear_arith);
        }
        pos = if forward { pos + step } else { pos - step };
        if is_horizontal {
            col = pos;
        } else {
            row = pos;
        }
        if items.len() > MERGED_PAIR_LIMIT {
            return Err(string_from_str("合并单元格范围过大（超过10000项）"));
        }
    }
}

/// Lists the cells of a stepped range along one axis.
fn stepped_positions(s: u32, t: u32, step: u32) -> (v: Vec<u32>)
    requires
        step != 0,
    ensures
        v@.len() == (span(s, t) - 1) / (step as int) + 1,
        forall|k: int| 0 <= k < v@.len() ==> v@[k] as int == walk_pos(s, step as int, s <= t, k),
{
    let fwd = s <= t;
    let n: u64 = ((if fwd { t - s } else { s - t }) / step) as u64 + 1;
    let mut v: Vec<u32> = Vec::new();
    let mut k: u64 = 0;
    let mut p: u32 = s;
    while k < n
        invariant
            k <= n,
            n == (span(s, t) - 1) / (step as int) + 1,
            v@.len() == k,
            fwd == (s <= t),
            step != 0,
            k < n ==> p as int == walk_pos(s, step as int, fwd, k as int),
            forall|j: int| 0 <= j < k ==> v@[j] as int == walk_pos(s, step as int, fwd, j),
        decreases n - k,
    {
        v.push(p);
        proof {
            assert((span(s, t) - 1) / (step as int) * step <= span(s, t) - 1) by (nonlinear_arith)
                requires step >= 1, span(s, t) >= 1;
            assert(k * step <= (n - 1) * step) by (nonlinear_arith) requires k <= n - 1, step >= 0;
            assert((k + 1) * step == k * step + step) by (nonlinear_arith);
        }
        if k + 1 < n {
            proof {
                assert((k + 1) * step <= (n - 1) * step) by (nonlinear_arith) requires k + 1 <= n - 1, step >= 0;
            }
            p = if fwd { p + step } else { p - step };
        }
        k += 1;
    }
    v
}

/// A continuous source range lists each cell of its rectangle, and nothing
/// else: the columns from the smaller to the larger of its two columns and
/// the rows from the smaller to the larger of its two rows, both ends
/// included, one cell for each column and row.
pub proof fn lemma_continuous_cells(start: CellRef, end: CellRef)
    ensures
        ({
            let lc: int = if start.col <= end.col { start.col as int } else { end.col as int };
            let hc: int = if start.col <= end.col { end.col as int } else { start.col as int };
            let lr: int = if start.row <= end.row { start.row as int } else { end.row as int };
            let hr: int = if start.row <= end.row { end.row as int } else { start.row as int };
            &&& source_items(SourceRange::Continuous { start, end }) is Some
            &&& source_items(SourceRange::Continuous { start, end })->0.len() == (hc - lc + 1) * (hr - lr + 1)
            &&& forall|c: CellRef|
                #[trigger] source_items(SourceRange::Continuous { start, end })->0.contains(c) <==> (lc <= c.col
                    <= hc && lr <= c.row <= hr)
        }),
{
    let lc: int = if start.col <= end.col { start.col as int } else { end.col as int };
    let hc: int = if start.col <= end.col { end.col as int } else { start.col as int };
    let lr: int = if start.row <= end.row { start.row as int } else { end.row as int };
    let hr: int = if start.row <= end.row { end.row as int } else { start.row as int };
    let items = source_items(SourceRange::Continuous { start, end })->0;
    let nc = hc - lc + 1;
    let nr = hr - lr + 1;
    assert(span(start.col, end.col) == nc);
    assert(span(start.row, end.row) == nr);
    if start.row == end.row {
        assert(items.len() == nc * nr);
        assert forall|c: CellRef| #[trigger] items.contains(c) <==> (lc <= c.col <= hc && lr <= c.row <= hr) by {
            if lc <= c.col <= hc && lr <= c.row <= hr {
                let k = c.col - lc;
                assert(items[k] == c);
            }
            if items.contains(c) {
                let k = choose|k: int| 0 <= k < items.len() && items[k] == c;
                assert(items[k] == c);
            }
        }
    } else if start.col == end.col {
        assert(items.len() == nc * nr);
        assert forall|c: CellRef| #[trigger] items.contains(c) <==> (lc <= c.col <= hc && lr <= c.row <= hr) by {
            if lc <= c.col <= hc && lr <= c.row <= hr {
                let k = c.row - lr;
                assert(items[k] == c);
            }
            if items.contains(c) {
                let k = choose|k: int| 0 <= k < items.len() && items[k] == c;
                assert(items[k] == c);
            }
        }
    } else {
        assert(items.len() == nr * nc);
        assert(nr * nc == nc * nr) by (nonlinear_arith);
        assert forall|c: CellRef| #[trigger] items.contains(c) <==> (lc <= c.col <= hc && lr <= c.row <= hr) by {
            if lc <= c.col <= hc && lr <= c.row <= hr {
                let q = c.row - lr;
                let m = c.col - lc;
                let k = q * nc + m;
                vstd::arithmetic::div_mod::lemma_fundamental_div_mod_converse(k, nc, q, m);
                assert(0 <= k < nr * nc) by (nonlinear_arith)
                    requires
                        0 <= q < nr,
                        0 <= m < nc,
                        k == q * nc + m,
                ;
                assert(items[k] == c);
            }
            if items.contains(c) {
                let k = choose|k: int| 0 <= k < items.len() && items[k] == c;
                assert(0 <= k % nc < nc) by (nonlinear_arith)
                    requires
                        nc > 0,
                ;
                assert(0 <= k / nc < nr) by (nonlinear_arith)
                    requires
                        nc > 0,
                        0 <= k < nr * nc,
                ;
                assert(items[k] == c);
            }
        }
    }
}

/// A continuous source range lists its cells in reading order: row by row
/// from the top, and within a row from the left.
pub proof fn lemma_continuous_order(start: CellRef, end: CellRef)
    ensures
        ({
            let items = source_items(SourceRange::Continuous { start, end })->0;
            forall|i: int, j: int|
                0 <= i < j < items.len() ==> (#[trigger] items[i]).row < (#[trigger] items[j]).row || (items[i].row
                    == items[j].row && items[i].col < items[j].col)
        }),
{
    let items = source_items(SourceRange::Continuous { start, end })->0;
    let nc = span(start.col, end.col);
    let nr = span(start.row, end.row);
    if start.row != end.row && start.col != end.col {
        assert forall|i: int, j: int| 0 <= i < j < items.len() implies (#[trigger] items[i]).row < (
        #[trigger] items[j]).row || (items[i].row == items[j].row && items[i].col < items[j].col) by {
            assert(nc > 0);
            assert(i / nc <= j / nc) by (nonlinear_arith)
                requires
                    nc > 0,
                    0 <= i < j,
            ;
            assert(i / nc == j / nc ==> i % nc < j % nc) by (nonlinear_arith)
                requires
                    nc > 0,
                    0 <= i < j,
            ;
            assert(0 <= i % nc < nc && 0 <= j % nc < nc) by (nonlinear_arith)
                requires
                    nc > 0,
            ;
            assert(0 <= i / nc < nr && 0 <= j / nc < nr) by (nonlinear_arith)
                requires
                    nc > 0,
                    0 <= i < j < nr * nc,
            ;
        }
    }
}

proof fn lemma_step_count(d: int, w: int)
    requires
        d >= 0,
        w > 0,
    ensures
        (d / w) * w <= d,
        d - (d / w) * w < w,
        forall|k: int| 0 <= k <= d / w ==> #[trigger] (k * w) <= d,
        d / w >= 0,
{
    assert((d / w) * w <= d && d - (d / w) * w < w && d / w >= 0) by (nonlinear_arith)
        requires
            d >= 0,
            w > 0,
    ;
    assert forall|k: int| 0 <= k <= d / w implies #[trigger] (k * w) <= d by {
        assert(k * w <= (d / w) * w) by (nonlinear_arith)
            requires
                0 <= k <= d / w,
                w > 0,
        ;
    }
}

/// A stepped source range in one row (or one column) walks from its start
/// cell toward its end cell `step` cells at a time: it starts at the start
/// cell, each next cell lies `step` further toward the end, every cell lies
/// between the two ends (both included), and the last one lies less than
/// `step` short of the end cell, so the end cell is listed exactly when the
/// distance is a multiple of the step.
pub proof fn lemma_stepped_cells(start: CellRef, step: u32, end: CellRef)
    requires
        step > 0,
        start.row == end.row || start.col == end.col,
    ensures
        ({
            let items = source_items(SourceRange::Stepped { start, step, end })->0;
            let by_cols = start.row == end.row;
            let fwd = if by_cols { start.col <= end.col } else { start.row <= end.row };
            let at = |c: CellRef| if by_cols { c.col as int } else { c.row as int };
            let a = at(start);
            let b = at(end);
            &&& source_items(SourceRange::Stepped { start, step, end }) is Some
            &&& items.len() >= 1
            &&& items[0] == start
            &&& forall|k: int|
                0 <= k < items.len() ==> {
                    &&& (if by_cols { (#[trigger] items[k]).row == start.row } else { items[k].col == start.col })
                    &&& (if fwd { a <= at(items[k]) <= b } else { b <= at(items[k]) <= a })
                }
            &&& forall|k: int|
                0 <= k < items.len() - 1 ==> at(#[trigger] items[k + 1]) == (if fwd {
                    at(items[k]) + step
                } else {
                    at(items[k]) - step
                })
            &&& (if fwd { b - at(items.last()) } else { at(items.last()) - b }) < step
        }),
{
    let items = source_items(SourceRange::Stepped { start, step, end })->0;
    let w = step as int;
    if start.row == end.row {
        let fwd = start.col <= end.col;
        let d = span(start.col, end.col) - 1;
        lemma_step_count(d, w);
        assert(items.len() == d / w + 1);
        assert forall|k: int| 0 <= k < items.len() implies (#[trigger] items[k]).col == walk_pos(start.col, w, fwd, k) by {
            assert(k * w <= d);
        }
        assert(items[0].col == start.col);
        assert(items[0] == start);
        let last = items.len() - 1;
        assert(items.last() == items[last]);
        assert(items[last].col == walk_pos(start.col, w, fwd, last));
        assert forall|k: int| 0 <= k < items.len() - 1 implies #[trigger] items[k + 1].col == (if fwd {
            items[k].col + w
        } else {
            items[k].col - w
        }) by {
            assert(k * w <= d);
            assert((k + 1) * w <= d);
            assert((k + 1) * w == k * w + w) by (nonlinear_arith);
        }
        assert forall|k: int| 0 <= k < items.len() implies 0 <= #[trigger] (k * w) <= d by {
            assert(0 <= k * w) by (nonlinear_arith)
                requires
                    0 <= k,
                    w > 0,
            ;
        }
    } else {
        let fwd = start.row <= end.row;
        let d = span(start.row, end.row) - 1;
        lemma_step_count(d, w);
        assert(items.len() == d / w + 1);
        assert forall|k: int| 0 <= k < items.len() implies (#[trigger] items[k]).row == walk_pos(start.row, w, fwd, k) by {
            assert(k * w <= d);
        }
        assert(items[0].row == start.row);
        assert(items[0] == start);
        let last = items.len() - 1;
        assert(items.last() == items[last]);
        assert(items[last].row == walk_pos(start.row, w, fwd, last));
        assert forall|k: int| 0 <= k < items.len() - 1 implies #[trigger] items[k + 1].row == (if fwd {
            items[k].row + w
        } else {
            items[k].row - w
        }) by {
            assert(k * w <= d);
            assert((k + 1) * w <= d);
            assert((k + 1) * w == k * w + w) by (nonlinear_arith);
        }
        assert forall|k: int| 0 <= k < items.len() implies 0 <= #[trigger] (k * w) <= d by {
            assert(0 <= k * w) by (nonlinear_arith)
                requires
                    0 <= k,
                    w > 0,
            ;
        }
    }
}

/// A merged-pair source range walks from the first pair toward the second,
/// one pair at a time: it starts at the first pair's top-left cell, stays on
/// its row (walking across) or its column (walking down or up), moves by the
/// pair's width or height toward the second pair at each step, and stops at
/// the first cell that reaches or passes the second pair's start.
pub proof fn lemma_merged_pair_cells(a: CellRange, b: CellRange)
    requires
        merged_walk_in_range(a, b),
    ensures
        source_items(SourceRange::MergedPair { start_pair: a, end_pair: b }) matches Some(items) ==> {
            let horiz = b.start_col != a.start_col;
            let fwd = if horiz { b.start_col > a.start_col } else { b.start_row > a.start_row };
            let w = if horiz { span(a.start_col, a.end_col) } else { span(a.start_row, a.end_row) };
            let at = |c: CellRef| if horiz { c.col as int } else { c.row as int };
            let t = if horiz { b.start_col as int } else { b.start_row as int };
            &&& items.len() >= 1
            &&& items[0] == CellRef { col: a.start_col, row: a.start_row }
            &&& forall|k: int|
                0 <= k < items.len() ==> (if horiz {
                    (#[trigger] items[k]).row == a.start_row
                } else {
                    items[k].col == a.start_col
                })
            &&& forall|k: int|
                0 <= k < items.len() - 1 ==> {
                    &&& at(#[trigger] items[k + 1]) == (if fwd { at(items[k]) + w } else { at(items[k]) - w })
                    &&& (if fwd { at(items[k]) < t } else { at(items[k]) > t })
                }
            &&& (if fwd { at(items.last()) >= t } else { at(items.last()) <= t })
        },
{
    let (horiz, fwd, s, t, w) = merged_walk(a, b);
    let n = walk_len(s, t, w, fwd);
    let m = if n < MERGED_PAIR_LIMIT { n } else { MERGED_PAIR_LIMIT as int + 1 };
    if let Some(items) = source_items(SourceRange::MergedPair { start_pair: a, end_pair: b }) {
        assert(w >= 1);
        assert(n <= MERGED_PAIR_LIMIT);
        assert(n <= m);
        assert(0 <= walk_pos(s, w, fwd, m) <= u32::MAX);
        if fwd {
            assert(s < t);
        }
        assert forall|k: int| 0 <= k <= n implies 0 <= #[trigger] walk_pos(s, w, fwd, k) <= u32::MAX by {
            assert(0 <= k * w <= m * w) by (nonlinear_arith)
                requires
                    0 <= k <= m,
                    w >= 1,
            ;
        }
        assert forall|k: int| 0 <= k < n implies (if fwd {
            #[trigger] walk_pos(s, w, fwd, k) < t
        } else {
            walk_pos(s, w, fwd, k) > t
        }) by {
            if fwd {
                lemma_steps_to(s as int, t as int, w, k);
            } else {
                lemma_steps_to(-(s as int), -(t as int), w, k);
            }
        }
        if fwd {
            lemma_steps_to(s as int, t as int, w, n);
        } else {
            lemma_steps_to(-(s as int), -(t as int), w, n);
        }
        assert(walk_pos(s, w, fwd, 0) == s);
        assert(items[0] == CellRef { col: a.start_col, row: a.start_row });
        assert(items.last() == items[items.len() - 1]);
        assert forall|k: int| 0 <= k < items.len() - 1 implies #[trigger] walk_pos(s, w, fwd, k + 1) == (if fwd {
            walk_pos(s, w, fwd, k) + w
        } else {
            walk_pos(s, w, fwd, k) - w
        }) by {
            assert((k + 1) * w == k * w + w) by (nonlinear_arith);
        }
        assert forall|k: int| 0 <= k < items.len() - 1 implies walk_pos(s, w, fwd, k) == (if horiz {
            (#[trigger] items[k]).col as int
        } else {
            items[k].row as int
        }) && walk_pos(s, w, fwd, k + 1) == (if horiz {
            items[k + 1].col as int
        } else {
            items[k + 1].row as int
        }) by {
            assert(0 <= walk_pos(s, w, fwd, k) <= u32::MAX);
            assert(0 <= walk_pos(s, w, fwd, k + 1) <= u32::MAX);
        }
        assert(0 <= walk_pos(s, w, fwd, n) <= u32::MAX);
    }
}

/// Expands a source range into its cells, in reading order.
pub fn resolve_source_items(range: &SourceRange, _sheet: &crate::sheet::SheetData) -> (r: Result<Vec<CellRef>, String>)
    requires
        resolvable(*range),
    ensures
        match r {
            Ok(v) => source_items(*range) == Some(v@),
            Err(_) => source_items(*range) is None,
        },
{
    match *range {
        SourceRange::Continuous { start, end } => {
            let (c0, c1) = if start.col <= end.col { (start.col, end.col) } else { (end.col, start.col) };
            let (r0, r1) = if start.row <= end.row { (start.row, end.row) } else { (end.row, start.row) };
            let ghost want = source_items(*range)->0;
            let mut items: Vec<CellRef> = Vec::new();
            if start.row == end.row {
                let mut c: u64 = c0 as u64;
                while c <= c1 as u64
                    invariant
                        c0 <= c <= c1 as u64 + 1,
                        items@.len() == c - c0,
                        want == source_items(*range)->0,
                        *range == (SourceRange::Continuous { start, end }),
                        start.row == end.row,
                        c0 == (if start.col <= end.col { start.col } else { end.col }),
                        c1 - c0 + 1 == span(start.col, end.col),
                        forall|k: int| 0 <= k < items@.len() ==> #[trigger] items@[k] == want[k],
                    decreases c1 as u64 + 1 - c,
                {
                    items.push(CellRef::new(c as u32, start.row));
                    c += 1;
                }
                assert(items@ =~= want);
            } else if start.col == end.col {
                let mut rr: u64 = r0 as u64;
                while rr <= r1 as u64
                    invariant
                        r0 <= rr <= r1 as u64 + 1,
                        items@.len() == rr - r0,
                        want == source_items(*range)->0,
                        *range == (SourceRange::Continuous { start, end }),
                        start.row != end.row,
                        start.col == end.col,
                        r0 == (if start.row <= end.row { start.row } else { end.row }),
                        r1 - r0 + 1 == span(start.row, end.row),
                        forall|k: int| 0 <= k < items@.len() ==> #[trigger] items@[k] == want[k],
                    decreases r1 as u64 + 1 - rr,
                {
                    items.push(CellRef::new(start.col, rr as u32));
                    rr += 1;
                }
                assert(items@ =~= want);
            } else {
                let ghost nc = span(start.col, end.col);
                let mut rr: u64 = r0 as u64;
                while rr <= r1 as u64
                    invariant
                        r0 <= rr <= r1 as u64 + 1,
                        nc == span(start.col, end.col),
                        nc == c1 - c0 + 1,
                        items@.len() == (rr - r0) * nc,
                        want == source_items(*range)->0,
                        *range == (SourceRange::Continuous { start, end }),
                        start.row != end.row,
                        start.col != end.col,
                        r0 == (if start.row <= end.row { start.row } else { end.row }),
                        c0 == (if start.col <= end.col { start.col } else { end.col }),
                        r1 - r0 + 1 == span(start.row, end.row),
                        forall|k: int| 0 <= k < items@.len() ==> #[trigger] items@[k] == want[k],
                    decreases r1 as u64 + 1 - rr,
                {
                    let mut c: u64 = c0 as u64;
                    while c <= c1 as u64
                        invariant
                            r0 <= rr <= r1,
                            c0 <= c <= c1 as u64 + 1,
                            nc == c1 - c0 + 1,
                            nc == span(start.col, end.col),
                            items@.len() == (rr - r0) * nc + (c - c0),
                            want == source_items(*range)->0,
                            *range == (SourceRange::Continuous { start, end }),
                            start.row != end.row,
                            start.col != end.col,
                            r0 == (if start.row <= end.row { start.row } else { end.row }),
                            c0 == (if start.col <= end.col { start.col } else { end.col }),
                            r1 - r0 + 1 == span(start.row, end.row),
                            forall|k: int| 0 <= k < items@.len() ==> #[trigger] items@[k] == want[k],
                        decreases c1 as u64 + 1 - c,
                    {
                        proof {
                            let k = (rr - r0) * nc + (c - c0);
                            assert(k / nc == rr - r0 && k % nc == c - c0) by (nonlinear_arith)
                                requires k == (rr - r0) * nc + (c - c0), 0 <= c - c0 < nc, rr - r0 >= 0;
                            assert(k < span(start.row, end.row) * nc) by (nonlinear_arith)
                                requires k == (rr - r0) * nc + (c - c0), 0 <= c - c0 < nc, rr - r0 < span(start.row, end.row);
                        }
                        items.push(CellRef::new(c as u32, rr as u32));
                        c += 1;
                    }
                    proof {
                        assert((rr - r0) * nc + nc == (rr + 1 - r0) * nc) by (nonlinear_arith);
                    }
                    rr += 1;
                }
                assert(items@.len() == span(start.row, end.row) * nc);
                assert(items@ =~= want);
            }
            Ok(items)
        },
        SourceRange::MergedPair { start_pair, end_pair } => resolve_merged_pair(start_pair, end_pair),
        SourceRange::Stepped { start, step, end } => {
            let mut items: Vec<CellRef> = Vec::new();
            if start.row == end.row {
                let cols = stepped_positions(start.col, end.col, step);
                let mut k: usize = 0;
                while k < cols.len()
                    invariant
                        k <= cols@.len(),
                        items@.len() == k,
                        forall|j: int| 0 <= j < k ==> #[trigger] items@[j] == (CellRef { col: cols@[j], row: start.row }),
                    decreases cols@.len() - k,
                {
                    items.push(CellRef::new(cols[k], start.row));
                    k += 1;
                }
                assert(items@ =~= source_items(*range)->0);
                Ok(items)
            } else if start.col == end.col {
                let rows = stepped_positions(start.row, end.row, step);
                let mut k: usize = 0;
                while k < rows.len()
                    invariant
                        k <= rows@.len(),
                        items@.len() == k,
                        forall|j: int| 0 <= j < k ==> #[trigger] items@[j] == (CellRef { col: start.col, row: rows@[j] }),
                    decreases rows@.len() - k,
                {
                    items.push(CellRef::new(start.col, rows[k]));
                    k += 1;
                }
                assert(items@ =~= source_items(*range)->0);
                Ok(items)
            } else {
                Err(string_from_str("步进范围仅支持单行或单列"))
            }
        },
        SourceRange::BatchColumns { .. } => Err(string_from_str("批量列规则应在展开阶段处理")),
        SourceRange::BatchStepped { .. } => Err(string_from_str("批量步进规则应在展开阶段处理")),
    }
}

/// A target cell and the size of the merged block that starts there.
#[derive(Debug, Clone, Copy, PartialEq, Eq, Structural)]
pub struct TargetItem {
    pub cell: CellRef,
    pub merge_cols: u32,
    pub merge_rows: u32,
}

/// Start and block size of a target position (batch and stepped targets are
/// expanded beforehand; here they fall back to `A1`, size 1).
pub open spec fn target_block(t: TargetPosition) -> (u32, u32, u32, u32) {
    match t {
        TargetPosition::Simple(r) => (r.col, r.row, 1, 1),
        TargetPosition::Merged(range) => (
            range.start_col,
            range.start_row,
            if range.end_col >= range.start_col { (range.end_col - range.start_col + 1) as u32 } else { 1 },
            if range.end_row >= range.start_row { (range.end_row - range.start_row + 1) as u32 } else { 1 },
        ),
        _ => (1, 1, 1, 1),
    }
}

/// One target per source item: the blocks follow each other to the right
/// (horizontal) or downwards (vertical).
pub open spec fn targets(n: nat, t: TargetPosition, dir: Direction) -> Seq<TargetItem> {
    let (c, r, mc, mr) = target_block(t);
    Seq::new(
        n,
        |k: int|
            TargetItem {
                cell: match dir {
                    Direction::Horizontal => CellRef { col: (c + k * mc) as u32, row: r },
                    Direction::Vertical => CellRef { col: c, row: (r + k * mr) as u32 },
                },
                merge_cols: mc,
                merge_rows: mr,
            },
    )
}

/// The block sizes fit in `u32` and the position after the last block too.
pub open spec fn targets_fit(n: nat, t: TargetPosition, dir: Direction) -> bool {
    let (c, r, mc, mr) = target_block(t);
    &&& (t matches TargetPosition::Merged(range) ==> range.end_col - range.start_col + 1 <= u32::MAX
        && range.end_row - range.start_row + 1 <= u32::MAX)
    &&& match dir {
        Direction::Horizontal => c + n * mc <= u32::MAX,
        Direction::Vertical => r + n * mr <= u32::MAX,
    }
}

/// The target position of every source item.
pub fn compute_targets(src_items: &[CellRef], target: &TargetPosition, dir: Direction) -> (r: Vec<TargetItem>)
    requires
        targets_fit(src_items@.len(), *target, dir),
    ensures
        r@ == targets(src_items@.len(), *target, dir),
{
    let (start_col, start_row, merge_cols, merge_rows) = match *target {
        TargetPosition::Simple(r) => (r.col, r.row, 1u32, 1u32),
        TargetPosition::Merged(range) => {
            let w = if range.end_col >= range.start_col { range.end_col - range.start_col + 1 } else { 1 };
            let h = if range.end_row >= range.start_row { range.end_row - range.start_row + 1 } else { 1 };
            (range.start_col, range.start_row, w, h)
        },
        TargetPosition::BatchTarget { .. } => (1, 1, 1, 1),
        TargetPosition::SteppedTarget { .. } => (1, 1, 1, 1),
    };
    let ghost n = src_items@.len();
    let ghost want = targets(n, *target, dir);
    assert(target_block(*target) == (start_col, start_row, merge_cols, merge_rows));
    let mut targets_v: Vec<TargetItem> = Vec::new();
    let mut col = start_col;
    let mut row = start_row;
    let mut k: usize = 0;
    while k < src_items.len()
        invariant
            k <= n,
            n == src_items@.len(),
            want == targets(n, *target, dir),
            targets_fit(n, *target, dir),
            target_block(*target) == (start_col, start_row, merge_cols, merge_rows),
            targets_v@.len() == k,
            forall|j: int| 0 <= j < k ==> #[trigger] targets_v@[j] == want[j],
            dir == Direction::Horizontal ==> col == start_col + k * merge_cols && row == start_row,
            dir == Direction::Vertical ==> row == start_row + k * merge_rows && col == start_col,
        decreases n - k,
    {
        targets_v.push(TargetItem { cell: CellRef::new(col, row), merge_cols, merge_rows });
        proof {
            assert((k + 1) * merge_cols <= n * merge_cols) by (nonlinear_arith) requires k + 1 <= n;
            assert((k + 1) * merge_rows <= n * merge_rows) by (nonlinear_arith) requires k + 1 <= n;
            assert((k + 1) * merge_cols == k * merge_cols + merge_cols) by (nonlinear_arith);
            assert((k + 1) * merge_rows == k * merge_rows + merge_rows) by (nonlinear_arith);
        }
        match dir {
            Direction::Horizontal => {
                col += merge_cols;
            },
            Direction::Vertical => {
                row += merge_rows;
            },
        }
        k += 1;
    }
    assert(targets_v@ =~= want);
    targets_v
}

} // verus!
