//! Search ranges: the option lists of the column and row filters, read from
//! range expressions such as `A1-A13`, `A14,D14`, `A(1:+2):A13` (every other
//! row) or `(B:+2)14:~14` (every other column up to the last one).
//!
//! The parsers below mirror `str` operations; arithmetic that would overflow
//! a `u32` is left out of their domain (spec results `None` at the outer
//! level).

use vstd::prelude::*;
use crate::text::{
    alphabetic, chars_of, find_first, find_in, is_alpha, is_alpha_exec, is_alphabetic,
    lemma_find_first, parse_u32, parse_u32_range, push_dec, contains_char, push_str, slice_to_vec,
    split_on, string_from, to_uppercase, trim, trim_bounds, trim_end, trim_start, uppercase_of,
    skip_ws_from, dec, trim_vec, string_clone,
};
use crate::sheet::{ExcelData, SheetData};
use std::collections::HashSet;
use crate::text::{lowercase_of, to_lowercase};
use crate::matching::{compare_value, numeric_ok, op_holds, NumOrder};
use crate::cellref::{col_letters, col_value, push_col_letters};

verus! {

broadcast use {
    vstd::string::group_string_axioms,
    vstd::std_specs::hash::group_hash_axioms,
    vstd::std_specs::hash::axiom_u32_obeys_hash_table_key_model,
    vstd::std_specs::hash::axiom_random_state_builds_valid_hashers,
};

// ===========================================================================
// Cell references
// ===========================================================================

pub open spec fn max1(x: u32) -> u32 {
    if x < 1 {
        1
    } else {
        x
    }
}

/// Whether `c` counts as a column letter: a Unicode alphabetic character
/// (`unicode`), else an ASCII letter.
pub open spec fn col_letter(c: char, unicode: bool) -> bool {
    if unicode {
        alphabetic(c)
    } else {
        is_alpha(c)
    }
}

/// Length of the run of column letters at the start of `s`.
pub open spec fn letter_run(s: Seq<char>, unicode: bool) -> int
    decreases s.len(),
{
    if s.len() > 0 && col_letter(s[0], unicode) {
        1 + letter_run(s.drop_first(), unicode)
    } else {
        0
    }
}

pub proof fn lemma_letter_run(s: Seq<char>, unicode: bool)
    ensures
        0 <= letter_run(s, unicode) <= s.len(),
        forall|j: int| 0 <= j < letter_run(s, unicode) ==> col_letter(#[trigger] s[j], unicode),
        letter_run(s, unicode) < s.len() ==> !col_letter(s[letter_run(s, unicode)], unicode),
    decreases s.len(),
{
    if s.len() > 0 && col_letter(s[0], unicode) {
        lemma_letter_run(s.drop_first(), unicode);
        assert forall|j: int| 0 <= j < letter_run(s, unicode) implies col_letter(#[trigger] s[j], unicode) by {
            if j > 0 {
                assert(s[j] == s.drop_first()[j - 1]);
            }
        }
    }
}

/// Every character lies from `A` to the last code point, so that each adds
/// at least 1 to the column number.
pub open spec fn from_a(s: Seq<char>) -> bool {
    forall|i: int| 0 <= i < s.len() ==> 'A' <= #[trigger] s[i] <= '\u{10FFFF}'
}

/// A cell reference in upper-cased text `u`: column letters (see
/// [`col_letter`]) then the row as `u32::from_str` reads it. `Some(None)`:
/// not a reference; `None`: the column arithmetic (in `u32`) fails.
pub open spec fn ref_of_upper(u: Seq<char>, unicode: bool) -> Option<Option<(u32, u32)>> {
    let k = letter_run(u, unicode);
    let c = u.take(k);
    let r = u.skip(k);
    if u.len() == 0 || c.len() == 0 || r.len() == 0 {
        Some(None)
    } else if !from_a(c) || col_value(c) > u32::MAX {
        None
    } else {
        match parse_u32(r) {
            None => Some(None),
            Some(row) => if col_value(c) == 0 || row == 0 {
                Some(None)
            } else {
                Some(Some((col_value(c) as u32, row)))
            },
        }
    }
}

/// A cell reference already trimmed: upper-cased as `str::to_uppercase`
/// does, letters being what `char::is_alphabetic` accepts.
pub open spec fn parse_ref_t(t: Seq<char>) -> Option<Option<(u32, u32)>> {
    ref_of_upper(uppercase_of(t), true)
}

/// [`parse_ref_t`] after trimming.
pub open spec fn parse_ref(s: Seq<char>) -> Option<Option<(u32, u32)>> {
    parse_ref_t(trim(s))
}

/// A reference that may use `~` for the last column (`~14`), the last row
/// (`A~`) or both (`~`).
pub open spec fn parse_bound(s: Seq<char>, max_col: u32, max_row: u32) -> Option<
    Option<(u32, u32)>,
> {
    let t = trim(s);
    if t.len() == 0 {
        Some(None)
    } else if !t.contains('~') {
        parse_ref_t(t)
    } else if t.len() == 1 {
        Some(Some((max1(max_col), max1(max_row))))
    } else {
        let u = uppercase_of(t);
        if u.len() > 0 && u[0] == '~' {
            match parse_u32(trim(u.subrange(1, u.len() as int))) {
                None => Some(None),
                Some(row) => if row == 0 {
                    Some(None)
                } else {
                    Some(Some((max1(max_col), row)))
                },
            }
        } else if u.len() > 0 && u.last() == '~' {
            let c = u.take(letter_run(u, true));
            if c.len() == 0 {
                Some(None)
            } else if !from_a(c) || col_value(c) > u32::MAX {
                None
            } else if col_value(c) == 0 {
                Some(None)
            } else {
                Some(Some((col_value(c) as u32, max1(max_row))))
            }
        } else {
            parse_ref_t(t)
        }
    }
}

proof fn lemma_col_value_from_a_prefix(s: Seq<char>, k: int)
    requires
        from_a(s),
        0 <= k <= s.len(),
    ensures
        1 <= k ==> col_value(s.take(k)) >= 1,
        col_value(s.take(k)) <= col_value(s),
        col_value(s.take(k)) >= 0,
    decreases s.len(),
{
    if s.len() > 0 {
        let p = s.drop_last();
        assert(from_a(p));
        if k < s.len() {
            assert(s.take(k) =~= p.take(k));
            lemma_col_value_from_a_prefix(p, k);
        } else {
            assert(s.take(k) =~= s);
            lemma_col_value_from_a_prefix(p, p.len() as int);
            assert(p.take(p.len() as int) =~= p);
        }
        lemma_col_value_from_a_prefix(p, p.len() as int);
        assert(p.take(p.len() as int) =~= p);
        assert('A' <= s[s.len() - 1] <= '\u{10FFFF}');
    }
}

/// Column number of a run of characters from `A` up, with `u32` arithmetic.
fn fold_col(u: &[char], lo: usize, hi: usize) -> (r: Option<u32>)
    requires
        lo <= hi <= u@.len(),
        from_a(u@.subrange(lo as int, hi as int)),
    ensures
        match r {
            Some(c) => c as int == col_value(u@.subrange(lo as int, hi as int)),
            None => col_value(u@.subrange(lo as int, hi as int)) > u32::MAX,
        },
{
    let mut acc: u64 = 0;
    let mut i = lo;
    while i < hi
        invariant
            lo <= i <= hi <= u@.len(),
            from_a(u@.subrange(lo as int, hi as int)),
            acc as int == col_value(u@.subrange(lo as int, i as int)),
            acc <= u32::MAX,
        decreases hi - i,
    {
        let ghost pre = u@.subrange(lo as int, i as int);
        let ghost nxt = u@.subrange(lo as int, i + 1);
        assert(nxt.drop_last() =~= pre);
        assert(u@.subrange(lo as int, hi as int)[i - lo] == u@[i as int]);
        let d: u64 = (u[i] as u32 - 64) as u64;
        let v: u64 = acc * 26 + d;
        if v > u32::MAX as u64 {
            proof {
                let full = u@.subrange(lo as int, hi as int);
                lemma_col_value_from_a_prefix(full, i + 1 - lo);
                assert(full.take(i + 1 - lo) =~= nxt);
            }
            return None;
        }
        acc = v;
        i += 1;
    }
    Some(acc as u32)
}

/// `str::to_uppercase` of `s[lo..hi]`, as characters.
fn upper_text(s: &[char], lo: usize, hi: usize) -> (v: Vec<char>)
    requires
        lo <= hi <= s@.len(),
    ensures
        v@ == uppercase_of(s@.subrange(lo as int, hi as int)),
{
    let part = slice_to_vec(s, lo, hi);
    let text = string_from(part.as_slice());
    let up = to_uppercase(text.as_str());
    chars_of(up.as_str())
}

fn is_col_letter(c: char, unicode: bool) -> (r: bool)
    ensures
        r == col_letter(c, unicode),
{
    if unicode {
        is_alphabetic(c)
    } else {
        is_alpha_exec(c)
    }
}

/// Length of the leading run of column letters of `u`.
fn letter_prefix(u: &[char], unicode: bool) -> (k: usize)
    ensures
        k as int == letter_run(u@, unicode),
{
    proof {
        lemma_letter_run(u@, unicode);
    }
    let mut k: usize = 0;
    while k < u.len() && is_col_letter(u[k], unicode)
        invariant
            k <= u@.len(),
            k <= letter_run(u@, unicode) <= u@.len(),
            forall|j: int| 0 <= j < letter_run(u@, unicode) ==> col_letter(#[trigger] u@[j], unicode),
            letter_run(u@, unicode) < u@.len() ==> !col_letter(u@[letter_run(u@, unicode)], unicode),
        decreases u@.len() - k,
    {
        k += 1;
    }
    k
}

/// Whether every character of `u[0..k]` is `A` or above.
fn from_a_exec(u: &[char], k: usize) -> (r: bool)
    requires
        k <= u@.len(),
    ensures
        r == from_a(u@.take(k as int)),
{
    let mut i: usize = 0;
    while i < k
        invariant
            i <= k <= u@.len(),
            forall|j: int| 0 <= j < i ==> 'A' <= #[trigger] u@[j] <= '\u{10FFFF}',
        decreases k - i,
    {
        if 'A' > u[i] || u[i] > '\u{10FFFF}' {
            assert(u@.take(k as int)[i as int] == u@[i as int]);
            return false;
        }
        i += 1;
    }
    assert forall|j: int| 0 <= j < u@.take(k as int).len() implies 'A' <= #[trigger] u@.take(k as int)[j] <= '\u{10FFFF}' by {
        assert(u@.take(k as int)[j] == u@[j]);
    }
    true
}

pub(crate) fn max1_exec(x: u32) -> (r: u32)
    ensures
        r == max1(x),
{
    if x < 1 {
        1
    } else {
        x
    }
}

/// [`ref_of_upper`] of the upper-cased `s[lo..hi]`.
pub(crate) fn ref_chars(s: &[char], lo: usize, hi: usize, unicode: bool) -> (r: Option<Option<(u32, u32)>>)
    requires
        lo <= hi <= s@.len(),
    ensures
        r == ref_of_upper(uppercase_of(s@.subrange(lo as int, hi as int)), unicode),
{
    let u = upper_text(s, lo, hi);
    if u.len() == 0 {
        return Some(None);
    }
    let k = letter_prefix(u.as_slice(), unicode);
    proof {
        lemma_letter_run(u@, unicode);
    }
    if k == 0 || k == u.len() {
        assert(u@.take(k as int).len() == 0 || u@.skip(k as int).len() == 0);
        return Some(None);
    }
    if !from_a_exec(u.as_slice(), k) {
        return None;
    }
    assert(u@.subrange(0, k as int) =~= u@.take(k as int));
    let col = match fold_col(u.as_slice(), 0, k) {
        Some(c) => c,
        None => {
            return None;
        },
    };
    assert(u@.subrange(k as int, u@.len() as int) =~= u@.skip(k as int));
    let row = match parse_u32_range(u.as_slice(), k, u.len()) {
        Some(r) => r,
        None => {
            return Some(None);
        },
    };
    if col == 0 || row == 0 {
        return Some(None);
    }
    Some(Some((col, row)))
}

/// [`parse_ref_t`] on `s[lo..hi]`.
pub(crate) fn ref_t_chars(s: &[char], lo: usize, hi: usize) -> (r: Option<Option<(u32, u32)>>)
    requires
        lo <= hi <= s@.len(),
    ensures
        r == parse_ref_t(s@.subrange(lo as int, hi as int)),
{
    ref_chars(s, lo, hi, true)
}

/// [`parse_bound`] on `s[lo..hi]`.
fn bound_chars(s: &[char], lo: usize, hi: usize, max_col: u32, max_row: u32) -> (r: Option<
    Option<(u32, u32)>,
>)
    requires
        lo <= hi <= s@.len(),
    ensures
        r == parse_bound(s@.subrange(lo as int, hi as int), max_col, max_row),
{
    let (a, b) = trim_bounds(s, lo, hi);
    let ghost t = s@.subrange(a as int, b as int);
    if a == b {
        return Some(None);
    }
    if !contains_char(s, a, b, '~') {
        return ref_t_chars(s, a, b);
    }
    if b - a == 1 {
        return Some(Some((max1_exec(max_col), max1_exec(max_row))));
    }
    let u = upper_text(s, a, b);
    let n = u.len();
    if n > 0 && u[0] == '~' {
        let (c, d) = trim_bounds(u.as_slice(), 1, n);
        match parse_u32_range(u.as_slice(), c, d) {
            None => Some(None),
            Some(row) => if row == 0 {
                Some(None)
            } else {
                Some(Some((max1_exec(max_col), row)))
            },
        }
    } else if n > 0 && u[n - 1] == '~' {
        let k = letter_prefix(u.as_slice(), true);
        proof {
            lemma_letter_run(u@, true);
        }
        if k == 0 {
            return Some(None);
        }
        if !from_a_exec(u.as_slice(), k) {
            return None;
        }
        assert(u@.subrange(0, k as int) =~= u@.take(k as int));
        match fold_col(u.as_slice(), 0, k) {
            None => None,
            Some(col) => if col == 0 {
                Some(None)
            } else {
                Some(Some((col, max1_exec(max_row))))
            },
        }
    } else {
        ref_t_chars(s, a, b)
    }
}

/// Reads a cell reference such as `A1` or `AA100` (after trimming): `None`
/// when there is no letter, no row, a row that is not a `u32`, or a zero row.
pub fn parse_cell_ref(s: &str) -> (r: Option<(u32, u32)>)
    requires
        parse_ref(s@) is Some,
    ensures
        r == parse_ref(s@)->0,
{
    let v = chars_of(s);
    assert(v@.subrange(0, v@.len() as int) =~= v@);
    let (a, b) = trim_bounds(v.as_slice(), 0, v.len());
    match ref_t_chars(v.as_slice(), a, b) {
        Some(r) => r,
        None => None,
    }
}

/// Reads a cell reference that may hold `~`: `~14` is the last column of
/// row 14, `A~` the last row of column A, `~` the bottom-right cell (the
/// extent counts as at least 1).
pub fn parse_cell_ref_bound(s: &str, max_col: u32, max_row: u32) -> (r: Option<(u32, u32)>)
    requires
        parse_bound(s@, max_col, max_row) is Some,
    ensures
        r == parse_bound(s@, max_col, max_row)->0,
{
    let v = chars_of(s);
    assert(v@.subrange(0, v@.len() as int) =~= v@);
    match bound_chars(v.as_slice(), 0, v.len(), max_col, max_row) {
        Some(r) => r,
        None => None,
    }
}

// ===========================================================================
// Range segments
// ===========================================================================

/// What a range segment is: its anchor cells `(col, row)`, the expression it
/// was read from, and whether it was written with a step.
pub type SegView = (Seq<(u32, u32)>, Seq<char>, bool);

/// One comma-separated part of a search range, read: its anchor cells
/// `(col, row)` (1-based), the text it came from, and whether it used the
/// step syntax.
#[derive(Debug)]
pub struct RangeSegment {
    pub cells: Vec<(u32, u32)>,
    pub expr: String,
    pub is_step: bool,
}

impl View for RangeSegment {
    type V = SegView;

    open spec fn view(&self) -> SegView {
        (self.cells@, self.expr@, self.is_step)
    }
}

pub open spec fn seg_views(v: Seq<RangeSegment>) -> Seq<SegView> {
    v.map_values(|x: RangeSegment| x@)
}

/// First index of the two-character pattern `a b` in `s`.
pub open spec fn find_pair(s: Seq<char>, a: char, b: char) -> Option<int>
    decreases s.len(),
{
    if s.len() < 2 {
        None
    } else if s[0] == a && s[1] == b {
        Some(0)
    } else {
        match find_pair(s.drop_first(), a, b) {
            Some(i) => Some(i + 1),
            None => None,
        }
    }
}

/// `r, r + step, r + 2 * step, ...` up to `end`, as the step loop visits
/// them; `None` when the counter would pass `u32::MAX` on the way.
pub open spec fn stepped(r: int, end: int, step: int) -> Option<Seq<u32>>
    decreases (if r > end { 0 } else { end + 1 - r }),
    when step > 0
{
    if r > end {
        Some(Seq::empty())
    } else if r + step > u32::MAX {
        None
    } else {
        match stepped(r + step, end, step) {
            Some(t) => Some(seq![r as u32] + t),
            None => None,
        }
    }
}

/// Cells of a stepped run: down column `fixed` (`vertical`) or along row
/// `fixed`.
pub open spec fn place(fixed: u32, xs: Seq<u32>, vertical: bool) -> Seq<(u32, u32)> {
    xs.map_values(|x: u32| if vertical { (fixed, x) } else { (x, fixed) })
}

/// The end of a stepped run: the given end cell's row (vertical) or column,
/// else the sheet's extent.
pub open spec fn step_end(end_str: Option<Seq<char>>, vertical: bool, mc: u32, mr: u32) -> Option<
    Option<u32>,
> {
    match end_str {
        Some(e) => match parse_bound(e, mc, mr) {
            None => None,
            Some(None) => Some(None),
            Some(Some(p)) => Some(Some(if vertical { p.1 } else { p.0 })),
        },
        None => Some(Some(if vertical { mr } else { mc })),
    }
}

pub open spec fn run_cells(fixed: u32, start: u32, end: Option<Option<u32>>, step: u32, vertical: bool) -> Option<
    Option<Seq<(u32, u32)>>,
> {
    match end {
        None => None,
        Some(None) => Some(None),
        Some(Some(e)) => match stepped(start as int, e as int, step as int) {
            None => None,
            Some(xs) => Some(Some(place(fixed, xs, vertical))),
        },
    }
}

/// The step syntax: `A(1:+2):A13` walks column A from row 1 by 2 to row 13;
/// `(B:+2)14:~14` walks row 14 from column B by 2 to the last column; the
/// end cell may be left out (the sheet's extent). `Some(None)`: not a step
/// segment; `None`: a number overflowed.
pub open spec fn sp_step(seg: Seq<char>, mc: u32, mr: u32) -> Option<Option<SegView>> {
    match find_first(seg, '(') {
        None => Some(None),
        Some(open) => match find_first(seg, ')') {
            None => Some(None),
            Some(close) => if close <= open {
                Some(None)
            } else {
                let before = trim(seg.subrange(0, open));
                let inner = trim(seg.subrange(open + 1, close));
                let tail = trim_start(seg.subrange(close + 1, seg.len() as int));
                match find_pair(inner, ':', '+') {
                    None => Some(None),
                    Some(plus) => match parse_u32(trim(inner.subrange(plus + 2, inner.len() as int))) {
                        None => Some(None),
                        Some(step) => if step == 0 {
                            Some(None)
                        } else {
                            let left = trim(inner.subrange(0, plus));
                            let prefix = match find_first(tail, ':') {
                                Some(i) => trim(tail.subrange(0, i)),
                                None => trim(tail),
                            };
                            let end_str = match find_first(tail, ':') {
                                Some(i) => Some(trim(tail.subrange(i + 1, tail.len() as int))),
                                None => None,
                            };
                            let cells = if before.len() > 0 {
                                match parse_ref_t(before.push('1')) {
                                    None => None,
                                    Some(None) => Some(None),
                                    Some(Some(cr)) => match parse_u32(left) {
                                        None => Some(None),
                                        Some(start) => run_cells(
                                            cr.0,
                                            start,
                                            step_end(end_str, true, mc, mr),
                                            step,
                                            true,
                                        ),
                                    },
                                }
                            } else if left.len() > 0 && all_letters(left) {
                                match parse_u32(prefix) {
                                    None => Some(None),
                                    Some(row) => match parse_ref_t(left.push('1')) {
                                        None => None,
                                        Some(None) => Some(None),
                                        Some(Some(cr)) => run_cells(
                                            row,
                                            cr.0,
                                            step_end(end_str, false, mc, mr),
                                            step,
                                            false,
                                        ),
                                    },
                                }
                            } else {
                                Some(None)
                            };
                            match cells {
                                None => None,
                                Some(None) => Some(None),
                                Some(Some(c)) => if c.len() == 0 {
                                    Some(None)
                                } else {
                                    Some(Some((c, trim(seg), true)))
                                },
                            }
                        },
                    },
                }
            },
        },
    }
}

pub open spec fn oo_view(r: Option<Option<RangeSegment>>) -> Option<Option<SegView>> {
    match r {
        None => None,
        Some(None) => Some(None),
        Some(Some(x)) => Some(Some(x@)),
    }
}

/// `trim(s[lo..hi])` as a new vector.
fn trim_range_vec(s: &[char], lo: usize, hi: usize) -> (v: Vec<char>)
    requires
        lo <= hi <= s@.len(),
    ensures
        v@ == trim(s@.subrange(lo as int, hi as int)),
{
    let (a, b) = trim_bounds(s, lo, hi);
    slice_to_vec(s, a, b)
}

/// The first `a b` in `s`.
fn find_pair_exec(s: &[char], a: char, b: char) -> (r: Option<usize>)
    ensures
        match find_pair(s@, a, b) {
            Some(i) => r == Some(i as usize),
            None => r is None,
        },
{
    let n = s.len();
    let mut i: usize = 0;
    assert(s@.skip(0) =~= s@);
    while n >= 2 && i < n - 1
        invariant
            n == s@.len(),
            i <= n,
            find_pair(s@, a, b) == (match find_pair(s@.skip(i as int), a, b) {
                Some(j) => Some(j + i),
                None => None,
            }),
        decreases n - i,
    {
        let ghost t = s@.skip(i as int);
        assert(t[0] == s@[i as int] && t[1] == s@[i + 1]);
        if s[i] == a && s[i + 1] == b {
            return Some(i);
        }
        assert(t.drop_first() =~= s@.skip(i + 1));
        i += 1;
    }
    assert(s@.skip(i as int).len() < 2);
    None
}

/// Whether every character is alphabetic (`char::is_alphabetic`).
pub open spec fn all_letters(s: Seq<char>) -> bool {
    forall|i: int| 0 <= i < s.len() ==> alphabetic(#[trigger] s[i])
}

fn all_letters_exec(s: &[char]) -> (r: bool)
    ensures
        r == all_letters(s@),
{
    let mut i: usize = 0;
    while i < s.len()
        invariant
            i <= s@.len(),
            forall|j: int| 0 <= j < i ==> alphabetic(#[trigger] s@[j]),
        decreases s@.len() - i,
    {
        if !is_alphabetic(s[i]) {
            return false;
        }
        i += 1;
    }
    true
}

/// The cells of a stepped run.
fn step_run(fixed: u32, start: u32, end: u32, step: u32, vertical: bool) -> (r: Option<
    Vec<(u32, u32)>,
>)
    requires
        step > 0,
    ensures
        match r {
            None => stepped(start as int, end as int, step as int) is None,
            Some(v) => stepped(start as int, end as int, step as int) == Some(
                Seq::new(v@.len(), |i: int| if vertical { v@[i].1 } else { v@[i].0 }),
            ) && v@ == place(
                fixed,
                stepped(start as int, end as int, step as int)->0,
                vertical,
            ),
        },
{
    let mut out: Vec<(u32, u32)> = Vec::new();
    let ghost mut done: Seq<u32> = Seq::empty();
    let mut r = start;
    while r <= end
        invariant
            step > 0,
            out@ == place(fixed, done, vertical),
            match stepped(r as int, end as int, step as int) {
                Some(t) => stepped(start as int, end as int, step as int) == Some(done + t),
                None => stepped(start as int, end as int, step as int) is None,
            },
        decreases (if r > end { 0 } else { end as int + 1 - r as int }),
    {
        if r > u32::MAX - step {
            return None;
        }
        if vertical {
            out.push((fixed, r));
        } else {
            out.push((r, fixed));
        }
        proof {
            let t = stepped(r + step, end as int, step as int);
            if t is Some {
                assert(done.push(r) + t->0 =~= done + (seq![r] + t->0));
            }
            done = done.push(r);
            assert(out@ =~= place(fixed, done, vertical));
        }
        r = r + step;
    }
    proof {
        assert(done + Seq::<u32>::empty() =~= done);
        assert(Seq::new(out@.len(), |i: int| if vertical { out@[i].1 } else { out@[i].0 })
            =~= done);
    }
    Some(out)
}

/// A copy of `v` with `c` appended.
fn with_char(v: &Vec<char>, c: char) -> (r: Vec<char>)
    ensures
        r@ == v@.push(c),
{
    let mut r = slice_to_vec(v.as_slice(), 0, v.len());
    assert(v@.subrange(0, v@.len() as int) =~= v@);
    r.push(c);
    r
}

/// [`sp_step`]: reads a segment written with the step syntax.
#[verifier::rlimit(40)]
fn step_segment(seg: &[char], mc: u32, mr: u32) -> (r: Option<Option<RangeSegment>>)
    ensures
        oo_view(r) == sp_step(seg@, mc, mr),
{
    let n = seg.len();
    assert(seg@.subrange(0, n as int) =~= seg@);
    proof {
        lemma_find_first(seg@, '(');
        lemma_find_first(seg@, ')');
    }
    let open = match find_in(seg, 0, n, '(') {
        Some(i) => i,
        None => {
            return Some(None);
        },
    };
    let close = match find_in(seg, 0, n, ')') {
        Some(i) => i,
        None => {
            return Some(None);
        },
    };
    if close <= open {
        return Some(None);
    }
    let before = trim_range_vec(seg, 0, open);
    let inner = trim_range_vec(seg, open + 1, close);
    let k = skip_ws_from(seg, close + 1, n);
    let tail = slice_to_vec(seg, k, n);
    proof {
        lemma_find_pair(inner@, ':', '+');
    }
    let plus = match find_pair_exec(inner.as_slice(), ':', '+') {
        Some(i) => i,
        None => {
            return Some(None);
        },
    };
    let ilen = inner.len();
    assert(plus + 2 <= ilen);
    let step_txt = trim_range_vec(inner.as_slice(), plus + 2, ilen);
    assert(step_txt@.subrange(0, step_txt@.len() as int) =~= step_txt@);
    let step = match parse_u32_range(step_txt.as_slice(), 0, step_txt.len()) {
        Some(x) => x,
        None => {
            return Some(None);
        },
    };
    if step == 0 {
        return Some(None);
    }
    let left = trim_range_vec(inner.as_slice(), 0, plus);
    let tn = tail.len();
    assert(tail@.subrange(0, tn as int) =~= tail@);
    proof {
        lemma_find_first(tail@, ':');
    }
    let colon = find_in(tail.as_slice(), 0, tn, ':');
    let (prefix, end_txt) = match colon {
        Some(i) => (
            trim_range_vec(tail.as_slice(), 0, i),
            Some(trim_range_vec(tail.as_slice(), i + 1, tn)),
        ),
        None => (trim_range_vec(tail.as_slice(), 0, tn), None),
    };
    let ghost end_str: Option<Seq<char>> = match &end_txt {
        Some(e) => Some(e@),
        None => None,
    };
    let cells: Vec<(u32, u32)>;
    if before.len() > 0 {
        let b1 = with_char(&before, '1');
        assert(b1@.subrange(0, b1@.len() as int) =~= b1@);
        let col = match ref_t_chars(b1.as_slice(), 0, b1.len()) {
            None => {
                return None;
            },
            Some(None) => {
                return Some(None);
            },
            Some(Some(cr)) => cr.0,
        };
        assert(left@.subrange(0, left@.len() as int) =~= left@);
        let start = match parse_u32_range(left.as_slice(), 0, left.len()) {
            None => {
                return Some(None);
            },
            Some(x) => x,
        };
        let end = match end_txt {
            Some(e) => {
                assert(e@.subrange(0, e@.len() as int) =~= e@);
                match bound_chars(e.as_slice(), 0, e.len(), mc, mr) {
                    None => {
                        return None;
                    },
                    Some(None) => {
                        return Some(None);
                    },
                    Some(Some(p)) => p.1,
                }
            },
            None => mr,
        };
        assert(step_end(end_str, true, mc, mr) == Some(Some(end)));
        cells = match step_run(col, start, end, step, true) {
            None => {
                return None;
            },
            Some(v) => v,
        };
    } else if left.len() > 0 && all_letters_exec(left.as_slice()) {
        assert(prefix@.subrange(0, prefix@.len() as int) =~= prefix@);
        let row = match parse_u32_range(prefix.as_slice(), 0, prefix.len()) {
            None => {
                return Some(None);
            },
            Some(x) => x,
        };
        let l1 = with_char(&left, '1');
        assert(l1@.subrange(0, l1@.len() as int) =~= l1@);
        let start = match ref_t_chars(l1.as_slice(), 0, l1.len()) {
            None => {
                return None;
            },
            Some(None) => {
                return Some(None);
            },
            Some(Some(cr)) => cr.0,
        };
        let end = match end_txt {
            Some(e) => {
                assert(e@.subrange(0, e@.len() as int) =~= e@);
                match bound_chars(e.as_slice(), 0, e.len(), mc, mr) {
                    None => {
                        return None;
                    },
                    Some(None) => {
                        return Some(None);
                    },
                    Some(Some(p)) => p.0,
                }
            },
            None => mc,
        };
        assert(step_end(end_str, false, mc, mr) == Some(Some(end)));
        cells = match step_run(row, start, end, step, false) {
            None => {
                return None;
            },
            Some(v) => v,
        };
    } else {
        return Some(None);
    }
    if cells.len() == 0 {
        return Some(None);
    }
    let expr_v = trim_range_vec(seg, 0, n);
    let expr = string_from(expr_v.as_slice());
    Some(Some(RangeSegment { cells, expr, is_step: true }))
}

pub proof fn lemma_find_pair(s: Seq<char>, a: char, b: char)
    ensures
        match find_pair(s, a, b) {
            Some(i) => 0 <= i && i + 2 <= s.len() && s[i] == a && s[i + 1] == b,
            None => true,
        },
    decreases s.len(),
{
    if s.len() >= 2 && !(s[0] == a && s[1] == b) {
        lemma_find_pair(s.drop_first(), a, b);
    }
}

/// The cells between two ends in one column or one row (either order);
/// none when the ends share neither.
pub open spec fn range_cells(x: (u32, u32), y: (u32, u32)) -> Seq<(u32, u32)> {
    if x.0 == y.0 {
        let lo = if x.1 <= y.1 { x.1 } else { y.1 };
        let hi = if x.1 <= y.1 { y.1 } else { x.1 };
        Seq::new((hi - lo + 1) as nat, |i: int| (x.0, (lo + i) as u32))
    } else if x.1 == y.1 {
        let lo = if x.0 <= y.0 { x.0 } else { y.0 };
        let hi = if x.0 <= y.0 { y.0 } else { x.0 };
        Seq::new((hi - lo + 1) as nat, |i: int| ((lo + i) as u32, x.1))
    } else {
        Seq::empty()
    }
}

/// A plain segment: one cell, or `start-end` in one column or row (the end
/// may hold `~`). `None`: a number overflowed.
pub open spec fn sp_flat(seg: Seq<char>, mc: u32, mr: u32) -> Option<Seq<(u32, u32)>> {
    let t = trim(seg);
    let single = match parse_bound(t, mc, mr) {
        None => None,
        Some(None) => Some(Seq::empty()),
        Some(Some(p)) => Some(seq![p]),
    };
    if t.len() == 0 {
        Some(Seq::empty())
    } else {
        match find_first(t, '-') {
            None => single,
            Some(idx) => {
                let at = trim(t.subrange(idx + 1, t.len() as int));
                if at.len() > 0 && (alphabetic(at[0]) || at[0] == '~') {
                    match (
                        parse_bound(t.subrange(0, idx), mc, mr),
                        parse_bound(t.subrange(idx + 1, t.len() as int), mc, mr),
                    ) {
                        (None, _) => None,
                        (_, None) => None,
                        (Some(Some(x)), Some(Some(y))) => Some(range_cells(x, y)),
                        _ => single,
                    }
                } else {
                    single
                }
            },
        }
    }
}

/// One segment per cell of a plain segment, named by its reference.
pub open spec fn flat_views(cs: Seq<(u32, u32)>) -> Seq<SegView> {
    cs.map_values(
        |p: (u32, u32)| (seq![p], col_letters(p.0 as nat) + dec(p.1 as nat), false),
    )
}

/// One comma-separated part: a step segment as one group, else its cells
/// one by one.
pub open spec fn sp_one(seg: Seq<char>, mc: u32, mr: u32) -> Option<Seq<SegView>> {
    let t = trim(seg);
    if t.len() == 0 {
        Some(Seq::empty())
    } else {
        let st = if t.contains('(') {
            sp_step(t, mc, mr)
        } else {
            Some(None)
        };
        match st {
            None => None,
            Some(Some(v)) => Some(seq![v]),
            Some(None) => match sp_flat(t, mc, mr) {
                None => None,
                Some(cs) => Some(flat_views(cs)),
            },
        }
    }
}

pub open spec fn sp_segs(pieces: Seq<Seq<char>>, mc: u32, mr: u32) -> Option<Seq<SegView>>
    decreases pieces.len(),
{
    if pieces.len() == 0 {
        Some(Seq::empty())
    } else {
        match sp_one(pieces[0], mc, mr) {
            None => None,
            Some(a) => match sp_segs(pieces.drop_first(), mc, mr) {
                None => None,
                Some(b) => Some(a + b),
            },
        }
    }
}

/// A whole search range: its comma-separated parts in order.
pub open spec fn sp_segments(input: Seq<char>, mc: u32, mr: u32) -> Option<Seq<SegView>> {
    let t = trim(input);
    if t.len() == 0 {
        Some(Seq::empty())
    } else {
        sp_segs(split_on(t, ','), mc, mr)
    }
}

/// The cells of [`range_cells`].
fn range_list(x: (u32, u32), y: (u32, u32)) -> (v: Vec<(u32, u32)>)
    ensures
        v@ == range_cells(x, y),
{
    let mut v: Vec<(u32, u32)> = Vec::new();
    if x.0 == y.0 || x.1 == y.1 {
        let same_col = x.0 == y.0;
        let (a, b) = if same_col {
            (x.1, y.1)
        } else {
            (x.0, y.0)
        };
        let lo = if a <= b {
            a
        } else {
            b
        };
        let hi = if a <= b {
            b
        } else {
            a
        };
        let count: u64 = (hi - lo) as u64 + 1;
        let mut k: u64 = 0;
        while k < count
            invariant
                count == hi - lo + 1,
                lo <= hi,
                k <= count,
                same_col == (x.0 == y.0),
                same_col || x.1 == y.1,
                lo == (if same_col { if x.1 <= y.1 { x.1 } else { y.1 } } else { if x.0 <= y.0 { x.0 } else { y.0 } }),
                v@ == range_cells(x, y).take(k as int),
                range_cells(x, y).len() == count,
            decreases count - k,
        {
            let z: u32 = lo + k as u32;
            if same_col {
                v.push((x.0, z));
            } else {
                v.push((z, x.1));
            }
            k += 1;
            assert(v@ =~= range_cells(x, y).take(k as int));
        }
        assert(range_cells(x, y).take(count as int) =~= range_cells(x, y));
    } else {
        assert(v@ =~= range_cells(x, y));
    }
    v
}

/// [`sp_flat`].
#[verifier::rlimit(40)]
fn flat_cells(seg: &[char], mc: u32, mr: u32) -> (r: Option<Vec<(u32, u32)>>)
    ensures
        match r {
            None => sp_flat(seg@, mc, mr) is None,
            Some(v) => sp_flat(seg@, mc, mr) == Some(v@),
        },
{
    let n = seg.len();
    assert(seg@.subrange(0, n as int) =~= seg@);
    let t = trim_range_vec(seg, 0, n);
    let tn = t.len();
    assert(t@.subrange(0, tn as int) =~= t@);
    if tn == 0 {
        return Some(Vec::new());
    }
    proof {
        lemma_find_first(t@, '-');
    }
    match find_in(t.as_slice(), 0, tn, '-') {
        Some(idx) => {
            let (a, b) = trim_bounds(t.as_slice(), idx + 1, tn);
            if a < b && (is_alphabetic(t[a]) || t[a] == '~') {
                let sb = bound_chars(t.as_slice(), 0, idx, mc, mr);
                let eb = bound_chars(t.as_slice(), idx + 1, tn, mc, mr);
                match (sb, eb) {
                    (None, _) => {
                        return None;
                    },
                    (_, None) => {
                        return None;
                    },
                    (Some(Some(x)), Some(Some(y))) => {
                        return Some(range_list(x, y));
                    },
                    _ => {},
                }
            }
        },
        None => {},
    }
    match bound_chars(t.as_slice(), 0, tn, mc, mr) {
        None => None,
        Some(None) => Some(Vec::new()),
        Some(Some(p)) => {
            let mut v: Vec<(u32, u32)> = Vec::new();
            v.push(p);
            assert(v@ =~= seq![p]);
            Some(v)
        },
    }
}

/// The reference text of a cell: column letters then the row.
pub(crate) fn cell_name(c: u32, r: u32) -> (s: String)
    ensures
        s@ == col_letters(c as nat) + dec(r as nat),
{
    let mut e: Vec<char> = Vec::new();
    push_col_letters(&mut e, c);
    push_dec(&mut e, r as u64);
    assert(e@ =~= col_letters(c as nat) + dec(r as nat));
    string_from(e.as_slice())
}

/// [`sp_one`].
fn one_segment(piece: &[char], mc: u32, mr: u32) -> (r: Option<Vec<RangeSegment>>)
    ensures
        match r {
            None => sp_one(piece@, mc, mr) is None,
            Some(v) => sp_one(piece@, mc, mr) == Some(seg_views(v@)),
        },
{
    let n = piece.len();
    assert(piece@.subrange(0, n as int) =~= piece@);
    let t = trim_range_vec(piece, 0, n);
    let tn = t.len();
    if tn == 0 {
        let out: Vec<RangeSegment> = Vec::new();
        assert(seg_views(out@) =~= Seq::<SegView>::empty());
        return Some(out);
    }
    assert(t@.subrange(0, tn as int) =~= t@);
    if contains_char(t.as_slice(), 0, tn, '(') {
        match step_segment(t.as_slice(), mc, mr) {
            None => {
                return None;
            },
            Some(Some(rs)) => {
                let mut out: Vec<RangeSegment> = Vec::new();
                out.push(rs);
                assert(seg_views(out@) =~= seq![rs@]);
                return Some(out);
            },
            Some(None) => {},
        }
    }
    let cs = match flat_cells(t.as_slice(), mc, mr) {
        None => {
            return None;
        },
        Some(c) => c,
    };
    assert(sp_flat(t@, mc, mr) == sp_flat(piece@, mc, mr)) by {
        assert(trim(t@) == trim(piece@)) by {
            lemma_trim_trimmed(piece@);
        }
    }
    let mut out: Vec<RangeSegment> = Vec::new();
    let mut i: usize = 0;
    while i < cs.len()
        invariant
            i <= cs@.len(),
            out@.len() == i,
            seg_views(out@) == flat_views(cs@.take(i as int)),
        decreases cs@.len() - i,
    {
        let (c, r) = cs[i];
        let mut cells: Vec<(u32, u32)> = Vec::new();
        cells.push((c, r));
        assert(cells@ =~= seq![(c, r)]);
        let expr = cell_name(c, r);
        let ghost old_out = out@;
        out.push(RangeSegment { cells, expr, is_step: false });
        proof {
            assert(out@ == old_out.push(out@[i as int]));
            assert(cs@.take(i + 1) =~= cs@.take(i as int).push(cs@[i as int]));
            assert(seg_views(out@) =~= seg_views(old_out).push(out@[i as int]@));
        }
        i += 1;
        assert(seg_views(out@) =~= flat_views(cs@.take(i as int)));
    }
    assert(cs@.take(cs@.len() as int) =~= cs@);
    Some(out)
}

/// `trim` leaves a trimmed sequence unchanged.
pub proof fn lemma_trim_trimmed(s: Seq<char>)
    ensures
        trim(trim(s)) == trim(s),
{
    lemma_trim_start_shape(s);
    let a = trim_start(s);
    lemma_trim_end_shape(a);
    let b = trim_end(a);
    if b.len() > 0 {
        assert(b[0] == a[0]);
    }
    assert(trim_start(b) == b);
    assert(trim_end(b) == b);
}

pub proof fn lemma_trim_start_shape(s: Seq<char>)
    ensures
        trim_start(s).len() > 0 ==> !crate::text::is_ws(trim_start(s)[0]),
    decreases s.len(),
{
    if s.len() > 0 && crate::text::is_ws(s[0]) {
        lemma_trim_start_shape(s.drop_first());
    }
}

pub proof fn lemma_trim_end_shape(s: Seq<char>)
    ensures
        trim_end(s) == s.take(trim_end(s).len() as int),
        trim_end(s).len() <= s.len(),
        trim_end(s).len() > 0 ==> !crate::text::is_ws(trim_end(s).last()),
    decreases s.len(),
{
    if s.len() > 0 && crate::text::is_ws(s.last()) {
        lemma_trim_end_shape(s.drop_last());
        assert(s.drop_last().take(trim_end(s).len() as int) =~= s.take(
            trim_end(s).len() as int,
        ));
    } else {
        assert(s.take(s.len() as int) =~= s);
    }
}

/// Reads a search range into its segments, or `None` where a number in it
/// overflows `u32`.
#[verifier::rlimit(80)]
#[verifier::spinoff_prover]
pub fn try_parse_search_segments(input: &str, mc: u32, mr: u32) -> (r: Option<
    Vec<RangeSegment>,
>)
    ensures
        match r {
            None => sp_segments(input@, mc, mr) is None,
            Some(v) => sp_segments(input@, mc, mr) == Some(seg_views(v@)),
        },
{
    let v = chars_of(input);
    let t = trim_vec(v.as_slice());
    let n = t.len();
    let mut out: Vec<RangeSegment> = Vec::new();
    if n == 0 {
        assert(seg_views(out@) =~= Seq::<SegView>::empty());
        return Some(out);
    }
    let ghost whole = split_on(t@, ',');
    let mut pos: usize = 0;
    assert(t@.skip(0) =~= t@);
    assert(seg_views(out@) + Seq::<SegView>::empty() =~= seg_views(out@));
    loop
        invariant
            n == t@.len(),
            n > 0,
            t@ == trim(input@),
            whole == split_on(t@, ','),
            pos <= n,
            match sp_segs(split_on(t@.skip(pos as int), ','), mc, mr) {
                Some(b) => sp_segs(whole, mc, mr) == Some(seg_views(out@) + b),
                None => sp_segs(whole, mc, mr) is None,
            },
        decreases n - pos,
    {
        let ghost rest = t@.skip(pos as int);
        assert(t@.subrange(pos as int, n as int) =~= rest);
        proof {
            lemma_find_first(rest, ',');
        }
        let found = find_in(t.as_slice(), pos, n, ',');
        let end = match found {
            Some(j) => j,
            None => n,
        };
        proof {
            lemma_segs_step(t@, pos as int, end as int, mc, mr);
        }
        let pv = slice_to_vec(t.as_slice(), pos, end);
        let segs = match one_segment(pv.as_slice(), mc, mr) {
            None => {
                return None;
            },
            Some(x) => x,
        };
        let ghost before = seg_views(out@);
        let mut segs = segs;
        let ghost sv = seg_views(segs@);
        let ghost old_out = out@;
        let ghost segs_v = segs@;
        out.append(&mut segs);
        assert(out@ =~= old_out + segs_v);
        assert(seg_views(out@) =~= before + sv);
        match found {
            Some(j) => {
                proof {
                    let tail = sp_segs(split_on(t@.skip(j + 1), ','), mc, mr);
                    if tail is Some {
                        assert(before + sv + tail->0 =~= before + (sv + tail->0));
                    }
                }
                pos = j + 1;
            },
            None => {
                return Some(out);
            },
        }
    }
}

#[verifier::rlimit(60)]
#[verifier::spinoff_prover]
proof fn lemma_segs_step(t: Seq<char>, pos: int, end: int, mc: u32, mr: u32)
    requires
        0 <= pos <= end <= t.len(),
        match find_first(t.subrange(pos, t.len() as int), ',') {
            Some(i) => end == pos + i && end < t.len(),
            None => end == t.len(),
        },
    ensures
        sp_segs(split_on(t.skip(pos), ','), mc, mr) == (match sp_one(
            t.subrange(pos, end),
            mc,
            mr,
        ) {
            None => None,
            Some(a) => if end < t.len() {
                match sp_segs(split_on(t.skip(end + 1), ','), mc, mr) {
                    None => None,
                    Some(b) => Some(a + b),
                }
            } else {
                Some(a)
            },
        }),
{
    let rest = t.skip(pos);
    assert(t.subrange(pos, t.len() as int) =~= rest);
    lemma_find_first(rest, ',');
    let piece = t.subrange(pos, end);
    let pieces = split_on(rest, ',');
    if end < t.len() {
        assert(rest.take(end - pos) =~= piece);
        assert(rest.skip(end - pos + 1) =~= t.skip(end + 1));
        assert(pieces =~= seq![piece] + split_on(t.skip(end + 1), ','));
        assert(pieces.drop_first() =~= split_on(t.skip(end + 1), ','));
        assert(pieces[0] == piece);
        assert(sp_segs(pieces, mc, mr) == (match sp_one(piece, mc, mr) {
            None => None,
            Some(a) => match sp_segs(pieces.drop_first(), mc, mr) {
                None => None,
                Some(b) => Some(a + b),
            },
        }));
    } else {
        assert(piece =~= rest);
        assert(pieces =~= seq![piece]);
        assert(pieces.drop_first() =~= Seq::<Seq<char>>::empty());
        assert(pieces[0] == piece);
        let r = sp_one(piece, mc, mr);
        assert(sp_segs(pieces.drop_first(), mc, mr) == Some(Seq::<SegView>::empty()));
        if r is Some {
            assert(r->0 + Seq::<SegView>::empty() =~= r->0);
        }
    }
}

/// Reads a search range: segments separated by `,`, each one a cell (`A1`),
/// a run within a column or row (`A1-A13`, `A1-C1`, the end may hold `~`),
/// or a step segment (`A(1:+2):A13`, `(B:+2)14:~14`). A step segment gives
/// one group of cells; a plain one gives one segment per cell.
pub fn parse_search_segments(input: &str, max_col: u32, max_row: u32) -> (r: Vec<RangeSegment>)
    requires
        sp_segments(input@, max_col, max_row) is Some,
    ensures
        seg_views(r@) == sp_segments(input@, max_col, max_row)->0,
{
    match try_parse_search_segments(input, max_col, max_row) {
        Some(v) => v,
        None => Vec::new(),
    }
}

// ===========================================================================
// Options, filters and the window's state
// ===========================================================================

/// What an option is: title, reference of its first cell, its cells, whether
/// it came from a step segment, and the segment's text.
pub type OptView = (Seq<char>, Seq<char>, Seq<(u32, u32)>, bool, Seq<char>);

/// One choice of a filter: a segment of the configured range with the title
/// read from its first cell.
#[derive(Debug)]
pub struct RangeOption {
    pub title: String,
    pub cell_ref: String,
    pub cells: Vec<(u32, u32)>,
    pub is_step: bool,
    pub expr: String,
}

impl View for RangeOption {
    type V = OptView;

    open spec fn view(&self) -> OptView {
        (self.title@, self.cell_ref@, self.cells@, self.is_step, self.expr@)
    }
}

/// The text a choice shows: `title(expr)` for a step option, `title (ref)`
/// otherwise.
pub open spec fn display_text(o: OptView) -> Seq<char> {
    if o.3 {
        o.0 + seq!['('] + o.4 + seq![')']
    } else {
        o.0 + seq![' ', '('] + o.1 + seq![')']
    }
}

impl RangeOption {
    /// The text shown in the drop-down: `入库((B:+2)14)` for a step option,
    /// `序号 (A1)` for a single cell.
    pub fn display(&self) -> (r: String)
        ensures
            r@ == display_text(self@),
    {
        let mut v: Vec<char> = Vec::new();
        push_str(&mut v, self.title.as_str());
        if self.is_step {
            v.push('(');
            push_str(&mut v, self.expr.as_str());
            v.push(')');
        } else {
            v.push(' ');
            v.push('(');
            push_str(&mut v, self.cell_ref.as_str());
            v.push(')');
        }
        assert(v@ =~= display_text(self@));
        string_from(v.as_slice())
    }

    /// Column of the first anchor cell, 0 when there is none.
    pub fn first_col(&self) -> (r: u32)
        ensures
            r == (if self.cells@.len() > 0 { self.cells@[0].0 } else { 0 }),
    {
        if self.cells.len() > 0 {
            self.cells[0].0
        } else {
            0
        }
    }

    /// Row of the first anchor cell, 0 when there is none.
    pub fn first_row(&self) -> (r: u32)
        ensures
            r == (if self.cells@.len() > 0 { self.cells@[0].1 } else { 0 }),
    {
        if self.cells.len() > 0 {
            self.cells[0].1
        } else {
            0
        }
    }
}

/// How a filter combines with the next one.
#[derive(Debug, Clone, Copy, PartialEq, Eq, Structural)]
pub enum FilterLogic {
    And,
    Or,
}

/// How a cell value is held against a keyword.
#[derive(Debug, Clone, Copy, PartialEq, Eq, Structural)]
pub enum CompareOp {
    Contains,
    NotContains,
    Equal,
    NotEqual,
    GreaterThan,
    LessThan,
    GreaterEqual,
    LessEqual,
}

impl Default for CompareOp {
    fn default() -> (r: Self)
        ensures
            r == CompareOp::Contains,
    {
        CompareOp::Contains
    }
}

pub open spec fn op_label(op: CompareOp) -> Seq<char> {
    match op {
        CompareOp::Contains => "包含"@,
        CompareOp::NotContains => "不包含"@,
        CompareOp::Equal => "="@,
        CompareOp::NotEqual => "!="@,
        CompareOp::GreaterThan => ">"@,
        CompareOp::LessThan => "<"@,
        CompareOp::GreaterEqual => ">="@,
        CompareOp::LessEqual => "<="@,
    }
}

impl CompareOp {
    /// The text shown for the operator.
    pub fn label(&self) -> (r: &'static str)
        ensures
            r@ == op_label(*self),
    {
        match self {
            CompareOp::Contains => "包含",
            CompareOp::NotContains => "不包含",
            CompareOp::Equal => "=",
            CompareOp::NotEqual => "!=",
            CompareOp::GreaterThan => ">",
            CompareOp::LessThan => "<",
            CompareOp::GreaterEqual => ">=",
            CompareOp::LessEqual => "<=",
        }
    }
}

/// A row filter: a choice of `row_options`, a keyword, how it combines with
/// the next filter, and the operator.
#[derive(Debug)]
pub struct RowFilterCondition {
    pub range_index: usize,
    pub keyword: String,
    pub logic: FilterLogic,
    pub op: CompareOp,
}

impl RowFilterCondition {
    /// A filter takes part once its keyword holds more than whitespace.
    pub fn is_active(&self) -> (r: bool)
        ensures
            r == (trim(self.keyword@).len() > 0),
    {
        let v = chars_of(self.keyword.as_str());
        let (a, b) = trim_bounds(v.as_slice(), 0, v.len());
        assert(v@.subrange(0, v@.len() as int) =~= v@);
        a < b
    }
}

/// A column filter: a choice of `column_options`, the value looked for, how
/// it combines with the next filter, and the operator.
#[derive(Debug)]
pub struct ColumnFilter {
    pub column_index: usize,
    pub filter_value: String,
    pub logic: FilterLogic,
    pub op: CompareOp,
}

impl ColumnFilter {
    /// A filter takes part once a value was typed.
    pub fn is_active(&self) -> (r: bool)
        ensures
            r == (self.filter_value@.len() > 0),
    {
        let v = chars_of(self.filter_value.as_str());
        v.len() > 0
    }
}

/// The search window: its options, filters and the outcome of the last
/// search.
#[derive(Debug)]
pub struct SearchWindowState {
    pub visible: bool,
    pub collapsed: bool,
    pub column_options: Vec<RangeOption>,
    pub selected_index: usize,
    pub options_loaded: bool,
    pub search_keyword: String,
    pub is_searching: bool,
    pub matched_count: usize,
    pub total_searched: usize,
    pub use_binary_search: bool,
    pub debug_info: String,
    pub row_options: Vec<RangeOption>,
    pub row_filters: Vec<RowFilterCondition>,
    pub is_row_searching: bool,
    pub row_matched_count: usize,
    pub row_total_searched: usize,
    pub row_debug_info: String,
    pub column_filters: Vec<ColumnFilter>,
    pub filter_logic: FilterLogic,
}

/// The one empty column filter a fresh window shows.
pub open spec fn is_blank_column_filter(f: ColumnFilter) -> bool {
    &&& f.column_index == 0
    &&& f.filter_value@.len() == 0
    &&& f.logic == FilterLogic::And
    &&& f.op == CompareOp::Contains
}

pub open spec fn is_blank_row_filter(f: RowFilterCondition) -> bool {
    &&& f.range_index == 0
    &&& f.keyword@.len() == 0
    &&& f.logic == FilterLogic::And
    &&& f.op == CompareOp::Contains
}

pub(crate) fn blank_column_filter() -> (f: ColumnFilter)
    ensures
        is_blank_column_filter(f),
{
    ColumnFilter {
        column_index: 0,
        filter_value: String::new(),
        logic: FilterLogic::And,
        op: CompareOp::Contains,
    }
}

pub(crate) fn blank_row_filter() -> (f: RowFilterCondition)
    ensures
        is_blank_row_filter(f),
{
    RowFilterCondition {
        range_index: 0,
        keyword: String::new(),
        logic: FilterLogic::And,
        op: CompareOp::Contains,
    }
}

impl Default for SearchWindowState {
    fn default() -> (s: Self)
        ensures
            !s.visible,
            !s.collapsed,
            s.column_options@.len() == 0,
            s.selected_index == 0,
            !s.options_loaded,
            s.search_keyword@.len() == 0,
            !s.is_searching,
            s.matched_count == 0,
            s.total_searched == 0,
            !s.use_binary_search,
            s.debug_info@.len() == 0,
            s.row_options@.len() == 0,
            s.row_filters@.len() == 0,
            !s.is_row_searching,
            s.row_matched_count == 0,
            s.row_total_searched == 0,
            s.row_debug_info@.len() == 0,
            s.column_filters@.len() == 1,
            is_blank_column_filter(s.column_filters@[0]),
            s.filter_logic == FilterLogic::And,
    {
        let mut column_filters: Vec<ColumnFilter> = Vec::new();
        column_filters.push(blank_column_filter());
        SearchWindowState {
            visible: false,
            collapsed: false,
            column_options: Vec::new(),
            selected_index: 0,
            options_loaded: false,
            search_keyword: String::new(),
            is_searching: false,
            matched_count: 0,
            total_searched: 0,
            use_binary_search: false,
            debug_info: String::new(),
            row_options: Vec::new(),
            row_filters: Vec::new(),
            is_row_searching: false,
            row_matched_count: 0,
            row_total_searched: 0,
            row_debug_info: String::new(),
            column_filters,
            filter_logic: FilterLogic::And,
        }
    }
}

/// Text of the cell at `(row, col)` as the sheet shows it, empty when there
/// is none.
pub open spec fn title_of(sheet: SheetData, row: u32, col: u32) -> Seq<char> {
    match sheet.cell(row, col) {
        Some(c) => c.display@,
        None => Seq::empty(),
    }
}

pub open spec fn option_of(s: SegView, sheet: SheetData) -> OptView {
    let f = s.0[0];
    (title_of(sheet, f.1, f.0), col_letters(f.0 as nat) + dec(f.1 as nat), s.0, s.2, s.1)
}

/// The options of a list of segments: each segment with cells, titled by its
/// first cell.
pub open spec fn options_of(segs: Seq<SegView>, sheet: SheetData) -> Seq<OptView>
    decreases segs.len(),
{
    if segs.len() == 0 {
        Seq::empty()
    } else if segs[0].0.len() == 0 {
        options_of(segs.drop_first(), sheet)
    } else {
        seq![option_of(segs[0], sheet)] + options_of(segs.drop_first(), sheet)
    }
}

pub open spec fn opt_views(v: Seq<RangeOption>) -> Seq<OptView> {
    v.map_values(|o: RangeOption| o@)
}

fn copy_cells(v: &Vec<(u32, u32)>) -> (r: Vec<(u32, u32)>)
    ensures
        r@ == v@,
{
    let mut r: Vec<(u32, u32)> = Vec::new();
    let mut i: usize = 0;
    while i < v.len()
        invariant
            i <= v@.len(),
            r@ == v@.take(i as int),
        decreases v@.len() - i,
    {
        r.push(v[i]);
        i += 1;
        assert(r@ =~= v@.take(i as int));
    }
    assert(v@.take(v@.len() as int) =~= v@);
    r
}

proof fn lemma_options_of_split(segs: Seq<SegView>, i: int, sheet: SheetData)
    requires
        0 <= i < segs.len(),
    ensures
        options_of(segs.take(i + 1), sheet) == options_of(segs.take(i), sheet) + (if segs[i].0.len()
            == 0 {
            Seq::<OptView>::empty()
        } else {
            seq![option_of(segs[i], sheet)]
        }),
    decreases i,
{
    let a = segs.take(i + 1);
    if i == 0 {
        assert(a.drop_first() =~= Seq::<SegView>::empty());
        assert(segs.take(0) =~= Seq::<SegView>::empty());
        if segs[0].0.len() > 0 {
            assert(seq![option_of(segs[0], sheet)] + Seq::<OptView>::empty() =~= seq![
                option_of(segs[0], sheet),
            ]);
        }
    } else {
        let d = segs.drop_first();
        lemma_options_of_split(d, i - 1, sheet);
        assert(a.drop_first() =~= d.take(i));
        assert(segs.take(i).drop_first() =~= d.take(i - 1));
        assert(a[0] == segs[0]);
        assert(segs.take(i)[0] == segs[0]);
        if segs[0].0.len() > 0 {
            let x = seq![option_of(segs[0], sheet)];
            let e = if segs[i].0.len() == 0 {
                Seq::<OptView>::empty()
            } else {
                seq![option_of(segs[i], sheet)]
            };
            assert(x + (options_of(d.take(i - 1), sheet) + e) =~= (x + options_of(
                d.take(i - 1),
                sheet,
            )) + e);
        }
    }
}

/// The options of already read segments.
fn options_from_segments(sheet: &SheetData, segs: &Vec<RangeSegment>) -> (r: Vec<RangeOption>)
    ensures
        opt_views(r@) == options_of(seg_views(segs@), *sheet),
{
    let ghost sv = seg_views(segs@);
    let mut out: Vec<RangeOption> = Vec::new();
    let mut i: usize = 0;
    assert(sv.take(0) =~= Seq::<SegView>::empty());
    assert(opt_views(out@) =~= Seq::<OptView>::empty());
    while i < segs.len()
        invariant
            i <= segs@.len(),
            sv == seg_views(segs@),
            opt_views(out@) == options_of(sv.take(i as int), *sheet),
        decreases segs@.len() - i,
    {
        proof {
            lemma_options_of_split(sv, i as int, *sheet);
        }
        let seg = &segs[i];
        assert(sv[i as int] == seg@);
        if seg.cells.len() > 0 {
            let (c, r) = seg.cells[0];
            let title = match sheet.get_cell(r, c) {
                Some(cell) => string_clone(&cell.display),
                None => String::new(),
            };
            let cell_ref = cell_name(c, r);
            let opt = RangeOption {
                title,
                cell_ref,
                cells: copy_cells(&seg.cells),
                is_step: seg.is_step,
                expr: string_clone(&seg.expr),
            };
            assert(opt@ == option_of(sv[i as int], *sheet));
            let ghost old_out = out@;
            out.push(opt);
            assert(opt_views(out@) =~= opt_views(old_out).push(opt@));
        } else {
            assert(options_of(sv.take(i as int), *sheet) + Seq::<OptView>::empty() =~= options_of(
                sv.take(i as int),
                *sheet,
            ));
        }
        i += 1;
    }
    assert(sv.take(segs@.len() as int) =~= sv);
    out
}

/// The options of a configured range on `sheet`: one per segment, titled by
/// the text of its first cell.
pub fn build_range_options(sheet: &SheetData, range_str: &str) -> (r: Vec<RangeOption>)
    requires
        sp_segments(range_str@, sheet.max_col, sheet.max_row) is Some,
    ensures
        opt_views(r@) == options_of(
            sp_segments(range_str@, sheet.max_col, sheet.max_row)->0,
            *sheet,
        ),
{
    let segs = parse_search_segments(range_str, sheet.max_col, sheet.max_row);
    options_from_segments(sheet, &segs)
}

/// Name for what `serde_yaml` reads at `search.<key>` of a YAML document:
/// the string found there, or nothing when the text is not YAML or holds no
/// string at that place.
pub uninterp spec fn yaml_search_entry(doc: Seq<char>, key: Seq<char>) -> Option<Seq<char>>;

/// `serde_yaml::from_str::<Value>`, then `get("search")`, `get(key)` and
/// `as_str`. The contract only names the outcome: it is a function of the
/// document and the key.
#[verifier::external_body]
pub(crate) fn read_search_entry(doc: &str, key: &str) -> (r: Option<String>)
    ensures
        match r {
            Some(v) => yaml_search_entry(doc@, key@) == Some(v@),
            None => yaml_search_entry(doc@, key@) is None,
        },
{
    let value: serde_yaml::Value = match serde_yaml::from_str(doc) {
        Ok(v) => v,
        Err(_) => return None,
    };
    let entry = value.get("search")?.get(key)?;
    entry.as_str().map(String::from)
}

/// The range configured under `search.<key>`, empty when there is none.
pub open spec fn configured_range(config: Seq<char>, key: Seq<char>) -> Seq<char> {
    match yaml_search_entry(config, key) {
        Some(v) => v,
        None => Seq::empty(),
    }
}

/// What loading the options of `key` gives: nothing without the sheet, or
/// when a number in the range overflows; else the options of the range.
pub open spec fn loaded_options(excel: ExcelData, current: usize, config: Seq<char>, key: Seq<char>) -> Seq<OptView> {
    if current >= excel.sheets@.len() {
        Seq::empty()
    } else {
        let sheet = excel.sheets@[current as int];
        match sp_segments(configured_range(config, key), sheet.max_col, sheet.max_row) {
            None => Seq::empty(),
            Some(segs) => options_of(segs, sheet),
        }
    }
}

fn load_options(excel_data: &ExcelData, current_sheet: usize, config: &str, key: &str) -> (r: Vec<
    RangeOption,
>)
    ensures
        opt_views(r@) == loaded_options(*excel_data, current_sheet, config@, key@),
{
    let sheet = match excel_data.get_sheet(current_sheet) {
        Some(s) => s,
        None => {
            let out: Vec<RangeOption> = Vec::new();
            assert(opt_views(out@) =~= Seq::<OptView>::empty());
            return out;
        },
    };
    let range = match read_search_entry(config, key) {
        Some(v) => v,
        None => String::new(),
    };
    match try_parse_search_segments(range.as_str(), sheet.max_col, sheet.max_row) {
        Some(segs) => options_from_segments(sheet, &segs),
        None => {
            let out: Vec<RangeOption> = Vec::new();
            assert(opt_views(out@) =~= Seq::<OptView>::empty());
            out
        },
    }
}

/// The column-filter options of the current sheet, from the `search.column`
/// entry of the configuration text.
pub fn load_column_options(excel_data: &ExcelData, current_sheet: usize, config: &str) -> (r: Vec<
    RangeOption,
>)
    ensures
        opt_views(r@) == loaded_options(*excel_data, current_sheet, config@, "column"@),
{
    load_options(excel_data, current_sheet, config, "column")
}

/// The row-filter options of the current sheet, from the `search.row` entry
/// of the configuration text.
pub fn load_row_options(excel_data: &ExcelData, current_sheet: usize, config: &str) -> (r: Vec<
    RangeOption,
>)
    ensures
        opt_views(r@) == loaded_options(*excel_data, current_sheet, config@, "row"@),
{
    load_options(excel_data, current_sheet, config, "row")
}

// ===========================================================================
// Combining conditions: AND binds tighter than OR
// ===========================================================================

/// Whether the operator between condition `k` and `k + 1` is OR (a missing
/// operator counts as AND).
pub open spec fn is_or(logic: Seq<FilterLogic>, k: int) -> bool {
    0 <= k < logic.len() && logic[k] == FilterLogic::Or
}

/// Whether an OR stands right before condition `i`.
pub open spec fn or_before(logic: Seq<FilterLogic>, i: int) -> bool {
    is_or(logic, i - 1)
}

/// `[s, e)` is one AND-group of `n` conditions: it starts at the first
/// condition or after an OR, ends at the last one or before an OR, and holds
/// no OR inside.
pub open spec fn is_group(n: int, logic: Seq<FilterLogic>, s: int, e: int) -> bool {
    &&& 0 <= s < e <= n
    &&& (s == 0 || is_or(logic, s - 1))
    &&& (e == n || is_or(logic, e - 1))
    &&& forall|i: int| s < i < e ==> !#[trigger] or_before(logic, i)
}

pub open spec fn all_true(m: Seq<bool>, s: int, e: int) -> bool {
    forall|i: int| s <= i < e ==> m[i]
}

/// The conditions combined: true for no conditions, else some AND-group
/// holds entirely. `c1 OR c2 AND c3` reads as `c1 OR (c2 AND c3)`.
pub open spec fn expr_holds(m: Seq<bool>, logic: Seq<FilterLogic>) -> bool {
    m.len() == 0 || exists|s: int, e: int| is_group(m.len() as int, logic, s, e) && all_true(m, s, e)
}

/// Whether the conditions hold together: `matches[i]` is condition `i`,
/// `logic_seq[i]` the operator between condition `i` and the next; AND
/// binds tighter than OR.
pub fn row_matches_expr(matches: &[bool], logic_seq: &[FilterLogic]) -> (r: bool)
    ensures
        r == expr_holds(matches@, logic_seq@),
{
    let n = matches.len();
    if n == 0 {
        return true;
    }
    let ghost m = matches@;
    let ghost lg = logic_seq@;
    let mut group_ok = matches[0];
    let ghost mut gs: int = 0;
    let mut i: usize = 1;
    while i < n
        invariant
            n == m.len(),
            m == matches@,
            lg == logic_seq@,
            0 <= gs < i <= n,
            gs == 0 || is_or(lg, gs - 1),
            forall|k: int| gs < k < i ==> !#[trigger] or_before(lg, k),
            group_ok == all_true(m, gs, i as int),
            forall|s: int, e: int| is_group(n as int, lg, s, e) && e <= gs ==> !all_true(m, s, e),
        decreases n - i,
    {
        let prev_or = i - 1 < logic_seq.len() && logic_seq[i - 1] == FilterLogic::Or;
        assert(prev_or == is_or(lg, i - 1));
        if prev_or {
            if group_ok {
                assert(is_group(n as int, lg, gs, i as int));
                return true;
            }
            proof {
                assert forall|s: int, e: int|
                    is_group(n as int, lg, s, e) && e <= i implies !all_true(m, s, e) by {
                    if e > gs {
                        if s < gs {
                            assert(!or_before(lg, gs));
                        } else if s > gs {
                            assert(!or_before(lg, s));
                        } else {
                            if e < i {
                                assert(!or_before(lg, e));
                            }
                        }
                    }
                }
                gs = i as int;
            }
            group_ok = matches[i];
        } else {
            group_ok = group_ok && matches[i];
        }
        i += 1;
    }
    proof {
        assert(is_group(n as int, lg, gs, n as int));
        if !group_ok {
            assert forall|s: int, e: int| is_group(n as int, lg, s, e) implies !all_true(m, s, e) by {
                if e > gs {
                    if s < gs {
                        assert(!or_before(lg, gs));
                    } else if s > gs {
                        assert(!or_before(lg, s));
                    } else {
                        if e < n {
                            assert(!or_before(lg, e));
                        }
                    }
                }
            }
        }
    }
    group_ok
}

// ===========================================================================
// Filtering rows by column values
// ===========================================================================

/// First anchor column / row of an option (0 when it has none).
pub open spec fn opt_first_col(o: OptView) -> u32 {
    if o.2.len() > 0 {
        o.2[0].0
    } else {
        0
    }
}

pub open spec fn opt_first_row(o: OptView) -> u32 {
    if o.2.len() > 0 {
        o.2[0].1
    } else {
        0
    }
}

/// The text searched in a cell: its shown text lower-cased, empty for a
/// missing cell.
pub open spec fn cell_text(sheet: SheetData, row: u32, col: u32) -> Seq<char> {
    match sheet.cell(row, col) {
        Some(c) => lowercase_of(c.display@),
        None => Seq::empty(),
    }
}

/// The active column filters, in order.
pub open spec fn active_filters(fs: Seq<ColumnFilter>) -> Seq<ColumnFilter>
    decreases fs.len(),
{
    if fs.len() == 0 {
        Seq::empty()
    } else {
        active_filters(fs.drop_last()) + if fs.last().filter_value@.len() > 0 {
            seq![fs.last()]
        } else {
            Seq::empty()
        }
    }
}

/// Whether row `r` matches a column filter: the filter's option exists and
/// the row's cell in the option's first column meets the value under the
/// filter's operator (both sides lower-cased; see [`op_holds`]).
pub open spec fn filter_hit<F: Fn(&String, &String) -> Option<NumOrder>>(
    nf: F,
    opts: Seq<RangeOption>,
    sheet: SheetData,
    f: ColumnFilter,
    r: u32,
) -> bool {
    f.column_index < opts.len() && op_holds(
        nf,
        cell_text(sheet, r, opt_first_col(opts[f.column_index as int]@)),
        lowercase_of(f.filter_value@),
        f.op,
    )
}

/// A configuration row: the first row of one of the column options.
pub open spec fn config_row(opts: Seq<RangeOption>, r: u32) -> bool {
    exists|i: int| 0 <= i < opts.len() && opt_first_row((#[trigger] opts[i])@) == r
}

/// Whether row `r` passes the active filters combined (AND before OR).
pub open spec fn row_passes<F: Fn(&String, &String) -> Option<NumOrder>>(
    nf: F,
    opts: Seq<RangeOption>,
    sheet: SheetData,
    act: Seq<ColumnFilter>,
    r: u32,
) -> bool {
    expr_holds(
        act.map_values(|f: ColumnFilter| filter_hit(nf, opts, sheet, f, r)),
        act.map_values(|f: ColumnFilter| f.logic),
    )
}

/// The rows a column filter hides: data rows `1..=max_row` other than the
/// configuration rows that do not pass the filters.
pub open spec fn filtered_rows<F: Fn(&String, &String) -> Option<NumOrder>>(
    nf: F,
    opts: Seq<RangeOption>,
    sheet: SheetData,
    act: Seq<ColumnFilter>,
) -> Set<u32> {
    Set::new(
        |r: u32| 1 <= r <= sheet.max_row && !config_row(opts, r) && !row_passes(nf, opts, sheet, act, r),
    )
}

/// The row-filter results of every active filter for one row.
fn row_hits<F: Fn(&String, &String) -> Option<NumOrder>>(
    state: &SearchWindowState,
    sheet: &SheetData,
    kws: &Vec<String>,
    r: u32,
    numeric: &F,
) -> (res: (Vec<bool>, Vec<FilterLogic>))
    requires
        numeric_ok(*numeric),
        kws@.len() == state.column_filters@.len(),
        forall|k: int|
            0 <= k < kws@.len() ==> (#[trigger] kws@[k])@ == lowercase_of(
                state.column_filters@[k].filter_value@,
            ),
    ensures
        ({
            let act = active_filters(state.column_filters@);
            &&& res.0@ == act.map_values(
                |f: ColumnFilter| filter_hit(*numeric, state.column_options@, *sheet, f, r),
            )
            &&& res.1@ == act.map_values(|f: ColumnFilter| f.logic)
        }),
{
    let ghost fs = state.column_filters@;
    let ghost opts = state.column_options@;
    let mut hs: Vec<bool> = Vec::new();
    let mut lg: Vec<FilterLogic> = Vec::new();
    let mut k: usize = 0;
    assert(fs.take(0) =~= Seq::<ColumnFilter>::empty());
    while k < state.column_filters.len()
        invariant
            numeric_ok(*numeric),
            fs == state.column_filters@,
            opts == state.column_options@,
            kws@.len() == fs.len(),
            forall|q: int| 0 <= q < kws@.len() ==> (#[trigger] kws@[q])@ == lowercase_of(fs[q].filter_value@),
            k <= fs.len(),
            hs@ == active_filters(fs.take(k as int)).map_values(
                |f: ColumnFilter| filter_hit(*numeric, opts, *sheet, f, r),
            ),
            lg@ == active_filters(fs.take(k as int)).map_values(|f: ColumnFilter| f.logic),
        decreases fs.len() - k,
    {
        let f = &state.column_filters[k];
        let ghost prev = active_filters(fs.take(k as int));
        assert(fs.take(k + 1).drop_last() =~= fs.take(k as int));
        assert(fs.take(k + 1).last() == fs[k as int]);
        if chars_of(f.filter_value.as_str()).len() > 0 {
            let hit = if f.column_index < state.column_options.len() {
                let col = state.column_options[f.column_index].first_col();
                let text: String = match sheet.get_cell(r, col) {
                    Some(c) => to_lowercase(c.display.as_str()),
                    None => String::new(),
                };
                assert(text@ == cell_text(*sheet, r, col));
                compare_value(text.as_str(), kws[k].as_str(), f.op, numeric)
            } else {
                false
            };
            hs.push(hit);
            lg.push(f.logic);
            proof {
                let nxt = prev + seq![fs[k as int]];
                assert(active_filters(fs.take(k + 1)) == nxt);
                assert(hs@ =~= nxt.map_values(|f: ColumnFilter| filter_hit(*numeric, opts, *sheet, f, r)));
                assert(lg@ =~= nxt.map_values(|f: ColumnFilter| f.logic));
            }
        } else {
            proof {
                assert(active_filters(fs.take(k + 1)) =~= prev);
            }
        }
        k += 1;
    }
    assert(fs.take(fs.len() as int) =~= fs);
    (hs, lg)
}

fn is_config_row(state: &SearchWindowState, r: u32) -> (b: bool)
    ensures
        b == config_row(state.column_options@, r),
{
    let mut i: usize = 0;
    while i < state.column_options.len()
        invariant
            i <= state.column_options@.len(),
            forall|q: int| 0 <= q < i ==> opt_first_row((#[trigger] state.column_options@[q])@) != r,
        decreases state.column_options@.len() - i,
    {
        if state.column_options[i].first_row() == r {
            return true;
        }
        i += 1;
    }
    false
}

/// Hides the data rows that do not pass the column filters (AND binds
/// tighter than OR): a row passes a filter when the cell in the first column
/// of the filter's option meets the value under the filter's operator, case
/// ignored (numbers compare through `numeric`). Configuration rows stay
/// shown; rows hidden before stay hidden. Without an active filter nothing
/// changes.
pub fn execute_column_filter<F: Fn(&String, &String) -> Option<NumOrder>>(
    state: &SearchWindowState,
    sheet: &SheetData,
    hidden_rows: &mut HashSet<u32>,
    numeric: &F,
)
    requires
        numeric_ok(*numeric),
    ensures
        active_filters(state.column_filters@).len() == 0 ==> final(hidden_rows)@ == old(hidden_rows)@,
        active_filters(state.column_filters@).len() > 0 ==> final(hidden_rows)@ == old(hidden_rows)@.union(
            filtered_rows(*numeric, state.column_options@, *sheet, active_filters(state.column_filters@)),
        ),
{
    let ghost act = active_filters(state.column_filters@);
    let ghost opts = state.column_options@;
    let mut kws: Vec<String> = Vec::new();
    let mut any = false;
    let mut k: usize = 0;
    while k < state.column_filters.len()
        invariant
            k <= state.column_filters@.len(),
            kws@.len() == k,
            forall|q: int|
                0 <= q < k ==> (#[trigger] kws@[q])@ == lowercase_of(state.column_filters@[q].filter_value@),
        decreases state.column_filters@.len() - k,
    {
        let f = &state.column_filters[k];
        if chars_of(f.filter_value.as_str()).len() > 0 {
            any = true;
        }
        kws.push(to_lowercase(f.filter_value.as_str()));
        k += 1;
    }
    let (h0, _) = row_hits(state, sheet, &kws, 0, numeric);
    if h0.len() == 0 {
        return;
    }
    let max_row = sheet.max_row;
    let mut r: u64 = 1;
    while r <= max_row as u64
        invariant
            act == active_filters(state.column_filters@),
            opts == state.column_options@,
            act.len() > 0,
            numeric_ok(*numeric),
            max_row == sheet.max_row,
            1 <= r <= max_row as u64 + 1,
            kws@.len() == state.column_filters@.len(),
            forall|q: int|
                0 <= q < kws@.len() ==> (#[trigger] kws@[q])@ == lowercase_of(state.column_filters@[q].filter_value@),
            hidden_rows@ == old(hidden_rows)@.union(
                Set::new(|x: u32| 1 <= x < r && !config_row(opts, x) && !row_passes(*numeric, opts, *sheet, act, x)),
            ),
        decreases max_row as u64 + 1 - r,
    {
        let row = r as u32;
        let cfg = is_config_row(state, row);
        if !cfg {
            let (hs, lg) = row_hits(state, sheet, &kws, row, numeric);
            if !row_matches_expr(hs.as_slice(), lg.as_slice()) {
                hidden_rows.insert(row);
            }
        }
        r += 1;
        assert(hidden_rows@ =~= old(hidden_rows)@.union(
            Set::new(|x: u32| 1 <= x < r && !config_row(opts, x) && !row_passes(*numeric, opts, *sheet, act, x)),
        ));
    }
    assert(Set::new(|x: u32| 1 <= x < r && !config_row(opts, x) && !row_passes(*numeric, opts, *sheet, act, x))
        =~= filtered_rows(*numeric, opts, *sheet, act));
}

/// Clears the search: every row and column shown again, the results and
/// inputs emptied, one blank column filter, and one blank row filter when
/// there are row options.
pub fn reset_search(
    state: &mut SearchWindowState,
    hidden_columns: &mut HashSet<u32>,
    hidden_rows: &mut HashSet<u32>,
)
    ensures
        final(hidden_columns)@ == Set::<u32>::empty(),
        final(hidden_rows)@ == Set::<u32>::empty(),
        !final(state).is_searching,
        final(state).matched_count == 0,
        final(state).total_searched == 0,
        final(state).search_keyword@.len() == 0,
        !final(state).is_row_searching,
        final(state).row_matched_count == 0,
        final(state).row_total_searched == 0,
        final(state).debug_info@.len() == 0,
        final(state).row_debug_info@.len() == 0,
        final(state).row_filters@.len() == (if old(state).row_options@.len() > 0 {
            1int
        } else {
            0int
        }),
        old(state).row_options@.len() > 0 ==> is_blank_row_filter(final(state).row_filters@[0]),
        final(state).column_filters@.len() == 1,
        is_blank_column_filter(final(state).column_filters@[0]),
        final(state).visible == old(state).visible,
        final(state).collapsed == old(state).collapsed,
        final(state).column_options == old(state).column_options,
        final(state).row_options == old(state).row_options,
        final(state).selected_index == old(state).selected_index,
        final(state).options_loaded == old(state).options_loaded,
        final(state).use_binary_search == old(state).use_binary_search,
        final(state).filter_logic == old(state).filter_logic,
{
    hidden_columns.clear();
    hidden_rows.clear();
    state.is_searching = false;
    state.matched_count = 0;
    state.total_searched = 0;
    state.search_keyword = String::new();
    state.is_row_searching = false;
    state.row_matched_count = 0;
    state.row_total_searched = 0;
    state.debug_info = String::new();
    state.row_filters = Vec::new();
    if state.row_options.len() > 0 {
        state.row_filters.push(blank_row_filter());
    }
    state.row_debug_info = String::new();
    state.column_filters = Vec::new();
    state.column_filters.push(blank_column_filter());
}

} // verus!
