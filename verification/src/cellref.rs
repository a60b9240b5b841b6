//! Spreadsheet column letters and cell coordinates.
//!
//! Columns are numbered from 1 in bijective base 26: `A` = 1, `Z` = 26,
//! `AA` = 27. The largest column is `XFD` = 16384.

use vstd::prelude::*;
use crate::text::{
    char_from_ascii, chars_of, is_alpha, is_alpha_exec, is_digit, is_upper, parse_u32,
    parse_u32_range, push_all, push_str, string_from, to_uppercase, trim, trim_vec, upper_exec,
    upper_seq, uppercase_of,
};

verus! {

broadcast use vstd::string::group_string_axioms;

/// The largest column number (`XFD`).
pub const MAX_COL: u32 = 16384;

/// Column number of a run of upper-case letters.
pub open spec fn col_value(s: Seq<char>) -> int
    decreases s.len(),
{
    if s.len() == 0 {
        0
    } else {
        col_value(s.drop_last()) * 26 + (s.last() as int - 'A' as int + 1)
    }
}

/// The letter for `0 <= d < 26`.
pub open spec fn letter(d: int) -> char {
    (d + 65) as char
}

/// Column letters of `n` (empty for 0).
pub open spec fn col_letters(n: nat) -> Seq<char>
    decreases n,
{
    if n == 0 {
        Seq::empty()
    } else {
        col_letters(((n - 1) / 26) as nat).push(letter((n - 1) % 26))
    }
}

pub open spec fn all_upper(s: Seq<char>) -> bool {
    forall|i: int| 0 <= i < s.len() ==> is_upper(#[trigger] s[i])
}

pub open spec fn all_alpha(s: Seq<char>) -> bool {
    forall|i: int| 0 <= i < s.len() ==> is_alpha(#[trigger] s[i])
}

/// What `letter_to_col` accepts: a non-empty run of ASCII letters (either
/// case) naming a column no larger than `XFD`.
pub open spec fn letters_col(s: Seq<char>) -> Option<u32> {
    let u = upper_seq(s);
    if s.len() > 0 && all_alpha(s) && 0 <= col_value(u) <= MAX_COL {
        Some(col_value(u) as u32)
    } else {
        None
    }
}

pub proof fn lemma_letter(d: int)
    requires
        0 <= d < 26,
    ensures
        letter(d) as int == d + 65,
        is_upper(letter(d)),
{
    assert(0 <= d + 65 < 0xd800);
}

pub proof fn lemma_col_value_nonneg(s: Seq<char>)
    requires
        all_upper(s),
    ensures
        col_value(s) >= 0,
        s.len() > 0 ==> col_value(s) >= 1,
    decreases s.len(),
{
    if s.len() > 0 {
        assert(all_upper(s.drop_last()));
        lemma_col_value_nonneg(s.drop_last());
    }
}

/// Appending letters never makes the column smaller.
pub proof fn lemma_col_value_prefix(s: Seq<char>, k: int)
    requires
        all_upper(s),
        0 <= k <= s.len(),
    ensures
        col_value(s.take(k)) <= col_value(s),
    decreases s.len(),
{
    if k < s.len() {
        assert(all_upper(s.drop_last()));
        lemma_col_value_prefix(s.drop_last(), k);
        assert(s.drop_last().take(k) =~= s.take(k));
        lemma_col_value_nonneg(s.drop_last());
    } else {
        assert(s.take(k) =~= s);
    }
}

/// Reading the letters of column `n` back gives `n`.
pub proof fn lemma_col_letters_roundtrip(n: nat)
    ensures
        all_upper(col_letters(n)),
        col_value(col_letters(n)) == n,
        n > 0 ==> col_letters(n).len() > 0,
    decreases n,
{
    if n > 0 {
        let m = ((n - 1) / 26) as nat;
        lemma_col_letters_roundtrip(m);
        lemma_letter((n - 1) % 26);
        let p = col_letters(m);
        let s = col_letters(n);
        assert(s.drop_last() =~= p);
        assert forall|i: int| 0 <= i < s.len() implies is_upper(#[trigger] s[i]) by {
            if i < p.len() {
                assert(s[i] == p[i]);
            }
        }
    }
}

/// Writing out the column of a non-empty run of capitals gives the run back.
pub proof fn lemma_col_value_roundtrip(s: Seq<char>)
    requires
        all_upper(s),
    ensures
        col_letters(col_value(s) as nat) == s,
    decreases s.len(),
{
    lemma_col_value_nonneg(s);
    if s.len() > 0 {
        let p = s.drop_last();
        assert(all_upper(p));
        lemma_col_value_roundtrip(p);
        lemma_col_value_nonneg(p);
        let d = s.last() as int - 'A' as int;
        assert(0 <= d < 26);
        let n = col_value(s);
        assert(n == col_value(p) * 26 + d + 1);
        assert((n - 1) / 26 == col_value(p));
        assert((n - 1) % 26 == d);
        assert(letter(d) == s.last()) by {
            assert(s.last() as int == d + 65);
        }
        assert(col_letters(n as nat) =~= p.push(s.last()));
        assert(p.push(s.last()) =~= s);
    } else {
        assert(s =~= Seq::<char>::empty());
    }
}

/// Column letters of `n`, as `Vec<char>` appended to `out`.
pub fn push_col_letters(out: &mut Vec<char>, n: u32)
    ensures
        final(out)@ == old(out)@ + col_letters(n as nat),
    decreases n,
{
    if n == 0 {
        assert(old(out)@ + col_letters(0) =~= old(out)@);
        return;
    }
    push_col_letters(out, (n - 1) / 26);
    let d: u32 = (n - 1) % 26;
    proof {
        lemma_letter(d as int);
    }
    out.push(char_from_ascii(d + 65));
    assert(out@ =~= old(out)@ + col_letters(n as nat));
}

/// Column letters of `n`: 1 → `A`, 27 → `AA`; 0 gives the empty string.
pub fn col_to_letter(n: u32) -> (s: String)
    ensures
        s@ == col_letters(n as nat),
{
    let mut v: Vec<char> = Vec::new();
    push_col_letters(&mut v, n);
    assert(v@ =~= col_letters(n as nat));
    string_from(v.as_slice())
}

/// Column number of `s[lo..hi]` as [`letters_col`] states it.
pub fn letters_to_col_range(s: &[char], lo: usize, hi: usize) -> (r: Option<u32>)
    requires
        lo <= hi <= s@.len(),
    ensures
        r == letters_col(s@.subrange(lo as int, hi as int)),
{
    let ghost full = s@.subrange(lo as int, hi as int);
    if lo == hi {
        return None;
    }
    let mut i = lo;
    let mut acc: u32 = 0;
    while i < hi
        invariant
            lo <= i <= hi <= s@.len(),
            full == s@.subrange(lo as int, hi as int),
            all_alpha(s@.subrange(lo as int, i as int)),
            acc as int == col_value(upper_seq(s@.subrange(lo as int, i as int))),
            acc <= MAX_COL,
        decreases hi - i,
    {
        let c = s[i];
        if !is_alpha_exec(c) {
            assert(full[i - lo] == c);
            return None;
        }
        let u = upper_exec(c);
        let ghost pre = s@.subrange(lo as int, i as int);
        let ghost nxt = s@.subrange(lo as int, i + 1);
        assert(upper_seq(nxt).drop_last() =~= upper_seq(pre));
        assert(upper_seq(nxt).last() == u);
        assert(all_upper(upper_seq(nxt))) by {
            assert forall|j: int| 0 <= j < nxt.len() implies is_upper(
                #[trigger] upper_seq(nxt)[j],
            ) by {
                if j < pre.len() {
                    assert(nxt[j] == pre[j]);
                }
                assert(is_alpha(nxt[j]));
            }
        }
        let v: u64 = acc as u64 * 26 + (u as u32 - 64) as u64;
        if v > MAX_COL as u64 {
            // every later letter only enlarges the column
            let mut j = i + 1;
            while j < hi
                invariant
                    lo <= i < j <= hi <= s@.len(),
                    full == s@.subrange(lo as int, hi as int),
                    all_alpha(s@.subrange(lo as int, j as int)),
                    col_value(upper_seq(s@.subrange(lo as int, j as int))) > MAX_COL,
                decreases hi - j,
            {
                if !is_alpha_exec(s[j]) {
                    assert(full[j - lo] == s@[j as int]);
                    return None;
                }
                proof {
                    let a = s@.subrange(lo as int, j as int);
                    let b = s@.subrange(lo as int, j + 1);
                    assert(upper_seq(b).drop_last() =~= upper_seq(a));
                    assert(all_upper(upper_seq(a))) by {
                        assert forall|k: int| 0 <= k < a.len() implies is_upper(
                            #[trigger] upper_seq(a)[k],
                        ) by {
                            assert(is_alpha(a[k]));
                        }
                    }
                    lemma_col_value_nonneg(upper_seq(a));
                    assert(is_alpha(b[j - lo]));
                }
                j += 1;
            }
            assert(s@.subrange(lo as int, hi as int) =~= full);
            return None;
        }
        acc = v as u32;
        i += 1;
        assert(all_alpha(s@.subrange(lo as int, i as int))) by {
            assert forall|j: int| 0 <= j < nxt.len() implies is_alpha(#[trigger] nxt[j]) by {
                if j < pre.len() {
                    assert(nxt[j] == pre[j]);
                }
            }
        }
    }
    assert(s@.subrange(lo as int, hi as int) =~= full);
    Some(acc)
}

/// Column number of a run of letters (either case): `Err` when the text is
/// empty, holds anything but ASCII letters, or names a column past `XFD`.
pub fn letter_to_col(s: &str) -> (r: Result<u32, String>)
    ensures
        match r {
            Ok(c) => letters_col(s@) == Some(c),
            Err(_) => letters_col(s@) is None,
        },
{
    let v = chars_of(s);
    assert(v@.subrange(0, v@.len() as int) =~= v@);
    match letters_to_col_range(v.as_slice(), 0, v.len()) {
        Some(c) => Ok(c),
        None => {
            let mut m: Vec<char> = Vec::new();
            push_str(&mut m, "无效的列字母: ");
            push_all(&mut m, v.as_slice());
            Err(string_from(m.as_slice()))
        },
    }
}

/// The upper-case ASCII letters of `s`, in order.
pub open spec fn letters_of(s: Seq<char>) -> Seq<char>
    decreases s.len(),
{
    if s.len() == 0 {
        Seq::empty()
    } else {
        letters_of(s.drop_last()) + if is_upper(s.last()) {
            seq![s.last()]
        } else {
            Seq::empty()
        }
    }
}

/// The ASCII digits of `s`, in order.
pub open spec fn digits_of(s: Seq<char>) -> Seq<char>
    decreases s.len(),
{
    if s.len() == 0 {
        Seq::empty()
    } else {
        digits_of(s.drop_last()) + if is_digit(s.last()) {
            seq![s.last()]
        } else {
            Seq::empty()
        }
    }
}

/// What the name box reads from its text: the text trimmed and upper-cased
/// must consist of letters `A`-`Z` and digits only, with at least one of
/// each; the letters (in order) name the column and the digits (in order)
/// the row, both at least 1 and within `u32`.
pub open spec fn cell_reference(input: Seq<char>) -> Option<(u32, u32)> {
    let u = uppercase_of(trim(input));
    let letters = letters_of(u);
    let digits = digits_of(u);
    if u.len() == 0 || exists|i: int| 0 <= i < u.len() && !is_upper(#[trigger] u[i]) && !is_digit(u[i]) {
        None
    } else if letters.len() == 0 || digits.len() == 0 || col_value(letters) > u32::MAX {
        None
    } else {
        match parse_u32(digits) {
            None => None,
            Some(row) => if col_value(letters) == 0 || row == 0 {
                None
            } else {
                Some((col_value(letters) as u32, row))
            },
        }
    }
}

proof fn lemma_col_value_mono(s: Seq<char>, c: char)
    requires
        is_upper(c),
        all_upper(s),
    ensures
        col_value(s.push(c)) >= col_value(s),
        col_value(s.push(c)) == col_value(s) * 26 + (c as int - 'A' as int + 1),
{
    assert(s.push(c).drop_last() =~= s);
    lemma_col_value_nonneg(s);
}

/// Reads a cell reference such as `A1`, `h8` or `AA100` typed into the name
/// box (see [`cell_reference`]).
pub fn parse_cell_reference(input: &str) -> (r: Option<(u32, u32)>)
    ensures
        r == cell_reference(input@),
{
    let ic = chars_of(input);
    let t = trim_vec(ic.as_slice());
    let ts = string_from(t.as_slice());
    let u = chars_of(to_uppercase(ts.as_str()).as_str());
    let ghost us = u@;
    if u.len() == 0 {
        return None;
    }
    let mut letters: Vec<char> = Vec::new();
    let mut digits: Vec<char> = Vec::new();
    let mut i: usize = 0;
    assert(us.take(0) =~= Seq::<char>::empty());
    while i < u.len()
        invariant
            us == u@,
            us == uppercase_of(trim(input@)),
            us.len() > 0,
            i <= us.len(),
            letters@ == letters_of(us.take(i as int)),
            digits@ == digits_of(us.take(i as int)),
            forall|k: int| 0 <= k < i ==> is_upper(#[trigger] us[k]) || is_digit(us[k]),
        decreases us.len() - i,
    {
        let c = u[i];
        assert(us.take(i + 1).drop_last() =~= us.take(i as int));
        assert(us.take(i + 1).last() == c);
        if 'A' <= c && c <= 'Z' {
            letters.push(c);
        } else if '0' <= c && c <= '9' {
            digits.push(c);
        } else {
            assert(!is_upper(us[i as int]) && !is_digit(us[i as int]));
            return None;
        }
        i += 1;
    }
    assert(us.take(us.len() as int) =~= us);
    proof {
        lemma_letters_upper(us);
    }
    if letters.len() == 0 || digits.len() == 0 {
        return None;
    }
    let mut col: u64 = 0;
    let mut k: usize = 0;
    assert(letters@.take(0) =~= Seq::<char>::empty());
    while k < letters.len()
        invariant
            us == uppercase_of(trim(input@)),
            us.len() > 0,
            forall|q: int| 0 <= q < us.len() ==> is_upper(#[trigger] us[q]) || is_digit(us[q]),
            letters@ == letters_of(us),
            digits@ == digits_of(us),
            letters@.len() > 0,
            digits@.len() > 0,
            k <= letters@.len(),
            forall|q: int| 0 <= q < letters@.len() ==> is_upper(#[trigger] letters@[q]),
            col == col_value(letters@.take(k as int)),
            col <= u32::MAX,
        decreases letters@.len() - k,
    {
        let c = letters[k];
        assert(letters@.take(k + 1) =~= letters@.take(k as int).push(c));
        proof {
            assert(all_upper(letters@.take(k as int)));
            lemma_col_value_mono(letters@.take(k as int), c);
        }
        let d: u64 = (c as u32 - 'A' as u32 + 1) as u64;
        let next: u64 = col * 26 + d;
        if next > u32::MAX as u64 {
            proof {
                lemma_col_value_prefix_mono(letters@, k as int + 1);
            }
            return None;
        }
        col = next;
        k += 1;
    }
    assert(letters@.take(letters@.len() as int) =~= letters@);
    let row = match parse_u32_range(digits.as_slice(), 0, digits.len()) {
        Some(r) => r,
        None => {
            assert(digits@.subrange(0, digits@.len() as int) =~= digits@);
            return None;
        },
    };
    assert(digits@.subrange(0, digits@.len() as int) =~= digits@);
    if col == 0 || row == 0 {
        return None;
    }
    Some((col as u32, row))
}

/// The letters kept are upper-case letters.
proof fn lemma_letters_upper(s: Seq<char>)
    ensures
        forall|q: int| 0 <= q < letters_of(s).len() ==> is_upper(#[trigger] letters_of(s)[q]),
    decreases s.len(),
{
    if s.len() > 0 {
        lemma_letters_upper(s.drop_last());
        let p = letters_of(s.drop_last());
        assert forall|q: int| 0 <= q < letters_of(s).len() implies is_upper(#[trigger] letters_of(s)[q]) by {
            if q < p.len() {
                assert(letters_of(s)[q] == p[q]);
            }
        }
    }
}

/// Column values only grow as letters are added.
proof fn lemma_col_value_prefix_mono(s: Seq<char>, k: int)
    requires
        0 <= k <= s.len(),
        forall|q: int| 0 <= q < s.len() ==> is_upper(#[trigger] s[q]),
    ensures
        col_value(s) >= col_value(s.take(k)),
    decreases s.len() - k,
{
    if k < s.len() {
        lemma_col_value_prefix_mono(s, k + 1);
        assert(s.take(k + 1) =~= s.take(k).push(s[k]));
        assert(all_upper(s.take(k)));
        lemma_col_value_mono(s.take(k), s[k]);
    } else {
        assert(s.take(k) =~= s);
    }
}

/// The name box's text for the selected cell: its reference such as `B7`,
/// empty when no cell is selected.
pub open spec fn name_box_ref(selected: Option<(u32, u32)>) -> Seq<char> {
    match selected {
        Some((col, row)) => col_letters(col as nat) + crate::text::dec(row as nat),
        None => Seq::empty(),
    }
}

/// The text the name box shows for the selection while it is not being
/// typed into.
pub fn name_box_text(selected_cell: Option<(u32, u32)>) -> (r: String)
    ensures
        r@ == name_box_ref(selected_cell),
{
    let mut v: Vec<char> = Vec::new();
    match selected_cell {
        Some((col, row)) => {
            push_col_letters(&mut v, col);
            crate::text::push_dec(&mut v, row as u64);
        },
        None => {},
    }
    assert(v@ =~= name_box_ref(selected_cell));
    string_from(v.as_slice())
}

/// Where Enter in the name box jumps: the cell its text names, when that
/// cell is within `max_col` columns and `max_row` rows.
pub open spec fn jump_target(input: Seq<char>, max_col: u32, max_row: u32) -> Option<(u32, u32)> {
    match cell_reference(input) {
        Some((col, row)) => if col <= max_col && row <= max_row {
            Some((col, row))
        } else {
            None
        },
        None => None,
    }
}

/// The cell Enter in the name box jumps to, if any.
pub fn name_box_jump(input: &str, max_col: u32, max_row: u32) -> (r: Option<(u32, u32)>)
    ensures
        r == jump_target(input@, max_col, max_row),
{
    match parse_cell_reference(input) {
        Some((col, row)) => {
            if col <= max_col && row <= max_row {
                Some((col, row))
            } else {
                None
            }
        },
        None => None,
    }
}

} // verus!
