//! Alert rules: a range of cells, an operator and a threshold. A rule is
//! triggered when a cell of its range meets it; clicking a triggered rule
//! filters the table down to the cells that meet it. The comparison of a cell
//! with a threshold (numeric when both read as numbers) is handed in.

use vstd::prelude::*;
use std::collections::HashSet;
use crate::cellref::col_letters;
use crate::search::{max1, max1_exec, ref_chars, ref_of_upper};
use crate::sheet::{CellData, SheetData};
use crate::text::{
    alpha_prefix_len, chars_of, contains_char, dec, lemma_alpha_prefix_len, parse_u32,
    parse_u32_range, push_all, push_dec, slice_to_vec, split_on, string_from, trim, trim_bounds, uppercase_of,
    lowercase_of, seq_eq, to_lowercase, trim_vec,
};
use crate::matching::{lemma_lt_irrefl, lemma_lt_total, lemma_lt_trans, text_less, text_lt};
use crate::visibility::{
    cols_aligned, expand_hidden_for_merged_cells, expand_hidden_rows_for_merged_cells, rows_aligned,
    span,
};

verus! {

broadcast use {
    vstd::string::group_string_axioms,
    vstd::std_specs::hash::group_hash_axioms,
    vstd::std_specs::hash::axiom_u32_obeys_hash_table_key_model,
    vstd::std_specs::hash::axiom_random_state_builds_valid_hashers,
};

/// An alert rule as configured: its range (`=B8:~8`, `=B8:B12`, ...), the
/// operator and threshold, the message, and how far a fixed range has grown
/// by columns and rows inserted into it.
#[derive(Debug)]
pub struct AlertRule {
    pub range: String,
    pub operator: String,
    pub value: String,
    pub message: String,
    pub range_expand_col: u32,
    pub range_expand_row: u32,
}

/// A rule that was triggered, with its range resolved to
/// `(start_col, start_row, end_col, end_row)`.
#[derive(Debug)]
pub struct TriggeredRule {
    pub message: String,
    pub range: String,
    pub operator: String,
    pub value: String,
    pub resolved_range: Option<(u32, u32, u32, u32)>,
    pub is_horizontal: bool,
}

/// The alert window.
#[derive(Debug)]
pub struct AlertNotifyState {
    pub visible: bool,
    pub triggered_rules: Vec<TriggeredRule>,
    pub has_triggered: bool,
    pub is_filtering: bool,
    pub collapsed: bool,
}

impl Default for AlertNotifyState {
    fn default() -> (s: Self)
        ensures
            !s.visible,
            s.triggered_rules@.len() == 0,
            !s.has_triggered,
            !s.is_filtering,
            !s.collapsed,
    {
        AlertNotifyState {
            visible: false,
            triggered_rules: Vec::new(),
            has_triggered: false,
            is_filtering: false,
            collapsed: false,
        }
    }
}

// ===========================================================================
// Ranges
// ===========================================================================

/// `s` without its leading `=` signs.
pub open spec fn strip_eq(s: Seq<char>) -> Seq<char>
    decreases s.len(),
{
    if s.len() > 0 && s[0] == '=' {
        strip_eq(s.drop_first())
    } else {
        s
    }
}

/// `s` without any `$`.
pub open spec fn no_dollar(s: Seq<char>) -> Seq<char>
    decreases s.len(),
{
    if s.len() == 0 {
        Seq::empty()
    } else {
        no_dollar(s.drop_last()) + if s.last() == '$' {
            Seq::empty()
        } else {
            seq![s.last()]
        }
    }
}

/// One end of a range with `~` resolved: `~` is the bottom-right cell,
/// `~14` the last column of row 14 (a row that does not read counts as 1),
/// `B~` the last row of column B.
pub open spec fn resolve_part(s: Seq<char>, mc: u32, mr: u32) -> Seq<char> {
    let t = trim(s);
    if t == seq!['~'] {
        col_letters(max1(mc) as nat) + dec(max1(mr) as nat)
    } else if t.len() > 0 && t[0] == '~' {
        col_letters(max1(mc) as nat) + dec(
            match parse_u32(t.skip(1)) {
                Some(r) => r as nat,
                None => 1nat,
            },
        )
    } else if t.len() > 0 && t.last() == '~' {
        t.take(alpha_prefix_len(t)) + dec(max1(mr) as nat)
    } else {
        t
    }
}

/// A range with its `~` ends resolved against the sheet's extent.
pub open spec fn resolve_range(s: Seq<char>, mc: u32, mr: u32) -> Seq<char> {
    if !s.contains('~') {
        s
    } else if split_on(s, ':').len() == 2 {
        resolve_part(split_on(s, ':')[0], mc, mr) + seq![':'] + resolve_part(
            split_on(s, ':')[1],
            mc,
            mr,
        )
    } else {
        resolve_part(s, mc, mr)
    }
}

/// A cell reference of an alert rule (after trimming): upper-cased as
/// `str::to_uppercase` does, the column being its leading ASCII letters.
pub open spec fn alert_ref(s: Seq<char>) -> Option<Option<(u32, u32)>> {
    ref_of_upper(uppercase_of(trim(s)), false)
}

/// A rule's range read: `(start_col, start_row, end_col, end_row,
/// horizontal)`. A fixed range (no `~`) grows by the rule's expansions.
/// `Some(None)`: the range does not read; `None`: a number overflows.
pub open spec fn alert_range(s: Seq<char>, mc: u32, mr: u32, ex: u32, ey: u32) -> Option<
    Option<(u32, u32, u32, u32, bool)>,
> {
    let raw = no_dollar(strip_eq(s));
    let parts = split_on(resolve_range(raw, mc, mr), ':');
    let base: Option<Option<(u32, u32, u32, u32)>> = if parts.len() == 2 {
        match alert_ref(parts[0]) {
            None => None,
            Some(None) => Some(None),
            Some(Some(a)) => match alert_ref(parts[1]) {
                None => None,
                Some(None) => Some(None),
                Some(Some(b)) => Some(Some((a.0, a.1, b.0, b.1))),
            },
        }
    } else if parts.len() == 1 {
        match alert_ref(parts[0]) {
            None => None,
            Some(None) => Some(None),
            Some(Some(a)) => Some(Some((a.0, a.1, a.0, a.1))),
        }
    } else {
        Some(None)
    };
    match base {
        None => None,
        Some(None) => Some(None),
        Some(Some(b)) => if raw.contains('~') {
            Some(Some((b.0, b.1, b.2, b.3, b.1 == b.3)))
        } else if b.2 + ex > u32::MAX || b.3 + ey > u32::MAX {
            None
        } else {
            Some(Some((b.0, b.1, (b.2 + ex) as u32, (b.3 + ey) as u32, b.1 == (b.3 + ey))))
        },
    }
}

/// [`strip_eq`] and [`no_dollar`] applied to `s`.
fn strip_range(s: &[char]) -> (v: Vec<char>)
    ensures
        v@ == no_dollar(strip_eq(s@)),
{
    let mut i: usize = 0;
    assert(s@.skip(0) =~= s@);
    while i < s.len() && s[i] == '='
        invariant
            i <= s@.len(),
            strip_eq(s@) == strip_eq(s@.skip(i as int)),
        decreases s@.len() - i,
    {
        assert(s@.skip(i as int).drop_first() =~= s@.skip(i + 1));
        i += 1;
    }
    let ghost t = s@.skip(i as int);
    assert(strip_eq(t) == t);
    let mut v: Vec<char> = Vec::new();
    let mut j = i;
    assert(t.take(0) =~= Seq::<char>::empty());
    while j < s.len()
        invariant
            i <= j <= s@.len(),
            t == s@.skip(i as int),
            v@ == no_dollar(t.take(j - i)),
        decreases s@.len() - j,
    {
        assert(t.take(j - i + 1).drop_last() =~= t.take(j - i));
        assert(t.take(j - i + 1).last() == s@[j as int]);
        if s[j] != '$' {
            v.push(s[j]);
        }
        j += 1;
        assert(v@ =~= no_dollar(t.take(j - i)));
    }
    assert(t.take(s@.len() - i) =~= t);
    v
}

/// [`resolve_part`] of `s[lo..hi]`.
fn resolve_part_exec(s: &[char], lo: usize, hi: usize, mc: u32, mr: u32) -> (v: Vec<char>)
    requires
        lo <= hi <= s@.len(),
    ensures
        v@ == resolve_part(s@.subrange(lo as int, hi as int), mc, mr),
{
    let (a, b) = trim_bounds(s, lo, hi);
    let t = slice_to_vec(s, a, b);
    let n = t.len();
    let mut v: Vec<char> = Vec::new();
    if n == 1 && t[0] == '~' {
        assert(t@ =~= seq!['~']);
        crate::cellref::push_col_letters(&mut v, max1_exec(mc));
        push_dec(&mut v, max1_exec(mr) as u64);
    } else if n > 0 && t[0] == '~' {
        proof {
            assert(t@ != seq!['~']) by {
                if n == 1 {
                    assert(t@ =~= seq!['~']);
                }
            }
        }
        crate::cellref::push_col_letters(&mut v, max1_exec(mc));
        let r = match parse_u32_range(t.as_slice(), 1, n) {
            Some(x) => x,
            None => 1,
        };
        assert(t@.subrange(1, n as int) =~= t@.skip(1));
        push_dec(&mut v, r as u64);
    } else if n > 0 && t[n - 1] == '~' {
        proof {
            assert(t@ != seq!['~']);
            lemma_alpha_prefix_len(t@);
        }
        let mut k: usize = 0;
        while k < n && crate::text::is_alpha_exec(t[k])
            invariant
                n == t@.len(),
                k <= alpha_prefix_len(t@) <= n,
                forall|j: int| 0 <= j < alpha_prefix_len(t@) ==> crate::text::is_alpha(#[trigger] t@[j]),
                alpha_prefix_len(t@) < n ==> !crate::text::is_alpha(t@[alpha_prefix_len(t@)]),
            decreases n - k,
        {
            k += 1;
        }
        push_all(&mut v, slice_to_vec(t.as_slice(), 0, k).as_slice());
        assert(t@.subrange(0, k as int) =~= t@.take(k as int));
        push_dec(&mut v, max1_exec(mr) as u64);
    } else {
        proof {
            if n == 1 {
                assert(t@ != seq!['~']) by {
                    assert(t@[0] != '~');
                }
            }
        }
        push_all(&mut v, t.as_slice());
    }
    v
}

/// Where the pieces of `t` split at `:` end: the first piece, and whether
/// there are exactly two pieces (then the end of the second).
fn colon_pieces(t: &[char]) -> (r: (usize, Option<usize>))
    ensures
        r.0 <= t@.len(),
        r.0 == t@.len() ==> split_on(t@, ':').len() == 1,
        r.0 < t@.len() ==> split_on(t@, ':').len() >= 2,
        split_on(t@, ':')[0] == t@.subrange(0, r.0 as int),
        split_on(t@, ':').len() >= 1,
        match r.1 {
            Some(e) => split_on(t@, ':').len() == 2 && r.0 < e <= t@.len() && e == t@.len()
                && split_on(t@, ':')[1] == t@.subrange(r.0 + 1, e as int),
            None => split_on(t@, ':').len() != 2,
        },
{
    let n = t.len();
    let e0 = crate::text::piece_end(t, 0, ':');
    proof {
        crate::text::lemma_split_step(t@, ':', 0, e0 as int);
        assert(t@.skip(0) =~= t@);
        if e0 < n {
            crate::text::lemma_split_nonempty(t@.skip(e0 + 1), ':');
        }
    }
    if e0 == n {
        return (e0, None);
    }
    let e1 = crate::text::piece_end(t, e0 + 1, ':');
    proof {
        crate::text::lemma_split_step(t@, ':', e0 + 1, e1 as int);
        if e1 < n {
            crate::text::lemma_split_nonempty(t@.skip(e1 + 1), ':');
        }
    }
    if e1 == n {
        (e0, Some(e1))
    } else {
        (e0, None)
    }
}

/// [`resolve_range`].
fn resolve_range_exec(raw: &Vec<char>, mc: u32, mr: u32) -> (v: Vec<char>)
    ensures
        v@ == resolve_range(raw@, mc, mr),
{
    let n = raw.len();
    assert(raw@.subrange(0, n as int) =~= raw@);
    if !contains_char(raw.as_slice(), 0, n, '~') {
        return slice_to_vec(raw.as_slice(), 0, n);
    }
    let (e0, two) = colon_pieces(raw.as_slice());
    match two {
        Some(e1) => {
            let mut v = resolve_part_exec(raw.as_slice(), 0, e0, mc, mr);
            v.push(':');
            let w = resolve_part_exec(raw.as_slice(), e0 + 1, e1, mc, mr);
            push_all(&mut v, w.as_slice());
            v
        },
        None => resolve_part_exec(raw.as_slice(), 0, n, mc, mr),
    }
}

/// [`alert_ref`] of `s[lo..hi]`.
fn ref_range(s: &[char], lo: usize, hi: usize) -> (r: Option<Option<(u32, u32)>>)
    requires
        lo <= hi <= s@.len(),
    ensures
        r == alert_ref(s@.subrange(lo as int, hi as int)),
{
    let (a, b) = trim_bounds(s, lo, hi);
    ref_chars(s, a, b, false)
}

/// [`alert_range`] of a text.
pub(crate) fn alert_range_exec(s: &[char], mc: u32, mr: u32, ex: u32, ey: u32) -> (r: Option<
    Option<(u32, u32, u32, u32, bool)>,
>)
    ensures
        r == alert_range(s@, mc, mr, ex, ey),
{
    let raw = strip_range(s);
    let rn = raw.len();
    assert(raw@.subrange(0, rn as int) =~= raw@);
    let has_tilde = contains_char(raw.as_slice(), 0, rn, '~');
    let t = resolve_range_exec(&raw, mc, mr);
    let n = t.len();
    let (e0, two) = colon_pieces(t.as_slice());
    let base: (u32, u32, u32, u32) = match two {
        Some(e1) => {
            let a = match ref_range(t.as_slice(), 0, e0) {
                None => {
                    return None;
                },
                Some(None) => {
                    return Some(None);
                },
                Some(Some(a)) => a,
            };
            let b = match ref_range(t.as_slice(), e0 + 1, e1) {
                None => {
                    return None;
                },
                Some(None) => {
                    return Some(None);
                },
                Some(Some(b)) => b,
            };
            (a.0, a.1, b.0, b.1)
        },
        None => {
            if e0 < n {
                return Some(None);
            }
            match ref_range(t.as_slice(), 0, e0) {
                None => {
                    return None;
                },
                Some(None) => {
                    return Some(None);
                },
                Some(Some(a)) => (a.0, a.1, a.0, a.1),
            }
        },
    };
    if has_tilde {
        Some(Some((base.0, base.1, base.2, base.3, base.1 == base.3)))
    } else if base.2 > u32::MAX - ex || base.3 > u32::MAX - ey {
        None
    } else {
        let ec = base.2 + ex;
        let er = base.3 + ey;
        Some(Some((base.0, base.1, ec, er, base.1 == er)))
    }
}

/// Reads a rule's range (`=B8:~8`, `=B8:D8`, `=B8:B~`, `=B8:B12`, `=B8:~`;
/// `$` signs are ignored): `(start_col, start_row, end_col, end_row,
/// horizontal)`, the end of a fixed range moved by the expansions.
pub fn parse_alert_range(range_str: &str, sheet: &SheetData, expand_col: u32, expand_row: u32) -> (r:
    Option<(u32, u32, u32, u32, bool)>)
    requires
        alert_range(range_str@, sheet.max_col, sheet.max_row, expand_col, expand_row) is Some,
    ensures
        r == alert_range(range_str@, sheet.max_col, sheet.max_row, expand_col, expand_row)->0,
{
    let v = chars_of(range_str);
    match alert_range_exec(v.as_slice(), sheet.max_col, sheet.max_row, expand_col, expand_row) {
        Some(x) => x,
        None => None,
    }
}

/// Reads a cell reference such as `B8`: `None` when it has no letters, no
/// row, a row that is not a `u32`, or a zero row.
pub fn parse_cell_ref_str(s: &str) -> (r: Option<(u32, u32)>)
    requires
        alert_ref(s@) is Some,
    ensures
        r == alert_ref(s@)->0,
{
    let v = chars_of(s);
    assert(v@.subrange(0, v@.len() as int) =~= v@);
    match ref_range(v.as_slice(), 0, v.len()) {
        Some(r) => r,
        None => None,
    }
}

/// Resolves the `~` ends of a range against the sheet's extent.
pub fn resolve_dynamic_range(range_str: &str, sheet: &SheetData) -> (r: String)
    ensures
        r@ == resolve_range(range_str@, sheet.max_col, sheet.max_row),
{
    let v = chars_of(range_str);
    string_from(resolve_range_exec(&v, sheet.max_col, sheet.max_row).as_slice())
}

// ===========================================================================
// Growing fixed ranges when columns or rows are inserted
// ===========================================================================

/// The fixed range of a rule (no `~`), read without resolving:
/// `Some(None)` when it does not read, `None` when a number overflows.
pub open spec fn fixed_range(t: Seq<char>) -> Option<Option<(u32, u32, u32, u32)>> {
    let parts = split_on(no_dollar(strip_eq(t)), ':');
    if parts.len() == 2 {
        match (alert_ref(parts[0]), alert_ref(parts[1])) {
            (None, _) => None,
            (_, None) => None,
            (Some(Some(a)), Some(Some(b))) => Some(Some((a.0, a.1, b.0, b.1))),
            _ => Some(None),
        }
    } else if parts.len() == 1 {
        match alert_ref(parts[0]) {
            None => None,
            Some(None) => Some(None),
            Some(Some(a)) => Some(Some((a.0, a.1, a.0, a.1))),
        }
    } else {
        Some(None)
    }
}

/// The new expansion of a rule after `n` columns (`by_col`) or rows are
/// inserted at `at`: it grows when `at` lies from the range's start to just
/// past its (grown) end. `None`: the arithmetic overflows.
pub open spec fn grown(rule: AlertRule, at: u32, n: u32, by_col: bool) -> Option<u32> {
    let t = trim(rule.range@);
    let cur = if by_col {
        rule.range_expand_col
    } else {
        rule.range_expand_row
    };
    if t.len() == 0 || t.contains('~') {
        Some(cur)
    } else {
        match fixed_range(t) {
            None => None,
            Some(None) => Some(cur),
            Some(Some(r)) => {
                let (lo, hi) = if by_col {
                    (r.0, r.2)
                } else {
                    (r.1, r.3)
                };
                if at < lo {
                    Some(cur)
                } else if hi + cur + 1 > u32::MAX {
                    None
                } else if at <= hi + cur + 1 {
                    if cur + n > u32::MAX {
                        None
                    } else {
                        Some((cur + n) as u32)
                    }
                } else {
                    Some(cur)
                }
            },
        }
    }
}

/// The rule with its expansion set.
pub open spec fn with_expansion(rule: AlertRule, e: u32, by_col: bool) -> AlertRule {
    if by_col {
        AlertRule { range_expand_col: e, ..rule }
    } else {
        AlertRule { range_expand_row: e, ..rule }
    }
}

fn grow_one(rule: &mut AlertRule, at: u32, n: u32, by_col: bool)
    requires
        grown(*old(rule), at, n, by_col) is Some,
    ensures
        *final(rule) == with_expansion(*old(rule), grown(*old(rule), at, n, by_col)->0, by_col),
{
    let v = chars_of(rule.range.as_str());
    let (a, b) = trim_bounds(v.as_slice(), 0, v.len());
    assert(v@.subrange(0, v@.len() as int) =~= v@);
    let t = slice_to_vec(v.as_slice(), a, b);
    let tn = t.len();
    assert(t@.subrange(0, tn as int) =~= t@);
    if tn == 0 || contains_char(t.as_slice(), 0, tn, '~') {
        return;
    }
    let raw = strip_range(t.as_slice());
    let (e0, two) = colon_pieces(raw.as_slice());
    let r: (u32, u32, u32, u32) = match two {
        Some(e1) => {
            let x = ref_range(raw.as_slice(), 0, e0);
            let y = ref_range(raw.as_slice(), e0 + 1, e1);
            match (x, y) {
                (Some(Some(p)), Some(Some(q))) => (p.0, p.1, q.0, q.1),
                _ => {
                    return;
                },
            }
        },
        None => {
            if e0 < raw.len() {
                return;
            }
            match ref_range(raw.as_slice(), 0, e0) {
                Some(Some(p)) => (p.0, p.1, p.0, p.1),
                _ => {
                    return;
                },
            }
        },
    };
    let (lo, hi) = if by_col {
        (r.0, r.2)
    } else {
        (r.1, r.3)
    };
    let cur = if by_col {
        rule.range_expand_col
    } else {
        rule.range_expand_row
    };
    if at < lo {
        return;
    }
    if at <= hi + cur + 1 {
        if by_col {
            rule.range_expand_col = cur + n;
        } else {
            rule.range_expand_row = cur + n;
        }
    }
}

fn grow_all(rules: &mut Vec<AlertRule>, at: u32, n: u32, by_col: bool)
    requires
        forall|i: int| 0 <= i < old(rules)@.len() ==> grown(#[trigger] old(rules)@[i], at, n, by_col) is Some,
    ensures
        final(rules)@.len() == old(rules)@.len(),
        forall|i: int|
            0 <= i < old(rules)@.len() ==> #[trigger] final(rules)@[i] == with_expansion(
                old(rules)@[i],
                grown(old(rules)@[i], at, n, by_col)->0,
                by_col,
            ),
{
    let mut i: usize = 0;
    while i < rules.len()
        invariant
            rules@.len() == old(rules)@.len(),
            i <= rules@.len(),
            forall|j: int| i <= j < rules@.len() ==> rules@[j] == old(rules)@[j],
            forall|j: int| 0 <= j < old(rules)@.len() ==> grown(#[trigger] old(rules)@[j], at, n, by_col) is Some,
            forall|j: int|
                0 <= j < i ==> #[trigger] rules@[j] == with_expansion(
                    old(rules)@[j],
                    grown(old(rules)@[j], at, n, by_col)->0,
                    by_col,
                ),
        decreases rules@.len() - i,
    {
        let mut r = rules.remove(i);
        assert(r == old(rules)@[i as int]);
        grow_one(&mut r, at, n, by_col);
        rules.insert(i, r);
        i += 1;
    }
}

/// After `n` columns were inserted at `insert_col`: every fixed-range rule
/// whose range reaches from its start to just past its grown end over the
/// insertion column grows by `n` columns. Rules with `~` follow the sheet
/// anyway and stay as they are.
pub fn update_alert_range_expansions_for_col(
    rules: &mut Vec<AlertRule>,
    insert_col: u32,
    n: u32,
    sheet: &SheetData,
)
    requires
        forall|i: int| 0 <= i < old(rules)@.len() ==> grown(#[trigger] old(rules)@[i], insert_col, n, true) is Some,
    ensures
        final(rules)@.len() == old(rules)@.len(),
        forall|i: int|
            0 <= i < old(rules)@.len() ==> #[trigger] final(rules)@[i] == with_expansion(
                old(rules)@[i],
                grown(old(rules)@[i], insert_col, n, true)->0,
                true,
            ),
{
    grow_all(rules, insert_col, n, true);
}

/// The same for `n` rows inserted at `insert_row`.
pub fn update_alert_range_expansions_for_row(
    rules: &mut Vec<AlertRule>,
    insert_row: u32,
    n: u32,
    sheet: &SheetData,
)
    requires
        forall|i: int| 0 <= i < old(rules)@.len() ==> grown(#[trigger] old(rules)@[i], insert_row, n, false) is Some,
    ensures
        final(rules)@.len() == old(rules)@.len(),
        forall|i: int|
            0 <= i < old(rules)@.len() ==> #[trigger] final(rules)@[i] == with_expansion(
                old(rules)@[i],
                grown(old(rules)@[i], insert_row, n, false)->0,
                false,
            ),
{
    grow_all(rules, insert_row, n, false);
}

// ===========================================================================
// Triggering and filtering
// ===========================================================================

/// The cell positions `(row, col)` of a resolved range: along its first row
/// for a horizontal range, down its first column otherwise.
pub open spec fn in_range(rg: (u32, u32, u32, u32, bool), row: u32, col: u32) -> bool {
    if rg.4 {
        row == rg.1 && rg.0 <= col <= rg.2
    } else {
        col == rg.0 && rg.1 <= row <= rg.3
    }
}

/// What a triggered rule is: message, range, operator, threshold, resolved
/// range, direction.
pub type TriggeredView = (
    Seq<char>,
    Seq<char>,
    Seq<char>,
    Seq<char>,
    Option<(u32, u32, u32, u32)>,
    bool,
);

impl View for TriggeredRule {
    type V = TriggeredView;

    open spec fn view(&self) -> TriggeredView {
        (self.message@, self.range@, self.operator@, self.value@, self.resolved_range, self.is_horizontal)
    }
}

pub open spec fn triggered_of(rule: AlertRule, rg: (u32, u32, u32, u32, bool)) -> TriggeredView {
    (rule.message@, rule.range@, rule.operator@, rule.value@, Some((rg.0, rg.1, rg.2, rg.3)), rg.4)
}

/// The range a rule checks, if it reads.
pub open spec fn rule_range(rule: AlertRule, sheet: SheetData) -> Option<(u32, u32, u32, u32, bool)> {
    let t = trim(rule.range@);
    if t.len() == 0 {
        None
    } else {
        alert_range(t, sheet.max_col, sheet.max_row, rule.range_expand_col, rule.range_expand_row)->0
    }
}

/// Every rule's range reads without overflow.
pub open spec fn rules_readable(rules: Seq<AlertRule>, sheet: SheetData) -> bool {
    forall|i: int|
        0 <= i < rules.len() ==> (trim((#[trigger] rules[i]).range@).len() > 0 ==> alert_range(
            trim(rules[i].range@),
            sheet.max_col,
            sheet.max_row,
            rules[i].range_expand_col,
            rules[i].range_expand_row,
        ) is Some)
}

/// The triggered entries of the rules marked in `sel`, in order.
pub open spec fn chosen(rules: Seq<AlertRule>, sheet: SheetData, sel: Seq<bool>) -> Seq<TriggeredView>
    decreases rules.len(),
{
    if rules.len() == 0 || sel.len() != rules.len() {
        Seq::empty()
    } else {
        chosen(rules.drop_last(), sheet, sel.drop_last()) + if sel.last() && rule_range(
            rules.last(),
            sheet,
        ) is Some {
            seq![triggered_of(rules.last(), rule_range(rules.last(), sheet)->0)]
        } else {
            Seq::empty()
        }
    }
}

pub open spec fn triggered_views(v: Seq<TriggeredRule>) -> Seq<TriggeredView> {
    v.map_values(|t: TriggeredRule| t@)
}

/// A present cell for which `compare` answered `b`.
pub open spec fn meets<F: Fn(&String, &String, &String) -> bool>(
    f: F,
    c: Option<CellData>,
    op: String,
    thr: String,
    b: bool,
) -> bool {
    match c {
        Some(cd) => f.ensures((&cd.value, &op, &thr), b),
        None => false,
    }
}

/// A missing cell, or one for which `compare` answered false.
pub open spec fn fails<F: Fn(&String, &String, &String) -> bool>(
    f: F,
    c: Option<CellData>,
    op: String,
    thr: String,
) -> bool {
    match c {
        Some(cd) => f.ensures((&cd.value, &op, &thr), false),
        None => true,
    }
}

/// Some cell of the range meets the rule.
pub open spec fn some_hit<F: Fn(&String, &String, &String) -> bool>(
    f: F,
    sheet: SheetData,
    rg: (u32, u32, u32, u32, bool),
    op: String,
    thr: String,
) -> bool {
    exists|row: u32, col: u32|
        in_range(rg, row, col) && meets(f, #[trigger] sheet.cell(row, col), op, thr, true)
}

/// No cell of the range meets the rule.
pub open spec fn no_hit<F: Fn(&String, &String, &String) -> bool>(
    f: F,
    sheet: SheetData,
    rg: (u32, u32, u32, u32, bool),
    op: String,
    thr: String,
) -> bool {
    forall|row: u32, col: u32| in_range(rg, row, col) ==> fails(f, #[trigger] sheet.cell(row, col), op, thr)
}

/// Scans the cells of a resolved range for one that meets the rule.
fn range_hit<F: Fn(&String, &String, &String) -> bool>(
    sheet: &SheetData,
    rg: (u32, u32, u32, u32, bool),
    op: &String,
    thr: &String,
    compare: &F,
) -> (hit: bool)
    requires
        forall|a: &String, b: &String, c: &String| compare.requires((a, b, c)),
    ensures
        hit ==> some_hit(*compare, *sheet, rg, *op, *thr),
        !hit ==> no_hit(*compare, *sheet, rg, *op, *thr),
{
    let (lo, hi) = if rg.4 {
        (rg.0, rg.2)
    } else {
        (rg.1, rg.3)
    };
    if lo > hi {
        return false;
    }
    let mut k: u64 = lo as u64;
    while k <= hi as u64
        invariant
            lo <= hi,
            lo as u64 <= k <= hi as u64 + 1,
            lo == (if rg.4 {
                rg.0
            } else {
                rg.1
            }),
            hi == (if rg.4 {
                rg.2
            } else {
                rg.3
            }),
            forall|a: &String, b: &String, c: &String| compare.requires((a, b, c)),
            forall|row: u32, col: u32|
                in_range(rg, row, col) && (if rg.4 {
                    col
                } else {
                    row
                }) < k ==> fails(*compare, #[trigger] sheet.cell(row, col), *op, *thr),
        decreases hi as u64 + 1 - k,
    {
        let x = k as u32;
        let (row, col) = if rg.4 {
            (rg.1, x)
        } else {
            (x, rg.0)
        };
        match sheet.get_cell(row, col) {
            Some(cd) => {
                let b = compare(&cd.value, op, thr);
                if b {
                    assert(in_range(rg, row, col) && meets(*compare, sheet.cell(row, col), *op, *thr, true));
                    return true;
                }
            },
            None => {},
        }
        k += 1;
    }
    false
}

/// The outcome of a rule under the choices `sel`: a rule with a range whose
/// mark is set has a cell that meets it; one whose mark is clear has none.
pub open spec fn marks_ok<F: Fn(&String, &String, &String) -> bool>(
    f: F,
    rules: Seq<AlertRule>,
    sheet: SheetData,
    sel: Seq<bool>,
    n: int,
) -> bool {
    forall|j: int|
        0 <= j < n && (#[trigger] rule_range(rules[j], sheet)) is Some ==> if sel[j] {
            some_hit(f, sheet, rule_range(rules[j], sheet)->0, rules[j].operator, rules[j].value)
        } else {
            no_hit(f, sheet, rule_range(rules[j], sheet)->0, rules[j].operator, rules[j].value)
        }
}

/// The rules that are triggered on the sheet: a rule with a readable range
/// is triggered when a present cell of its range meets it, as `compare`
/// (cell value, operator, threshold) answers.
pub fn check_alert_rules<F: Fn(&String, &String, &String) -> bool>(
    rules: &Vec<AlertRule>,
    sheet: &SheetData,
    compare: &F,
) -> (r: Vec<TriggeredRule>)
    requires
        rules_readable(rules@, *sheet),
        forall|a: &String, b: &String, c: &String| compare.requires((a, b, c)),
    ensures
        exists|sel: Seq<bool>|
            sel.len() == rules@.len() && triggered_views(r@) == chosen(rules@, *sheet, sel) && marks_ok(
                *compare,
                rules@,
                *sheet,
                sel,
                rules@.len() as int,
            ),
{
    let ghost rs = rules@;
    let mut out: Vec<TriggeredRule> = Vec::new();
    let ghost mut sel: Seq<bool> = Seq::empty();
    let mut i: usize = 0;
    assert(rs.take(0) =~= Seq::<AlertRule>::empty());
    while i < rules.len()
        invariant
            rs == rules@,
            i <= rs.len(),
            sel.len() == i,
            rules_readable(rs, *sheet),
            forall|a: &String, b: &String, c: &String| compare.requires((a, b, c)),
            triggered_views(out@) == chosen(rs.take(i as int), *sheet, sel),
            marks_ok(*compare, rs, *sheet, sel, i as int),
        decreases rs.len() - i,
    {
        let rule = &rules[i];
        let ghost old_sel = sel;
        let v = chars_of(rule.range.as_str());
        let (a, b) = trim_bounds(v.as_slice(), 0, v.len());
        assert(v@.subrange(0, v@.len() as int) =~= v@);
        let t = slice_to_vec(v.as_slice(), a, b);
        let mut hit = false;
        let mut rg_opt: Option<(u32, u32, u32, u32, bool)> = None;
        if t.len() > 0 {
            assert(trim(rs[i as int].range@).len() > 0 ==> alert_range(
                trim(rs[i as int].range@),
                sheet.max_col,
                sheet.max_row,
                rs[i as int].range_expand_col,
                rs[i as int].range_expand_row,
            ) is Some);
            match alert_range_exec(
                t.as_slice(),
                sheet.max_col,
                sheet.max_row,
                rule.range_expand_col,
                rule.range_expand_row,
            ) {
                Some(Some(rg)) => {
                    rg_opt = Some(rg);
                    hit = range_hit(sheet, rg, &rule.operator, &rule.value, compare);
                },
                _ => {},
            }
        }
        assert(rg_opt == rule_range(rs[i as int], *sheet));
        if hit {
            let rg = rg_opt.unwrap();
            out.push(
                TriggeredRule {
                    message: crate::text::string_clone(&rule.message),
                    range: crate::text::string_clone(&rule.range),
                    operator: crate::text::string_clone(&rule.operator),
                    value: crate::text::string_clone(&rule.value),
                    resolved_range: Some((rg.0, rg.1, rg.2, rg.3)),
                    is_horizontal: rg.4,
                },
            );
        }
        proof {
            sel = old_sel.push(hit);
            let t2 = rs.take(i + 1);
            assert(t2.drop_last() =~= rs.take(i as int));
            assert(t2.last() == rs[i as int]);
            assert(sel.drop_last() =~= old_sel);
            assert(sel.last() == hit);
            assert(triggered_views(out@) =~= chosen(t2, *sheet, sel));
            assert forall|j: int|
                0 <= j < i + 1 && (#[trigger] rule_range(rs[j], *sheet)) is Some implies if sel[j] {
                some_hit(*compare, *sheet, rule_range(rs[j], *sheet)->0, rs[j].operator, rs[j].value)
            } else {
                no_hit(*compare, *sheet, rule_range(rs[j], *sheet)->0, rs[j].operator, rs[j].value)
            } by {
                if j < i {
                    assert(sel[j] == old_sel[j]);
                }
            }
        }
        i += 1;
    }
    assert(rs.take(rs.len() as int) =~= rs);
    out
}

/// `pre` marks, within `lo..=hi` along the line `fixed`, the cells that do not
/// meet the rule: missing ones and those `compare` answered false for; the
/// others met it.
pub open spec fn marked_failures<F: Fn(&String, &String, &String) -> bool>(
    f: F,
    sheet: SheetData,
    pre: Set<u32>,
    lo: u32,
    hi: u32,
    fixed: u32,
    horizontal: bool,
    op: String,
    thr: String,
) -> bool {
    &&& pre.subset_of(span(lo, hi))
    &&& forall|x: u32|
        lo <= x <= hi ==> {
            let c = if horizontal {
                sheet.cell(fixed, x)
            } else {
                sheet.cell(x, fixed)
            };
            (#[trigger] pre.contains(x) ==> fails(f, c, op, thr)) && (!pre.contains(x) ==> meets(
                f,
                c,
                op,
                thr,
                true,
            ))
        }
}

fn mark_failures<F: Fn(&String, &String, &String) -> bool>(
    sheet: &SheetData,
    hidden: &mut HashSet<u32>,
    lo: u32,
    hi: u32,
    fixed: u32,
    horizontal: bool,
    op: &String,
    thr: &String,
    compare: &F,
)
    requires
        old(hidden)@ == Set::<u32>::empty(),
        forall|a: &String, b: &String, c: &String| compare.requires((a, b, c)),
    ensures
        marked_failures(*compare, *sheet, final(hidden)@, lo, hi, fixed, horizontal, *op, *thr),
{
    if lo > hi {
        assert(hidden@.subset_of(span(lo, hi)));
        return;
    }
    let mut k: u64 = lo as u64;
    while k <= hi as u64
        invariant
            lo <= hi,
            lo as u64 <= k <= hi as u64 + 1,
            forall|a: &String, b: &String, c: &String| compare.requires((a, b, c)),
            hidden@.subset_of(Set::new(|x: u32| lo <= x < k)),
            forall|x: u32|
                lo <= x < k ==> {
                    let c = if horizontal {
                        sheet.cell(fixed, x)
                    } else {
                        sheet.cell(x, fixed)
                    };
                    (#[trigger] hidden@.contains(x) ==> fails(*compare, c, *op, *thr)) && (
                    !hidden@.contains(x) ==> meets(*compare, c, *op, *thr, true))
                },
        decreases hi as u64 + 1 - k,
    {
        let x = k as u32;
        let (row, col) = if horizontal {
            (fixed, x)
        } else {
            (x, fixed)
        };
        let ok = match sheet.get_cell(row, col) {
            Some(cd) => compare(&cd.value, op, thr),
            None => false,
        };
        if !ok {
            hidden.insert(x);
        }
        k += 1;
    }
    assert(Set::new(|x: u32| lo <= x < k) =~= span(lo, hi));
}

/// What filtering by a triggered rule leaves hidden, given the cells marked
/// as failing: the failing columns of the rule's row aligned with its merged
/// regions (a horizontal rule), or the failing rows of its column (a
/// vertical one).
pub open spec fn filtered<F: Fn(&String, &String, &String) -> bool>(
    f: F,
    rule: TriggeredRule,
    sheet: SheetData,
    cols: Set<u32>,
    rows: Set<u32>,
) -> bool {
    match rule.resolved_range {
        None => cols == Set::<u32>::empty() && rows == Set::<u32>::empty(),
        Some(rg) => exists|pre: Set<u32>|
            if rule.is_horizontal {
                &&& marked_failures(f, sheet, pre, rg.0, rg.2, rg.1, true, rule.operator, rule.value)
                &&& cols == crate::visibility::cols_aligned(pre, sheet.merged_cells@, rg.1)
                &&& rows == Set::<u32>::empty()
            } else {
                &&& marked_failures(f, sheet, pre, rg.1, rg.3, rg.0, false, rule.operator, rule.value)
                &&& rows == crate::visibility::rows_aligned(pre, sheet.merged_cells@, rg.0)
                &&& cols == Set::<u32>::empty()
            },
    }
}

/// Filters the table by a triggered rule: along a horizontal rule's row,
/// the columns whose cell does not meet the rule are hidden; down a vertical
/// rule's column, the rows; merged regions then follow their first cell.
pub fn filter_by_triggered_rule<F: Fn(&String, &String, &String) -> bool>(
    rule: &TriggeredRule,
    sheet: &SheetData,
    hidden_columns: &mut HashSet<u32>,
    hidden_rows: &mut HashSet<u32>,
    compare: &F,
)
    requires
        forall|a: &String, b: &String, c: &String| compare.requires((a, b, c)),
    ensures
        filtered(*compare, *rule, *sheet, final(hidden_columns)@, final(hidden_rows)@),
{
    hidden_columns.clear();
    hidden_rows.clear();
    let (sc, sr, ec, er) = match rule.resolved_range {
        Some(r) => r,
        None => {
            return;
        },
    };
    if rule.is_horizontal {
        mark_failures(sheet, hidden_columns, sc, ec, sr, true, &rule.operator, &rule.value, compare);
        let ghost pre = hidden_columns@;
        expand_hidden_for_merged_cells(sheet, hidden_columns, sr);
        assert(marked_failures(*compare, *sheet, pre, sc, ec, sr, true, rule.operator, rule.value));
    } else {
        mark_failures(sheet, hidden_rows, sr, er, sc, false, &rule.operator, &rule.value, compare);
        let ghost pre = hidden_rows@;
        expand_hidden_rows_for_merged_cells(sheet, hidden_rows, sc);
        assert(marked_failures(*compare, *sheet, pre, sr, er, sc, false, rule.operator, rule.value));
    }
}

/// Shows the whole table again and ends the alert filter.
pub fn reset_filter(hidden_columns: &mut HashSet<u32>, hidden_rows: &mut HashSet<u32>, state: &mut AlertNotifyState)
    ensures
        final(hidden_columns)@ == Set::<u32>::empty(),
        final(hidden_rows)@ == Set::<u32>::empty(),
        !final(state).is_filtering,
        final(state).visible == old(state).visible,
        final(state).triggered_rules == old(state).triggered_rules,
        final(state).has_triggered == old(state).has_triggered,
        final(state).collapsed == old(state).collapsed,
{
    hidden_columns.clear();
    hidden_rows.clear();
    state.is_filtering = false;
}

/// The line shown for the triggered rule at `idx` (counted from 0): its
/// message, or when it has none `规则<n>: <op> <value>  (范围: <range>)`.
pub open spec fn triggered_label_text(idx: nat, rule: TriggeredRule) -> Seq<char> {
    if rule.message@.len() > 0 {
        rule.message@
    } else {
        "规则"@ + dec(idx + 1) + ": "@ + rule.operator@ + " "@ + rule.value@ + "  (范围: "@
            + rule.range@ + ")"@
    }
}

/// The line the alert window shows for the triggered rule at `idx`.
pub fn triggered_label(idx: usize, rule: &TriggeredRule) -> (r: String)
    requires
        idx < usize::MAX,
    ensures
        r@ == triggered_label_text(idx as nat, *rule),
{
    let m = chars_of(rule.message.as_str());
    if m.len() > 0 {
        return string_from(m.as_slice());
    }
    let mut v: Vec<char> = Vec::new();
    crate::text::push_str(&mut v, "规则");
    push_dec(&mut v, (idx + 1) as u64);
    crate::text::push_str(&mut v, ": ");
    crate::text::push_str(&mut v, rule.operator.as_str());
    crate::text::push_str(&mut v, " ");
    crate::text::push_str(&mut v, rule.value.as_str());
    crate::text::push_str(&mut v, "  (范围: ");
    crate::text::push_str(&mut v, rule.range.as_str());
    crate::text::push_str(&mut v, ")");
    assert(v@ =~= triggered_label_text(idx as nat, *rule));
    string_from(v.as_slice())
}

// ===========================================================================
// Comparing a cell with a rule's threshold
// ===========================================================================

/// How two texts compare once both are read as floating point numbers:
/// whether they lie less than machine epsilon apart, and the four orders (as
/// the floating point operators answer them, all false for a NaN).
#[derive(Debug, Clone, Copy, PartialEq, Eq, Structural)]
pub struct FloatCmp {
    pub near: bool,
    pub lt: bool,
    pub gt: bool,
    pub le: bool,
    pub ge: bool,
}

/// A float comparator that can be called on any two texts and answers the
/// same for the same texts (`None` where either is not a number).
pub open spec fn float_ok<G: Fn(&String, &String) -> Option<FloatCmp>>(g: G) -> bool {
    &&& forall|a: &String, b: &String| g.requires((a, b))
    &&& forall|a1: &String, b1: &String, a2: &String, b2: &String, n1: Option<FloatCmp>, n2: Option<FloatCmp>|
        #![trigger g.ensures((a1, b1), n1), g.ensures((a2, b2), n2)]
        a1@ == a2@ && b1@ == b2@ && g.ensures((a1, b1), n1) && g.ensures((a2, b2), n2) ==> n1 == n2
}

/// What the float comparator answers for the texts `x` and `y`.
pub open spec fn float_of<G: Fn(&String, &String) -> Option<FloatCmp>>(g: G, x: Seq<char>, y: Seq<char>) -> Option<FloatCmp> {
    (choose|a: &String, b: &String, n: Option<FloatCmp>| #[trigger] g.ensures((a, b), n) && a@ == x && b@ == y).2
}

proof fn lemma_float_of<G: Fn(&String, &String) -> Option<FloatCmp>>(g: G, a: &String, b: &String, n: Option<FloatCmp>)
    requires
        float_ok(g),
        g.ensures((a, b), n),
    ensures
        float_of(g, a@, b@) == n,
{
    assert(exists|a2: &String, b2: &String, n2: Option<FloatCmp>| #[trigger] g.ensures((a2, b2), n2) && a2@ == a@ && b2@ == b@);
    let (a2, b2, m) = choose|a2: &String, b2: &String, m: Option<FloatCmp>| #[trigger] g.ensures((a2, b2), m) && a2@ == a@ && b2@ == b@;
    assert(g.ensures((a2, b2), m) && g.ensures((a, b), n));
}

/// Whether a cell value equals a threshold: within epsilon when both are
/// numbers, else the trimmed, lower-cased texts are the same.
pub open spec fn alert_equal<G: Fn(&String, &String) -> Option<FloatCmp>>(g: G, cell: Seq<char>, thr: Seq<char>) -> bool {
    match float_of(g, trim(cell), trim(thr)) {
        Some(c) => c.near,
        None => lowercase_of(trim(cell)) == lowercase_of(trim(thr)),
    }
}

/// Whether a cell value meets `op threshold` (`=`, `!=`, `>`, `<`, `>=`,
/// `<=`; any other operator never holds). The orders compare numbers where
/// both trimmed texts are numbers, else the trimmed, lower-cased texts in
/// code point order.
pub open spec fn alert_holds<G: Fn(&String, &String) -> Option<FloatCmp>>(
    g: G,
    cell: Seq<char>,
    op: Seq<char>,
    thr: Seq<char>,
) -> bool {
    let a = lowercase_of(trim(cell));
    let b = lowercase_of(trim(thr));
    if op == "="@ {
        alert_equal(g, cell, thr)
    } else if op == "!="@ {
        !alert_equal(g, cell, thr)
    } else if op == ">"@ {
        match float_of(g, trim(cell), trim(thr)) {
            Some(c) => c.gt,
            None => text_lt(b, a),
        }
    } else if op == "<"@ {
        match float_of(g, trim(cell), trim(thr)) {
            Some(c) => c.lt,
            None => text_lt(a, b),
        }
    } else if op == ">="@ {
        match float_of(g, trim(cell), trim(thr)) {
            Some(c) => c.ge,
            None => !text_lt(a, b),
        }
    } else if op == "<="@ {
        match float_of(g, trim(cell), trim(thr)) {
            Some(c) => c.le,
            None => !text_lt(b, a),
        }
    } else {
        false
    }
}

proof fn lemma_op_texts()
    ensures
        "="@ != "!="@,
        "="@ != ">"@,
        "="@ != "<"@,
        "="@ != ">="@,
        "="@ != "<="@,
        "!="@ != ">"@,
        "!="@ != "<"@,
        "!="@ != ">="@,
        "!="@ != "<="@,
        ">"@ != "<"@,
        ">"@ != ">="@,
        ">"@ != "<="@,
        "<"@ != ">="@,
        "<"@ != "<="@,
        ">="@ != "<="@,
{
    reveal_strlit("=");
    reveal_strlit("!=");
    reveal_strlit(">");
    reveal_strlit("<");
    reveal_strlit(">=");
    reveal_strlit("<=");
    assert("="@.len() == 1 && "!="@.len() == 2 && ">"@.len() == 1 && "<"@.len() == 1);
    assert(">="@.len() == 2 && "<="@.len() == 2);
    assert("="@[0] == '=' && ">"@[0] == '>' && "<"@[0] == '<' && "!="@[0] == '!');
    assert(">="@[0] == '>' && "<="@[0] == '<');
}

/// The alert operators pair up as negations: `!=` holds exactly when `=`
/// does not, whatever the texts. When the two sides are not both numbers,
/// `<=` holds exactly when `>` does not and `>=` exactly when `<` does not;
/// when they are, the same holds for every comparator answer whose orders
/// are those of two numbers that are not NaN (`<=` is not `>`, `>=` is not
/// `<`). Numbers found exactly equal meet `<=` and `>=`, and neither `<`
/// nor `>`.
pub proof fn lemma_alert_ops_negate<G: Fn(&String, &String) -> Option<FloatCmp>>(
    g: G,
    cell: Seq<char>,
    thr: Seq<char>,
)
    ensures
        alert_holds(g, cell, "!="@, thr) == !alert_holds(g, cell, "="@, thr),
        float_of(g, trim(cell), trim(thr)) is None ==> {
            &&& alert_holds(g, cell, "<="@, thr) == !alert_holds(g, cell, ">"@, thr)
            &&& alert_holds(g, cell, ">="@, thr) == !alert_holds(g, cell, "<"@, thr)
        },
        float_of(g, trim(cell), trim(thr)) matches Some(c) ==> {
            &&& (c.le == !c.gt ==> alert_holds(g, cell, "<="@, thr) == !alert_holds(g, cell, ">"@, thr))
            &&& (c.ge == !c.lt ==> alert_holds(g, cell, ">="@, thr) == !alert_holds(g, cell, "<"@, thr))
            &&& (c.le && c.ge && !c.lt && !c.gt ==> {
                &&& alert_holds(g, cell, "<="@, thr)
                &&& alert_holds(g, cell, ">="@, thr)
                &&& !alert_holds(g, cell, "<"@, thr)
                &&& !alert_holds(g, cell, ">"@, thr)
            })
        },
{
    lemma_op_texts();
    let a = lowercase_of(trim(cell));
    let b = lowercase_of(trim(thr));
    lemma_lt_total(a, b);
    lemma_lt_irrefl(a);
    if text_lt(a, b) && text_lt(b, a) {
        lemma_lt_trans(a, b, a);
    }
}

/// Orders follow the values: when the two sides are not both numbers, a
/// cell whose trimmed, lower-cased text comes before the threshold's meets
/// `<` and `<=` and neither `>` nor `>=`; when they are, a comparator answer
/// of two numbers that are not NaN with the cell below the threshold (`lt`
/// and `le`, not `gt`, `ge` or near) gives the same, and one with the cell
/// above gives `>` and `>=` only.
pub proof fn lemma_alert_orders_follow<G: Fn(&String, &String) -> Option<FloatCmp>>(
    g: G,
    cell: Seq<char>,
    thr: Seq<char>,
)
    ensures
        float_of(g, trim(cell), trim(thr)) is None && text_lt(lowercase_of(trim(cell)), lowercase_of(trim(thr))) ==> {
            &&& alert_holds(g, cell, "<"@, thr)
            &&& alert_holds(g, cell, "<="@, thr)
            &&& !alert_holds(g, cell, ">"@, thr)
            &&& !alert_holds(g, cell, ">="@, thr)
            &&& !alert_holds(g, cell, "="@, thr)
        },
        float_of(g, trim(cell), trim(thr)) == Some(FloatCmp { near: false, lt: true, gt: false, le: true, ge: false }) ==> {
            &&& alert_holds(g, cell, "<"@, thr)
            &&& alert_holds(g, cell, "<="@, thr)
            &&& !alert_holds(g, cell, ">"@, thr)
            &&& !alert_holds(g, cell, ">="@, thr)
            &&& !alert_holds(g, cell, "="@, thr)
            &&& alert_holds(g, cell, "!="@, thr)
        },
        float_of(g, trim(cell), trim(thr)) == Some(FloatCmp { near: false, lt: false, gt: true, le: false, ge: true }) ==> {
            &&& !alert_holds(g, cell, "<"@, thr)
            &&& !alert_holds(g, cell, "<="@, thr)
            &&& alert_holds(g, cell, ">"@, thr)
            &&& alert_holds(g, cell, ">="@, thr)
            &&& !alert_holds(g, cell, "="@, thr)
        },
        float_of(g, trim(cell), trim(thr)) == Some(FloatCmp { near: true, lt: false, gt: false, le: true, ge: true }) ==> {
            &&& alert_holds(g, cell, "="@, thr)
            &&& alert_holds(g, cell, "<="@, thr)
            &&& alert_holds(g, cell, ">="@, thr)
            &&& !alert_holds(g, cell, "<"@, thr)
            &&& !alert_holds(g, cell, ">"@, thr)
            &&& !alert_holds(g, cell, "!="@, thr)
        },
{
    lemma_op_texts();
    let a = lowercase_of(trim(cell));
    let b = lowercase_of(trim(thr));
    lemma_lt_irrefl(a);
    if text_lt(a, b) && text_lt(b, a) {
        lemma_lt_trans(a, b, a);
    }
}

/// Texts that are not numbers and are the same once trimmed and lower-cased
/// meet `=`, `<=` and `>=`, and neither `!=`, `<` nor `>`.
pub proof fn lemma_alert_equal_texts<G: Fn(&String, &String) -> Option<FloatCmp>>(
    g: G,
    cell: Seq<char>,
    thr: Seq<char>,
)
    requires
        float_of(g, trim(cell), trim(thr)) is None,
        lowercase_of(trim(cell)) == lowercase_of(trim(thr)),
    ensures
        alert_holds(g, cell, "="@, thr),
        alert_holds(g, cell, "<="@, thr),
        alert_holds(g, cell, ">="@, thr),
        !alert_holds(g, cell, "!="@, thr),
        !alert_holds(g, cell, "<"@, thr),
        !alert_holds(g, cell, ">"@, thr),
{
    lemma_op_texts();
    lemma_lt_irrefl(lowercase_of(trim(cell)));
}

fn trimmed(s: &String) -> (r: String)
    ensures
        r@ == trim(s@),
{
    let v = chars_of(s.as_str());
    let t = trim_vec(v.as_slice());
    string_from(t.as_slice())
}

fn is_op(op: &Vec<char>, lit: &str) -> (r: bool)
    ensures
        r == (op@ == lit@),
{
    let l = chars_of(lit);
    seq_eq(op.as_slice(), l.as_slice())
}

/// Whether the cell value `cell` meets the rule `op threshold` (see
/// [`alert_holds`]); `numeric` reads the two trimmed texts as floating point
/// numbers and compares them.
pub fn compare_alert_value<G: Fn(&String, &String) -> Option<FloatCmp>>(
    cell: &String,
    op: &String,
    threshold: &String,
    numeric: &G,
) -> (r: bool)
    requires
        float_ok(*numeric),
    ensures
        r == alert_holds(*numeric, cell@, op@, threshold@),
{
    let o = chars_of(op.as_str());
    let eq = is_op(&o, "=");
    let ne = is_op(&o, "!=");
    let gt = is_op(&o, ">");
    let lt = is_op(&o, "<");
    let ge = is_op(&o, ">=");
    let le = is_op(&o, "<=");
    if !(eq || ne || gt || lt || ge || le) {
        return false;
    }
    let ct = trimmed(cell);
    let tt = trimmed(threshold);
    let n = numeric(&ct, &tt);
    proof {
        lemma_float_of(*numeric, &ct, &tt, n);
    }
    let a = chars_of(to_lowercase(ct.as_str()).as_str());
    let b = chars_of(to_lowercase(tt.as_str()).as_str());
    match n {
        Some(c) => {
            if eq {
                c.near
            } else if ne {
                !c.near
            } else if gt {
                c.gt
            } else if lt {
                c.lt
            } else if ge {
                c.ge
            } else {
                c.le
            }
        },
        None => {
            if eq {
                seq_eq(a.as_slice(), b.as_slice())
            } else if ne {
                !seq_eq(a.as_slice(), b.as_slice())
            } else if gt {
                text_less(b.as_slice(), a.as_slice())
            } else if lt {
                text_less(a.as_slice(), b.as_slice())
            } else if ge {
                !text_less(a.as_slice(), b.as_slice())
            } else {
                !text_less(b.as_slice(), a.as_slice())
            }
        },
    }
}

} // verus!
