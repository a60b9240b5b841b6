//! How a cell value is held against a keyword: text order, the comparison
//! operators, the keyword syntax of row filters, and the scan over sorted
//! values that the searches use.
//!
//! Text is ordered as `str` orders it. `str` compares UTF-8 bytes, and UTF-8
//! keeps the order of code points, so the order here is the lexicographic
//! order of the characters' code points.
//!
//! The numeric side of the ordering operators (both sides read as floating
//! point numbers) is done by a comparator that the caller hands in.

use vstd::prelude::*;
use crate::search::CompareOp;
use crate::text::{
    chars_of, contains_seq, find_first, find_in, has_substr, lemma_find_first, lemma_split_step,
    lower_exec, lower_seq, lowercase_of, piece_end, slice_to_vec, split_on, string_from,
    to_lowercase, trim, trim_bounds, trim_vec,
};

verus! {

/// The outcome of reading two texts as numbers and comparing them.
#[derive(Debug, Clone, Copy, PartialEq, Eq, Structural)]
pub enum NumOrder {
    Less,
    Equal,
    Greater,
}

/// A numeric comparator that can be called on any two texts and answers the
/// same for the same texts.
pub open spec fn numeric_ok<F: Fn(&String, &String) -> Option<NumOrder>>(f: F) -> bool {
    &&& forall|a: &String, b: &String| f.requires((a, b))
    &&& forall|a1: &String, b1: &String, a2: &String, b2: &String, n1: Option<NumOrder>, n2: Option<NumOrder>|
        #![trigger f.ensures((a1, b1), n1), f.ensures((a2, b2), n2)]
        a1@ == a2@ && b1@ == b2@ && f.ensures((a1, b1), n1) && f.ensures((a2, b2), n2) ==> n1 == n2
}

/// What the comparator answers for the texts `x` and `y`.
pub open spec fn num_of<F: Fn(&String, &String) -> Option<NumOrder>>(f: F, x: Seq<char>, y: Seq<char>) -> Option<NumOrder> {
    (choose|a: &String, b: &String, n: Option<NumOrder>| #[trigger] f.ensures((a, b), n) && a@ == x && b@ == y).2
}

/// A call's answer is the comparator's answer for those texts.
pub proof fn lemma_num_of<F: Fn(&String, &String) -> Option<NumOrder>>(f: F, a: &String, b: &String, n: Option<NumOrder>)
    requires
        numeric_ok(f),
        f.ensures((a, b), n),
    ensures
        num_of(f, a@, b@) == n,
{
    assert(exists|a2: &String, b2: &String, n2: Option<NumOrder>| #[trigger] f.ensures((a2, b2), n2) && a2@ == a@ && b2@ == b@);
    let (a2, b2, m) = choose|a2: &String, b2: &String, m: Option<NumOrder>| #[trigger] f.ensures((a2, b2), m) && a2@ == a@ && b2@ == b@;
    assert(f.ensures((a2, b2), m) && f.ensures((a, b), n));
}

// ---------------------------------------------------------------------------
// Text order
// ---------------------------------------------------------------------------

/// `a < b` for texts.
pub open spec fn text_lt(a: Seq<char>, b: Seq<char>) -> bool
    decreases a.len(),
{
    if a.len() == 0 {
        b.len() > 0
    } else if b.len() == 0 {
        false
    } else if a[0] != b[0] {
        a[0] < b[0]
    } else {
        text_lt(a.drop_first(), b.drop_first())
    }
}

/// `a <= b` for texts.
pub open spec fn text_le(a: Seq<char>, b: Seq<char>) -> bool {
    !text_lt(b, a)
}

pub proof fn lemma_lt_irrefl(a: Seq<char>)
    ensures
        !text_lt(a, a),
    decreases a.len(),
{
    if a.len() > 0 {
        lemma_lt_irrefl(a.drop_first());
    }
}

pub proof fn lemma_lt_trans(a: Seq<char>, b: Seq<char>, c: Seq<char>)
    requires
        text_lt(a, b),
        text_lt(b, c),
    ensures
        text_lt(a, c),
    decreases a.len(),
{
    if a.len() > 0 && b.len() > 0 && c.len() > 0 && a[0] == b[0] && b[0] == c[0] {
        lemma_lt_trans(a.drop_first(), b.drop_first(), c.drop_first());
    }
}

/// Two different texts are ordered one way or the other.
pub proof fn lemma_lt_total(a: Seq<char>, b: Seq<char>)
    ensures
        a =~= b || text_lt(a, b) || text_lt(b, a),
    decreases a.len(),
{
    if a.len() > 0 && b.len() > 0 && a[0] == b[0] {
        lemma_lt_total(a.drop_first(), b.drop_first());
        if a.drop_first() =~= b.drop_first() {
            assert(a =~= seq![a[0]] + a.drop_first());
            assert(b =~= seq![b[0]] + b.drop_first());
        }
    }
}

/// `a <= b` and `b < c` give `a < c`.
pub proof fn lemma_le_lt(a: Seq<char>, b: Seq<char>, c: Seq<char>)
    requires
        text_le(a, b),
        text_lt(b, c),
    ensures
        text_lt(a, c),
{
    lemma_lt_total(a, b);
    if text_lt(a, b) {
        lemma_lt_trans(a, b, c);
    }
}

pub proof fn lemma_le_trans(a: Seq<char>, b: Seq<char>, c: Seq<char>)
    requires
        text_le(a, b),
        text_le(b, c),
    ensures
        text_le(a, c),
{
    if text_lt(c, a) {
        lemma_le_lt(b, c, a);
        lemma_lt_irrefl(b);
        lemma_lt_total(a, b);
        if text_lt(a, b) {
            lemma_lt_trans(a, b, a);
            lemma_lt_irrefl(a);
        }
    }
}

/// Texts that agree on their first `k` characters compare as their rests do.
proof fn lemma_lt_skip(a: Seq<char>, b: Seq<char>, k: int)
    requires
        0 <= k <= a.len(),
        k <= b.len(),
        a.take(k) == b.take(k),
    ensures
        text_lt(a, b) == text_lt(a.skip(k), b.skip(k)),
    decreases k,
{
    if k > 0 {
        assert(a[0] == a.take(k)[0]);
        assert(b[0] == b.take(k)[0]);
        assert(a.drop_first().take(k - 1) =~= a.take(k).drop_first());
        assert(b.drop_first().take(k - 1) =~= b.take(k).drop_first());
        lemma_lt_skip(a.drop_first(), b.drop_first(), k - 1);
        assert(a.drop_first().skip(k - 1) =~= a.skip(k));
        assert(b.drop_first().skip(k - 1) =~= b.skip(k));
    } else {
        assert(a.skip(0) =~= a);
        assert(b.skip(0) =~= b);
    }
}

/// `a < b` for texts held as characters.
pub fn text_less(a: &[char], b: &[char]) -> (r: bool)
    ensures
        r == text_lt(a@, b@),
{
    let mut i: usize = 0;
    while i < a.len() && i < b.len() && a[i] == b[i]
        invariant
            i <= a@.len(),
            i <= b@.len(),
            a@.take(i as int) == b@.take(i as int),
        decreases a@.len() - i,
    {
        assert(a@.take(i + 1) =~= a@.take(i as int).push(a@[i as int]));
        assert(b@.take(i + 1) =~= b@.take(i as int).push(b@[i as int]));
        i += 1;
    }
    proof {
        lemma_lt_skip(a@, b@, i as int);
    }
    if i == a.len() {
        i < b.len()
    } else if i == b.len() {
        false
    } else {
        a[i] < b[i]
    }
}

/// One of the two texts starts with the other.
pub open spec fn prefix_related(a: Seq<char>, b: Seq<char>) -> bool {
    a.is_prefix_of(b) || b.is_prefix_of(a)
}

pub fn prefix_related_exec(a: &[char], b: &[char]) -> (r: bool)
    ensures
        r == prefix_related(a@, b@),
{
    let n = if a.len() < b.len() {
        a.len()
    } else {
        b.len()
    };
    let mut i: usize = 0;
    while i < n
        invariant
            n <= a@.len(),
            n <= b@.len(),
            n == a@.len() || n == b@.len(),
            i <= n,
            forall|q: int| 0 <= q < i ==> a@[q] == b@[q],
        decreases n - i,
    {
        if a[i] != b[i] {
            assert(!a@.is_prefix_of(b@) && !b@.is_prefix_of(a@)) by {
                if a@.is_prefix_of(b@) {
                    assert(a@[i as int] == b@.subrange(0, a@.len() as int)[i as int]);
                }
                if b@.is_prefix_of(a@) {
                    assert(b@[i as int] == a@.subrange(0, b@.len() as int)[i as int]);
                }
            }
            return false;
        }
        i += 1;
    }
    if n == a.len() {
        assert(a@ =~= b@.subrange(0, a@.len() as int));
    } else {
        assert(b@ =~= a@.subrange(0, b@.len() as int));
    }
    true
}

// ---------------------------------------------------------------------------
// Comparison operators
// ---------------------------------------------------------------------------

/// Case-insensitive substring test: `cell` lower-cased contains `kw`
/// lower-cased.
pub open spec fn fuzzy_hit(cell: Seq<char>, kw: Seq<char>) -> bool {
    has_substr(lowercase_of(cell), lowercase_of(kw))
}

/// Whether `keyword` occurs in `cell_value`, case ignored.
pub fn row_fuzzy_match(cell_value: &str, keyword: &str) -> (r: bool)
    ensures
        r == fuzzy_hit(cell_value@, keyword@),
{
    let a = chars_of(to_lowercase(cell_value).as_str());
    let b = chars_of(to_lowercase(keyword).as_str());
    contains_seq(a.as_slice(), b.as_slice())
}

/// Whether a cell value meets a keyword under an operator. Both sides are
/// trimmed first. The text operators ignore case (`=`/`!=` ASCII case only);
/// the ordering operators compare as numbers where the comparator reads both
/// sides as numbers, and as text otherwise.
pub open spec fn op_holds<F: Fn(&String, &String) -> Option<NumOrder>>(
    f: F,
    value: Seq<char>,
    keyword: Seq<char>,
    op: CompareOp,
) -> bool {
    let v = trim(value);
    let k = trim(keyword);
    match op {
        CompareOp::Contains => fuzzy_hit(v, k),
        CompareOp::NotContains => !fuzzy_hit(v, k),
        CompareOp::Equal => lower_seq(v) == lower_seq(k),
        CompareOp::NotEqual => lower_seq(v) != lower_seq(k),
        CompareOp::GreaterThan => match num_of(f, v, k) {
            Some(o) => o == NumOrder::Greater,
            None => text_lt(k, v),
        },
        CompareOp::LessThan => match num_of(f, v, k) {
            Some(o) => o == NumOrder::Less,
            None => text_lt(v, k),
        },
        CompareOp::GreaterEqual => match num_of(f, v, k) {
            Some(o) => o != NumOrder::Less,
            None => !text_lt(v, k),
        },
        CompareOp::LessEqual => match num_of(f, v, k) {
            Some(o) => o != NumOrder::Greater,
            None => !text_lt(k, v),
        },
    }
}

/// The operators pair up as negations, whatever the comparator answers:
/// `>=` holds exactly when `<` does not, `<=` exactly when `>` does not, `!=`
/// exactly when `=` does not, and "does not contain" exactly when "contains"
/// does not.
pub proof fn lemma_ops_negate<F: Fn(&String, &String) -> Option<NumOrder>>(
    f: F,
    value: Seq<char>,
    keyword: Seq<char>,
)
    ensures
        op_holds(f, value, keyword, CompareOp::GreaterEqual) == !op_holds(f, value, keyword, CompareOp::LessThan),
        op_holds(f, value, keyword, CompareOp::LessEqual) == !op_holds(f, value, keyword, CompareOp::GreaterThan),
        op_holds(f, value, keyword, CompareOp::NotEqual) == !op_holds(f, value, keyword, CompareOp::Equal),
        op_holds(f, value, keyword, CompareOp::NotContains) == !op_holds(f, value, keyword, CompareOp::Contains),
{
}

/// Where the comparator reads both sides as numbers, its answer decides the
/// orders: numbers found equal meet `>=` and `<=` but neither `<` nor `>`; a
/// smaller value meets `<` and `<=` only; a larger one `>` and `>=` only.
pub proof fn lemma_numeric_orders<F: Fn(&String, &String) -> Option<NumOrder>>(
    f: F,
    value: Seq<char>,
    keyword: Seq<char>,
)
    ensures
        num_of(f, trim(value), trim(keyword)) == Some(NumOrder::Equal) ==> {
            &&& op_holds(f, value, keyword, CompareOp::GreaterEqual)
            &&& op_holds(f, value, keyword, CompareOp::LessEqual)
            &&& !op_holds(f, value, keyword, CompareOp::LessThan)
            &&& !op_holds(f, value, keyword, CompareOp::GreaterThan)
        },
        num_of(f, trim(value), trim(keyword)) == Some(NumOrder::Less) ==> {
            &&& op_holds(f, value, keyword, CompareOp::LessThan)
            &&& op_holds(f, value, keyword, CompareOp::LessEqual)
            &&& !op_holds(f, value, keyword, CompareOp::GreaterEqual)
            &&& !op_holds(f, value, keyword, CompareOp::GreaterThan)
        },
        num_of(f, trim(value), trim(keyword)) == Some(NumOrder::Greater) ==> {
            &&& op_holds(f, value, keyword, CompareOp::GreaterThan)
            &&& op_holds(f, value, keyword, CompareOp::GreaterEqual)
            &&& !op_holds(f, value, keyword, CompareOp::LessEqual)
            &&& !op_holds(f, value, keyword, CompareOp::LessThan)
        },
{
}

/// Where neither order of the two texts reads as numbers, the orders follow
/// text order: a text meets `>=` and `<=` against an equal text (after
/// trimming) and neither `<` nor `>`; of two different texts exactly one is
/// below the other, and `a < b` is `b > a`.
pub proof fn lemma_text_orders<F: Fn(&String, &String) -> Option<NumOrder>>(
    f: F,
    value: Seq<char>,
    keyword: Seq<char>,
)
    requires
        num_of(f, trim(value), trim(keyword)) is None,
        num_of(f, trim(keyword), trim(value)) is None,
    ensures
        op_holds(f, value, keyword, CompareOp::LessThan) == op_holds(f, keyword, value, CompareOp::GreaterThan),
        op_holds(f, value, keyword, CompareOp::LessEqual) == op_holds(f, keyword, value, CompareOp::GreaterEqual),
        trim(value) == trim(keyword) ==> {
            &&& op_holds(f, value, keyword, CompareOp::GreaterEqual)
            &&& op_holds(f, value, keyword, CompareOp::LessEqual)
            &&& !op_holds(f, value, keyword, CompareOp::LessThan)
            &&& !op_holds(f, value, keyword, CompareOp::GreaterThan)
        },
        trim(value) != trim(keyword) ==> (op_holds(f, value, keyword, CompareOp::LessThan) != op_holds(
            f,
            keyword,
            value,
            CompareOp::LessThan,
        )),
        text_lt(trim(value), trim(keyword)) ==> {
            &&& op_holds(f, value, keyword, CompareOp::LessThan)
            &&& op_holds(f, value, keyword, CompareOp::LessEqual)
            &&& !op_holds(f, value, keyword, CompareOp::GreaterThan)
            &&& !op_holds(f, value, keyword, CompareOp::GreaterEqual)
        },
{
    let v = trim(value);
    let k = trim(keyword);
    lemma_lt_irrefl(v);
    lemma_lt_total(v, k);
    if text_lt(v, k) && text_lt(k, v) {
        lemma_lt_trans(v, k, v);
    }
}

/// Equality after ASCII lower-casing (`str::eq_ignore_ascii_case`).
pub fn eq_ignore_ascii_case(a: &[char], b: &[char]) -> (r: bool)
    ensures
        r == (lower_seq(a@) == lower_seq(b@)),
{
    if a.len() != b.len() {
        assert(lower_seq(a@).len() != lower_seq(b@).len());
        return false;
    }
    let mut i: usize = 0;
    while i < a.len()
        invariant
            a@.len() == b@.len(),
            i <= a@.len(),
            forall|q: int| 0 <= q < i ==> lower_seq(a@)[q] == lower_seq(b@)[q],
        decreases a@.len() - i,
    {
        if lower_exec(a[i]) != lower_exec(b[i]) {
            assert(lower_seq(a@)[i as int] != lower_seq(b@)[i as int]);
            return false;
        }
        i += 1;
    }
    assert(lower_seq(a@) =~= lower_seq(b@));
    true
}

/// Whether `value` meets `keyword` under `op`; `numeric` compares the two
/// trimmed texts as numbers (`None` where either is not a number).
pub fn compare_value<F: Fn(&String, &String) -> Option<NumOrder>>(
    value: &str,
    keyword: &str,
    op: CompareOp,
    numeric: &F,
) -> (r: bool)
    requires
        numeric_ok(*numeric),
    ensures
        r == op_holds(*numeric, value@, keyword@, op),
{
    let vc = chars_of(value);
    let kc = chars_of(keyword);
    let v = trim_vec(vc.as_slice());
    let k = trim_vec(kc.as_slice());
    match op {
        CompareOp::Contains | CompareOp::NotContains => {
            let vs = string_from(v.as_slice());
            let ks = string_from(k.as_slice());
            let hit = row_fuzzy_match(vs.as_str(), ks.as_str());
            if op == CompareOp::Contains {
                hit
            } else {
                !hit
            }
        },
        CompareOp::Equal => eq_ignore_ascii_case(v.as_slice(), k.as_slice()),
        CompareOp::NotEqual => !eq_ignore_ascii_case(v.as_slice(), k.as_slice()),
        _ => {
            let vs = string_from(v.as_slice());
            let ks = string_from(k.as_slice());
            let n = numeric(&vs, &ks);
            proof {
                lemma_num_of(*numeric, &vs, &ks, n);
            }
            match op {
                CompareOp::GreaterThan => match n {
                    Some(o) => o == NumOrder::Greater,
                    None => text_less(k.as_slice(), v.as_slice()),
                },
                CompareOp::LessThan => match n {
                    Some(o) => o == NumOrder::Less,
                    None => text_less(v.as_slice(), k.as_slice()),
                },
                CompareOp::GreaterEqual => match n {
                    Some(o) => o != NumOrder::Less,
                    None => !text_less(v.as_slice(), k.as_slice()),
                },
                _ => match n {
                    Some(o) => o != NumOrder::Greater,
                    None => !text_less(k.as_slice(), v.as_slice()),
                },
            }
        },
    }
}

/// The views of a list of strings.
pub open spec fn texts(v: Seq<String>) -> Seq<Seq<char>> {
    v.map_values(|s: String| s@)
}

/// Whether a value meets the keywords of a row filter: inside the closed
/// range `[kws[0], kws[1]]` (trimmed value, text order) for a range, else
/// meeting one of the keywords under `op`.
pub open spec fn filter_value_holds<F: Fn(&String, &String) -> Option<NumOrder>>(
    f: F,
    value: Seq<char>,
    kws: Seq<Seq<char>>,
    is_range: bool,
    op: CompareOp,
) -> bool {
    if is_range && kws.len() == 2 {
        text_le(kws[0], trim(value)) && text_le(trim(value), kws[1])
    } else {
        exists|i: int| 0 <= i < kws.len() && op_holds(f, value, #[trigger] kws[i], op)
    }
}

/// Whether `value` meets the keywords of a row filter.
pub fn match_filter_value<F: Fn(&String, &String) -> Option<NumOrder>>(
    value: &str,
    keywords: &[String],
    is_range: bool,
    op: CompareOp,
    numeric: &F,
) -> (r: bool)
    requires
        numeric_ok(*numeric),
    ensures
        r == filter_value_holds(*numeric, value@, texts(keywords@), is_range, op),
{
    let ghost kws = texts(keywords@);
    if is_range && keywords.len() == 2 {
        let vc = chars_of(value);
        let v = trim_vec(vc.as_slice());
        let lo = chars_of(keywords[0].as_str());
        let hi = chars_of(keywords[1].as_str());
        !text_less(v.as_slice(), lo.as_slice()) && !text_less(hi.as_slice(), v.as_slice())
    } else {
        let mut i: usize = 0;
        while i < keywords.len()
            invariant
                kws == texts(keywords@),
                numeric_ok(*numeric),
                !(is_range && keywords@.len() == 2),
                i <= keywords@.len(),
                forall|q: int| 0 <= q < i ==> !op_holds(*numeric, value@, #[trigger] kws[q], op),
            decreases keywords@.len() - i,
        {
            assert(kws[i as int] == keywords@[i as int]@);
            if compare_value(value, keywords[i].as_str(), op, numeric) {
                assert(op_holds(*numeric, value@, kws[i as int], op));
                return true;
            }
            i += 1;
        }
        false
    }
}

// ---------------------------------------------------------------------------
// Row filter keywords
// ---------------------------------------------------------------------------

/// `s` without its leading `c`s.
pub open spec fn strip_start_char(s: Seq<char>, c: char) -> Seq<char>
    decreases s.len(),
{
    if s.len() > 0 && s[0] == c {
        strip_start_char(s.drop_first(), c)
    } else {
        s
    }
}

/// `s` without its trailing `c`s.
pub open spec fn strip_end_char(s: Seq<char>, c: char) -> Seq<char>
    decreases s.len(),
{
    if s.len() > 0 && s.last() == c {
        strip_end_char(s.drop_last(), c)
    } else {
        s
    }
}

/// `s` without the `c`s at either end (`str::trim_matches` with a `char`).
pub open spec fn strip_char(s: Seq<char>, c: char) -> Seq<char> {
    strip_end_char(strip_start_char(s, c), c)
}

/// `s` without the `c`s at either end.
pub fn strip_char_vec(s: &[char], c: char) -> (v: Vec<char>)
    ensures
        v@ == strip_char(s@, c),
{
    let n = s.len();
    let mut a: usize = 0;
    assert(s@.skip(0) =~= s@);
    while a < n && s[a] == c
        invariant
            n == s@.len(),
            a <= n,
            strip_start_char(s@, c) == strip_start_char(s@.skip(a as int), c),
        decreases n - a,
    {
        assert(s@.skip(a as int).drop_first() =~= s@.skip(a + 1));
        a += 1;
    }
    assert(strip_start_char(s@.skip(a as int), c) == s@.skip(a as int));
    let mut b: usize = n;
    while b > a && s[b - 1] == c
        invariant
            n == s@.len(),
            a <= b <= n,
            strip_char(s@, c) == strip_end_char(s@.subrange(a as int, b as int), c),
        decreases b - a,
    {
        assert(s@.subrange(a as int, b as int).drop_last() =~= s@.subrange(a as int, b - 1));
        b -= 1;
    }
    assert(s@.skip(a as int) =~= s@.subrange(a as int, n as int));
    slice_to_vec(s, a, b)
}

/// The two quoted ends of a range keyword `'lo'-'hi'`: from the first quote
/// on, the text before the first `-` ends with a quote, the text after it
/// starts with one, and both hold more than quotes (each side trimmed).
pub open spec fn quoted_range(t: Seq<char>) -> Option<(Seq<char>, Seq<char>)> {
    match find_first(t, '\'') {
        None => None,
        Some(i) => {
            let rest = t.skip(i);
            match find_first(rest, '-') {
                None => None,
                Some(d) => {
                    let before = trim(rest.take(d));
                    let after = trim(rest.skip(d + 1));
                    if before.len() > 0 && before.last() == '\'' && after.len() > 0 && after[0] == '\''
                        && strip_char(before, '\'').len() > 0 && strip_char(after, '\'').len() > 0 {
                        Some((strip_char(before, '\''), strip_char(after, '\'')))
                    } else {
                        None
                    }
                },
            }
        },
    }
}

/// The non-empty pieces, trimmed and unquoted, of a comma list.
pub open spec fn kept_pieces(ps: Seq<Seq<char>>) -> Seq<Seq<char>>
    decreases ps.len(),
{
    if ps.len() == 0 {
        Seq::empty()
    } else {
        let v = strip_char(trim(ps[0]), '\'');
        (if v.len() > 0 {
            seq![v]
        } else {
            Seq::<Seq<char>>::empty()
        }) + kept_pieces(ps.drop_first())
    }
}

/// The keywords of a row filter input and whether they form a range:
/// `'lo'-'hi'` gives the two ends as a range, `'a','b'` the listed values,
/// anything else the trimmed input itself.
pub open spec fn row_keywords(input: Seq<char>) -> (Seq<Seq<char>>, bool) {
    let t = trim(input);
    if t.len() == 0 {
        (Seq::empty(), false)
    } else if quoted_range(t) is Some {
        (seq![(quoted_range(t)->0).0, (quoted_range(t)->0).1], true)
    } else if find_first(t, ',') is Some && kept_pieces(split_on(t, ',')).len() > 0 {
        (kept_pieces(split_on(t, ',')), false)
    } else {
        (seq![t], false)
    }
}

/// The range form of a row filter input, if it has one.
fn parse_quoted_range(t: &[char]) -> (r: Option<(Vec<char>, Vec<char>)>)
    ensures
        match quoted_range(t@) {
            Some(q) => r is Some && (r->0).0@ == q.0 && (r->0).1@ == q.1,
            None => r is None,
        },
{
    let n = t.len();
    assert(t@.subrange(0, n as int) =~= t@);
    proof {
        lemma_find_first(t@, '\'');
    }
    let i = match find_in(t, 0, n, '\'') {
        Some(i) => i,
        None => return None,
    };
    let ghost rest = t@.skip(i as int);
    assert(t@.subrange(i as int, n as int) =~= rest);
    let d = match find_in(t, i, n, '-') {
        Some(d) => d,
        None => return None,
    };
    proof {
        lemma_find_first(rest, '-');
        assert(rest.take(d - i) =~= t@.subrange(i as int, d as int));
        assert(rest.skip(d - i + 1) =~= t@.subrange(d + 1, n as int));
    }
    let (b0, b1) = trim_bounds(t, i, d);
    let (a0, a1) = trim_bounds(t, d + 1, n);
    if b1 > b0 && t[b1 - 1] == '\'' && a1 > a0 && t[a0] == '\'' {
        let before = slice_to_vec(t, b0, b1);
        let after = slice_to_vec(t, a0, a1);
        let v1 = strip_char_vec(before.as_slice(), '\'');
        let v2 = strip_char_vec(after.as_slice(), '\'');
        if v1.len() > 0 && v2.len() > 0 {
            return Some((v1, v2));
        }
    }
    None
}

/// Splits a row filter input into its keywords and tells whether they form
/// a range (see [`row_keywords`]).
pub fn parse_row_keywords(input: &str) -> (r: (Vec<String>, bool))
    ensures
        texts(r.0@) == row_keywords(input@).0,
        r.1 == row_keywords(input@).1,
{
    let ic = chars_of(input);
    let t = trim_vec(ic.as_slice());
    let n = t.len();
    if n == 0 {
        let out: Vec<String> = Vec::new();
        assert(texts(out@) =~= Seq::<Seq<char>>::empty());
        return (out, false);
    }
    match parse_quoted_range(t.as_slice()) {
        Some((v1, v2)) => {
            let mut out: Vec<String> = Vec::new();
            out.push(string_from(v1.as_slice()));
            out.push(string_from(v2.as_slice()));
            assert(texts(out@) =~= row_keywords(input@).0);
            return (out, true);
        },
        None => {},
    }
    assert(t@.subrange(0, n as int) =~= t@);
    if find_in(t.as_slice(), 0, n, ',').is_some() {
        let ghost whole = kept_pieces(split_on(t@, ','));
        let mut out: Vec<String> = Vec::new();
        let mut pos: usize = 0;
        assert(t@.skip(0) =~= t@);
        loop
            invariant_except_break
                n == t@.len(),
                pos <= n,
                texts(out@) + kept_pieces(split_on(t@.skip(pos as int), ',')) == whole,
            ensures
                texts(out@) == whole,
            decreases n - pos,
        {
            let end = piece_end(t.as_slice(), pos, ',');
            proof {
                lemma_split_step(t@, ',', pos as int, end as int);
            }
            let ghost tail = if end < n {
                split_on(t@.skip(end + 1), ',')
            } else {
                Seq::<Seq<char>>::empty()
            };
            let ghost piece = t@.subrange(pos as int, end as int);
            let ghost before = texts(out@);
            let raw = slice_to_vec(t.as_slice(), pos, end);
            let tr = trim_vec(raw.as_slice());
            let v = strip_char_vec(tr.as_slice(), '\'');
            proof {
                assert((seq![piece] + tail).drop_first() =~= tail);
                assert(kept_pieces(seq![piece] + tail) == (if v@.len() > 0 {
                    seq![v@]
                } else {
                    Seq::<Seq<char>>::empty()
                }) + kept_pieces(tail));
            }
            if v.len() > 0 {
                out.push(string_from(v.as_slice()));
                assert(texts(out@) =~= before + seq![v@]);
            }
            if end == n {
                assert(kept_pieces(Seq::<Seq<char>>::empty()) =~= Seq::<Seq<char>>::empty());
                assert(texts(out@) =~= whole);
                break;
            }
            pos = end + 1;
            proof {
                assert(texts(out@) + kept_pieces(split_on(t@.skip(pos as int), ',')) =~= whole);
            }
        }
        if out.len() > 0 {
            return (out, false);
        }
    }
    let mut out: Vec<String> = Vec::new();
    out.push(string_from(t.as_slice()));
    assert(texts(out@) =~= row_keywords(input@).0);
    (out, false)
}

} // verus!
