//! The scan over sorted values that the searches use: a binary search finds
//! the first value not below the keyword, then the scan walks right and left
//! from there, keeping the values that hit and stopping, on each side, at
//! the first value that misses, lies beyond the keyword and does not share
//! a prefix with it.

use vstd::prelude::*;
use std::collections::HashSet;
use crate::matching::{
    fuzzy_hit, lemma_le_lt, lemma_le_trans, lemma_lt_irrefl,
    prefix_related, prefix_related_exec, row_fuzzy_match, text_le, text_less, text_lt, texts,
};
use crate::text::{chars_of, contains_seq, has_substr};

verus! {

broadcast use {
    vstd::std_specs::hash::group_hash_axioms,
    vstd::std_specs::hash::axiom_u32_obeys_hash_table_key_model,
    vstd::std_specs::hash::axiom_random_state_builds_valid_hashers,
};

/// Every value is at most every later one.
pub open spec fn sorted_texts(v: Seq<Seq<char>>) -> bool {
    forall|i: int, j: int| 0 <= i <= j < v.len() ==> text_le(#[trigger] v[i], #[trigger] v[j])
}

/// Every value is at most the next one.
pub open spec fn adjacent_sorted(v: Seq<Seq<char>>) -> bool {
    forall|i: int| 0 <= i < v.len() - 1 ==> text_le(#[trigger] v[i], v[i + 1])
}

pub proof fn lemma_adjacent_sorted(v: Seq<Seq<char>>)
    requires
        adjacent_sorted(v),
    ensures
        sorted_texts(v),
{
    assert forall|i: int, j: int| 0 <= i <= j < v.len() implies text_le(#[trigger] v[i], #[trigger] v[j]) by {
        lemma_adjacent_run(v, i, j);
    }
}

proof fn lemma_adjacent_run(v: Seq<Seq<char>>, i: int, j: int)
    requires
        adjacent_sorted(v),
        0 <= i <= j < v.len(),
    ensures
        text_le(v[i], v[j]),
    decreases j - i,
{
    if i == j {
        lemma_lt_irrefl(v[i]);
    } else {
        lemma_adjacent_run(v, i + 1, j);
        assert(text_le(v[i], v[i + 1]));
        lemma_le_trans(v[i], v[i + 1], v[j]);
    }
}

/// Whether the values, in order, are sorted (each at most the next).
pub fn is_sorted(vals: &Vec<Vec<char>>) -> (r: bool)
    ensures
        r == adjacent_sorted(views(vals@)),
{
    let ghost v = views(vals@);
    let mut i: usize = 1;
    while i < vals.len()
        invariant
            v == views(vals@),
            1 <= i,
            forall|k: int| 0 <= k < i - 1 && k < v.len() - 1 ==> text_le(#[trigger] v[k], v[k + 1]),
        decreases vals@.len() - i,
    {
        if text_less(vals[i].as_slice(), vals[i - 1].as_slice()) {
            assert(!text_le(v[i - 1], v[(i - 1) + 1]));
            return false;
        }
        i += 1;
    }
    true
}

/// The views of a list of character vectors.
pub open spec fn views(v: Seq<Vec<char>>) -> Seq<Seq<char>> {
    v.map_values(|x: Vec<char>| x@)
}

/// A value that ends the walk to the right: it misses, lies above the
/// keyword and shares no prefix with it.
pub open spec fn stops_right(x: Seq<char>, kw: Seq<char>, hit: bool) -> bool {
    !hit && text_lt(kw, x) && !prefix_related(x, kw)
}

/// A value that ends the walk to the left: it misses, lies below the keyword
/// and shares no prefix with it.
pub open spec fn stops_left(x: Seq<char>, kw: Seq<char>, hit: bool) -> bool {
    !hit && text_lt(x, kw) && !prefix_related(x, kw)
}

/// Whether the scan keeps the value at `i`: it hits, and no stop lies
/// between it and the first value not below the keyword (on its side).
pub open spec fn scan_keeps(v: Seq<Seq<char>>, kw: Seq<char>, hits: Seq<bool>, i: int) -> bool {
    &&& hits[i]
    &&& if !text_lt(v[i], kw) {
        forall|j: int| 0 <= j < i && !text_lt(v[j], kw) ==> !stops_right(#[trigger] v[j], kw, hits[j])
    } else {
        forall|j: int| i < j < v.len() && text_lt(v[j], kw) ==> !stops_left(#[trigger] v[j], kw, hits[j])
    }
}

/// The index of the first value not below `kw` in sorted values.
fn lower_bound(vals: &Vec<Vec<char>>, kw: &[char]) -> (lo: usize)
    requires
        sorted_texts(views(vals@)),
    ensures
        lo <= vals@.len(),
        forall|k: int| 0 <= k < lo ==> text_lt(#[trigger] views(vals@)[k], kw@),
        forall|k: int| lo <= k < vals@.len() ==> !text_lt(#[trigger] views(vals@)[k], kw@),
{
    let ghost v = views(vals@);
    let n = vals.len();
    let mut lo: usize = 0;
    let mut hi: usize = n;
    while lo < hi
        invariant
            v == views(vals@),
            n == v.len(),
            sorted_texts(v),
            lo <= hi <= n,
            forall|k: int| 0 <= k < lo ==> text_lt(#[trigger] v[k], kw@),
            forall|k: int| hi <= k < n ==> !text_lt(#[trigger] v[k], kw@),
        decreases hi - lo,
    {
        let mid = lo + (hi - lo) / 2;
        assert(v[mid as int] == vals@[mid as int]@);
        if text_less(vals[mid].as_slice(), kw) {
            assert forall|k: int| 0 <= k < mid + 1 implies text_lt(#[trigger] v[k], kw@) by {
                lemma_le_lt(v[k], v[mid as int], kw@);
            }
            lo = mid + 1;
        } else {
            assert forall|k: int| mid <= k < n implies !text_lt(#[trigger] v[k], kw@) by {
                if text_lt(v[k], kw@) {
                    lemma_le_lt(v[mid as int], v[k], kw@);
                }
            }
            hi = mid;
        }
    }
    lo
}

/// Which sorted values the scan keeps for `kw`, given which values hit.
pub fn sorted_scan(vals: &Vec<Vec<char>>, kw: &[char], hits: &Vec<bool>) -> (m: Vec<bool>)
    requires
        hits@.len() == vals@.len(),
        sorted_texts(views(vals@)),
    ensures
        m@.len() == vals@.len(),
        forall|i: int| 0 <= i < m@.len() ==> m@[i] == scan_keeps(views(vals@), kw@, hits@, i),
{
    let ghost v = views(vals@);
    let n = vals.len();
    let lo = lower_bound(vals, kw);
    let mut m: Vec<bool> = Vec::new();
    let mut q: usize = 0;
    while q < n
        invariant
            q <= n,
            m@.len() == q,
            forall|k: int| 0 <= k < q ==> !m@[k],
        decreases n - q,
    {
        m.push(false);
        q += 1;
    }
    // walk right from the first value not below the keyword
    let mut i: usize = lo;
    loop
        invariant_except_break
            v == views(vals@),
            n == v.len(),
            hits@.len() == n,
            m@.len() == n,
            lo <= i <= n,
            forall|k: int| 0 <= k < lo ==> !m@[k],
            forall|k: int| i <= k < n ==> !m@[k],
            forall|k: int| lo <= k < i ==> !stops_right(#[trigger] v[k], kw@, hits@[k]),
            forall|k: int| lo <= k < i ==> m@[k] == hits@[k],
        ensures
            m@.len() == n,
            forall|k: int| 0 <= k < lo ==> !m@[k],
            forall|k: int|
                lo <= k < n ==> m@[k] == (hits@[k] && forall|j: int|
                    lo <= j < k ==> !stops_right(#[trigger] v[j], kw@, hits@[j])),
        decreases n - i,
    {
        if i >= n {
            break;
        }
        assert(v[i as int] == vals@[i as int]@);
        if hits[i] {
            m.set(i, true);
        } else if text_less(kw, vals[i].as_slice()) && !prefix_related_exec(vals[i].as_slice(), kw) {
            assert(stops_right(v[i as int], kw@, hits@[i as int]));
            break;
        }
        i += 1;
    }
    // walk left from the value before it
    if lo > 0 {
        let mut i: usize = lo - 1;
        loop
            invariant_except_break
                v == views(vals@),
                n == v.len(),
                hits@.len() == n,
                m@.len() == n,
                i < lo <= n,
                forall|k: int| 0 <= k <= i ==> !m@[k],
                forall|k: int| i < k < lo ==> !stops_left(#[trigger] v[k], kw@, hits@[k]),
                forall|k: int| i < k < lo ==> m@[k] == hits@[k],
                forall|k: int|
                    lo <= k < n ==> m@[k] == (hits@[k] && forall|j: int|
                        lo <= j < k ==> !stops_right(#[trigger] v[j], kw@, hits@[j])),
            ensures
                m@.len() == n,
                forall|k: int|
                    0 <= k < lo ==> m@[k] == (hits@[k] && forall|j: int|
                        k < j < lo ==> !stops_left(#[trigger] v[j], kw@, hits@[j])),
                forall|k: int|
                    lo <= k < n ==> m@[k] == (hits@[k] && forall|j: int|
                        lo <= j < k ==> !stops_right(#[trigger] v[j], kw@, hits@[j])),
            decreases i,
        {
            assert(v[i as int] == vals@[i as int]@);
            if hits[i] {
                m.set(i, true);
            } else if text_less(vals[i].as_slice(), kw) && !prefix_related_exec(vals[i].as_slice(), kw) {
                assert(stops_left(v[i as int], kw@, hits@[i as int]));
                break;
            }
            if i == 0 {
                break;
            }
            i -= 1;
        }
    }
    proof {
        assert forall|k: int| 0 <= k < n implies m@[k] == scan_keeps(v, kw@, hits@, k) by {
            if k < lo {
                assert(text_lt(v[k], kw@));
                if hits@[k] && (forall|j: int| k < j < lo ==> !stops_left(#[trigger] v[j], kw@, hits@[j])) {
                    assert forall|j: int| k < j < v.len() && text_lt(v[j], kw@) implies !stops_left(
                        #[trigger] v[j],
                        kw@,
                        hits@[j],
                    ) by {
                        if j >= lo {
                            assert(!text_lt(v[j], kw@));
                        }
                    }
                }
                if scan_keeps(v, kw@, hits@, k) {
                    assert forall|j: int| k < j < lo implies !stops_left(#[trigger] v[j], kw@, hits@[j]) by {
                        assert(text_lt(v[j], kw@));
                    }
                }
            } else {
                assert(!text_lt(v[k], kw@));
                if scan_keeps(v, kw@, hits@, k) {
                    assert forall|j: int| lo <= j < k implies !stops_right(#[trigger] v[j], kw@, hits@[j]) by {
                        assert(!text_lt(v[j], kw@));
                    }
                }
                if hits@[k] && (forall|j: int| lo <= j < k ==> !stops_right(#[trigger] v[j], kw@, hits@[j])) {
                    assert forall|j: int| 0 <= j < k && !text_lt(v[j], kw@) implies !stops_right(
                        #[trigger] v[j],
                        kw@,
                        hits@[j],
                    ) by {
                        if j < lo {
                            assert(text_lt(v[j], kw@));
                        }
                    }
                }
            }
        }
    }
    m
}

// ---------------------------------------------------------------------------
// Sorted (number, text) lists
// ---------------------------------------------------------------------------

/// The texts of a list of (column or row number, text) pairs.
pub open spec fn pair_texts(cv: Seq<(u32, String)>) -> Seq<Seq<char>> {
    cv.map_values(|p: (u32, String)| p.1@)
}

/// Which texts contain `kw`.
pub open spec fn contains_hits(v: Seq<Seq<char>>, kw: Seq<char>) -> Seq<bool> {
    Seq::new(v.len(), |i: int| has_substr(v[i], kw))
}

/// Which texts contain one of `kws`, case ignored.
pub open spec fn fuzzy_hits(v: Seq<Seq<char>>, kws: Seq<Seq<char>>) -> Seq<bool> {
    Seq::new(v.len(), |i: int| exists|k: int| 0 <= k < kws.len() && fuzzy_hit(v[i], #[trigger] kws[k]))
}

/// The numbers of the pairs whose index satisfies `p`.
pub open spec fn numbers_where(cv: Seq<(u32, String)>, p: spec_fn(int) -> bool) -> Set<u32> {
    Set::new(|c: u32| exists|i: int| 0 <= i < cv.len() && cv[i].0 == c && #[trigger] p(i))
}

/// The texts of the pairs, as character vectors.
fn pair_chars(cv: &[(u32, String)]) -> (v: Vec<Vec<char>>)
    ensures
        views(v@) == pair_texts(cv@),
{
    let mut v: Vec<Vec<char>> = Vec::new();
    let mut i: usize = 0;
    while i < cv.len()
        invariant
            i <= cv@.len(),
            views(v@) == pair_texts(cv@).take(i as int),
        decreases cv@.len() - i,
    {
        let c = chars_of(cv[i].1.as_str());
        let ghost before = v@;
        v.push(c);
        assert(v@ == before.push(c));
        assert(views(v@) =~= views(before).push(c@));
        i += 1;
        assert(views(v@) =~= pair_texts(cv@).take(i as int));
    }
    assert(pair_texts(cv@).take(cv@.len() as int) =~= pair_texts(cv@));
    v
}

/// Index conditions that agree on the pairs pick the same numbers.
pub proof fn lemma_numbers_where_ext(cv: Seq<(u32, String)>, p: spec_fn(int) -> bool, q: spec_fn(int) -> bool)
    requires
        forall|i: int| 0 <= i < cv.len() ==> #[trigger] p(i) == q(i),
    ensures
        numbers_where(cv, p) == numbers_where(cv, q),
{
    assert forall|c: u32| numbers_where(cv, p).contains(c) implies numbers_where(cv, q).contains(c) by {
        let i = choose|i: int| 0 <= i < cv.len() && cv[i].0 == c && #[trigger] p(i);
        assert(q(i));
    }
    assert forall|c: u32| numbers_where(cv, q).contains(c) implies numbers_where(cv, p).contains(c) by {
        let i = choose|i: int| 0 <= i < cv.len() && cv[i].0 == c && #[trigger] q(i);
        assert(p(i));
    }
    assert(numbers_where(cv, p) =~= numbers_where(cv, q));
}

/// The numbers of the pairs whose flag is `want`.
fn numbers_flagged(cv: &[(u32, String)], m: &Vec<bool>, want: bool) -> (r: HashSet<u32>)
    requires
        m@.len() == cv@.len(),
    ensures
        r@ == Set::new(|c: u32| exists|i: int| 0 <= i < cv@.len() && cv@[i].0 == c && #[trigger] m@[i] == want),
        r@ == numbers_where(cv@, |i: int| m@[i] == want),
{
    let mut r: HashSet<u32> = HashSet::new();
    let mut i: usize = 0;
    while i < cv.len()
        invariant
            m@.len() == cv@.len(),
            i <= cv@.len(),
            r@ == Set::new(|c: u32| exists|k: int| 0 <= k < i && cv@[k].0 == c && #[trigger] m@[k] == want),
        decreases cv@.len() - i,
    {
        if m[i] == want {
            r.insert(cv[i].0);
        }
        i += 1;
        assert(r@ =~= Set::new(|c: u32| exists|k: int| 0 <= k < i && cv@[k].0 == c && #[trigger] m@[k] == want));
    }
    proof {
        let p = |i: int| m@[i] == want;
        assert forall|c: u32| r@.contains(c) implies numbers_where(cv@, p).contains(c) by {
            let k = choose|k: int| 0 <= k < cv@.len() && cv@[k].0 == c && #[trigger] m@[k] == want;
            assert(p(k));
        }
        assert forall|c: u32| numbers_where(cv@, p).contains(c) implies r@.contains(c) by {
            let k = choose|k: int| 0 <= k < cv@.len() && cv@[k].0 == c && #[trigger] p(k);
            assert(m@[k] == want);
        }
        assert(r@ =~= numbers_where(cv@, p));
    }
    r
}

/// The columns whose sorted values the scan keeps for `keyword`, a value
/// hitting when it contains the keyword.
pub fn find_sorted_column_matches(col_values: &[(u32, String)], keyword: &str) -> (r: HashSet<u32>)
    requires
        sorted_texts(pair_texts(col_values@)),
    ensures
        r@ == numbers_where(
            col_values@,
            |i: int| scan_keeps(
                pair_texts(col_values@),
                keyword@,
                contains_hits(pair_texts(col_values@), keyword@),
                i,
            ),
        ),
{
    let ghost v = pair_texts(col_values@);
    let vals = pair_chars(col_values);
    let kw = chars_of(keyword);
    let mut hits: Vec<bool> = Vec::new();
    let mut i: usize = 0;
    while i < vals.len()
        invariant
            views(vals@) == v,
            i <= vals@.len(),
            hits@ == contains_hits(v, kw@).take(i as int),
        decreases vals@.len() - i,
    {
        assert(vals@[i as int]@ == v[i as int]);
        hits.push(contains_seq(vals[i].as_slice(), kw.as_slice()));
        i += 1;
        assert(hits@ =~= contains_hits(v, kw@).take(i as int));
    }
    assert(hits@ =~= contains_hits(v, kw@));
    let m = sorted_scan(&vals, kw.as_slice(), &hits);
    let r = numbers_flagged(col_values, &m, true);
    proof {
        lemma_numbers_where_ext(
            col_values@,
            |i: int| m@[i] == true,
            |i: int| scan_keeps(v, keyword@, contains_hits(v, keyword@), i),
        );
    }
    r
}

/// Hides the columns whose sorted values the scan does not keep for
/// `keyword` (see [`find_sorted_column_matches`]).
pub fn search_sorted(col_values: &[(u32, String)], keyword: &str, hidden_columns: &mut HashSet<u32>)
    requires
        sorted_texts(pair_texts(col_values@)),
    ensures
        final(hidden_columns)@ == old(hidden_columns)@.union(
            numbers_where(
                col_values@,
                |i: int| !scan_keeps(
                    pair_texts(col_values@),
                    keyword@,
                    contains_hits(pair_texts(col_values@), keyword@),
                    i,
                ),
            ),
        ),
{
    let ghost v = pair_texts(col_values@);
    let vals = pair_chars(col_values);
    let kw = chars_of(keyword);
    let mut hits: Vec<bool> = Vec::new();
    let mut i: usize = 0;
    while i < vals.len()
        invariant
            views(vals@) == v,
            i <= vals@.len(),
            hits@ == contains_hits(v, kw@).take(i as int),
        decreases vals@.len() - i,
    {
        assert(vals@[i as int]@ == v[i as int]);
        hits.push(contains_seq(vals[i].as_slice(), kw.as_slice()));
        i += 1;
        assert(hits@ =~= contains_hits(v, kw@).take(i as int));
    }
    assert(hits@ =~= contains_hits(v, kw@));
    let m = sorted_scan(&vals, kw.as_slice(), &hits);
    let mut j: usize = 0;
    let ghost base = hidden_columns@;
    while j < col_values.len()
        invariant
            m@.len() == col_values@.len(),
            j <= col_values@.len(),
            hidden_columns@ == base.union(
                Set::new(|c: u32| exists|k: int| 0 <= k < j && col_values@[k].0 == c && #[trigger] m@[k] == false),
            ),
        decreases col_values@.len() - j,
    {
        if !m[j] {
            hidden_columns.insert(col_values[j].0);
        }
        j += 1;
        assert(hidden_columns@ =~= base.union(
            Set::new(|c: u32| exists|k: int| 0 <= k < j && col_values@[k].0 == c && #[trigger] m@[k] == false),
        ));
    }
    proof {
        let miss = Set::new(|c: u32| exists|k: int| 0 <= k < col_values@.len() && col_values@[k].0 == c && #[trigger] m@[k] == false);
        let p = |i: int| m@[i] == false;
        assert forall|c: u32| miss.contains(c) implies numbers_where(col_values@, p).contains(c) by {
            let k = choose|k: int| 0 <= k < col_values@.len() && col_values@[k].0 == c && #[trigger] m@[k] == false;
            assert(p(k));
        }
        assert forall|c: u32| numbers_where(col_values@, p).contains(c) implies miss.contains(c) by {
            let k = choose|k: int| 0 <= k < col_values@.len() && col_values@[k].0 == c && #[trigger] p(k);
            assert(m@[k] == false);
        }
        assert(miss =~= numbers_where(col_values@, p));
        lemma_numbers_where_ext(
            col_values@,
            |i: int| m@[i] == false,
            |i: int| !scan_keeps(v, keyword@, contains_hits(v, keyword@), i),
        );
    }
}

/// The rows whose sorted values match a row filter's keywords: for a range
/// `[kws[0], kws[1]]` the values inside it; otherwise the values the scan
/// keeps for `kws[0]`, a value hitting when it contains one of the keywords,
/// case ignored.
pub fn find_rows_in_sorted(row_values: &[(u32, String)], keywords: &[String], is_range: bool) -> (r: HashSet<u32>)
    requires
        sorted_texts(pair_texts(row_values@)),
        row_values@.len() > 0 ==> keywords@.len() > 0,
    ensures
        is_range && keywords@.len() == 2 ==> r@ == numbers_where(
            row_values@,
            |i: int| text_le(texts(keywords@)[0], pair_texts(row_values@)[i]) && text_le(
                pair_texts(row_values@)[i],
                texts(keywords@)[1],
            ),
        ),
        !(is_range && keywords@.len() == 2) ==> r@ == numbers_where(
            row_values@,
            |i: int| scan_keeps(
                pair_texts(row_values@),
                texts(keywords@)[0],
                fuzzy_hits(pair_texts(row_values@), texts(keywords@)),
                i,
            ),
        ),
{
    let ghost v = pair_texts(row_values@);
    let ghost kws = texts(keywords@);
    let n = row_values.len();
    if n == 0 {
        let r: HashSet<u32> = HashSet::new();
        assert(r@ =~= numbers_where(
            row_values@,
            |i: int| text_le(kws[0], v[i]) && text_le(v[i], kws[1]),
        ));
        assert(r@ =~= numbers_where(
            row_values@,
            |i: int| scan_keeps(v, kws[0], fuzzy_hits(v, kws), i),
        ));
        return r;
    }
    let vals = pair_chars(row_values);
    assert(vals@.len() == views(vals@).len());
    if is_range && keywords.len() == 2 {
        let lo_kw = chars_of(keywords[0].as_str());
        let hi_kw = chars_of(keywords[1].as_str());
        assert(lo_kw@ == kws[0] && hi_kw@ == kws[1]);
        let left = lower_bound(&vals, lo_kw.as_slice());
        let mut m: Vec<bool> = Vec::new();
        let mut q: usize = 0;
        while q < left
            invariant
                q <= left <= n,
                m@.len() == q,
                forall|k: int| 0 <= k < q ==> !m@[k],
            decreases left - q,
        {
            m.push(false);
            q += 1;
        }
        let mut i: usize = left;
        while i < n
            invariant
                views(vals@) == v,
                n == v.len(),
                sorted_texts(v),
                left <= i <= n,
                m@.len() == i,
                forall|k: int| 0 <= k < left ==> text_lt(v[k], lo_kw@),
                forall|k: int| left <= k < n ==> !text_lt(v[k], lo_kw@),
                forall|k: int| 0 <= k < i ==> m@[k] == (text_le(lo_kw@, v[k]) && text_le(v[k], hi_kw@)),
            decreases n - i,
        {
            assert(vals@[i as int]@ == v[i as int]);
            let inside = !text_less(hi_kw.as_slice(), vals[i].as_slice());
            m.push(inside);
            i += 1;
        }
        let r = numbers_flagged(row_values, &m, true);
        proof {
            lemma_numbers_where_ext(
                row_values@,
                |i: int| m@[i] == true,
                |i: int| text_le(kws[0], v[i]) && text_le(v[i], kws[1]),
            );
        }
        r
    } else {
        let kw0 = chars_of(keywords[0].as_str());
        let mut hits: Vec<bool> = Vec::new();
        let mut i: usize = 0;
        while i < n
            invariant
                views(vals@) == v,
                v == pair_texts(row_values@),
                n == v.len(),
                n == row_values@.len(),
                kws == texts(keywords@),
                i <= n,
                hits@ == fuzzy_hits(v, kws).take(i as int),
            decreases n - i,
        {
            let mut hit = false;
            let mut k: usize = 0;
            while k < keywords.len()
                invariant
                    kws == texts(keywords@),
                    v == pair_texts(row_values@),
                    i < n,
                    n == v.len(),
                    n == row_values@.len(),
                    k <= keywords@.len(),
                    hit == exists|q: int| 0 <= q < k && fuzzy_hit(v[i as int], #[trigger] kws[q]),
                decreases keywords@.len() - k,
            {
                assert(kws[k as int] == keywords@[k as int]@);
                assert(row_values@[i as int].1@ == v[i as int]);
                if row_fuzzy_match(row_values[i].1.as_str(), keywords[k].as_str()) {
                    hit = true;
                }
                k += 1;
            }
            hits.push(hit);
            i += 1;
            assert(hits@ =~= fuzzy_hits(v, kws).take(i as int));
        }
        assert(hits@ =~= fuzzy_hits(v, kws));
        assert(kw0@ == kws[0]);
        let m = sorted_scan(&vals, kw0.as_slice(), &hits);
        let r = numbers_flagged(row_values, &m, true);
        proof {
            lemma_numbers_where_ext(
                row_values@,
                |i: int| m@[i] == true,
                |i: int| scan_keeps(v, kws[0], fuzzy_hits(v, kws), i),
            );
        }
        r
    }
}

} // verus!
