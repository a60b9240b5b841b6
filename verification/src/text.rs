//! Character-level helpers shared by the parsers: whitespace trimming, decimal
//! numbers, ASCII case folding, and conversions between `str`, `String` and
//! `Vec<char>`.

use vstd::prelude::*;

verus! {

broadcast use vstd::string::group_string_axioms;

// ---------------------------------------------------------------------------
// Conversions
// ---------------------------------------------------------------------------

/// The characters of a string slice, in order.
pub fn chars_of(s: &str) -> (v: Vec<char>)
    ensures
        v@ == s@,
{
    let mut v: Vec<char> = Vec::new();
    for c in it: s.chars()
        invariant
            v@ == it.seq().take(it.index() as int),
    {
        v.push(c);
    }
    v
}

/// Appends one character to a `String` (`String::push`).
#[verifier::external_body]
pub(crate) fn string_push(s: &mut String, c: char)
    ensures
        final(s)@ == old(s)@.push(c),
{
    s.push(c);
}

/// Builds a `String` holding exactly the given characters.
pub fn string_from(v: &[char]) -> (s: String)
    ensures
        s@ == v@,
{
    let mut s = String::new();
    let mut i: usize = 0;
    while i < v.len()
        invariant
            i <= v@.len(),
            s@ == v@.take(i as int),
        decreases v@.len() - i,
    {
        string_push(&mut s, v[i]);
        i += 1;
        assert(s@ =~= v@.take(i as int));
    }
    assert(v@.take(v@.len() as int) =~= v@);
    s
}

/// A copy of a `String`.
pub fn string_clone(s: &String) -> (r: String)
    ensures
        r@ == s@,
{
    s.clone()
}

/// Appends a slice of characters to a vector.
pub fn push_all(out: &mut Vec<char>, s: &[char])
    ensures
        final(out)@ == old(out)@ + s@,
{
    let mut i: usize = 0;
    while i < s.len()
        invariant
            i <= s@.len(),
            out@ == old(out)@ + s@.take(i as int),
        decreases s@.len() - i,
    {
        out.push(s[i]);
        i += 1;
        assert(out@ =~= old(out)@ + s@.take(i as int));
    }
    assert(s@.take(s@.len() as int) =~= s@);
}

/// Appends the characters of a string slice to a vector.
pub fn push_str(out: &mut Vec<char>, s: &str)
    ensures
        final(out)@ == old(out)@ + s@,
{
    let v = chars_of(s);
    push_all(out, v.as_slice());
}

// ---------------------------------------------------------------------------
// Whitespace
// ---------------------------------------------------------------------------

/// Unicode `White_Space`, the set that `char::is_whitespace` and `str::trim` use.
pub open spec fn is_ws(c: char) -> bool {
    ||| ('\u{9}' <= c && c <= '\u{d}')
    ||| c == ' '
    ||| c == '\u{85}'
    ||| c == '\u{a0}'
    ||| c == '\u{1680}'
    ||| ('\u{2000}' <= c && c <= '\u{200a}')
    ||| c == '\u{2028}'
    ||| c == '\u{2029}'
    ||| c == '\u{202f}'
    ||| c == '\u{205f}'
    ||| c == '\u{3000}'
}

pub fn is_ws_exec(c: char) -> (r: bool)
    ensures
        r == is_ws(c),
{
    ('\u{9}' <= c && c <= '\u{d}') || c == ' ' || c == '\u{85}' || c == '\u{a0}' || c
        == '\u{1680}' || ('\u{2000}' <= c && c <= '\u{200a}') || c == '\u{2028}' || c
        == '\u{2029}' || c == '\u{202f}' || c == '\u{205f}' || c == '\u{3000}'
}

/// `s` without its leading whitespace.
pub open spec fn trim_start(s: Seq<char>) -> Seq<char>
    decreases s.len(),
{
    if s.len() > 0 && is_ws(s[0]) {
        trim_start(s.drop_first())
    } else {
        s
    }
}

/// `s` without its trailing whitespace.
pub open spec fn trim_end(s: Seq<char>) -> Seq<char>
    decreases s.len(),
{
    if s.len() > 0 && is_ws(s.last()) {
        trim_end(s.drop_last())
    } else {
        s
    }
}

/// `s` without leading and trailing whitespace, as `str::trim` gives it.
pub open spec fn trim(s: Seq<char>) -> Seq<char> {
    trim_end(trim_start(s))
}

/// Index of the first non-whitespace character of `s[lo..hi]` (or `hi`).
pub fn skip_ws_from(s: &[char], lo: usize, hi: usize) -> (k: usize)
    requires
        lo <= hi <= s@.len(),
    ensures
        lo <= k <= hi,
        trim_start(s@.subrange(lo as int, hi as int)) == s@.subrange(k as int, hi as int),
{
    let mut k = lo;
    while k < hi && is_ws_exec(s[k])
        invariant
            lo <= k <= hi <= s@.len(),
            trim_start(s@.subrange(lo as int, hi as int)) == trim_start(
                s@.subrange(k as int, hi as int),
            ),
        decreases hi - k,
    {
        assert(s@.subrange(k as int, hi as int).drop_first() =~= s@.subrange(
            k + 1,
            hi as int,
        ));
        k += 1;
    }
    k
}

/// One past the last non-whitespace character of `s[lo..hi]` (or `lo`).
pub fn skip_ws_back(s: &[char], lo: usize, hi: usize) -> (k: usize)
    requires
        lo <= hi <= s@.len(),
    ensures
        lo <= k <= hi,
        trim_end(s@.subrange(lo as int, hi as int)) == s@.subrange(lo as int, k as int),
{
    let mut k = hi;
    while k > lo && is_ws_exec(s[k - 1])
        invariant
            lo <= k <= hi <= s@.len(),
            trim_end(s@.subrange(lo as int, hi as int)) == trim_end(
                s@.subrange(lo as int, k as int),
            ),
        decreases k - lo,
    {
        assert(s@.subrange(lo as int, k as int).drop_last() =~= s@.subrange(
            lo as int,
            k - 1,
        ));
        k -= 1;
    }
    k
}

/// Bounds `(a, b)` such that `s[a..b]` is `s[lo..hi]` trimmed.
pub fn trim_bounds(s: &[char], lo: usize, hi: usize) -> (r: (usize, usize))
    requires
        lo <= hi <= s@.len(),
    ensures
        lo <= r.0 <= r.1 <= hi,
        trim(s@.subrange(lo as int, hi as int)) == s@.subrange(r.0 as int, r.1 as int),
{
    let a = skip_ws_from(s, lo, hi);
    let b = skip_ws_back(s, a, hi);
    (a, b)
}

/// A copy of `s[lo..hi]`.
pub fn slice_to_vec(s: &[char], lo: usize, hi: usize) -> (v: Vec<char>)
    requires
        lo <= hi <= s@.len(),
    ensures
        v@ == s@.subrange(lo as int, hi as int),
{
    let mut v: Vec<char> = Vec::new();
    let mut i = lo;
    while i < hi
        invariant
            lo <= i <= hi <= s@.len(),
            v@ == s@.subrange(lo as int, i as int),
        decreases hi - i,
    {
        v.push(s[i]);
        i += 1;
        assert(v@ =~= s@.subrange(lo as int, i as int));
    }
    v
}

/// `s` trimmed, as a new vector.
pub fn trim_vec(s: &[char]) -> (v: Vec<char>)
    ensures
        v@ == trim(s@),
{
    let (a, b) = trim_bounds(s, 0, s.len());
    assert(s@.subrange(0, s@.len() as int) =~= s@);
    slice_to_vec(s, a, b)
}

// ---------------------------------------------------------------------------
// ASCII classes and case
// ---------------------------------------------------------------------------

pub open spec fn is_digit(c: char) -> bool {
    '0' <= c && c <= '9'
}

pub open spec fn is_upper(c: char) -> bool {
    'A' <= c && c <= 'Z'
}

pub open spec fn is_lower(c: char) -> bool {
    'a' <= c && c <= 'z'
}

pub open spec fn is_alpha(c: char) -> bool {
    is_upper(c) || is_lower(c)
}

/// `char::to_ascii_uppercase`.
pub open spec fn upper(c: char) -> char {
    if is_lower(c) {
        ((c as u32) - 32) as char
    } else {
        c
    }
}

/// `char::to_ascii_lowercase`.
pub open spec fn lower(c: char) -> char {
    if is_upper(c) {
        ((c as u32) + 32) as char
    } else {
        c
    }
}

pub fn is_digit_exec(c: char) -> (r: bool)
    ensures
        r == is_digit(c),
{
    '0' <= c && c <= '9'
}

pub fn is_alpha_exec(c: char) -> (r: bool)
    ensures
        r == is_alpha(c),
{
    ('A' <= c && c <= 'Z') || ('a' <= c && c <= 'z')
}

pub fn upper_exec(c: char) -> (r: char)
    ensures
        r == upper(c),
{
    if 'a' <= c && c <= 'z' {
        let n: u32 = (c as u32) - 32;
        assert(0x41 <= n <= 0x5a);
        char_from_ascii(n)
    } else {
        c
    }
}

pub fn lower_exec(c: char) -> (r: char)
    ensures
        r == lower(c),
{
    if 'A' <= c && c <= 'Z' {
        let n: u32 = (c as u32) + 32;
        char_from_ascii(n)
    } else {
        c
    }
}

/// The character with a given ASCII code.
pub fn char_from_ascii(n: u32) -> (c: char)
    requires
        n < 128,
    ensures
        c == n as char,
        c as u32 == n,
{
    let b: u8 = n as u8;
    b as char
}

/// ASCII lower-case of every character of `s`.
pub open spec fn lower_seq(s: Seq<char>) -> Seq<char> {
    s.map_values(|c: char| lower(c))
}

/// ASCII upper-case of every character of `s`.
pub open spec fn upper_seq(s: Seq<char>) -> Seq<char> {
    s.map_values(|c: char| upper(c))
}

// ---------------------------------------------------------------------------
// Decimal numbers
// ---------------------------------------------------------------------------

/// Value of a sequence of decimal digits.
pub open spec fn digits_value(s: Seq<char>) -> int
    decreases s.len(),
{
    if s.len() == 0 {
        0
    } else {
        digits_value(s.drop_last()) * 10 + (s.last() as int - '0' as int)
    }
}

pub open spec fn all_digits(s: Seq<char>) -> bool {
    forall|i: int| 0 <= i < s.len() ==> is_digit(#[trigger] s[i])
}

/// What `u64::from_str` / `u32::from_str` read before the range check: an
/// optional `+` and at least one decimal digit, nothing else.
pub open spec fn parse_uint(s: Seq<char>) -> Option<int> {
    let d = if s.len() > 0 && s[0] == '+' {
        s.drop_first()
    } else {
        s
    };
    if d.len() > 0 && all_digits(d) {
        Some(digits_value(d))
    } else {
        None
    }
}

/// `u32::from_str`.
pub open spec fn parse_u32(s: Seq<char>) -> Option<u32> {
    match parse_uint(s) {
        Some(v) => if v <= u32::MAX {
            Some(v as u32)
        } else {
            None
        },
        None => None,
    }
}

/// `u64::from_str`.
pub open spec fn parse_u64(s: Seq<char>) -> Option<u64> {
    match parse_uint(s) {
        Some(v) => if v <= u64::MAX {
            Some(v as u64)
        } else {
            None
        },
        None => None,
    }
}

pub proof fn lemma_parse_uint_nonneg(s: Seq<char>)
    ensures
        parse_uint(s) matches Some(v) ==> v >= 0,
{
    let d = if s.len() > 0 && s[0] == '+' {
        s.drop_first()
    } else {
        s
    };
    if d.len() > 0 && all_digits(d) {
        lemma_digits_value_nonneg(d);
    }
}

pub proof fn lemma_digits_value_nonneg(s: Seq<char>)
    requires
        all_digits(s),
    ensures
        digits_value(s) >= 0,
    decreases s.len(),
{
    if s.len() > 0 {
        assert(all_digits(s.drop_last()));
        lemma_digits_value_nonneg(s.drop_last());
    }
}

/// Appending digits never makes the value smaller.
pub proof fn lemma_digits_value_prefix(s: Seq<char>, k: int)
    requires
        all_digits(s),
        0 <= k <= s.len(),
    ensures
        digits_value(s.take(k)) <= digits_value(s),
    decreases s.len(),
{
    if k < s.len() {
        assert(all_digits(s.drop_last()));
        lemma_digits_value_prefix(s.drop_last(), k);
        assert(s.drop_last().take(k) =~= s.take(k));
        lemma_digits_value_nonneg(s.drop_last());
    } else {
        assert(s.take(k) =~= s);
    }
}

/// Reads an unsigned decimal number from `s[lo..hi]` (the whole range, as
/// `from_str` does), `None` when it is malformed or exceeds `max`.
pub fn parse_uint_range(s: &[char], lo: usize, hi: usize, max: u64) -> (r: Option<u64>)
    requires
        lo <= hi <= s@.len(),
    ensures
        r == (match parse_uint(s@.subrange(lo as int, hi as int)) {
            Some(v) => if v <= max {
                Some(v as u64)
            } else {
                None::<u64>
            },
            None => None,
        }),
{
    let ghost full = s@.subrange(lo as int, hi as int);
    let mut i = lo;
    if i < hi && s[i] == '+' {
        i += 1;
    }
    let start = i;
    let ghost d = s@.subrange(start as int, hi as int);
    assert(d =~= (if full.len() > 0 && full[0] == '+' {
        full.drop_first()
    } else {
        full
    }));
    if i == hi {
        assert(d.len() == 0);
        return None;
    }
    let mut acc: u64 = 0;
    let mut over = false;
    while i < hi
        invariant
            lo <= start <= i <= hi <= s@.len(),
            d == s@.subrange(start as int, hi as int),
            full == s@.subrange(lo as int, hi as int),
            d == (if full.len() > 0 && full[0] == '+' {
                full.drop_first()
            } else {
                full
            }),
            d.len() > 0,
            all_digits(s@.subrange(start as int, i as int)),
            over ==> digits_value(s@.subrange(start as int, i as int)) > max,
            !over ==> acc as int == digits_value(s@.subrange(start as int, i as int)) && acc <= max,
        decreases hi - i,
    {
        let c = s[i];
        if !is_digit_exec(c) {
            assert(d[i - start] == s@[i as int]);
            return None;
        }
        let ghost pre = s@.subrange(start as int, i as int);
        let ghost nxt = s@.subrange(start as int, i + 1);
        assert(nxt.drop_last() =~= pre);
        proof {
            lemma_digits_value_nonneg(pre);
        }
        let dv: u64 = (c as u32 - '0' as u32) as u64;
        if !over {
            let nv: u128 = acc as u128 * 10 + dv as u128;
            if nv > max as u128 {
                over = true;
            } else {
                acc = nv as u64;
            }
        }
        i += 1;
        assert(all_digits(s@.subrange(start as int, i as int))) by {
            assert forall|j: int| 0 <= j < nxt.len() implies is_digit(#[trigger] nxt[j]) by {
                if j < pre.len() {
                    assert(nxt[j] == pre[j]);
                }
            }
        }
    }
    assert(s@.subrange(start as int, hi as int) =~= d);
    if over {
        None
    } else {
        Some(acc)
    }
}

/// `u32::from_str` on `s[lo..hi]`.
pub fn parse_u32_range(s: &[char], lo: usize, hi: usize) -> (r: Option<u32>)
    requires
        lo <= hi <= s@.len(),
    ensures
        r == parse_u32(s@.subrange(lo as int, hi as int)),
{
    match parse_uint_range(s, lo, hi, u32::MAX as u64) {
        Some(v) => {
            let ghost pu = parse_uint(s@.subrange(lo as int, hi as int));
            proof {
                lemma_parse_uint_nonneg(s@.subrange(lo as int, hi as int));
            }
            assert(pu is Some && pu->0 <= u32::MAX && v as int == pu->0);
            Some(v as u32)
        },
        None => None,
    }
}

/// `u64::from_str` on `s[lo..hi]`.
pub fn parse_u64_range(s: &[char], lo: usize, hi: usize) -> (r: Option<u64>)
    requires
        lo <= hi <= s@.len(),
    ensures
        r == parse_u64(s@.subrange(lo as int, hi as int)),
{
    parse_uint_range(s, lo, hi, u64::MAX)
}

/// The digit character for `d < 10`.
pub open spec fn digit_char(d: int) -> char {
    (d + '0' as int) as char
}

/// Decimal representation of `n`, without leading zeros (`"0"` for zero).
pub open spec fn dec(n: nat) -> Seq<char>
    decreases n,
{
    if n < 10 {
        seq![digit_char(n as int)]
    } else {
        dec(n / 10).push(digit_char((n % 10) as int))
    }
}

/// `dec(n)` left-padded with zeros to at least `w` characters (`{:0w}`).
pub open spec fn dec_pad(n: nat, w: nat) -> Seq<char> {
    let d = dec(n);
    if d.len() >= w {
        d
    } else {
        Seq::new((w - d.len()) as nat, |i: int| '0') + d
    }
}

/// Appends the decimal representation of `n`.
pub fn push_dec(out: &mut Vec<char>, n: u64)
    ensures
        final(out)@ == old(out)@ + dec(n as nat),
    decreases n,
{
    if n >= 10 {
        push_dec(out, n / 10);
        let d: u64 = n % 10;
        out.push(char_from_ascii((d + 48) as u32));
    } else {
        out.push(char_from_ascii((n + 48) as u32));
    }
}

pub proof fn lemma_dec_len_pos(n: nat)
    ensures
        dec(n).len() >= 1,
    decreases n,
{
    if n >= 10 {
        lemma_dec_len_pos(n / 10);
    }
}

/// Appends `n` zero-padded to `w` characters.
pub fn push_dec_pad(out: &mut Vec<char>, n: u64, w: usize)
    ensures
        final(out)@ == old(out)@ + dec_pad(n as nat, w as nat),
{
    let mut d: Vec<char> = Vec::new();
    push_dec(&mut d, n);
    assert(d@ =~= dec(n as nat));
    if d.len() < w {
        let mut k: usize = 0;
        let pad = w - d.len();
        while k < pad
            invariant
                k <= pad,
                out@ == old(out)@ + Seq::new(k as nat, |i: int| '0'),
            decreases pad - k,
        {
            out.push('0');
            k += 1;
            assert(out@ =~= old(out)@ + Seq::new(k as nat, |i: int| '0'));
        }
        push_all(out, d.as_slice());
        assert(out@ =~= old(out)@ + dec_pad(n as nat, w as nat));
    } else {
        push_all(out, d.as_slice());
    }
}

pub proof fn lemma_digit_char(x: int)
    requires
        0 <= x < 10,
    ensures
        digit_char(x) as int == x + 48,
        is_digit(digit_char(x)),
{
    assert(0 <= x + 48 < 0xd800);
}

/// The decimal digits of `n` read back give `n`.
pub proof fn lemma_dec_roundtrip(n: nat)
    ensures
        all_digits(dec(n)),
        digits_value(dec(n)) == n,
        dec(n)[0] != '+',
    decreases n,
{
    lemma_digit_char((n % 10) as int);
    if n < 10 {
        lemma_digit_char(n as int);
        assert(dec(n).drop_last() =~= Seq::<char>::empty());
        assert(digits_value(Seq::<char>::empty()) == 0);
        assert(digits_value(dec(n)) == 0 * 10 + (dec(n).last() as int - '0' as int));
    }
    if n >= 10 {
        lemma_dec_roundtrip(n / 10);
        let p = dec(n / 10);
        let s = dec(n);
        assert(s.drop_last() =~= p);
        assert(s.last() == digit_char((n % 10) as int));
        assert(digits_value(s) == digits_value(p) * 10 + (n % 10));
        assert forall|i: int| 0 <= i < s.len() implies is_digit(#[trigger] s[i]) by {
            if i < p.len() {
                assert(s[i] == p[i]);
            }
        }
    }
}

/// Reading back the decimal representation of a `u64` gives the number.
pub proof fn lemma_parse_u64_dec(n: u64)
    ensures
        parse_u64(dec(n as nat)) == Some(n),
{
    lemma_dec_roundtrip(n as nat);
}

/// Reading back the decimal representation of a `u32` gives the number.
pub proof fn lemma_parse_u32_dec(n: u32)
    ensures
        parse_u32(dec(n as nat)) == Some(n),
{
    lemma_dec_roundtrip(n as nat);
}

// ---------------------------------------------------------------------------
// Searching
// ---------------------------------------------------------------------------

/// Index of the first occurrence of `c` in `s[lo..hi]`, if any.
pub fn find_char(s: &[char], lo: usize, hi: usize, c: char) -> (r: Option<usize>)
    requires
        lo <= hi <= s@.len(),
    ensures
        match r {
            Some(k) => lo <= k < hi && s@[k as int] == c && forall|j: int|
                lo <= j < k ==> s@[j] != c,
            None => forall|j: int| lo <= j < hi ==> s@[j] != c,
        },
{
    let mut k = lo;
    while k < hi
        invariant
            lo <= k <= hi <= s@.len(),
            forall|j: int| lo <= j < k ==> s@[j] != c,
        decreases hi - k,
    {
        if s[k] == c {
            return Some(k);
        }
        k += 1;
    }
    None
}

/// Whether `c` occurs in `s[lo..hi]`.
pub fn contains_char(s: &[char], lo: usize, hi: usize, c: char) -> (r: bool)
    requires
        lo <= hi <= s@.len(),
    ensures
        r == s@.subrange(lo as int, hi as int).contains(c),
{
    let f = find_char(s, lo, hi, c);
    match f {
        Some(k) => {
            assert(s@.subrange(lo as int, hi as int)[k - lo] == c);
            true
        },
        None => {
            assert(!s@.subrange(lo as int, hi as int).contains(c)) by {
                if s@.subrange(lo as int, hi as int).contains(c) {
                    let j = choose|j: int|
                        0 <= j < hi - lo && s@.subrange(lo as int, hi as int)[j] == c;
                    assert(s@[lo + j] == c);
                }
            }
            false
        },
    }
}

/// Whether two character slices are equal.
pub fn seq_eq(a: &[char], b: &[char]) -> (r: bool)
    ensures
        r == (a@ == b@),
{
    if a.len() != b.len() {
        return false;
    }
    let mut i: usize = 0;
    while i < a.len()
        invariant
            a@.len() == b@.len(),
            i <= a@.len(),
            forall|j: int| 0 <= j < i ==> a@[j] == b@[j],
        decreases a@.len() - i,
    {
        if a[i] != b[i] {
            return false;
        }
        i += 1;
    }
    assert(a@ =~= b@);
    true
}

} // verus!

verus! {

/// Index of the first `c` in `s`.
pub open spec fn find_first(s: Seq<char>, c: char) -> Option<int>
    decreases s.len(),
{
    if s.len() == 0 {
        None
    } else if s[0] == c {
        Some(0)
    } else {
        match find_first(s.drop_first(), c) {
            Some(i) => Some(i + 1),
            None => None,
        }
    }
}

pub proof fn lemma_find_first(s: Seq<char>, c: char)
    ensures
        match find_first(s, c) {
            Some(i) => 0 <= i < s.len() && s[i] == c && forall|j: int| 0 <= j < i ==> s[j] != c,
            None => forall|j: int| 0 <= j < s.len() ==> s[j] != c,
        },
    decreases s.len(),
{
    if s.len() > 0 && s[0] != c {
        lemma_find_first(s.drop_first(), c);
        match find_first(s.drop_first(), c) {
            Some(i) => {
                assert forall|j: int| 0 <= j < i + 1 implies s[j] != c by {
                    if j > 0 {
                        assert(s[j] == s.drop_first()[j - 1]);
                    }
                }
            },
            None => {
                assert forall|j: int| 0 <= j < s.len() implies s[j] != c by {
                    if j > 0 {
                        assert(s[j] == s.drop_first()[j - 1]);
                    }
                }
            },
        }
    }
}

/// The first `c` in `s[lo..hi]`, as an index of `s`.
pub fn find_in(s: &[char], lo: usize, hi: usize, c: char) -> (r: Option<usize>)
    requires
        lo <= hi <= s@.len(),
    ensures
        match find_first(s@.subrange(lo as int, hi as int), c) {
            Some(i) => r == Some((lo + i) as usize),
            None => r is None,
        },
{
    let ghost sub = s@.subrange(lo as int, hi as int);
    proof {
        lemma_find_first(sub, c);
    }
    let r = find_char(s, lo, hi, c);
    proof {
        match find_first(sub, c) {
            Some(i) => {
                assert(sub[i] == s@[lo + i]);
                match r {
                    Some(k) => {
                        assert(sub[k - lo] == c);
                        if k - lo < i {
                        } else if k - lo > i {
                            assert(s@[lo + i] == c);
                        }
                    },
                    None => {
                        assert(s@[lo + i] == c);
                    },
                }
            },
            None => {
                match r {
                    Some(k) => {
                        assert(sub[k - lo] == s@[k as int]);
                    },
                    None => {},
                }
            },
        }
    }
    r
}

/// Length of the run of ASCII letters at the start of `s`.
pub open spec fn alpha_prefix_len(s: Seq<char>) -> int
    decreases s.len(),
{
    if s.len() > 0 && is_alpha(s[0]) {
        1 + alpha_prefix_len(s.drop_first())
    } else {
        0
    }
}

pub proof fn lemma_alpha_prefix_len(s: Seq<char>)
    ensures
        0 <= alpha_prefix_len(s) <= s.len(),
        forall|j: int| 0 <= j < alpha_prefix_len(s) ==> is_alpha(#[trigger] s[j]),
        alpha_prefix_len(s) < s.len() ==> !is_alpha(s[alpha_prefix_len(s)]),
    decreases s.len(),
{
    if s.len() > 0 && is_alpha(s[0]) {
        lemma_alpha_prefix_len(s.drop_first());
        assert forall|j: int| 0 <= j < alpha_prefix_len(s) implies is_alpha(#[trigger] s[j]) by {
            if j > 0 {
                assert(s[j] == s.drop_first()[j - 1]);
            }
        }
        if alpha_prefix_len(s) < s.len() {
            assert(s[alpha_prefix_len(s)] == s.drop_first()[alpha_prefix_len(s.drop_first())]);
        }
    }
}

/// `s` split at every `c` (as `str::split`).
pub open spec fn split_on(s: Seq<char>, c: char) -> Seq<Seq<char>>
    decreases s.len(),
{
    match find_first(s, c) {
        None => seq![s],
        Some(i) => if 0 <= i < s.len() {
            seq![s.take(i)] + split_on(s.skip(i + 1), c)
        } else {
            seq![s]
        },
    }
}

/// `l` without one trailing carriage return.
pub open spec fn strip_cr(l: Seq<char>) -> Seq<char> {
    if l.len() > 0 && l.last() == '\r' {
        l.drop_last()
    } else {
        l
    }
}

/// The lines of `s` as `str::lines` gives them: split after each `\n`, a
/// `\r` right before the `\n` dropped, no final empty line.
pub open spec fn lines_of(s: Seq<char>) -> Seq<Seq<char>>
    decreases s.len(),
{
    if s.len() == 0 {
        Seq::empty()
    } else {
        match find_first(s, '\n') {
            None => seq![s],
            Some(i) => if 0 <= i < s.len() {
                seq![strip_cr(s.take(i))] + lines_of(s.skip(i + 1))
            } else {
                seq![s]
            },
        }
    }
}

/// The first line of `t[pos..]`: its bounds (line ending excluded) and where
/// the next one starts.
pub fn next_line(t: &[char], pos: usize) -> (r: (usize, usize, usize))
    requires
        pos < t@.len(),
    ensures
        r.0 == pos,
        pos <= r.1 <= r.2 <= t@.len(),
        r.2 > pos,
        lines_of(t@.skip(pos as int)) == seq![t@.subrange(r.0 as int, r.1 as int)] + lines_of(
            t@.skip(r.2 as int),
        ),
{
    let n = t.len();
    let ghost rest = t@.skip(pos as int);
    assert(t@.subrange(pos as int, n as int) =~= rest);
    proof {
        lemma_find_first(rest, '\n');
    }
    match find_in(t, pos, n, '\n') {
        Some(j) => {
            let hi = if j > pos && t[j - 1] == '\r' {
                j - 1
            } else {
                j
            };
            proof {
                assert(rest.take(j - pos) =~= t@.subrange(pos as int, j as int));
                assert(rest.skip(j - pos + 1) =~= t@.skip(j + 1));
                if j > pos && t@[j - 1] == '\r' {
                    assert(t@.subrange(pos as int, j as int).drop_last() =~= t@.subrange(
                        pos as int,
                        hi as int,
                    ));
                }
                assert(strip_cr(rest.take(j - pos)) == t@.subrange(pos as int, hi as int));
            }
            (pos, hi, j + 1)
        },
        None => {
            proof {
                assert(t@.skip(n as int) =~= Seq::<char>::empty());
                assert(rest =~= t@.subrange(pos as int, n as int));
                assert(seq![rest] + Seq::<Seq<char>>::empty() =~= seq![rest]);
            }
            (pos, n, n)
        },
    }
}

/// One step of walking the pieces of `t` split at `c`: the piece starting at
/// `pos` ends at `end` (the next `c`, or the end of `t`).
pub proof fn lemma_split_step(t: Seq<char>, c: char, pos: int, end: int)
    requires
        0 <= pos <= end <= t.len(),
        match find_first(t.subrange(pos, t.len() as int), c) {
            Some(i) => end == pos + i && end < t.len(),
            None => end == t.len(),
        },
    ensures
        split_on(t.skip(pos), c) == seq![t.subrange(pos, end)] + (if end < t.len() {
            split_on(t.skip(end + 1), c)
        } else {
            Seq::empty()
        }),
{
    let rest = t.skip(pos);
    assert(t.subrange(pos, t.len() as int) =~= rest);
    lemma_find_first(rest, c);
    let piece = t.subrange(pos, end);
    if end < t.len() {
        assert(rest.take(end - pos) =~= piece);
        assert(rest.skip(end - pos + 1) =~= t.skip(end + 1));
    } else {
        assert(piece =~= rest);
        assert(seq![piece] + Seq::<Seq<char>>::empty() =~= seq![piece]);
    }
}

/// The end of the piece of `t` that starts at `pos` when split at `c`.
pub fn piece_end(t: &[char], pos: usize, c: char) -> (end: usize)
    requires
        pos <= t@.len(),
    ensures
        pos <= end <= t@.len(),
        match find_first(t@.subrange(pos as int, t@.len() as int), c) {
            Some(i) => end == pos + i && end < t@.len(),
            None => end == t@.len(),
        },
{
    proof {
        lemma_find_first(t@.subrange(pos as int, t@.len() as int), c);
    }
    match find_in(t, pos, t.len(), c) {
        Some(j) => j,
        None => t.len(),
    }
}

/// Name for what `str::to_lowercase` gives (full Unicode lower-casing).
pub uninterp spec fn lowercase_of(s: Seq<char>) -> Seq<char>;

/// `str::to_lowercase`. Claims only that the result is the named
/// lower-casing of the text.
#[verifier::external_body]
pub fn to_lowercase(s: &str) -> (r: String)
    ensures
        r@ == lowercase_of(s@),
{
    s.to_lowercase()
}

/// Name for what `str::to_uppercase` gives (full Unicode upper-casing).
pub uninterp spec fn uppercase_of(s: Seq<char>) -> Seq<char>;

/// `str::to_uppercase`. Claims only that the result is the named
/// upper-casing of the text.
#[verifier::external_body]
pub fn to_uppercase(s: &str) -> (r: String)
    ensures
        r@ == uppercase_of(s@),
{
    s.to_uppercase()
}

/// Name for what `char::is_alphabetic` answers (the Unicode `Alphabetic`
/// property).
pub uninterp spec fn alphabetic(c: char) -> bool;

/// `char::is_alphabetic`. Claims only that the answer is the named property
/// of the character.
#[verifier::external_body]
pub fn is_alphabetic(c: char) -> (r: bool)
    ensures
        r == alphabetic(c),
{
    c.is_alphabetic()
}

/// Whether `k` occurs in `s` (as `str::contains` with a string pattern; an
/// empty pattern occurs everywhere).
pub open spec fn has_substr(s: Seq<char>, k: Seq<char>) -> bool {
    exists|i: int| 0 <= i && i + k.len() <= s.len() && #[trigger] s.subrange(i, i + k.len()) == k
}

/// Whether `k` occurs at `s[i..]`.
fn occurs_at(s: &[char], k: &[char], i: usize) -> (r: bool)
    requires
        i + k@.len() <= s@.len(),
    ensures
        r == (s@.subrange(i as int, i + k@.len()) == k@),
{
    let n = s.len();
    let mut j: usize = 0;
    while j < k.len()
        invariant
            n == s@.len(),
            i + k@.len() <= s@.len(),
            j <= k@.len(),
            forall|q: int| 0 <= q < j ==> s@[i + q] == k@[q],
        decreases k@.len() - j,
    {
        if s[i + j] != k[j] {
            assert(s@.subrange(i as int, i + k@.len())[j as int] != k@[j as int]);
            return false;
        }
        j += 1;
    }
    assert(s@.subrange(i as int, i + k@.len()) =~= k@);
    true
}

/// Whether `k` occurs in `s`.
pub fn contains_seq(s: &[char], k: &[char]) -> (r: bool)
    ensures
        r == has_substr(s@, k@),
{
    if k.len() > s.len() {
        return false;
    }
    if k.len() == 0 {
        assert(s@.subrange(0int, 0int + k@.len()) =~= k@);
        return true;
    }
    let last = s.len() - k.len();
    let mut i: usize = 0;
    while i <= last
        invariant
            last == s@.len() - k@.len(),
            s@.len() <= usize::MAX,
            k@.len() >= 1,
            i <= last + 1,
            forall|q: int| 0 <= q < i ==> #[trigger] s@.subrange(q, q + k@.len()) != k@,
        decreases last + 1 - i,
    {
        if occurs_at(s, k, i) {
            return true;
        }
        i += 1;
    }
    false
}

/// Splitting gives at least one piece.
pub proof fn lemma_split_nonempty(s: Seq<char>, c: char)
    ensures
        split_on(s, c).len() >= 1,
{
}

/// Whether `c` occurs nowhere in `s`.
pub open spec fn lacks(s: Seq<char>, c: char) -> bool {
    forall|i: int| 0 <= i < s.len() ==> s[i] != c
}

/// The first `c` in `a`, `c`, `b` is the one after `a` when `a` has none.
pub proof fn lemma_find_at(a: Seq<char>, b: Seq<char>, c: char)
    requires
        lacks(a, c),
    ensures
        find_first(a + seq![c] + b, c) == Some(a.len() as int),
        (a + seq![c] + b).take(a.len() as int) == a,
        (a + seq![c] + b).skip(a.len() as int + 1) == b,
{
    let s = a + seq![c] + b;
    lemma_find_first(s, c);
    assert(s[a.len() as int] == c);
    assert(s.take(a.len() as int) =~= a);
    assert(s.skip(a.len() as int + 1) =~= b);
}

/// Splitting `a`, `c`, `b` at `c` gives `a`, then the pieces of `b`, when
/// `a` has no `c`.
pub proof fn lemma_split_cons(a: Seq<char>, b: Seq<char>, c: char)
    requires
        lacks(a, c),
    ensures
        split_on(a + seq![c] + b, c) == seq![a] + split_on(b, c),
{
    lemma_find_at(a, b, c);
}

/// A text without `c` splits into itself alone.
pub proof fn lemma_split_single(a: Seq<char>, c: char)
    requires
        lacks(a, c),
    ensures
        split_on(a, c) == seq![a],
{
    lemma_find_first(a, c);
}

} // verus!
