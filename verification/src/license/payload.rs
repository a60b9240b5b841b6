//! The signed content of a licence: a fixed text layout, so that the signed
//! bytes are the same when the code is made and when it is checked.

use vstd::prelude::*;
use crate::text::{
    chars_of, dec, find_first, find_in, lemma_find_first, lines_of, next_line, parse_u32,
    parse_u32_range, parse_u64, parse_u64_range, push_all, push_dec, slice_to_vec, string_from,
};

verus! {

broadcast use vstd::string::group_string_axioms;

/// The product a licence must name.
pub const PRODUCT_ID: &'static str = "umya-excel";

/// Length of the trial, in days.
pub const TRIAL_DAYS: u64 = 0;

/// The expiry day of a licence that never expires.
pub const EXPIRES_NEVER: u64 = 0;

/// Version of the payload layout.
pub const LICENSE_VERSION: u32 = 1;

/// What a payload is: version, product, machine code, day of issue, day of
/// expiry (0: never), edition, customer.
pub type PayloadView = (u32, Seq<char>, Seq<char>, u64, u64, Seq<char>, Seq<char>);

/// The content of a licence code.
#[derive(Debug)]
pub struct LicensePayload {
    pub version: u32,
    pub product: String,
    pub machine: String,
    pub issued_day: u64,
    pub expires_day: u64,
    pub edition: String,
    pub customer: String,
}

impl View for LicensePayload {
    type V = PayloadView;

    open spec fn view(&self) -> PayloadView {
        (
            self.version,
            self.product@,
            self.machine@,
            self.issued_day,
            self.expires_day,
            self.edition@,
            self.customer@,
        )
    }
}

/// The text that is signed: one `key=value` line per field, in a fixed
/// order, each ended by `\n`.
pub open spec fn payload_text(p: PayloadView) -> Seq<char> {
    joined(payload_lines(p))
}

/// The lines of a payload text.
pub open spec fn payload_lines(p: PayloadView) -> Seq<Seq<char>> {
    seq![
        seq!['v', '='] + dec(p.0 as nat),
        seq!['p', '='] + p.1,
        seq!['m', '='] + p.2,
        seq!['i', '='] + dec(p.3 as nat),
        seq!['e', '='] + dec(p.4 as nat),
        seq!['e', 'd', '='] + p.5,
        seq!['c', '='] + p.6,
    ]
}

/// Lines each followed by a line feed.
pub open spec fn joined(ls: Seq<Seq<char>>) -> Seq<char>
    decreases ls.len(),
{
    if ls.len() == 0 {
        Seq::empty()
    } else {
        ls[0] + seq!['\n'] + joined(ls.drop_first())
    }
}

pub proof fn lemma_joined_snoc(ls: Seq<Seq<char>>, l: Seq<char>)
    ensures
        joined(ls.push(l)) == joined(ls) + l + seq!['\n'],
    decreases ls.len(),
{
    if ls.len() == 0 {
        assert(ls.push(l).drop_first() =~= Seq::<Seq<char>>::empty());
        assert(ls.push(l)[0] == l);
        assert(joined(Seq::<Seq<char>>::empty()) == Seq::<char>::empty());
        assert(joined(ls.push(l)) == l + seq!['\n'] + Seq::<char>::empty());
        assert(joined(ls.push(l)) =~= joined(ls) + l + seq!['\n']);
    } else {
        lemma_joined_snoc(ls.drop_first(), l);
        assert(ls.push(l).drop_first() =~= ls.drop_first().push(l));
        assert(ls.push(l)[0] == ls[0]);
        let a = ls[0] + seq!['\n'];
        let j = joined(ls.drop_first());
        assert(joined(ls.push(l)) == a + (j + l + seq!['\n']));
        assert(joined(ls) == a + j);
        assert(a + (j + l + seq!['\n']) =~= (a + j) + l + seq!['\n']);
    }
}

/// One `key=value` line read into the payload; a line without `=` spoils
/// the whole text, a number that does not read too, an unknown key is passed
/// over.
pub open spec fn apply_field(p: PayloadView, line: Seq<char>) -> Option<PayloadView> {
    match find_first(line, '=') {
        None => None,
        Some(i) => {
            let k = line.take(i);
            let v = line.skip(i + 1);
            if k == seq!['v'] {
                match parse_u32(v) {
                    Some(x) => Some((x, p.1, p.2, p.3, p.4, p.5, p.6)),
                    None => None,
                }
            } else if k == seq!['p'] {
                Some((p.0, v, p.2, p.3, p.4, p.5, p.6))
            } else if k == seq!['m'] {
                Some((p.0, p.1, v, p.3, p.4, p.5, p.6))
            } else if k == seq!['i'] {
                match parse_u64(v) {
                    Some(x) => Some((p.0, p.1, p.2, x, p.4, p.5, p.6)),
                    None => None,
                }
            } else if k == seq!['e'] {
                match parse_u64(v) {
                    Some(x) => Some((p.0, p.1, p.2, p.3, x, p.5, p.6)),
                    None => None,
                }
            } else if k == seq!['e', 'd'] {
                Some((p.0, p.1, p.2, p.3, p.4, v, p.6))
            } else if k == seq!['c'] {
                Some((p.0, p.1, p.2, p.3, p.4, p.5, v))
            } else {
                Some(p)
            }
        },
    }
}

pub open spec fn apply_fields(p: PayloadView, lines: Seq<Seq<char>>) -> Option<PayloadView>
    decreases lines.len(),
{
    if lines.len() == 0 {
        Some(p)
    } else {
        match apply_field(p, lines[0]) {
            None => None,
            Some(q) => apply_fields(q, lines.drop_first()),
        }
    }
}

pub open spec fn empty_payload() -> PayloadView {
    (0, Seq::empty(), Seq::empty(), 0, 0, Seq::empty(), Seq::empty())
}

/// What reading a payload text gives: the fields of its lines, later lines
/// winning; nothing when a line is malformed or the product or machine is
/// missing.
pub open spec fn payload_parse(text: Seq<char>) -> Option<PayloadView> {
    match apply_fields(empty_payload(), lines_of(text)) {
        None => None,
        Some(p) => if p.1.len() == 0 || p.2.len() == 0 {
            None
        } else {
            Some(p)
        },
    }
}

/// Appends the line `key=n` and its line feed, where that line is `ls[k]`.
fn push_line_num(out: &mut Vec<char>, key: char, n: u64, ls: Ghost<Seq<Seq<char>>>, k: Ghost<int>)
    requires
        0 <= k@ < ls@.len(),
        ls@[k@] == seq![key, '='] + dec(n as nat),
        old(out)@ == joined(ls@.take(k@)),
    ensures
        final(out)@ == joined(ls@.take(k@ + 1)),
{
    out.push(key);
    out.push('=');
    push_dec(out, n);
    out.push('\n');
    proof {
        lemma_joined_snoc(ls@.take(k@), ls@[k@]);
        assert(ls@.take(k@).push(ls@[k@]) =~= ls@.take(k@ + 1));
        assert(out@ =~= old(out)@ + ls@[k@] + seq!['\n']);
    }
}

/// Appends the line `key=text` and its line feed, where that line is
/// `ls[k]` (a key of two letters has its first letter already written).
fn push_line_text(out: &mut Vec<char>, key: char, text: &str, ls: Ghost<Seq<Seq<char>>>, k: Ghost<int>)
    requires
        0 <= k@ < ls@.len(),
        (ls@[k@] == seq![key, '='] + text@ && old(out)@ == joined(ls@.take(k@))) || (ls@[k@]
            == seq!['e', key, '='] + text@ && old(out)@ == joined(ls@.take(k@)) + seq!['e']),
    ensures
        final(out)@ == joined(ls@.take(k@ + 1)),
{
    out.push(key);
    out.push('=');
    push_all(out, chars_of(text).as_slice());
    out.push('\n');
    proof {
        lemma_joined_snoc(ls@.take(k@), ls@[k@]);
        assert(ls@.take(k@).push(ls@[k@]) =~= ls@.take(k@ + 1));
        assert(out@ =~= joined(ls@.take(k@)) + ls@[k@] + seq!['\n']);
    }
}

impl LicensePayload {
    /// The text that is signed, with the layout fixed once and for all.
    pub fn to_text(&self) -> (r: String)
        ensures
            r@ == payload_text(self@),
    {
        let ghost ls = payload_lines(self@);
        let mut v: Vec<char> = Vec::new();
        assert(ls.take(0) =~= Seq::<Seq<char>>::empty());
        push_line_num(&mut v, 'v', self.version as u64, Ghost(ls), Ghost(0int));
        push_line_text(&mut v, 'p', self.product.as_str(), Ghost(ls), Ghost(1int));
        push_line_text(&mut v, 'm', self.machine.as_str(), Ghost(ls), Ghost(2int));
        push_line_num(&mut v, 'i', self.issued_day, Ghost(ls), Ghost(3int));
        push_line_num(&mut v, 'e', self.expires_day, Ghost(ls), Ghost(4int));
        let ghost before = v@;
        v.push('e');
        assert(v@ =~= before + seq!['e']);
        push_line_text(&mut v, 'd', self.edition.as_str(), Ghost(ls), Ghost(5int));
        push_line_text(&mut v, 'c', self.customer.as_str(), Ghost(ls), Ghost(6int));
        assert(ls.take(7) =~= ls);
        string_from(v.as_slice())
    }

    /// Reads a payload text (after its signature was checked): `None` when a
    /// line has no `=`, a number does not read, or the product or machine is
    /// missing.
    pub fn parse(text: &str) -> (r: Option<Self>)
        ensures
            match r {
                Some(p) => payload_parse(text@) == Some(p@),
                None => payload_parse(text@) is None,
            },
    {
        let t = chars_of(text);
        let n = t.len();
        let mut p = LicensePayload {
            version: 0,
            product: String::new(),
            machine: String::new(),
            issued_day: 0,
            expires_day: 0,
            edition: String::new(),
            customer: String::new(),
        };
        assert(p@ =~= empty_payload());
        let mut pos: usize = 0;
        assert(t@.skip(0) =~= t@);
        while pos < n
            invariant
                n == t@.len(),
                t@ == text@,
                pos <= n,
                apply_fields(empty_payload(), lines_of(t@)) == apply_fields(
                    p@,
                    lines_of(t@.skip(pos as int)),
                ),
            decreases n - pos,
        {
            let (a, b, nx) = next_line(t.as_slice(), pos);
            let ghost line = t@.subrange(a as int, b as int);
            let ghost rest_lines = lines_of(t@.skip(nx as int));
            assert((seq![line] + rest_lines)[0] == line);
            assert((seq![line] + rest_lines).drop_first() =~= rest_lines);
            let ghost before = p@;
            if !self::apply_line(&mut p, t.as_slice(), a, b) {
                assert(apply_fields(before, lines_of(t@.skip(pos as int))) is None);
                return None;
            }
            pos = nx;
        }
        assert(t@.skip(n as int) =~= Seq::<char>::empty());
        let pc = chars_of(p.product.as_str());
        let mc = chars_of(p.machine.as_str());
        if pc.len() == 0 || mc.len() == 0 {
            return None;
        }
        Some(p)
    }

    /// Whether the licence has expired on `today`.
    pub fn is_expired(&self, today: u64) -> (r: bool)
        ensures
            r == (self.expires_day != EXPIRES_NEVER && today >= self.expires_day),
    {
        self.expires_day != EXPIRES_NEVER && today >= self.expires_day
    }

    /// A copy with the same fields.
    pub fn duplicate(&self) -> (r: Self)
        ensures
            r@ == self@,
    {
        LicensePayload {
            version: self.version,
            product: self.product.clone(),
            machine: self.machine.clone(),
            issued_day: self.issued_day,
            expires_day: self.expires_day,
            edition: self.edition.clone(),
            customer: self.customer.clone(),
        }
    }
}

/// Reads the line `t[a..b]` into `p`; false when the line spoils the text.
fn apply_line(p: &mut LicensePayload, t: &[char], a: usize, b: usize) -> (ok: bool)
    requires
        a <= b <= t@.len(),
    ensures
        match apply_field(old(p)@, t@.subrange(a as int, b as int)) {
            Some(q) => ok && final(p)@ == q,
            None => !ok,
        },
{
    let ghost line = t@.subrange(a as int, b as int);
    proof {
        lemma_find_first(line, '=');
    }
    let eq = match find_in(t, a, b, '=') {
        Some(e) => e,
        None => {
            return false;
        },
    };
    let ghost k = line.take(eq - a);
    let ghost v = line.skip(eq - a + 1);
    assert(k =~= t@.subrange(a as int, eq as int));
    assert(v =~= t@.subrange(eq + 1, b as int));
    let klen = eq - a;
    let k0 = t[a];
    if klen == 1 && k0 == 'v' {
        assert(k =~= seq!['v']);
        match parse_u32_range(t, eq + 1, b) {
            Some(x) => {
                p.version = x;
                true
            },
            None => false,
        }
    } else if klen == 1 && k0 == 'p' {
        assert(k =~= seq!['p']);
        p.product = string_from(slice_to_vec(t, eq + 1, b).as_slice());
        true
    } else if klen == 1 && k0 == 'm' {
        assert(k =~= seq!['m']);
        p.machine = string_from(slice_to_vec(t, eq + 1, b).as_slice());
        true
    } else if klen == 1 && k0 == 'i' {
        assert(k =~= seq!['i']);
        match parse_u64_range(t, eq + 1, b) {
            Some(x) => {
                p.issued_day = x;
                true
            },
            None => false,
        }
    } else if klen == 1 && k0 == 'e' {
        assert(k =~= seq!['e']);
        match parse_u64_range(t, eq + 1, b) {
            Some(x) => {
                p.expires_day = x;
                true
            },
            None => false,
        }
    } else if klen == 2 && k0 == 'e' && t[a + 1] == 'd' {
        assert(k =~= seq!['e', 'd']);
        p.edition = string_from(slice_to_vec(t, eq + 1, b).as_slice());
        true
    } else if klen == 1 && k0 == 'c' {
        assert(k =~= seq!['c']);
        p.customer = string_from(slice_to_vec(t, eq + 1, b).as_slice());
        true
    } else {
        proof {
            if klen == 1 {
                assert(k[0] == k0);
            }
            if klen == 2 {
                assert(k[0] == k0 && k[1] == t@[a + 1]);
            }
            assert(k != seq!['v'] && k != seq!['p'] && k != seq!['m'] && k != seq!['i'] && k
                != seq!['e'] && k != seq!['e', 'd'] && k != seq!['c']) by {
                if k == seq!['v'] || k == seq!['p'] || k == seq!['m'] || k == seq!['i'] || k
                    == seq!['e'] || k == seq!['c'] {
                    assert(k.len() == 1 && k[0] == t@[a as int]);
                }
                if k == seq!['e', 'd'] {
                    assert(k.len() == 2 && k[0] == t@[a as int] && k[1] == t@[a + 1]);
                }
            }
        }
        true
    }
}

// ===========================================================================
// Writing a payload and reading it back
// ===========================================================================

/// A text field that survives the line layout: no line feed in it, and no
/// carriage return at its end.
pub open spec fn field_ok(f: Seq<char>) -> bool {
    &&& !f.contains('\n')
    &&& !(f.len() > 0 && f.last() == '\r')
}

proof fn lemma_find_first_at(s: Seq<char>, c: char, i: int)
    requires
        0 <= i < s.len(),
        s[i] == c,
        forall|j: int| 0 <= j < i ==> s[j] != c,
    ensures
        find_first(s, c) == Some(i),
{
    lemma_find_first(s, c);
}

proof fn lemma_lines_cons(line: Seq<char>, rest: Seq<char>)
    requires
        !line.contains('\n'),
    ensures
        lines_of(line + seq!['\n'] + rest) == seq![crate::text::strip_cr(line)] + lines_of(rest),
{
    let s = line + seq!['\n'] + rest;
    assert forall|j: int| 0 <= j < line.len() implies s[j] != '\n' by {
        assert(s[j] == line[j]);
    }
    lemma_find_first_at(s, '\n', line.len() as int);
    assert(s.take(line.len() as int) =~= line);
    assert(s.skip(line.len() as int + 1) =~= rest);
}

proof fn lemma_dec_plain(n: nat)
    ensures
        !dec(n).contains('\n'),
        !dec(n).contains('='),
        dec(n).len() > 0,
        dec(n).last() != '\r',
{
    crate::text::lemma_dec_roundtrip(n);
    crate::text::lemma_dec_len_pos(n);
    assert(crate::text::is_digit(dec(n)[dec(n).len() - 1]));
    if dec(n).contains('\n') || dec(n).contains('=') {
        let j = choose|j: int| 0 <= j < dec(n).len() && (dec(n)[j] == '\n' || dec(n)[j] == '=');
        assert(crate::text::is_digit(dec(n)[j]));
    }
}

/// The line `key=val`: it holds no line feed, keeps its end, and reads as
/// that key and value.
proof fn lemma_key_line(key: Seq<char>, val: Seq<char>)
    requires
        field_ok(val),
        !val.contains('\n'),
        key.len() > 0,
        !key.contains('='),
        !key.contains('\n'),
    ensures
        !(key + seq!['='] + val).contains('\n'),
        crate::text::strip_cr(key + seq!['='] + val) == key + seq!['='] + val,
        find_first(key + seq!['='] + val, '=') == Some(key.len() as int),
        (key + seq!['='] + val).take(key.len() as int) == key,
        (key + seq!['='] + val).skip(key.len() as int + 1) == val,
{
    let l = key + seq!['='] + val;
    assert forall|j: int| 0 <= j < key.len() implies l[j] != '=' by {
        assert(l[j] == key[j]);
    }
    lemma_find_first_at(l, '=', key.len() as int);
    assert(l.take(key.len() as int) =~= key);
    assert(l.skip(key.len() as int + 1) =~= val);
    if l.contains('\n') {
        let j = choose|j: int| 0 <= j < l.len() && l[j] == '\n';
        if j < key.len() {
            assert(key[j] == '\n');
        } else if j > key.len() {
            assert(val[j - key.len() - 1] == '\n');
        }
    }
    if val.len() > 0 {
        assert(l.last() == val.last());
    }
}

proof fn lemma_key_facts()
    ensures
        !seq!['v'].contains('=') && !seq!['v'].contains('\n'),
        !seq!['p'].contains('=') && !seq!['p'].contains('\n'),
        !seq!['m'].contains('=') && !seq!['m'].contains('\n'),
        !seq!['i'].contains('=') && !seq!['i'].contains('\n'),
        !seq!['e'].contains('=') && !seq!['e'].contains('\n'),
        !seq!['e', 'd'].contains('=') && !seq!['e', 'd'].contains('\n'),
        !seq!['c'].contains('=') && !seq!['c'].contains('\n'),
        seq!['v'] + seq!['='] =~= seq!['v', '='],
        seq!['p'] + seq!['='] =~= seq!['p', '='],
        seq!['m'] + seq!['='] =~= seq!['m', '='],
        seq!['i'] + seq!['='] =~= seq!['i', '='],
        seq!['e'] + seq!['='] =~= seq!['e', '='],
        seq!['e', 'd'] + seq!['='] =~= seq!['e', 'd', '='],
        seq!['c'] + seq!['='] =~= seq!['c', '='],
{
    assert(seq!['v'][0] == 'v');
    assert(seq!['p'][0] == 'p');
    assert(seq!['m'][0] == 'm');
    assert(seq!['i'][0] == 'i');
    assert(seq!['e'][0] == 'e');
    assert(seq!['e', 'd'][0] == 'e' && seq!['e', 'd'][1] == 'd');
    assert(seq!['c'][0] == 'c');
}

proof fn lemma_lines_joined(ls: Seq<Seq<char>>)
    requires
        forall|k: int|
            0 <= k < ls.len() ==> !(#[trigger] ls[k]).contains('\n') && crate::text::strip_cr(ls[k])
                == ls[k],
    ensures
        lines_of(joined(ls)) == ls,
    decreases ls.len(),
{
    if ls.len() == 0 {
        assert(lines_of(Seq::<char>::empty()) =~= Seq::<Seq<char>>::empty());
    } else {
        let d = ls.drop_first();
        assert forall|k: int| 0 <= k < d.len() implies !(#[trigger] d[k]).contains('\n')
            && crate::text::strip_cr(d[k]) == d[k] by {
            assert(d[k] == ls[k + 1]);
        }
        lemma_lines_joined(d);
        assert(!ls[0].contains('\n'));
        lemma_lines_cons(ls[0], joined(d));
        assert(ls =~= seq![ls[0]] + d);
    }
}

proof fn lemma_payload_lines_plain(p: PayloadView, k: int)
    requires
        field_ok(p.1),
        field_ok(p.2),
        field_ok(p.5),
        field_ok(p.6),
        0 <= k < 7,
    ensures
        !payload_lines(p)[k].contains('\n'),
        crate::text::strip_cr(payload_lines(p)[k]) == payload_lines(p)[k],
{
    lemma_key_facts();
    if k == 0 {
        lemma_dec_plain(p.0 as nat);
        lemma_key_line(seq!['v'], dec(p.0 as nat));
    } else if k == 1 {
        lemma_key_line(seq!['p'], p.1);
    } else if k == 2 {
        lemma_key_line(seq!['m'], p.2);
    } else if k == 3 {
        lemma_dec_plain(p.3 as nat);
        lemma_key_line(seq!['i'], dec(p.3 as nat));
    } else if k == 4 {
        lemma_dec_plain(p.4 as nat);
        lemma_key_line(seq!['e'], dec(p.4 as nat));
    } else if k == 5 {
        lemma_key_line(seq!['e', 'd'], p.5);
    } else {
        lemma_key_line(seq!['c'], p.6);
    }
}

proof fn lemma_payload_lines(p: PayloadView)
    requires
        field_ok(p.1),
        field_ok(p.2),
        field_ok(p.5),
        field_ok(p.6),
    ensures
        lines_of(payload_text(p)) == payload_lines(p),
{
    let ls = payload_lines(p);
    assert forall|k: int| 0 <= k < ls.len() implies !(#[trigger] ls[k]).contains('\n')
        && crate::text::strip_cr(ls[k]) == ls[k] by {
        lemma_payload_lines_plain(p, k);
    }
    lemma_lines_joined(ls);
}

proof fn lemma_payload_fields(p: PayloadView)
    requires
        field_ok(p.1),
        field_ok(p.2),
        field_ok(p.5),
        field_ok(p.6),
    ensures
        apply_fields(empty_payload(), payload_lines(p)) == Some(p),
{
    lemma_key_facts();
    let ls = payload_lines(p);
    let q0 = empty_payload();
    let q1 = (p.0, q0.1, q0.2, q0.3, q0.4, q0.5, q0.6);
    let q2 = (p.0, p.1, q0.2, q0.3, q0.4, q0.5, q0.6);
    let q3 = (p.0, p.1, p.2, q0.3, q0.4, q0.5, q0.6);
    let q4 = (p.0, p.1, p.2, p.3, q0.4, q0.5, q0.6);
    let q5 = (p.0, p.1, p.2, p.3, p.4, q0.5, q0.6);
    let q6 = (p.0, p.1, p.2, p.3, p.4, p.5, q0.6);
    assert(apply_field(q0, ls[0]) == Some(q1)) by {
        lemma_dec_plain(p.0 as nat);
        crate::text::lemma_parse_u32_dec(p.0);
        lemma_key_line(seq!['v'], dec(p.0 as nat));
    }
    assert(apply_field(q1, ls[1]) == Some(q2)) by {
        lemma_key_line(seq!['p'], p.1);
    }
    assert(apply_field(q2, ls[2]) == Some(q3)) by {
        lemma_key_line(seq!['m'], p.2);
    }
    assert(apply_field(q3, ls[3]) == Some(q4)) by {
        lemma_dec_plain(p.3 as nat);
        crate::text::lemma_parse_u64_dec(p.3);
        lemma_key_line(seq!['i'], dec(p.3 as nat));
    }
    assert(apply_field(q4, ls[4]) == Some(q5)) by {
        lemma_dec_plain(p.4 as nat);
        crate::text::lemma_parse_u64_dec(p.4);
        lemma_key_line(seq!['e'], dec(p.4 as nat));
    }
    assert(apply_field(q5, ls[5]) == Some(q6)) by {
        lemma_key_line(seq!['e', 'd'], p.5);
    }
    assert(apply_field(q6, ls[6]) == Some(p)) by {
        lemma_key_line(seq!['c'], p.6);
    }
    let s6 = ls.skip(6);
    let s5 = ls.skip(5);
    let s4 = ls.skip(4);
    let s3 = ls.skip(3);
    let s2 = ls.skip(2);
    let s1 = ls.skip(1);
    assert(s6.drop_first() =~= Seq::<Seq<char>>::empty());
    assert(s5.drop_first() =~= s6);
    assert(s4.drop_first() =~= s5);
    assert(s3.drop_first() =~= s4);
    assert(s2.drop_first() =~= s3);
    assert(s1.drop_first() =~= s2);
    assert(ls.drop_first() =~= s1);
    assert(apply_fields(p, Seq::<Seq<char>>::empty()) == Some(p));
    assert(apply_fields(q6, s6) == Some(p));
    assert(apply_fields(q5, s5) == Some(p));
    assert(apply_fields(q4, s4) == Some(p));
    assert(apply_fields(q3, s3) == Some(p));
    assert(apply_fields(q2, s2) == Some(p));
    assert(apply_fields(q1, s1) == Some(p));
}

/// Writing a payload and reading the text back gives the same payload, for
/// every payload whose product and machine are not empty and whose text
/// fields hold no line feed and do not end with a carriage return.
pub proof fn lemma_payload_roundtrip(p: PayloadView)
    requires
        p.1.len() > 0,
        p.2.len() > 0,
        field_ok(p.1),
        field_ok(p.2),
        field_ok(p.5),
        field_ok(p.6),
    ensures
        payload_parse(payload_text(p)) == Some(p),
{
    lemma_payload_lines(p);
    lemma_payload_fields(p);
}

} // verus!
