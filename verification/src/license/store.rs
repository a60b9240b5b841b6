//! The trial state and its storage format: one `key=value|...` line signed
//! with the machine's HMAC, the licence code on a second line, each copy
//! encrypted for the place that holds it; and the rules that merge and
//! cross-check the copies.

use vstd::prelude::*;
use vstd::utf8::{decode_utf8, encode_utf8, valid_utf8};
use crate::license::crypto::{
    aes256gcm_decrypt, aes256gcm_decrypt_for, derive_location_key, random_nonce, seal_blob,
    sealed_blob, export_key_of, gcm_decoded,
    hmac_hex, hmac_hex_of, hmac_verify, location_key_of, sha256_hex, utf8_text,
};
use crate::text::{
    chars_of, dec, find_first, find_in, lemma_find_first, lines_of, next_line, parse_u32,
    parse_u32_range, parse_u64, parse_u64_range, push_all, push_dec, slice_to_vec, split_on,
    string_from, trim, piece_end,
};

verus! {

broadcast use vstd::string::group_string_axioms;

/// What a trial state is: first day, last day seen, roll-backs seen, MAC.
pub type TrialView = (u64, u64, u32, Seq<char>);

/// The trial: the day of the first run, the latest day seen (it never goes
/// down), how many clock roll-backs were seen, and the MAC over the three.
#[derive(Debug)]
pub struct TrialState {
    pub first_run_day: u64,
    pub last_run_day: u64,
    pub rollback_count: u32,
    pub mac: String,
}

impl View for TrialState {
    type V = TrialView;

    open spec fn view(&self) -> TrialView {
        (self.first_run_day, self.last_run_day, self.rollback_count, self.mac@)
    }
}

/// The text the MAC covers: `f=<first>|l=<last>|r=<roll-backs>`.
pub open spec fn trial_body(t: TrialView) -> Seq<char> {
    seq!['f', '='] + dec(t.0 as nat) + seq!['|', 'l', '='] + dec(t.1 as nat) + seq!['|', 'r', '=']
        + dec(t.2 as nat)
}

/// The MAC a trial state must carry on a machine.
pub open spec fn trial_mac(t: TrialView, fp: Seq<u8>) -> Seq<char> {
    hmac_hex_of(fp, encode_utf8(trial_body(t)))
}

/// Whether a trial state carries the MAC of its fields for the machine.
pub open spec fn trial_verifies(t: TrialView, fp: Seq<u8>) -> bool {
    t.3 == trial_mac(t, fp)
}

/// The state with its MAC set for the machine.
pub open spec fn trial_signed(t: TrialView, fp: Seq<u8>) -> TrialView {
    (t.0, t.1, t.2, trial_mac(t, fp))
}

fn str_bytes(s: &String) -> (b: Vec<u8>)
    ensures
        b@ == encode_utf8(s@),
{
    let b = s.as_str().as_bytes();
    let mut v: Vec<u8> = Vec::new();
    let mut i: usize = 0;
    while i < b.len()
        invariant
            i <= b@.len(),
            b@ == encode_utf8(s@),
            v@ == b@.take(i as int),
        decreases b@.len() - i,
    {
        v.push(b[i]);
        i += 1;
        assert(v@ =~= b@.take(i as int));
    }
    assert(b@.take(b@.len() as int) =~= b@);
    v
}

impl TrialState {
    /// The text the MAC covers.
    pub fn body(&self) -> (r: String)
        ensures
            r@ == trial_body(self@),
    {
        let mut v: Vec<char> = Vec::new();
        v.push('f');
        v.push('=');
        push_dec(&mut v, self.first_run_day);
        v.push('|');
        v.push('l');
        v.push('=');
        push_dec(&mut v, self.last_run_day);
        v.push('|');
        v.push('r');
        v.push('=');
        push_dec(&mut v, self.rollback_count as u64);
        assert(v@ =~= trial_body(self@));
        string_from(v.as_slice())
    }

    /// Sets the MAC for the machine.
    pub fn sign(&mut self, machine_fp: &[u8])
        ensures
            final(self)@ == trial_signed(old(self)@, machine_fp@),
    {
        let b = self.body();
        let bytes = str_bytes(&b);
        self.mac = hmac_hex(machine_fp, bytes.as_slice());
    }

    /// Whether the MAC matches the fields on the machine.
    pub fn verify(&self, machine_fp: &[u8]) -> (r: bool)
        ensures
            r == trial_verifies(self@, machine_fp@),
    {
        let b = self.body();
        let bytes = str_bytes(&b);
        hmac_verify(machine_fp, bytes.as_slice(), self.mac.as_str())
    }

    /// A copy with the same fields.
    pub fn duplicate(&self) -> (r: Self)
        ensures
            r@ == self@,
    {
        TrialState {
            first_run_day: self.first_run_day,
            last_run_day: self.last_run_day,
            rollback_count: self.rollback_count,
            mac: self.mac.clone(),
        }
    }
}

/// A state signed on a machine verifies on that machine.
pub proof fn lemma_signed_verifies(t: TrialView, fp: Seq<u8>)
    ensures
        trial_verifies(trial_signed(t, fp), fp),
{
}

// ===========================================================================
// Reading a trial line
// ===========================================================================

/// The fields read so far from a trial line: first day, last day, roll-backs
/// (each absent until read, and absent again after a value that does not
/// read), and the MAC.
pub type TrialAcc = (Option<u64>, Option<u64>, Option<u32>, Seq<char>);

/// One `key=value` part of a trial line; a part without `=` spoils the line.
pub open spec fn trial_field(st: TrialAcc, part: Seq<char>) -> Option<TrialAcc> {
    match find_first(part, '=') {
        None => None,
        Some(i) => {
            let k = part.take(i);
            let v = part.skip(i + 1);
            if k == seq!['f'] {
                Some((parse_u64(v), st.1, st.2, st.3))
            } else if k == seq!['l'] {
                Some((st.0, parse_u64(v), st.2, st.3))
            } else if k == seq!['r'] {
                Some((st.0, st.1, parse_u32(v), st.3))
            } else if k == seq!['m', 'a', 'c'] {
                Some((st.0, st.1, st.2, v))
            } else {
                Some(st)
            }
        },
    }
}

pub open spec fn trial_fields(st: TrialAcc, parts: Seq<Seq<char>>) -> Option<TrialAcc>
    decreases parts.len(),
{
    if parts.len() == 0 {
        Some(st)
    } else {
        match trial_field(st, parts[0]) {
            None => None,
            Some(q) => trial_fields(q, parts.drop_first()),
        }
    }
}

/// What a trial line reads as: its `|`-separated fields, checked against
/// the machine's MAC.
pub open spec fn trial_parse(line: Seq<char>, fp: Seq<u8>) -> Option<TrialView> {
    match trial_fields((None, None, None, Seq::empty()), split_on(line, '|')) {
        Some((Some(f), Some(l), Some(r), mac)) => if trial_verifies((f, l, r, mac), fp) {
            Some((f, l, r, mac))
        } else {
            None
        },
        _ => None,
    }
}

pub open spec fn opt_trial(t: Option<TrialState>) -> Option<TrialView> {
    match t {
        Some(x) => Some(x@),
        None => None,
    }
}

/// Reads `t[a..b]` as one part into the fields; false when it has no `=`.
fn trial_part(
    f: &mut Option<u64>,
    l: &mut Option<u64>,
    r: &mut Option<u32>,
    mac: &mut Vec<char>,
    t: &[char],
    a: usize,
    b: usize,
) -> (ok: bool)
    requires
        a <= b <= t@.len(),
    ensures
        match trial_field((*old(f), *old(l), *old(r), old(mac)@), t@.subrange(a as int, b as int)) {
            Some(q) => ok && q == (*final(f), *final(l), *final(r), final(mac)@),
            None => !ok,
        },
{
    let ghost part = t@.subrange(a as int, b as int);
    proof {
        lemma_find_first(part, '=');
    }
    let eq = match find_in(t, a, b, '=') {
        Some(e) => e,
        None => {
            return false;
        },
    };
    let ghost k = part.take(eq - a);
    assert(k =~= t@.subrange(a as int, eq as int));
    assert(part.skip(eq - a + 1) =~= t@.subrange(eq + 1, b as int));
    let klen = eq - a;
    if klen == 1 && t[a] == 'f' {
        assert(k =~= seq!['f']);
        *f = parse_u64_range(t, eq + 1, b);
    } else if klen == 1 && t[a] == 'l' {
        assert(k =~= seq!['l']);
        *l = parse_u64_range(t, eq + 1, b);
    } else if klen == 1 && t[a] == 'r' {
        assert(k =~= seq!['r']);
        *r = parse_u32_range(t, eq + 1, b);
    } else if klen == 3 && t[a] == 'm' && t[a + 1] == 'a' && t[a + 2] == 'c' {
        assert(k =~= seq!['m', 'a', 'c']);
        *mac = slice_to_vec(t, eq + 1, b);
    } else {
        assert(k != seq!['f'] && k != seq!['l'] && k != seq!['r'] && k != seq!['m', 'a', 'c']) by {
            if k == seq!['f'] || k == seq!['l'] || k == seq!['r'] {
                assert(k.len() == 1 && k[0] == t@[a as int]);
            }
            if k == seq!['m', 'a', 'c'] {
                assert(k.len() == 3 && k[0] == t@[a as int] && k[1] == t@[a + 1] && k[2] == t@[a
                    + 2]);
            }
        }
    }
    true
}

/// Reads one trial line and checks its MAC for the machine: `None` when a
/// part has no `=`, a number is missing or does not read, or the MAC does
/// not match.
pub fn parse_trial_line(line: &str, machine_fp: &[u8]) -> (r: Option<TrialState>)
    ensures
        opt_trial(r) == trial_parse(line@, machine_fp@),
{
    let t = chars_of(line);
    trial_line_chars(t.as_slice(), machine_fp)
}

fn trial_line_chars(t: &[char], machine_fp: &[u8]) -> (r: Option<TrialState>)
    ensures
        opt_trial(r) == trial_parse(t@, machine_fp@),
{
    let n = t.len();
    let mut f: Option<u64> = None;
    let mut l: Option<u64> = None;
    let mut rc: Option<u32> = None;
    let mut mac: Vec<char> = Vec::new();
    let mut pos: usize = 0;
    let ghost init: TrialAcc = (None, None, None, Seq::empty());
    assert(t@.skip(0) =~= t@);
    assert(mac@ =~= Seq::<char>::empty());
    loop
        invariant_except_break
            n == t@.len(),
            pos <= n,
            init == (None::<u64>, None::<u64>, None::<u32>, Seq::<char>::empty()),
            trial_fields(init, split_on(t@, '|')) == trial_fields(
                (f, l, rc, mac@),
                split_on(t@.skip(pos as int), '|'),
            ),
        ensures
            init == (None::<u64>, None::<u64>, None::<u32>, Seq::<char>::empty()),
            trial_fields(init, split_on(t@, '|')) == Some((f, l, rc, mac@)),
        decreases n - pos,
    {
        let end = piece_end(t, pos, '|');
        proof {
            crate::text::lemma_split_step(t@, '|', pos as int, end as int);
        }
        let ghost before: TrialAcc = (f, l, rc, mac@);
        let ghost pieces = split_on(t@.skip(pos as int), '|');
        assert(pieces[0] == t@.subrange(pos as int, end as int));
        if !trial_part(&mut f, &mut l, &mut rc, &mut mac, t, pos, end) {
            assert(trial_fields(before, pieces) is None);
            assert(trial_fields(init, split_on(t@, '|')) is None);
            return None;
        }
        if end < n {
            assert(pieces.drop_first() =~= split_on(t@.skip(end + 1), '|'));
            pos = end + 1;
        } else {
            assert(pieces.drop_first() =~= Seq::<Seq<char>>::empty());
            assert(trial_fields((f, l, rc, mac@), Seq::<Seq<char>>::empty()) == Some(
                (f, l, rc, mac@),
            ));
            break;
        }
    }
    match (f, l, rc) {
        (Some(fv), Some(lv), Some(rv)) => {
            let st = TrialState {
                first_run_day: fv,
                last_run_day: lv,
                rollback_count: rv,
                mac: string_from(mac.as_slice()),
            };
            if st.verify(machine_fp) {
                Some(st)
            } else {
                None
            }
        },
        _ => None,
    }
}

// ===========================================================================
// Records: one decrypted copy
// ===========================================================================

/// What a record is: its trial (when the line reads and its MAC holds), its
/// licence line, and the place and manifest it names.
pub type RecView = (Option<TrialView>, Option<Seq<char>>, Option<Seq<char>>, Option<Seq<char>>);

/// One decrypted copy of the stored state.
#[derive(Debug)]
pub struct Record {
    pub trial: Option<TrialState>,
    pub license: Option<String>,
    pub loc: Option<String>,
    pub mani: Option<String>,
}

pub open spec fn opt_str(s: Option<String>) -> Option<Seq<char>> {
    match s {
        Some(x) => Some(x@),
        None => None,
    }
}

impl View for Record {
    type V = RecView;

    open spec fn view(&self) -> RecView {
        (opt_trial(self.trial), opt_str(self.license), opt_str(self.loc), opt_str(self.mani))
    }
}

/// The first two lines of a text, empty where there is none.
pub open spec fn first_line(text: Seq<char>) -> Seq<char> {
    if lines_of(text).len() > 0 {
        lines_of(text)[0]
    } else {
        Seq::empty()
    }
}

pub open spec fn second_line(text: Seq<char>) -> Seq<char> {
    if lines_of(text).len() > 1 {
        lines_of(text)[1]
    } else {
        Seq::empty()
    }
}

/// The `loc=` and `mani=` parts of a trial line, later parts winning; parts
/// without `=` are passed over.
pub open spec fn meta_fields(st: (Option<Seq<char>>, Option<Seq<char>>), parts: Seq<Seq<char>>) -> (
    Option<Seq<char>>,
    Option<Seq<char>>,
)
    decreases parts.len(),
{
    if parts.len() == 0 {
        st
    } else {
        let part = parts[0];
        let nst = match find_first(part, '=') {
            None => st,
            Some(i) => {
                let k = part.take(i);
                let v = part.skip(i + 1);
                if k == seq!['l', 'o', 'c'] {
                    (Some(v), st.1)
                } else if k == seq!['m', 'a', 'n', 'i'] {
                    (st.0, Some(v))
                } else {
                    st
                }
            },
        };
        meta_fields(nst, parts.drop_first())
    }
}

/// What a decrypted copy reads as.
pub open spec fn record_parse(text: Seq<char>, fp: Seq<u8>) -> RecView {
    let l0 = first_line(text);
    let l1 = second_line(text);
    let m = meta_fields((None, None), split_on(l0, '|'));
    (
        if l0.len() == 0 {
            None
        } else {
            trial_parse(l0, fp)
        },
        if l1.len() == 0 {
            None
        } else {
            Some(l1)
        },
        m.0,
        m.1,
    )
}

fn meta_part(loc: &mut Option<Vec<char>>, mani: &mut Option<Vec<char>>, t: &[char], a: usize, b: usize)
    requires
        a <= b <= t@.len(),
    ensures
        ({
            let part = t@.subrange(a as int, b as int);
            let st = (opt_chars(*old(loc)), opt_chars(*old(mani)));
            let nst = match find_first(part, '=') {
                None => st,
                Some(i) => {
                    let k = part.take(i);
                    let v = part.skip(i + 1);
                    if k == seq!['l', 'o', 'c'] {
                        (Some(v), st.1)
                    } else if k == seq!['m', 'a', 'n', 'i'] {
                        (st.0, Some(v))
                    } else {
                        st
                    }
                },
            };
            nst == (opt_chars(*final(loc)), opt_chars(*final(mani)))
        }),
{
    let ghost part = t@.subrange(a as int, b as int);
    proof {
        lemma_find_first(part, '=');
    }
    let eq = match find_in(t, a, b, '=') {
        Some(e) => e,
        None => {
            return;
        },
    };
    let ghost k = part.take(eq - a);
    assert(k =~= t@.subrange(a as int, eq as int));
    assert(part.skip(eq - a + 1) =~= t@.subrange(eq + 1, b as int));
    let klen = eq - a;
    if klen == 3 && t[a] == 'l' && t[a + 1] == 'o' && t[a + 2] == 'c' {
        assert(k =~= seq!['l', 'o', 'c']);
        *loc = Some(slice_to_vec(t, eq + 1, b));
    } else if klen == 4 && t[a] == 'm' && t[a + 1] == 'a' && t[a + 2] == 'n' && t[a + 3] == 'i' {
        assert(k =~= seq!['m', 'a', 'n', 'i']);
        *mani = Some(slice_to_vec(t, eq + 1, b));
    } else {
        assert(k != seq!['l', 'o', 'c'] && k != seq!['m', 'a', 'n', 'i']) by {
            if k == seq!['l', 'o', 'c'] {
                assert(k.len() == 3 && k[0] == t@[a as int] && k[1] == t@[a + 1] && k[2] == t@[a
                    + 2]);
            }
            if k == seq!['m', 'a', 'n', 'i'] {
                assert(k.len() == 4 && k[0] == t@[a as int] && k[1] == t@[a + 1] && k[2] == t@[a
                    + 2] && k[3] == t@[a + 3]);
            }
        }
    }
}

pub open spec fn opt_chars(v: Option<Vec<char>>) -> Option<Seq<char>> {
    match v {
        Some(x) => Some(x@),
        None => None,
    }
}

fn meta_of(t: &[char]) -> (r: (Option<Vec<char>>, Option<Vec<char>>))
    ensures
        (opt_chars(r.0), opt_chars(r.1)) == meta_fields((None, None), split_on(t@, '|')),
{
    let n = t.len();
    let mut loc: Option<Vec<char>> = None;
    let mut mani: Option<Vec<char>> = None;
    let mut pos: usize = 0;
    assert(t@.skip(0) =~= t@);
    loop
        invariant_except_break
            n == t@.len(),
            pos <= n,
            meta_fields((None, None), split_on(t@, '|')) == meta_fields(
                (opt_chars(loc), opt_chars(mani)),
                split_on(t@.skip(pos as int), '|'),
            ),
        ensures
            meta_fields((None, None), split_on(t@, '|')) == (opt_chars(loc), opt_chars(mani)),
        decreases n - pos,
    {
        let end = piece_end(t, pos, '|');
        proof {
            crate::text::lemma_split_step(t@, '|', pos as int, end as int);
        }
        let ghost pieces = split_on(t@.skip(pos as int), '|');
        assert(pieces[0] == t@.subrange(pos as int, end as int));
        let ghost before = (opt_chars(loc), opt_chars(mani));
        meta_part(&mut loc, &mut mani, t, pos, end);
        assert(meta_fields(before, pieces) == meta_fields(
            (opt_chars(loc), opt_chars(mani)),
            pieces.drop_first(),
        ));
        if end < n {
            assert(pieces.drop_first() =~= split_on(t@.skip(end + 1), '|'));
            pos = end + 1;
        } else {
            assert(pieces.drop_first() =~= Seq::<Seq<char>>::empty());
            assert(meta_fields((opt_chars(loc), opt_chars(mani)), Seq::<Seq<char>>::empty()) == (
                opt_chars(loc),
                opt_chars(mani),
            ));
            break;
        }
    }
    (loc, mani)
}

fn opt_string(v: Option<Vec<char>>) -> (r: Option<String>)
    ensures
        opt_str(r) == opt_chars(v),
{
    match v {
        Some(x) => Some(string_from(x.as_slice())),
        None => None,
    }
}

/// Reads a decrypted copy: the trial line (its MAC checked), the licence
/// line, and the `loc=` and `mani=` parts of the trial line.
pub fn parse_record(text: &str, machine_fp: &[u8]) -> (r: Record)
    ensures
        r@ == record_parse(text@, machine_fp@),
{
    let t = chars_of(text);
    let n = t.len();
    assert(t@.skip(0) =~= t@);
    let (l0, l1) = if n == 0 {
        assert(lines_of(t@) =~= Seq::<Seq<char>>::empty());
        (Vec::new(), Vec::new())
    } else {
        let (a, b, nx) = next_line(t.as_slice(), 0);
        let l0 = slice_to_vec(t.as_slice(), a, b);
        assert(lines_of(t@)[0] == l0@);
        if nx < n {
            let (c, d, _) = next_line(t.as_slice(), nx);
            let l1 = slice_to_vec(t.as_slice(), c, d);
            assert(lines_of(t@)[1] == l1@);
            (l0, l1)
        } else {
            assert(t@.skip(nx as int) =~= Seq::<char>::empty());
            assert(lines_of(t@).len() == 1);
            (l0, Vec::new())
        }
    };
    assert(l0@ == first_line(t@));
    assert(l1@ =~= second_line(t@));
    let (loc, mani) = meta_of(l0.as_slice());
    let trial = if l0.len() == 0 {
        None
    } else {
        trial_line_chars(l0.as_slice(), machine_fp)
    };
    let license = if l1.len() == 0 {
        None
    } else {
        Some(string_from(l1.as_slice()))
    };
    Record { trial, license, loc: opt_string(loc), mani: opt_string(mani) }
}

// ===========================================================================
// Writing a copy
// ===========================================================================

/// The text a place stores before encryption: the trial line with the
/// place's tag and the manifest, then the licence code (or nothing).
pub open spec fn plaintext_of(t: TrialView, license: Option<Seq<char>>, tag: Seq<char>, manifest: Seq<
    char,
>) -> Seq<char> {
    trial_body(t) + seq!['|', 'm', 'a', 'c', '='] + t.3 + seq!['|', 'l', 'o', 'c', '='] + tag
        + seq!['|', 'm', 'a', 'n', 'i', '='] + manifest + seq!['\n'] + (match license {
        Some(l) => l,
        None => Seq::empty(),
    }) + seq!['\n']
}

/// The text stored at the place `tag`, before encryption.
pub fn build_plaintext(trial: &TrialState, license_raw: &Option<String>, tag: &str, manifest: &str) -> (r:
    String)
    ensures
        r@ == plaintext_of(trial@, opt_str(*license_raw), tag@, manifest@),
{
    let b = trial.body();
    let mut v: Vec<char> = Vec::new();
    push_all(&mut v, chars_of(b.as_str()).as_slice());
    v.push('|');
    v.push('m');
    v.push('a');
    v.push('c');
    v.push('=');
    push_all(&mut v, chars_of(trial.mac.as_str()).as_slice());
    v.push('|');
    v.push('l');
    v.push('o');
    v.push('c');
    v.push('=');
    push_all(&mut v, chars_of(tag).as_slice());
    v.push('|');
    v.push('m');
    v.push('a');
    v.push('n');
    v.push('i');
    v.push('=');
    push_all(&mut v, chars_of(manifest).as_slice());
    v.push('\n');
    match license_raw {
        Some(l) => push_all(&mut v, chars_of(l.as_str()).as_slice()),
        None => {},
    }
    v.push('\n');
    assert(v@ =~= plaintext_of(trial@, opt_str(*license_raw), tag@, manifest@));
    string_from(v.as_slice())
}

/// The tags of the storage places, sorted and joined with `|`: the three
/// files, and the two registry values where there is a registry.
pub open spec fn manifest_text(with_registry: bool) -> Seq<char> {
    if with_registry {
        "config|home|local|regclsid|regmain"@
    } else {
        "config|home|local"@
    }
}

/// The manifest written into every copy: SHA-256 (hex) of the sorted tags
/// of all storage places. It tells copies of this layout from older ones.
pub fn expected_manifest(with_registry: bool) -> (r: String)
    ensures
        r@ == crate::license::crypto::hex_of(crate::license::crypto::sha256_of(
            encode_utf8(manifest_text(with_registry)),
        )),
{
    let tags: &str = if with_registry {
        "config|home|local|regclsid|regmain"
    } else {
        "config|home|local"
    };
    sha256_hex(tags.as_bytes())
}

// ===========================================================================
// Cross-checking the copies
// ===========================================================================

/// Whether two of the present values differ.
pub open spec fn differ<V>(xs: Seq<Option<V>>) -> bool {
    exists|i: int, j: int|
        0 <= i < xs.len() && 0 <= j < xs.len() && (#[trigger] xs[i]) is Some && (#[trigger] xs[j]) is Some
            && xs[i]->0 != xs[j]->0
}

/// Whether a record was written by this layout (it names the manifest).
pub open spec fn current(r: RecView, m: Seq<char>) -> bool {
    r.3 == Some(m)
}

pub open spec fn count_current(rs: Seq<RecView>, m: Seq<char>) -> nat
    decreases rs.len(),
{
    if rs.len() == 0 {
        0
    } else {
        count_current(rs.drop_last(), m) + if current(rs.last(), m) {
            1nat
        } else {
            0nat
        }
    }
}

/// The first days of the current records that hold a trial.
pub open spec fn current_firsts(rs: Seq<RecView>, m: Seq<char>) -> Seq<Option<u64>> {
    rs.map_values(
        |r: RecView|
            if current(r, m) && r.0 is Some {
                Some((r.0->0).0)
            } else {
                None
            },
    )
}

/// The non-empty licence lines of the current records.
pub open spec fn current_licenses(rs: Seq<RecView>, m: Seq<char>) -> Seq<Option<Seq<char>>> {
    rs.map_values(
        |r: RecView|
            if current(r, m) && r.1 is Some && r.1->0.len() > 0 {
                Some(r.1->0)
            } else {
                None
            },
    )
}

/// Whether tampering shows: at least two current records, and among them two
/// first days that differ or two non-empty licences that differ. Records
/// without the manifest are left out; last days and roll-back counts are
/// never looked at.
pub open spec fn cross_tampered(rs: Seq<RecView>, m: Seq<char>) -> bool {
    count_current(rs, m) >= 2 && (differ(current_firsts(rs, m)) || differ(
        current_licenses(rs, m),
    ))
}

proof fn lemma_differ_step<V>(xs: Seq<Option<V>>, k: int, w: Option<int>, d: bool)
    requires
        0 <= k < xs.len(),
        d == differ(xs.take(k)),
        match w {
            None => forall|i: int| 0 <= i < k ==> (#[trigger] xs[i]) is None,
            Some(i0) => 0 <= i0 < k && xs[i0] is Some && (!d ==> forall|i: int|
                0 <= i < k && (#[trigger] xs[i]) is Some ==> xs[i]->0 == xs[i0]->0),
        },
    ensures
        differ(xs.take(k + 1)) == (d || (w is Some && xs[k] is Some && xs[k]->0 != xs[w->0]->0)),
{
    let p = xs.take(k);
    let q = xs.take(k + 1);
    if d {
        let (i, j) = choose|i: int, j: int|
            0 <= i < p.len() && 0 <= j < p.len() && (#[trigger] p[i]) is Some && (#[trigger] p[j]) is Some
                && p[i]->0 != p[j]->0;
        assert(q[i] == p[i] && q[j] == p[j]);
    } else {
        if w is Some && xs[k] is Some && xs[k]->0 != xs[w->0]->0 {
            let i0 = w->0;
            assert(q[i0] == xs[i0] && q[k] == xs[k]);
        } else {
            if differ(q) {
                let (i, j) = choose|i: int, j: int|
                    0 <= i < q.len() && 0 <= j < q.len() && (#[trigger] q[i]) is Some && (#[trigger] q[j])
                        is Some && q[i]->0 != q[j]->0;
                assert(q[i] == xs[i] && q[j] == xs[j]);
                match w {
                    None => {
                        if i < k {
                            assert(xs[i] is None);
                        }
                        if j < k {
                            assert(xs[j] is None);
                        }
                    },
                    Some(i0) => {
                        if i < k {
                            assert(p[i] == xs[i]);
                        }
                        if j < k {
                            assert(p[j] == xs[j]);
                        }
                        if i < k && j < k {
                            assert(p[i]->0 != p[j]->0);
                        }
                    },
                }
            }
        }
    }
}

/// Tracks the first days over the records: the first one present, and
/// whether a different one came.
fn track_first(
    first: &mut Option<u64>,
    d: &mut bool,
    x: Option<u64>,
    xs: Ghost<Seq<Option<u64>>>,
    k: Ghost<int>,
    w: Ghost<Option<int>>,
) -> (nw: Ghost<Option<int>>)
    requires
        0 <= k@ < xs@.len(),
        xs@[k@] == x,
        *old(d) == differ(xs@.take(k@)),
        match w@ {
            None => old(first)@ is None && forall|i: int| 0 <= i < k@ ==> (#[trigger] xs@[i]) is None,
            Some(i0) => 0 <= i0 < k@ && xs@[i0] == *old(first) && old(first)@ is Some && (!*old(d)
                ==> forall|i: int|
                0 <= i < k@ && (#[trigger] xs@[i]) is Some ==> xs@[i]->0 == xs@[i0]->0),
        },
    ensures
        *final(d) == differ(xs@.take(k@ + 1)),
        match nw@ {
            None => final(first)@ is None && forall|i: int|
                0 <= i < k@ + 1 ==> (#[trigger] xs@[i]) is None,
            Some(i0) => 0 <= i0 < k@ + 1 && xs@[i0] == *final(first) && final(first)@ is Some && (
            !*final(d) ==> forall|i: int|
                0 <= i < k@ + 1 && (#[trigger] xs@[i]) is Some ==> xs@[i]->0 == xs@[i0]->0),
        },
{
    proof {
        lemma_differ_step(xs@, k@, w@, *d);
    }
    let ghost mut nw = w@;
    match x {
        None => {},
        Some(v) => {
            match *first {
                None => {
                    *first = Some(v);
                    proof {
                        nw = Some(k@);
                    }
                },
                Some(f) => {
                    *d = *d || f != v;
                },
            }
        },
    }
    Ghost(nw)
}

/// Tracks the licence lines over the records, as [`track_first`] does.
fn track_license(
    first: &mut Option<Vec<char>>,
    d: &mut bool,
    x: Option<Vec<char>>,
    xs: Ghost<Seq<Option<Seq<char>>>>,
    k: Ghost<int>,
    w: Ghost<Option<int>>,
) -> (nw: Ghost<Option<int>>)
    requires
        0 <= k@ < xs@.len(),
        xs@[k@] == opt_chars(x),
        *old(d) == differ(xs@.take(k@)),
        match w@ {
            None => old(first)@ is None && forall|i: int| 0 <= i < k@ ==> (#[trigger] xs@[i]) is None,
            Some(i0) => 0 <= i0 < k@ && xs@[i0] == opt_chars(*old(first)) && old(first)@ is Some && (
            !*old(d) ==> forall|i: int|
                0 <= i < k@ && (#[trigger] xs@[i]) is Some ==> xs@[i]->0 == xs@[i0]->0),
        },
    ensures
        *final(d) == differ(xs@.take(k@ + 1)),
        match nw@ {
            None => final(first)@ is None && forall|i: int|
                0 <= i < k@ + 1 ==> (#[trigger] xs@[i]) is None,
            Some(i0) => 0 <= i0 < k@ + 1 && xs@[i0] == opt_chars(*final(first)) && final(first)@ is Some
                && (!*final(d) ==> forall|i: int|
                0 <= i < k@ + 1 && (#[trigger] xs@[i]) is Some ==> xs@[i]->0 == xs@[i0]->0),
        },
{
    proof {
        lemma_differ_step(xs@, k@, w@, *d);
    }
    let ghost mut nw = w@;
    match x {
        None => {},
        Some(v) => {
            let same = match first {
                None => None,
                Some(f) => Some(crate::text::seq_eq(f.as_slice(), v.as_slice())),
            };
            match same {
                None => {
                    *first = Some(v);
                    proof {
                        nw = Some(k@);
                    }
                },
                Some(eq) => {
                    *d = *d || !eq;
                },
            }
        },
    }
    Ghost(nw)
}

pub open spec fn rec_views(records: Seq<(&str, &Record)>) -> Seq<RecView> {
    records.map_values(|x: (&str, &Record)| x.1@)
}

/// The tamper verdict of the copies: see [`cross_tampered`].
pub fn cross_validate(records: &[(&str, &Record)], manifest: &str) -> (r: bool)
    ensures
        r == cross_tampered(rec_views(records@), manifest@),
{
    let ghost rs = rec_views(records@);
    let ghost m = manifest@;
    let ghost fs = current_firsts(rs, m);
    let ghost ls = current_licenses(rs, m);
    let mc = chars_of(manifest);
    let n = records.len();
    let mut cnt: usize = 0;
    let mut ff: Option<u64> = None;
    let mut df = false;
    let mut fl: Option<Vec<char>> = None;
    let mut dl = false;
    let ghost mut wf: Option<int> = None;
    let ghost mut wl: Option<int> = None;
    let mut k: usize = 0;
    assert(fs.take(0) =~= Seq::<Option<u64>>::empty());
    assert(ls.take(0) =~= Seq::<Option<Seq<char>>>::empty());
    assert(rs.take(0) =~= Seq::<RecView>::empty());
    while k < n
        invariant
            n == records@.len(),
            rs == rec_views(records@),
            m == manifest@,
            mc@ == m,
            fs == current_firsts(rs, m),
            ls == current_licenses(rs, m),
            k <= n,
            cnt == count_current(rs.take(k as int), m),
            cnt <= k,
            df == differ(fs.take(k as int)),
            dl == differ(ls.take(k as int)),
            match wf {
                None => ff is None && forall|i: int| 0 <= i < k ==> (#[trigger] fs[i]) is None,
                Some(i0) => 0 <= i0 < k && fs[i0] == ff && ff is Some && (!df ==> forall|i: int|
                    0 <= i < k && (#[trigger] fs[i]) is Some ==> fs[i]->0 == fs[i0]->0),
            },
            match wl {
                None => fl is None && forall|i: int| 0 <= i < k ==> (#[trigger] ls[i]) is None,
                Some(i0) => 0 <= i0 < k && ls[i0] == opt_chars(fl) && fl is Some && (!dl ==> forall|
                    i: int,
                | 0 <= i < k && (#[trigger] ls[i]) is Some ==> ls[i]->0 == ls[i0]->0),
            },
        decreases n - k,
    {
        let rec: &Record = records[k].1;
        assert(rs[k as int] == rec@);
        let is_cur = match &rec.mani {
            Some(x) => crate::text::seq_eq(chars_of(x.as_str()).as_slice(), mc.as_slice()),
            None => false,
        };
        assert(is_cur == current(rec@, m));
        assert(rs.take(k + 1).drop_last() =~= rs.take(k as int));
        if is_cur {
            cnt = cnt + 1;
        }
        let xf: Option<u64> = if is_cur {
            match &rec.trial {
                Some(t) => Some(t.first_run_day),
                None => None,
            }
        } else {
            None
        };
        assert(fs[k as int] == xf);
        let Ghost(nwf) = track_first(&mut ff, &mut df, xf, Ghost(fs), Ghost(k as int), Ghost(wf));
        proof {
            wf = nwf;
        }
        let xl: Option<Vec<char>> = if is_cur {
            match &rec.license {
                Some(l) => {
                    let lv = chars_of(l.as_str());
                    if lv.len() > 0 {
                        Some(lv)
                    } else {
                        None
                    }
                },
                None => None,
            }
        } else {
            None
        };
        assert(ls[k as int] == opt_chars(xl));
        let Ghost(nwl) = track_license(&mut fl, &mut dl, xl, Ghost(ls), Ghost(k as int), Ghost(wl));
        proof {
            wl = nwl;
        }
        k += 1;
    }
    assert(rs.take(n as int) =~= rs);
    assert(fs.take(n as int) =~= fs);
    assert(ls.take(n as int) =~= ls);
    cnt >= 2 && (df || dl)
}

/// Fewer than two copies of this layout never give a tamper verdict.
pub proof fn lemma_cross_needs_two(rs: Seq<RecView>, m: Seq<char>)
    requires
        count_current(rs, m) < 2,
    ensures
        !cross_tampered(rs, m),
{
}

proof fn lemma_count_same(rs1: Seq<RecView>, rs2: Seq<RecView>, m: Seq<char>)
    requires
        rs1.len() == rs2.len(),
        forall|i: int| 0 <= i < rs1.len() ==> (#[trigger] rs1[i]).3 == rs2[i].3,
    ensures
        count_current(rs1, m) == count_current(rs2, m),
    decreases rs1.len(),
{
    if rs1.len() > 0 {
        let a = rs1.drop_last();
        let b = rs2.drop_last();
        assert forall|i: int| 0 <= i < a.len() implies (#[trigger] a[i]).3 == b[i].3 by {
            assert(a[i] == rs1[i] && b[i] == rs2[i]);
        }
        lemma_count_same(a, b, m);
        assert(rs1.last().3 == rs2.last().3) by {
            assert(rs1[rs1.len() - 1].3 == rs2[rs1.len() - 1].3);
        }
    }
}

/// The verdict reads only the manifest, the first day and the licence of
/// each copy: copies that differ in their last day, roll-back count or MAC
/// alone give the same verdict.
pub proof fn lemma_cross_ignores_volatile(rs1: Seq<RecView>, rs2: Seq<RecView>, m: Seq<char>)
    requires
        rs1.len() == rs2.len(),
        forall|i: int|
            0 <= i < rs1.len() ==> {
                &&& (#[trigger] rs1[i]).3 == rs2[i].3
                &&& rs1[i].1 == rs2[i].1
                &&& (rs1[i].0 is Some) == (rs2[i].0 is Some)
                &&& rs1[i].0 is Some ==> (rs1[i].0->0).0 == (rs2[i].0->0).0
            },
    ensures
        cross_tampered(rs1, m) == cross_tampered(rs2, m),
{
    lemma_count_same(rs1, rs2, m);
    assert(current_firsts(rs1, m) =~= current_firsts(rs2, m));
    assert(current_licenses(rs1, m) =~= current_licenses(rs2, m));
}

/// A copy of an older layout (one that does not name the manifest) does not
/// change the verdict.
pub proof fn lemma_cross_ignores_legacy(rs: Seq<RecView>, r: RecView, m: Seq<char>)
    requires
        !current(r, m),
    ensures
        cross_tampered(rs.push(r), m) == cross_tampered(rs, m),
{
    assert(rs.push(r).drop_last() =~= rs);
    let f1 = current_firsts(rs.push(r), m);
    let f0 = current_firsts(rs, m);
    assert(f1 =~= f0.push(None));
    let l1 = current_licenses(rs.push(r), m);
    let l0 = current_licenses(rs, m);
    assert(l1 =~= l0.push(None));
    if differ(f1) {
        let (i, j) = choose|i: int, j: int|
            0 <= i < f1.len() && 0 <= j < f1.len() && (#[trigger] f1[i]) is Some && (#[trigger] f1[j]) is Some
                && f1[i]->0 != f1[j]->0;
        assert(f0[i] == f1[i] && f0[j] == f1[j]);
    }
    if differ(f0) {
        let (i, j) = choose|i: int, j: int|
            0 <= i < f0.len() && 0 <= j < f0.len() && (#[trigger] f0[i]) is Some && (#[trigger] f0[j]) is Some
                && f0[i]->0 != f0[j]->0;
        assert(f0[i] == f1[i] && f0[j] == f1[j]);
    }
    if differ(l1) {
        let (i, j) = choose|i: int, j: int|
            0 <= i < l1.len() && 0 <= j < l1.len() && (#[trigger] l1[i]) is Some && (#[trigger] l1[j]) is Some
                && l1[i]->0 != l1[j]->0;
        assert(l0[i] == l1[i] && l0[j] == l1[j]);
    }
    if differ(l0) {
        let (i, j) = choose|i: int, j: int|
            0 <= i < l0.len() && 0 <= j < l0.len() && (#[trigger] l0[i]) is Some && (#[trigger] l0[j]) is Some
                && l0[i]->0 != l0[j]->0;
        assert(l0[i] == l1[i] && l0[j] == l1[j]);
    }
}

// ===========================================================================
// Loading: decrypt, read, merge and cross-check every copy
// ===========================================================================

/// What one storage place held: its tag, and its content when it could be
/// read (nothing when it is missing; that is no sign of tampering).
#[derive(Debug)]
pub struct StoreContent {
    pub tag: String,
    pub raw: Option<String>,
}

/// The outcome of loading: the merged trial, the first licence code found,
/// whether tampering was seen, and whether some place was missing and should
/// be written again.
#[derive(Debug)]
pub struct LoadResult {
    pub trial: Option<TrialState>,
    pub license_raw: Option<String>,
    pub tampered: bool,
    pub needs_heal: bool,
}

pub type LoadView = (Option<TrialView>, Option<Seq<char>>, bool, bool);

impl View for LoadResult {
    type V = LoadView;

    open spec fn view(&self) -> LoadView {
        (opt_trial(self.trial), opt_str(self.license_raw), self.tampered, self.needs_heal)
    }
}

/// Valid UTF-8 read as text.
pub open spec fn utf8_or(b: Option<Seq<u8>>) -> Option<Seq<char>> {
    match b {
        Some(x) => if valid_utf8(x) {
            Some(decode_utf8(x))
        } else {
            None
        },
        None => None,
    }
}

/// The text of a stored copy: decrypted for its place, else with the older
/// place-less key, else the content itself (trimmed) as plain text.
pub open spec fn record_text(raw: Seq<char>, tag: Seq<char>, fp: Seq<u8>) -> Seq<char> {
    match utf8_or(gcm_decoded(trim(raw), location_key_of(fp, encode_utf8(tag)))) {
        Some(t) => t,
        None => match utf8_or(gcm_decoded(trim(raw), export_key_of(fp))) {
            Some(t) => t,
            None => trim(raw),
        },
    }
}

/// The records read so far and whether one of them showed tampering: a
/// trial line that does not read or verify, or a copy of this layout found
/// at another place than the one it names.
pub type LoadAcc = (Seq<(Seq<char>, RecView)>, bool);

pub open spec fn load_step(acc: LoadAcc, tag: Seq<char>, raw: Option<Seq<char>>, fp: Seq<u8>, m: Seq<
    char,
>) -> LoadAcc {
    match raw {
        None => acc,
        Some(rw) => {
            let text = record_text(rw, tag, fp);
            let rec = record_parse(text, fp);
            let bad = (first_line(text).len() > 0 && rec.0 is None) || (rec.3 == Some(m) && rec.2
                != Some(tag));
            (acc.0.push((tag, rec)), acc.1 || bad)
        },
    }
}

pub type ContentView = (Seq<char>, Option<Seq<char>>);

pub open spec fn content_views(cs: Seq<StoreContent>) -> Seq<ContentView> {
    cs.map_values(|c: StoreContent| (c.tag@, opt_str(c.raw)))
}

pub open spec fn load_fold(cs: Seq<ContentView>, fp: Seq<u8>, m: Seq<char>) -> LoadAcc
    decreases cs.len(),
{
    if cs.len() == 0 {
        (Seq::empty(), false)
    } else {
        load_step(load_fold(cs.drop_last(), fp, m), cs.last().0, cs.last().1, fp, m)
    }
}

/// Earliest first day, latest last day and largest roll-back count of the
/// records that hold a trial.
pub open spec fn merged(recs: Seq<(Seq<char>, RecView)>) -> Option<(u64, u64, u32)>
    decreases recs.len(),
{
    if recs.len() == 0 {
        None
    } else {
        let m0 = merged(recs.drop_last());
        match recs.last().1.0 {
            None => m0,
            Some(t) => match m0 {
                None => Some((t.0, t.1, t.2)),
                Some(x) => Some(
                    (
                        if t.0 < x.0 {
                            t.0
                        } else {
                            x.0
                        },
                        if t.1 > x.1 {
                            t.1
                        } else {
                            x.1
                        },
                        if t.2 > x.2 {
                            t.2
                        } else {
                            x.2
                        },
                    ),
                ),
            },
        }
    }
}

/// The licence line of the first record that has one.
pub open spec fn first_license(recs: Seq<(Seq<char>, RecView)>) -> Option<Seq<char>>
    decreases recs.len(),
{
    if recs.len() == 0 {
        None
    } else {
        match first_license(recs.drop_last()) {
            Some(x) => Some(x),
            None => recs.last().1.1,
        }
    }
}

pub open spec fn recs_only(recs: Seq<(Seq<char>, RecView)>) -> Seq<RecView> {
    recs.map_values(|x: (Seq<char>, RecView)| x.1)
}

/// What loading gives for the contents of the places.
pub open spec fn load_spec(cs: Seq<ContentView>, fp: Seq<u8>, m: Seq<char>) -> LoadView {
    let acc = load_fold(cs, fp, m);
    let tampered = acc.1 || cross_tampered(recs_only(acc.0), m);
    (
        match merged(acc.0) {
            None => None,
            Some(x) => Some(trial_signed((x.0, x.1, x.2, Seq::empty()), fp)),
        },
        first_license(acc.0),
        tampered,
        !tampered && exists|i: int| 0 <= i < cs.len() && (#[trigger] cs[i]).1 is None,
    )
}

fn trim_string(s: &String) -> (r: String)
    ensures
        r@ == trim(s@),
{
    let v = chars_of(s.as_str());
    let t = crate::text::trim_vec(v.as_slice());
    string_from(t.as_slice())
}

fn text_of(b: Option<Vec<u8>>) -> (r: Option<String>)
    ensures
        opt_str(r) == utf8_or(crate::license::crypto::opt_bytes(b)),
{
    match b {
        Some(x) => utf8_text(x.as_slice()),
        None => None,
    }
}

/// Decrypts a copy written with the older key that names no place; nothing
/// when the content is not such a copy (or not for this machine), or does
/// not decrypt to text.
pub fn try_decrypt(content: &str, machine_fp: &[u8]) -> (r: Option<String>)
    ensures
        opt_str(r) == utf8_or(gcm_decoded(trim(content@), export_key_of(machine_fp@))),
{
    let v = chars_of(content);
    let t = crate::text::trim_vec(v.as_slice());
    let ts = string_from(t.as_slice());
    text_of(aes256gcm_decrypt(ts.as_str(), machine_fp))
}

/// The places whose keys [`decrypt_for_display`] tries, in order.
pub open spec fn display_tags() -> Seq<Seq<char>> {
    seq!["home"@, "config"@, "local"@, "regmain"@, "regclsid"@]
}

/// The text of the first of `tags` whose key decrypts the content.
pub open spec fn first_place_text(content: Seq<char>, fp: Seq<u8>, tags: Seq<Seq<char>>) -> Option<Seq<char>>
    decreases tags.len(),
{
    if tags.len() == 0 {
        None
    } else {
        match utf8_or(gcm_decoded(trim(content), location_key_of(fp, encode_utf8(tags[0])))) {
            Some(t) => Some(t),
            None => first_place_text(content, fp, tags.drop_first()),
        }
    }
}

/// What an encrypted text shows when decrypted for display: the text under
/// the export key, else under the key of the first place that opens it.
pub open spec fn display_text(content: Seq<char>, fp: Seq<u8>) -> Option<Seq<char>> {
    match utf8_or(gcm_decoded(trim(content), export_key_of(fp))) {
        Some(t) => Some(t),
        None => first_place_text(content, fp, display_tags()),
    }
}

fn decrypt_at(content: &str, machine_fp: &[u8], tag: &str) -> (r: Option<String>)
    ensures
        opt_str(r) == utf8_or(gcm_decoded(trim(content@), location_key_of(machine_fp@, encode_utf8(tag@)))),
{
    let v = chars_of(content);
    let t = crate::text::trim_vec(v.as_slice());
    let ts = string_from(t.as_slice());
    text_of(aes256gcm_decrypt_for(ts.as_str(), machine_fp, tag.as_bytes()))
}

/// Decrypts a text for display, whatever wrote it: an exported blob (the
/// export key) or a copy from any storage place (home, config, local and
/// the two registry places, tried in that order); nothing when none opens
/// it.
pub fn decrypt_for_display(encrypted: &str, machine_fp: &[u8]) -> (r: Option<String>)
    ensures
        opt_str(r) == display_text(encrypted@, machine_fp@),
{
    match try_decrypt(encrypted, machine_fp) {
        Some(t) => {
            return Some(t);
        },
        None => {},
    }
    let ghost c = encrypted@;
    let ghost fp = machine_fp@;
    let ghost tags = display_tags();
    assert(tags.drop_first() =~= seq!["config"@, "local"@, "regmain"@, "regclsid"@]);
    assert(tags.drop_first().drop_first() =~= seq!["local"@, "regmain"@, "regclsid"@]);
    assert(tags.drop_first().drop_first().drop_first() =~= seq!["regmain"@, "regclsid"@]);
    assert(tags.drop_first().drop_first().drop_first().drop_first() =~= seq!["regclsid"@]);
    assert(seq!["regclsid"@].drop_first() =~= Seq::<Seq<char>>::empty());
    proof {
        reveal_with_fuel(first_place_text, 6);
    }
    match decrypt_at(encrypted, machine_fp, "home") {
        Some(t) => {
            return Some(t);
        },
        None => {},
    }
    match decrypt_at(encrypted, machine_fp, "config") {
        Some(t) => {
            return Some(t);
        },
        None => {},
    }
    match decrypt_at(encrypted, machine_fp, "local") {
        Some(t) => {
            return Some(t);
        },
        None => {},
    }
    match decrypt_at(encrypted, machine_fp, "regmain") {
        Some(t) => {
            return Some(t);
        },
        None => {},
    }
    decrypt_at(encrypted, machine_fp, "regclsid")
}

/// [`record_text`]: decrypts a stored copy.
fn decrypt_text(raw: &String, tag: &String, machine_fp: &[u8]) -> (r: String)
    ensures
        r@ == record_text(raw@, tag@, machine_fp@),
{
    let tr = trim_string(raw);
    let tb = str_bytes(tag);
    match text_of(aes256gcm_decrypt_for(tr.as_str(), machine_fp, tb.as_slice())) {
        Some(t) => t,
        None => match try_decrypt(raw.as_str(), machine_fp) {
            Some(t) => t,
            None => tr,
        },
    }
}

fn first_line_nonempty(text: &String) -> (r: bool)
    ensures
        r == (first_line(text@).len() > 0),
{
    let t = chars_of(text.as_str());
    if t.len() == 0 {
        assert(lines_of(t@) =~= Seq::<Seq<char>>::empty());
        return false;
    }
    assert(t@.skip(0) =~= t@);
    let (a, b, _) = next_line(t.as_slice(), 0);
    b > a
}

fn opt_eq(a: &Option<String>, b: &String) -> (r: bool)
    ensures
        r == (opt_str(*a) == Some(b@)),
{
    match a {
        Some(x) => crate::text::seq_eq(chars_of(x.as_str()).as_slice(), chars_of(b.as_str()).as_slice()),
        None => false,
    }
}

pub open spec fn tagged_views(v: Seq<(String, Record)>) -> Seq<(Seq<char>, RecView)> {
    v.map_values(|x: (String, Record)| (x.0@, x.1@))
}

/// Loads the copies: each one is decrypted for its place (falling back to
/// the older key and to plain text), read and checked; the trials merge to
/// the earliest first day, the latest last day and the largest roll-back
/// count; the first licence code found is kept; tampering is a copy whose
/// trial line does not verify, a copy of this layout at another place than
/// the one it names, or disagreeing copies ([`cross_tampered`]).
pub fn load(contents: &Vec<StoreContent>, machine_fp: &[u8], manifest: &str) -> (r: LoadResult)
    ensures
        r@ == load_spec(content_views(contents@), machine_fp@, manifest@),
{
    let ghost cs = content_views(contents@);
    let ghost m = manifest@;
    let ms = string_from(chars_of(manifest).as_slice());
    let mut records: Vec<(String, Record)> = Vec::new();
    let mut tampered = false;
    let mut missing = false;
    let n = contents.len();
    let mut k: usize = 0;
    assert(cs.take(0) =~= Seq::<ContentView>::empty());
    assert(tagged_views(records@) =~= Seq::<(Seq<char>, RecView)>::empty());
    while k < n
        invariant
            n == contents@.len(),
            cs == content_views(contents@),
            m == manifest@,
            ms@ == m,
            k <= n,
            load_fold(cs.take(k as int), machine_fp@, m) == (tagged_views(records@), tampered),
            missing == (exists|i: int| 0 <= i < k && (#[trigger] cs[i]).1 is None),
        decreases n - k,
    {
        let c = &contents[k];
        assert(cs[k as int] == (c.tag@, opt_str(c.raw)));
        assert(cs.take(k + 1).drop_last() =~= cs.take(k as int));
        assert(cs.take(k + 1).last() == cs[k as int]);
        match &c.raw {
            None => {
                missing = true;
            },
            Some(raw) => {
                let text = decrypt_text(raw, &c.tag, machine_fp);
                let rec = parse_record(text.as_str(), machine_fp);
                let present = first_line_nonempty(&text);
                let bad = (present && rec.trial.is_none()) || (opt_eq(&rec.mani, &ms) && !opt_eq(
                    &rec.loc,
                    &c.tag,
                ));
                tampered = tampered || bad;
                let ghost old_recs = tagged_views(records@);
                records.push((string_from(chars_of(c.tag.as_str()).as_slice()), rec));
                assert(tagged_views(records@) =~= old_recs.push(
                    (c.tag@, record_parse(text@, machine_fp@)),
                ));
            },
        }
        k += 1;
    }
    assert(cs.take(n as int) =~= cs);
    let ghost recs = tagged_views(records@);
    // merge
    let mut mf: Option<(u64, u64, u32)> = None;
    let mut lic: Option<String> = None;
    let mut j: usize = 0;
    assert(recs.take(0) =~= Seq::<(Seq<char>, RecView)>::empty());
    while j < records.len()
        invariant
            recs == tagged_views(records@),
            j <= records@.len(),
            mf == merged(recs.take(j as int)),
            opt_str(lic) == first_license(recs.take(j as int)),
        decreases records@.len() - j,
    {
        let rec = &records[j].1;
        assert(recs[j as int] == (records@[j as int].0@, rec@));
        assert(recs.take(j + 1).drop_last() =~= recs.take(j as int));
        assert(recs.take(j + 1).last() == recs[j as int]);
        match &rec.trial {
            None => {},
            Some(t) => {
                mf = match mf {
                    None => Some((t.first_run_day, t.last_run_day, t.rollback_count)),
                    Some(x) => Some(
                        (
                            if t.first_run_day < x.0 {
                                t.first_run_day
                            } else {
                                x.0
                            },
                            if t.last_run_day > x.1 {
                                t.last_run_day
                            } else {
                                x.1
                            },
                            if t.rollback_count > x.2 {
                                t.rollback_count
                            } else {
                                x.2
                            },
                        ),
                    ),
                };
            },
        }
        if lic.is_none() {
            lic = match &rec.license {
                Some(l) => Some(l.clone()),
                None => None,
            };
        }
        j += 1;
    }
    assert(recs.take(records@.len() as int) =~= recs);
    let mut cv: Vec<(&str, &Record)> = Vec::new();
    let mut i: usize = 0;
    while i < records.len()
        invariant
            recs == tagged_views(records@),
            i <= records@.len(),
            cv@.len() == i,
            forall|q: int| 0 <= q < i ==> (#[trigger] cv@[q]).1@ == recs[q].1,
        decreases records@.len() - i,
    {
        cv.push((records[i].0.as_str(), &records[i].1));
        i += 1;
    }
    assert(rec_views(cv@) =~= recs_only(recs));
    let cross = cross_validate(cv.as_slice(), manifest);
    let tampered = tampered || cross;
    let trial = match mf {
        None => None,
        Some(x) => {
            let mut t = TrialState {
                first_run_day: x.0,
                last_run_day: x.1,
                rollback_count: x.2,
                mac: String::new(),
            };
            t.sign(machine_fp);
            Some(t)
        },
    };
    LoadResult { trial, license_raw: lic, tampered, needs_heal: !tampered && missing }
}

// ===========================================================================
// Saving: one encrypted copy per place
// ===========================================================================

/// Base64 text has no whitespace to trim.
proof fn lemma_b64_trimmed(s: Seq<char>)
    requires
        forall|i: int| 0 <= i < s.len() ==> crate::license::crypto::b64_char(#[trigger] s[i]),
    ensures
        trim(s) == s,
{
    if s.len() > 0 {
        assert(crate::license::crypto::b64_char(s[0]));
        assert(crate::license::crypto::b64_char(s[s.len() - 1]));
    }
}

/// A copy to write: the place's tag and the encrypted text.
#[derive(Debug)]
pub struct StoreWrite {
    pub tag: String,
    pub blob: String,
}

/// The copies are for places of `tags`, in their order: `ix` gives, for
/// each copy, the index of its place, increasing.
pub open spec fn places_in_order(ws: Seq<StoreWrite>, tags: Seq<String>, ix: Seq<int>) -> bool {
    &&& ix.len() == ws.len()
    &&& forall|i: int| 0 <= i < ws.len() ==> 0 <= #[trigger] ix[i] < tags.len() && ws[i].tag@ == tags[ix[i]]@
    &&& forall|i: int, j: int| 0 <= i < j < ix.len() ==> ix[i] < ix[j]
}

pub open spec fn tag_views(tags: Seq<String>) -> Seq<Seq<char>> {
    tags.map_values(|t: String| t@)
}

pub open spec fn nonce_views(v: Seq<Option<Vec<u8>>>) -> Seq<Option<Seq<u8>>> {
    v.map_values(|n: Option<Vec<u8>>| match n {
        Some(x) => Some(x@),
        None => None,
    })
}

pub open spec fn write_pairs(ws: Seq<StoreWrite>) -> Seq<(Seq<char>, Seq<char>)> {
    ws.map_values(|w: StoreWrite| (w.tag@, w.blob@))
}

/// Every drawn nonce is 12 bytes long.
pub open spec fn nonces_ok(ns: Seq<Option<Seq<u8>>>) -> bool {
    forall|i: int| 0 <= i < ns.len() ==> (#[trigger] ns[i] matches Some(n) ==> n.len() == 12)
}

/// A nonce was drawn for every place.
pub open spec fn all_drawn(ns: Seq<Option<Seq<u8>>>) -> bool {
    forall|i: int| 0 <= i < ns.len() ==> (#[trigger] ns[i]) is Some
}

/// The text of every place is short enough for AES-GCM (at most 2^36 bytes).
pub open spec fn texts_sealable(t: TrialView, lic: Option<Seq<char>>, tags: Seq<String>, m: Seq<char>) -> bool {
    forall|i: int|
        0 <= i < tags.len() ==> encode_utf8(plaintext_of(t, lic, (#[trigger] tags[i])@, m)).len()
            <= 0x10_0000_0000
}

/// The copies written with one nonce per place (`None`: no nonce could be
/// drawn for that place): for each place in order whose copy seals, the tag
/// and the sealed blob of the text written there.
pub open spec fn saved_writes(
    t: TrialView,
    lic: Option<Seq<char>>,
    fp: Seq<u8>,
    tags: Seq<Seq<char>>,
    m: Seq<char>,
    ns: Seq<Option<Seq<u8>>>,
) -> Seq<(Seq<char>, Seq<char>)>
    decreases tags.len(),
{
    if tags.len() == 0 || ns.len() != tags.len() {
        Seq::empty()
    } else {
        let pre = saved_writes(t, lic, fp, tags.drop_last(), m, ns.drop_last());
        let tag = tags.last();
        match ns.last() {
            Some(n) => match sealed_blob(
                location_key_of(fp, encode_utf8(tag)),
                n,
                encode_utf8(plaintext_of(t, lic, tag, m)),
            ) {
                Some(b) => pre.push((tag, b)),
                None => pre,
            },
            None => pre,
        }
    }
}

/// Encrypts the state for every place with the given nonces, one per place:
/// each copy is sealed under its own place's key (see [`saved_writes`]); a
/// place without a nonce, or whose sealing fails, is left out; with a nonce
/// for every place and no text over 2^36 bytes, every place is written. Each
/// copy is Base64 text that decrypts for its place to the text
/// [`build_plaintext`] gives for it.
pub fn save_with_nonces(
    trial: &TrialState,
    license_raw: &Option<String>,
    machine_fp: &[u8],
    tags: &Vec<String>,
    manifest: &str,
    nonces: &Vec<Option<Vec<u8>>>,
) -> (r: Vec<StoreWrite>)
    requires
        nonces@.len() == tags@.len(),
        nonces_ok(nonce_views(nonces@)),
    ensures
        write_pairs(r@) == saved_writes(
            trial@,
            opt_str(*license_raw),
            machine_fp@,
            tag_views(tags@),
            manifest@,
            nonce_views(nonces@),
        ),
        all_drawn(nonce_views(nonces@)) && texts_sealable(trial@, opt_str(*license_raw), tags@, manifest@)
            ==> r@.len() == tags@.len(),
        exists|ix: Seq<int>| places_in_order(r@, tags@, ix),
        forall|i: int| 0 <= i < r@.len() ==> trim((#[trigger] r@[i]).blob@) == r@[i].blob@,
        forall|i: int|
            0 <= i < r@.len() ==> gcm_decoded(
                (#[trigger] r@[i]).blob@,
                location_key_of(machine_fp@, encode_utf8(r@[i].tag@)),
            ) == Some(
                encode_utf8(plaintext_of(trial@, opt_str(*license_raw), r@[i].tag@, manifest@)),
            ),
{
    let ghost tv = tag_views(tags@);
    let ghost nv = nonce_views(nonces@);
    let ghost lic = opt_str(*license_raw);
    let mut out: Vec<StoreWrite> = Vec::new();
    let mut k: usize = 0;
    let ghost mut ix: Seq<int> = Seq::empty();
    while k < tags.len()
        invariant
            k <= tags@.len(),
            nonces@.len() == tags@.len(),
            nonces_ok(nv),
            tv == tag_views(tags@),
            nv == nonce_views(nonces@),
            lic == opt_str(*license_raw),
            write_pairs(out@) == saved_writes(trial@, lic, machine_fp@, tv.take(k as int), manifest@, nv.take(k as int)),
            out@.len() <= k,
            all_drawn(nv) && texts_sealable(trial@, lic, tags@, manifest@) ==> out@.len() == k,
            places_in_order(out@, tags@, ix),
            forall|i: int| 0 <= i < ix.len() ==> ix[i] < k,
            forall|i: int| 0 <= i < out@.len() ==> trim((#[trigger] out@[i]).blob@) == out@[i].blob@,
            forall|i: int|
                0 <= i < out@.len() ==> gcm_decoded(
                    (#[trigger] out@[i]).blob@,
                    location_key_of(machine_fp@, encode_utf8(out@[i].tag@)),
                ) == Some(
                    encode_utf8(plaintext_of(trial@, opt_str(*license_raw), out@[i].tag@, manifest@)),
                ),
        decreases tags@.len() - k,
    {
        let tag = &tags[k];
        let ghost pre = write_pairs(out@);
        proof {
            assert(tv.take(k + 1).drop_last() =~= tv.take(k as int));
            assert(nv.take(k + 1).drop_last() =~= nv.take(k as int));
            assert(tv.take(k + 1).last() == tag@);
            assert(nv.take(k + 1).last() == nv[k as int]);
        }
        match &nonces[k] {
            Some(nonce) => {
                assert(nv[k as int] == Some(nonce@));
                assert(tags@[k as int] == *tag);
                let pt = build_plaintext(trial, license_raw, tag.as_str(), manifest);
                let pb = str_bytes(&pt);
                let tb = str_bytes(tag);
                let key = derive_location_key(machine_fp, tb.as_slice());
                match seal_blob(pb.as_slice(), key.as_slice(), nonce.as_slice()) {
                    Some(blob) => {
                        proof {
                            lemma_b64_trimmed(blob@);
                        }
                        let w = StoreWrite { tag: string_from(chars_of(tag.as_str()).as_slice()), blob };
                        out.push(w);
                        proof {
                            ix = ix.push(k as int);
                            assert(write_pairs(out@) =~= pre.push((tag@, w.blob@)));
                        }
                    },
                    None => {},
                }
            },
            None => {
                assert(!all_drawn(nv));
            },
        }
        k += 1;
    }
    assert(tv.take(tags@.len() as int) =~= tv);
    assert(nv.take(tags@.len() as int) =~= nv);
    out
}

/// Encrypts the state for every place, each under the key of its own place
/// with a fresh random nonce (so the copies differ from one another): the
/// copies [`save_with_nonces`] gives for the nonces drawn, one per place. A
/// place for which no nonce could be drawn, or whose encryption fails (only
/// a text over 2^36 bytes does), is left out: with every nonce drawn, every
/// place is written. Each copy is for one of the given places, in their order, and
/// decrypts for that place to the text [`build_plaintext`] gives for it.
pub fn save(
    trial: &TrialState,
    license_raw: &Option<String>,
    machine_fp: &[u8],
    tags: &Vec<String>,
    manifest: &str,
) -> (r: Vec<StoreWrite>)
    ensures
        r@.len() <= tags@.len(),
        exists|ns: Seq<Option<Seq<u8>>>|
            ns.len() == tags@.len() && nonces_ok(ns) && write_pairs(r@) == #[trigger] saved_writes(
                trial@,
                opt_str(*license_raw),
                machine_fp@,
                tag_views(tags@),
                manifest@,
                ns,
            ) && (all_drawn(ns) && texts_sealable(trial@, opt_str(*license_raw), tags@, manifest@)
                ==> r@.len() == tags@.len()),
        exists|ix: Seq<int>| places_in_order(r@, tags@, ix),
        forall|i: int| 0 <= i < r@.len() ==> trim((#[trigger] r@[i]).blob@) == r@[i].blob@,
        forall|i: int|
            0 <= i < r@.len() ==> gcm_decoded(
                (#[trigger] r@[i]).blob@,
                location_key_of(machine_fp@, encode_utf8(r@[i].tag@)),
            ) == Some(
                encode_utf8(plaintext_of(trial@, opt_str(*license_raw), r@[i].tag@, manifest@)),
            ),
{
    let mut nonces: Vec<Option<Vec<u8>>> = Vec::new();
    let mut k: usize = 0;
    while k < tags.len()
        invariant
            k <= tags@.len(),
            nonces@.len() == k,
            nonces_ok(nonce_views(nonces@)),
        decreases tags@.len() - k,
    {
        let n = random_nonce();
        let ghost before = nonces@;
        nonces.push(n);
        assert(nonce_views(nonces@) =~= nonce_views(before).push(match n {
            Some(x) => Some(x@),
            None => None,
        }));
        k += 1;
    }
    let r = save_with_nonces(trial, license_raw, machine_fp, tags, manifest, &nonces);
    proof {
        let ns = nonce_views(nonces@);
        assert(saved_writes(trial@, opt_str(*license_raw), machine_fp@, tag_views(tags@), manifest@, ns)
            == write_pairs(r@));
        let ix = choose|ix: Seq<int>| places_in_order(r@, tags@, ix);
        assert(r@.len() <= tags@.len()) by {
            if r@.len() > tags@.len() {
                lemma_increasing_bound(ix, tags@.len() as int);
            }
        }
    }
    r
}

proof fn lemma_increasing_bound(ix: Seq<int>, n: int)
    requires
        n >= 0,
        forall|i: int| 0 <= i < ix.len() ==> 0 <= #[trigger] ix[i] < n,
        forall|i: int, j: int| 0 <= i < j < ix.len() ==> ix[i] < ix[j],
    ensures
        ix.len() <= n,
    decreases ix.len(),
{
    if ix.len() > 0 {
        let pre = ix.drop_last();
        let last = ix[ix.len() - 1];
        assert(ix.last() == last);
        assert(pre.len() == ix.len() - 1);
        assert forall|i: int| 0 <= i < pre.len() implies 0 <= #[trigger] pre[i] < ix.last() by {
            assert(pre[i] == ix[i]);
            assert(ix[i] < ix[ix.len() - 1]);
        }
        assert forall|i: int, j: int| 0 <= i < j < pre.len() implies pre[i] < pre[j] by {
            assert(pre[i] == ix[i] && pre[j] == ix[j]);
        }
        lemma_increasing_bound(pre, ix.last());
        assert(0 <= ix[ix.len() - 1] < n);
    }
}

/// `v` as `i64` read the way `as` does it.
pub open spec fn as_i64(v: u64) -> int {
    if v <= i64::MAX {
        v as int
    } else {
        v as int - 0x1_0000_0000_0000_0000
    }
}

/// Days from `today` to `day`, not below zero.
pub open spec fn days_until(day: u64, today: u64) -> u64 {
    let rem = as_i64(day) - as_i64(today);
    if rem < 0 {
        0
    } else {
        rem as u64
    }
}

fn days_until_exec(day: u64, today: u64) -> (r: u64)
    ensures
        r == days_until(day, today),
{
    let a: i128 = if day <= i64::MAX as u64 {
        day as i128
    } else {
        day as i128 - 0x1_0000_0000_0000_0000i128
    };
    let b: i128 = if today <= i64::MAX as u64 {
        today as i128
    } else {
        today as i128 - 0x1_0000_0000_0000_0000i128
    };
    let rem = a - b;
    if rem < 0 {
        0
    } else {
        rem as u64
    }
}

/// The payload text inside a licence code `payload.signature`, if its first
/// part is Base64 of UTF-8 text.
pub open spec fn code_payload_text(raw: Seq<char>) -> Option<Seq<char>> {
    match find_first(raw, '.') {
        None => None,
        Some(i) => match crate::license::crypto::b64_bytes_of(raw.take(i)) {
            None => None,
            Some(b) => utf8_or(Some(b)),
        },
    }
}

/// Days of use left that the export shows: for a licence code, the days to
/// its expiry (0 for a licence that never expires or whose payload does not
/// read); otherwise the days left of the trial.
pub open spec fn export_remaining(t: TrialView, license: Option<Seq<char>>, today: u64) -> u64 {
    match license {
        Some(raw) if raw.len() > 0 => match code_payload_text(raw) {
            None => 0,
            Some(text) => match crate::license::payload::payload_parse(text) {
                None => 0,
                Some(p) => if p.4 == crate::license::payload::EXPIRES_NEVER {
                    0
                } else {
                    days_until(p.4, today)
                },
            },
        },
        _ => days_until((t.0 + crate::license::payload::TRIAL_DAYS) as u64, today),
    }
}

/// The export text: `f=<first>|l=<last>|r=<days left>|mac=<SHA-256 of the
/// fingerprint>`.
pub open spec fn export_text(t: TrialView, license: Option<Seq<char>>, fp: Seq<u8>, today: u64) -> Seq<
    char,
> {
    seq!['f', '='] + dec(t.0 as nat) + seq!['|', 'l', '='] + dec(t.1 as nat) + seq!['|', 'r', '=']
        + dec(export_remaining(t, license, today) as nat) + seq!['|', 'm', 'a', 'c', '=']
        + crate::license::crypto::hex_of(crate::license::crypto::sha256_of(fp))
}

fn code_payload(raw: &String) -> (r: Option<String>)
    ensures
        opt_str(r) == code_payload_text(raw@),
{
    let t = chars_of(raw.as_str());
    proof {
        lemma_find_first(t@, '.');
    }
    assert(t@.subrange(0, t@.len() as int) =~= t@);
    let dot = match find_in(t.as_slice(), 0, t.len(), '.') {
        Some(d) => d,
        None => {
            return None;
        },
    };
    let p = string_from(slice_to_vec(t.as_slice(), 0, dot).as_slice());
    assert(p@ =~= t@.take(dot as int));
    match crate::license::crypto::b64_decode(p.as_str()) {
        None => None,
        Some(b) => utf8_text(b.as_slice()),
    }
}

/// The export text for the day `today`.
pub fn export_blob_for_day(trial: &TrialState, license_raw: &Option<String>, machine_fp: &[u8], today: u64) -> (r:
    String)
    ensures
        r@ == export_text(trial@, opt_str(*license_raw), machine_fp@, today),
{
    let fp_hash = sha256_hex(machine_fp);
    let remaining: u64 = match license_raw {
        Some(raw) if chars_of(raw.as_str()).len() > 0 => {
            match code_payload(raw) {
                None => 0,
                Some(text) => match crate::license::payload::LicensePayload::parse(text.as_str()) {
                    None => 0,
                    Some(p) => if p.expires_day == crate::license::payload::EXPIRES_NEVER {
                        0
                    } else {
                        days_until_exec(p.expires_day, today)
                    },
                },
            }
        },
        _ => days_until_exec(trial.first_run_day + crate::license::payload::TRIAL_DAYS, today),
    };
    let mut v: Vec<char> = Vec::new();
    v.push('f');
    v.push('=');
    push_dec(&mut v, trial.first_run_day);
    v.push('|');
    v.push('l');
    v.push('=');
    push_dec(&mut v, trial.last_run_day);
    v.push('|');
    v.push('r');
    v.push('=');
    push_dec(&mut v, remaining);
    v.push('|');
    v.push('m');
    v.push('a');
    v.push('c');
    v.push('=');
    push_all(&mut v, chars_of(fp_hash.as_str()).as_slice());
    assert(v@ =~= export_text(trial@, opt_str(*license_raw), machine_fp@, today));
    string_from(v.as_slice())
}

/// The export text shown by `--license`, for the current day.
pub fn build_export_blob(trial: &TrialState, license_raw: &Option<String>, machine_fp: &[u8]) -> (r:
    String)
    ensures
        exists|today: u64| r@ == export_text(trial@, opt_str(*license_raw), machine_fp@, today),
{
    let today = crate::license::time::today_epoch_day();
    export_blob_for_day(trial, license_raw, machine_fp, today)
}

} // verus!
