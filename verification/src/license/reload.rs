//! What loading gives back of what saving wrote: a state written to every
//! place and read back from all of them is the same state, with the same
//! licence code, no sign of tampering and nothing to heal.

use vstd::prelude::*;
use vstd::utf8::encode_utf8;
use crate::license::crypto::{gcm_decoded, hex_digit, hex_of, location_key_of};
use crate::license::store::{
    cross_tampered, current_firsts, current_licenses, differ, first_license, first_line, load_fold,
    load_spec, merged, meta_fields, plaintext_of, record_parse, record_text, recs_only, second_line,
    trial_body, trial_field, trial_fields, trial_parse, trial_verifies, utf8_or, ContentView,
    RecView, TrialView,
};
use crate::text::{
    dec, find_first, lacks, lemma_dec_roundtrip, lemma_find_at, lemma_parse_u32_dec,
    lemma_parse_u64_dec, lemma_split_cons, lemma_split_single, lines_of, split_on, strip_cr, trim,
};

verus! {

broadcast use vstd::utf8::encode_utf8_valid_utf8, vstd::utf8::encode_utf8_decode_utf8;

/// Whether a text can stand in one field of a stored line: no `|`, no line
/// break.
pub open spec fn field_safe(s: Seq<char>) -> bool {
    lacks(s, '|') && lacks(s, '\n') && lacks(s, '\r')
}

proof fn lemma_hex_plain(b: Seq<u8>)
    ensures
        forall|i: int|
            0 <= i < hex_of(b).len() ==> ('0' <= #[trigger] hex_of(b)[i] <= '9') || ('a'
                <= hex_of(b)[i] <= 'f'),
    decreases b.len(),
{
    if b.len() > 0 {
        lemma_hex_plain(b.drop_last());
        let hi = b.last() as int / 16;
        let lo = b.last() as int % 16;
        assert(0 <= hi < 16 && 0 <= lo < 16);
        assert(('0' <= hex_digit(hi) <= '9') || ('a' <= hex_digit(hi) <= 'f'));
        assert(('0' <= hex_digit(lo) <= '9') || ('a' <= hex_digit(lo) <= 'f'));
        let p = hex_of(b.drop_last());
        let h = hex_of(b);
        assert(h == p + seq![hex_digit(hi), hex_digit(lo)]);
        assert forall|i: int| 0 <= i < h.len() implies ('0' <= #[trigger] h[i] <= '9') || ('a'
            <= h[i] <= 'f') by {
            if i < p.len() {
                assert(h[i] == p[i]);
            } else if i == p.len() {
                assert(h[i] == hex_digit(hi));
            } else {
                assert(h[i] == hex_digit(lo));
            }
        }
    }
}

/// `key=value`.
pub open spec fn kv(k: Seq<char>, v: Seq<char>) -> Seq<char> {
    k + seq!['='] + v
}

/// The first line of a stored copy: the trial fields, its MAC, the place's
/// tag and the manifest.
pub open spec fn stored_trial_line(t: TrialView, tag: Seq<char>, m: Seq<char>) -> Seq<char> {
    trial_body(t) + seq!['|', 'm', 'a', 'c', '='] + t.3 + seq!['|', 'l', 'o', 'c', '='] + tag
        + seq!['|', 'm', 'a', 'n', 'i', '='] + m
}

pub open spec fn stored_parts(t: TrialView, tag: Seq<char>, m: Seq<char>) -> Seq<Seq<char>> {
    seq![
        kv(seq!['f'], dec(t.0 as nat)),
        kv(seq!['l'], dec(t.1 as nat)),
        kv(seq!['r'], dec(t.2 as nat)),
        kv(seq!['m', 'a', 'c'], t.3),
        kv(seq!['l', 'o', 'c'], tag),
        kv(seq!['m', 'a', 'n', 'i'], m),
    ]
}

proof fn lemma_digits_plain(n: nat)
    ensures
        field_safe(dec(n)),
        dec(n).len() > 0,
{
    lemma_dec_roundtrip(n);
    crate::text::lemma_dec_len_pos(n);
    assert forall|i: int| 0 <= i < dec(n).len() implies dec(n)[i] != '|' && dec(n)[i] != '\n'
        && dec(n)[i] != '\r' by {
        assert(crate::text::is_digit(dec(n)[i]));
    }
}

proof fn lemma_mac_plain(t: TrialView, fp: Seq<u8>)
    requires
        trial_verifies(t, fp),
    ensures
        field_safe(t.3),
        lacks(t.3, '='),
{
    let b = crate::license::crypto::hmac_sha256_of(
        crate::license::crypto::hmac_key_of(fp),
        encode_utf8(trial_body(t)),
    );
    lemma_hex_plain(b);
    assert(t.3 == hex_of(b));
}

proof fn lemma_lacks_join(a: Seq<char>, b: Seq<char>, d: char, c: char)
    requires
        lacks(a, c),
        lacks(b, c),
        d != c,
    ensures
        lacks(a + seq![d] + b, c),
{
    let s = a + seq![d] + b;
    assert forall|i: int| 0 <= i < s.len() implies s[i] != c by {
        if i < a.len() {
            assert(s[i] == a[i]);
        } else if i > a.len() {
            assert(s[i] == b[i - a.len() - 1]);
        }
    }
}

/// The stored trial line is its six parts joined with `|`.
#[verifier::spinoff_prover]
#[verifier::rlimit(40)]
proof fn lemma_line_shape(t: TrialView, tag: Seq<char>, m: Seq<char>)
    ensures
        ({
            let ps = stored_parts(t, tag, m);
            stored_trial_line(t, tag, m) == ps[0] + seq!['|'] + (ps[1] + seq!['|'] + (ps[2]
                + seq!['|'] + (ps[3] + seq!['|'] + (ps[4] + seq!['|'] + ps[5]))))
        }),
{
    let ps = stored_parts(t, tag, m);
    assert(stored_trial_line(t, tag, m) =~= ps[0] + seq!['|'] + (ps[1] + seq!['|'] + (ps[2]
        + seq!['|'] + (ps[3] + seq!['|'] + (ps[4] + seq!['|'] + ps[5])))));
}

proof fn lemma_parts_plain(t: TrialView, tag: Seq<char>, m: Seq<char>, fp: Seq<u8>)
    requires
        trial_verifies(t, fp),
        field_safe(tag),
        field_safe(m),
    ensures
        forall|k: int| 0 <= k < 6 ==> #[trigger] field_safe(stored_parts(t, tag, m)[k]),
{
    lemma_digits_plain(t.0 as nat);
    lemma_digits_plain(t.1 as nat);
    lemma_digits_plain(t.2 as nat);
    lemma_mac_plain(t, fp);
    let ps = stored_parts(t, tag, m);
    assert forall|k: int| 0 <= k < 6 implies #[trigger] field_safe(ps[k]) by {
        let p = ps[k];
        assert forall|i: int| 0 <= i < p.len() implies p[i] != '|' && p[i] != '\n' && p[i]
            != '\r' by {
            if k == 0 {
                assert(p == seq!['f'] + seq!['='] + dec(t.0 as nat));
            } else if k == 1 {
                assert(p == seq!['l'] + seq!['='] + dec(t.1 as nat));
            } else if k == 2 {
                assert(p == seq!['r'] + seq!['='] + dec(t.2 as nat));
            } else if k == 3 {
                assert(p == seq!['m', 'a', 'c'] + seq!['='] + t.3);
            } else if k == 4 {
                assert(p == seq!['l', 'o', 'c'] + seq!['='] + tag);
            } else {
                assert(p == seq!['m', 'a', 'n', 'i'] + seq!['='] + m);
            }
        }
    }
}

proof fn lemma_line_split(t: TrialView, tag: Seq<char>, m: Seq<char>, fp: Seq<u8>)
    requires
        trial_verifies(t, fp),
        field_safe(tag),
        field_safe(m),
    ensures
        split_on(stored_trial_line(t, tag, m), '|') == stored_parts(t, tag, m),
        lacks(stored_trial_line(t, tag, m), '\n'),
        lacks(stored_trial_line(t, tag, m), '\r'),
        stored_trial_line(t, tag, m).len() > 0,
{
    let ps = stored_parts(t, tag, m);
    lemma_parts_plain(t, tag, m, fp);
    lemma_line_shape(t, tag, m);
    assert(field_safe(ps[0]) && field_safe(ps[1]) && field_safe(ps[2]) && field_safe(ps[3])
        && field_safe(ps[4]) && field_safe(ps[5]));
    let s5 = ps[4] + seq!['|'] + ps[5];
    let s4 = ps[3] + seq!['|'] + s5;
    let s3 = ps[2] + seq!['|'] + s4;
    let s2 = ps[1] + seq!['|'] + s3;
    let s1 = ps[0] + seq!['|'] + s2;
    lemma_split_single(ps[5], '|');
    lemma_split_cons(ps[4], ps[5], '|');
    lemma_split_cons(ps[3], s5, '|');
    lemma_split_cons(ps[2], s4, '|');
    lemma_split_cons(ps[1], s3, '|');
    lemma_split_cons(ps[0], s2, '|');
    assert(split_on(s1, '|') =~= ps);
    lemma_lacks_join(ps[4], ps[5], '|', '\n');
    lemma_lacks_join(ps[3], s5, '|', '\n');
    lemma_lacks_join(ps[2], s4, '|', '\n');
    lemma_lacks_join(ps[1], s3, '|', '\n');
    lemma_lacks_join(ps[0], s2, '|', '\n');
    lemma_lacks_join(ps[4], ps[5], '|', '\r');
    lemma_lacks_join(ps[3], s5, '|', '\r');
    lemma_lacks_join(ps[2], s4, '|', '\r');
    lemma_lacks_join(ps[1], s3, '|', '\r');
    lemma_lacks_join(ps[0], s2, '|', '\r');
}

proof fn lemma_fields_cons(st: crate::license::store::TrialAcc, p: Seq<char>, rest: Seq<Seq<char>>)
    ensures
        trial_fields(st, seq![p] + rest) == match trial_field(st, p) {
            None => None,
            Some(q) => trial_fields(q, rest),
        },
{
    assert((seq![p] + rest).drop_first() =~= rest);
    assert((seq![p] + rest)[0] == p);
}

/// What one part does to the `loc=` and `mani=` values read so far.
spec fn meta_step(st: (Option<Seq<char>>, Option<Seq<char>>), part: Seq<char>) -> (
    Option<Seq<char>>,
    Option<Seq<char>>,
) {
    match find_first(part, '=') {
        None => st,
        Some(i) => {
            let k = part.take(i);
            let v = part.skip(i + 1);
            if k == seq!['l', 'o', 'c'] {
                (Some(v), st.1)
            } else if k == seq!['m', 'a', 'n', 'i'] {
                (st.0, Some(v))
            } else {
                st
            }
        },
    }
}

proof fn lemma_meta_cons(st: (Option<Seq<char>>, Option<Seq<char>>), p: Seq<char>, rest: Seq<
    Seq<char>,
>)
    ensures
        meta_fields(st, seq![p] + rest) == meta_fields(meta_step(st, p), rest),
{
    assert((seq![p] + rest).drop_first() =~= rest);
    assert((seq![p] + rest)[0] == p);
}

/// A stored trial line reads back as the trial it was written from, with
/// the place's tag and the manifest.
proof fn lemma_line_reads(t: TrialView, tag: Seq<char>, m: Seq<char>, fp: Seq<u8>)
    requires
        trial_verifies(t, fp),
        field_safe(tag),
        field_safe(m),
    ensures
        trial_parse(stored_trial_line(t, tag, m), fp) == Some(t),
        meta_fields((None, None), split_on(stored_trial_line(t, tag, m), '|')) == (
            Some(tag),
            Some(m),
        ),
{
    lemma_line_split(t, tag, m, fp);
    let ps = stored_parts(t, tag, m);
    lemma_find_at(seq!['f'], dec(t.0 as nat), '=');
    lemma_find_at(seq!['l'], dec(t.1 as nat), '=');
    lemma_find_at(seq!['r'], dec(t.2 as nat), '=');
    lemma_find_at(seq!['m', 'a', 'c'], t.3, '=');
    lemma_find_at(seq!['l', 'o', 'c'], tag, '=');
    lemma_find_at(seq!['m', 'a', 'n', 'i'], m, '=');
    lemma_parse_u64_dec(t.0);
    lemma_parse_u64_dec(t.1);
    lemma_parse_u32_dec(t.2);
    assert(seq!['l'] != seq!['f']) by {
        assert(seq!['l'][0] != seq!['f'][0]);
    }
    assert(seq!['r'] != seq!['f'] && seq!['r'] != seq!['l']) by {
        assert(seq!['r'][0] != seq!['f'][0]);
        assert(seq!['r'][0] != seq!['l'][0]);
    }
    let ok = seq!['m', 'a', 'c'];
    assert(ok.len() != 1);
    let lk = seq!['l', 'o', 'c'];
    assert(lk != ok) by {
        assert(lk[0] != ok[0]);
    }
    let mk = seq!['m', 'a', 'n', 'i'];
    assert(mk != lk && mk.len() != 3 && mk.len() != 1);
    let a0: crate::license::store::TrialAcc = (None, None, None, Seq::empty());
    let a1: crate::license::store::TrialAcc = (Some(t.0), None, None, Seq::empty());
    let a2: crate::license::store::TrialAcc = (Some(t.0), Some(t.1), None, Seq::empty());
    let a3: crate::license::store::TrialAcc = (Some(t.0), Some(t.1), Some(t.2), Seq::empty());
    let a4: crate::license::store::TrialAcc = (Some(t.0), Some(t.1), Some(t.2), t.3);
    assert(trial_field(a0, ps[0]) == Some(a1));
    assert(trial_field(a1, ps[1]) == Some(a2));
    assert(trial_field(a2, ps[2]) == Some(a3));
    assert(trial_field(a3, ps[3]) == Some(a4));
    assert(trial_field(a4, ps[4]) == Some(a4));
    assert(trial_field(a4, ps[5]) == Some(a4));
    let r5 = seq![ps[5]];
    let r4 = seq![ps[4]] + r5;
    let r3 = seq![ps[3]] + r4;
    let r2 = seq![ps[2]] + r3;
    let r1 = seq![ps[1]] + r2;
    assert(ps =~= seq![ps[0]] + r1);
    assert(r5 =~= seq![ps[5]] + Seq::<Seq<char>>::empty());
    lemma_fields_cons(a4, ps[5], Seq::empty());
    lemma_fields_cons(a4, ps[4], r5);
    lemma_fields_cons(a3, ps[3], r4);
    lemma_fields_cons(a2, ps[2], r3);
    lemma_fields_cons(a1, ps[1], r2);
    lemma_fields_cons(a0, ps[0], r1);
    assert(trial_fields(a0, ps) == Some(a4));
    let e: (Option<Seq<char>>, Option<Seq<char>>) = (None, None);
    assert(meta_step(e, ps[0]) == e);
    assert(meta_step(e, ps[1]) == e);
    assert(meta_step(e, ps[2]) == e);
    assert(meta_step(e, ps[3]) == e);
    let g: (Option<Seq<char>>, Option<Seq<char>>) = (Some(tag), None);
    assert(meta_step(e, ps[4]) == g);
    assert(meta_step(g, ps[5]) == (Some(tag), Some(m)));
    assert(meta_fields((Some(tag), Some(m)), Seq::empty()) == (Some(tag), Some(m)));
    lemma_meta_cons(g, ps[5], Seq::empty());
    lemma_meta_cons(e, ps[4], r5);
    lemma_meta_cons(e, ps[3], r4);
    lemma_meta_cons(e, ps[2], r3);
    lemma_meta_cons(e, ps[1], r2);
    lemma_meta_cons(e, ps[0], r1);
}


proof fn lemma_two_lines(a: Seq<char>, x: Seq<char>)
    requires
        a.len() > 0,
        lacks(a, '\n'),
        lacks(a, '\r'),
        lacks(x, '\n'),
        lacks(x, '\r'),
    ensures
        lines_of(a + seq!['\n'] + x + seq!['\n']) == seq![a, x],
{
    let xs = x + seq!['\n'];
    let s = a + seq!['\n'] + xs;
    assert(a + seq!['\n'] + x + seq!['\n'] =~= s);
    lemma_find_at(a, xs, '\n');
    assert(strip_cr(a) == a);
    lemma_find_at(x, Seq::empty(), '\n');
    assert(x + seq!['\n'] + Seq::<char>::empty() =~= xs);
    assert(strip_cr(x) == x);
    assert(lines_of(Seq::<char>::empty()) == Seq::<Seq<char>>::empty());
    assert(lines_of(xs) =~= seq![x]);
    assert(lines_of(s) =~= seq![a, x]);
}

/// A licence line that reads back as itself: none, or a non-empty line.
pub open spec fn license_line_ok(lic: Option<Seq<char>>) -> bool {
    match lic {
        None => true,
        Some(l) => l.len() > 0 && lacks(l, '\n') && lacks(l, '\r'),
    }
}

/// What a copy written for the place `tag` reads back as.
pub open spec fn saved_record(t: TrialView, lic: Option<Seq<char>>, tag: Seq<char>, m: Seq<char>) -> RecView {
    (Some(t), lic, Some(tag), Some(m))
}

proof fn lemma_plaintext_reads(t: TrialView, lic: Option<Seq<char>>, tag: Seq<char>, m: Seq<char>, fp: Seq<u8>)
    requires
        trial_verifies(t, fp),
        field_safe(tag),
        field_safe(m),
        license_line_ok(lic),
    ensures
        record_parse(plaintext_of(t, lic, tag, m), fp) == saved_record(t, lic, tag, m),
        first_line(plaintext_of(t, lic, tag, m)).len() > 0,
{
    let a = stored_trial_line(t, tag, m);
    let x = match lic {
        Some(l) => l,
        None => Seq::empty(),
    };
    lemma_line_split(t, tag, m, fp);
    lemma_line_reads(t, tag, m, fp);
    assert(plaintext_of(t, lic, tag, m) =~= a + seq!['\n'] + x + seq!['\n']);
    lemma_two_lines(a, x);
    let pt = plaintext_of(t, lic, tag, m);
    assert(first_line(pt) == a);
    assert(second_line(pt) == x);
}

/// Whether a place holds a copy that decrypts, under the key of its own
/// place, to what saving writes for it.
pub open spec fn holds_saved_copy(c: ContentView, t: TrialView, lic: Option<Seq<char>>, m: Seq<char>, fp: Seq<u8>) -> bool {
    &&& field_safe(c.0)
    &&& c.1 matches Some(raw) && gcm_decoded(trim(raw), location_key_of(fp, encode_utf8(c.0)))
        == Some(encode_utf8(plaintext_of(t, lic, c.0, m)))
}

/// The records loading reads from the places that hold a saved copy (the
/// missing places give none).
pub open spec fn present_records(cs: Seq<ContentView>, t: TrialView, lic: Option<Seq<char>>, m: Seq<char>) -> Seq<
    (Seq<char>, RecView),
>
    decreases cs.len(),
{
    if cs.len() == 0 {
        Seq::empty()
    } else {
        let pre = present_records(cs.drop_last(), t, lic, m);
        if cs.last().1 is Some {
            pre.push((cs.last().0, saved_record(t, lic, cs.last().0, m)))
        } else {
            pre
        }
    }
}

proof fn lemma_fold_saved(cs: Seq<ContentView>, t: TrialView, lic: Option<Seq<char>>, m: Seq<char>, fp: Seq<u8>)
    requires
        trial_verifies(t, fp),
        field_safe(m),
        license_line_ok(lic),
        forall|i: int|
            0 <= i < cs.len() ==> (#[trigger] cs[i]).1 is None || holds_saved_copy(cs[i], t, lic, m, fp),
    ensures
        load_fold(cs, fp, m) == (present_records(cs, t, lic, m), false),
    decreases cs.len(),
{
    if cs.len() > 0 {
        let pre = cs.drop_last();
        assert forall|i: int| 0 <= i < pre.len() implies (#[trigger] pre[i]).1 is None || holds_saved_copy(
            pre[i],
            t,
            lic,
            m,
            fp,
        ) by {
            assert(pre[i] == cs[i]);
        }
        lemma_fold_saved(pre, t, lic, m, fp);
        let c = cs.last();
        assert(c == cs[cs.len() - 1]);
        if c.1 is Some {
            assert(holds_saved_copy(c, t, lic, m, fp));
            let raw = c.1->0;
            lemma_plaintext_reads(t, lic, c.0, m, fp);
            let pt = plaintext_of(t, lic, c.0, m);
            assert(utf8_or(Some(encode_utf8(pt))) == Some(pt));
            assert(record_text(raw, c.0, fp) == pt);
        }
    }
}

proof fn lemma_present_records(cs: Seq<ContentView>, t: TrialView, lic: Option<Seq<char>>, m: Seq<char>)
    ensures
        forall|i: int|
            0 <= i < present_records(cs, t, lic, m).len() ==> (#[trigger] present_records(cs, t, lic, m)[i]).1
                == saved_record(t, lic, present_records(cs, t, lic, m)[i].0, m),
        (present_records(cs, t, lic, m).len() > 0) == (exists|i: int| 0 <= i < cs.len() && (#[trigger] cs[i]).1 is Some),
    decreases cs.len(),
{
    if cs.len() > 0 {
        let pre = cs.drop_last();
        lemma_present_records(pre, t, lic, m);
        let p0 = present_records(pre, t, lic, m);
        let p = present_records(cs, t, lic, m);
        assert forall|i: int| 0 <= i < p.len() implies (#[trigger] p[i]).1 == saved_record(t, lic, p[i].0, m) by {
            if i < p0.len() {
                assert(p[i] == p0[i]);
            }
        }
        if exists|i: int| 0 <= i < cs.len() && (#[trigger] cs[i]).1 is Some {
            let i = choose|i: int| 0 <= i < cs.len() && (#[trigger] cs[i]).1 is Some;
            if i < cs.len() - 1 {
                assert(pre[i] == cs[i]);
            }
        } else {
            assert forall|i: int| 0 <= i < pre.len() implies !((#[trigger] pre[i]).1 is Some) by {
                assert(pre[i] == cs[i]);
            }
            assert(!(cs[cs.len() - 1].1 is Some));
        }
    }
}

proof fn lemma_merged_same(recs: Seq<(Seq<char>, RecView)>, t: TrialView)
    requires
        recs.len() > 0,
        forall|i: int| 0 <= i < recs.len() ==> (#[trigger] recs[i]).1.0 == Some(t),
    ensures
        merged(recs) == Some((t.0, t.1, t.2)),
    decreases recs.len(),
{
    let pre = recs.drop_last();
    assert(recs.last().1.0 == Some(t));
    if pre.len() > 0 {
        assert forall|i: int| 0 <= i < pre.len() implies (#[trigger] pre[i]).1.0 == Some(t) by {
            assert(pre[i] == recs[i]);
        }
        lemma_merged_same(pre, t);
    }
}

proof fn lemma_first_license_same(recs: Seq<(Seq<char>, RecView)>, lic: Option<Seq<char>>)
    requires
        recs.len() > 0,
        forall|i: int| 0 <= i < recs.len() ==> (#[trigger] recs[i]).1.1 == lic,
    ensures
        first_license(recs) == lic,
    decreases recs.len(),
{
    let pre = recs.drop_last();
    assert(recs.last().1.1 == lic);
    if pre.len() > 0 {
        assert forall|i: int| 0 <= i < pre.len() implies (#[trigger] pre[i]).1.1 == lic by {
            assert(pre[i] == recs[i]);
        }
        lemma_first_license_same(pre, lic);
    }
}

proof fn lemma_no_differ<V>(xs: Seq<Option<V>>, v: V)
    requires
        forall|i: int| 0 <= i < xs.len() && (#[trigger] xs[i]) is Some ==> xs[i]->0 == v,
    ensures
        !differ(xs),
{
}

proof fn lemma_saved_agree(recs: Seq<(Seq<char>, RecView)>, t: TrialView, lic: Option<Seq<char>>, m: Seq<char>)
    requires
        forall|i: int| 0 <= i < recs.len() ==> (#[trigger] recs[i]).1 == saved_record(t, lic, recs[i].0, m),
    ensures
        !cross_tampered(recs_only(recs), m),
{
    let rs = recs_only(recs);
    let fs = current_firsts(rs, m);
    assert forall|i: int| 0 <= i < fs.len() && (#[trigger] fs[i]) is Some implies fs[i]->0 == t.0 by {
        assert(rs[i] == recs[i].1);
    }
    lemma_no_differ(fs, t.0);
    let ls = current_licenses(rs, m);
    let l = match lic {
        Some(x) => x,
        None => Seq::empty(),
    };
    assert forall|i: int| 0 <= i < ls.len() && (#[trigger] ls[i]) is Some implies ls[i]->0 == l by {
        assert(rs[i] == recs[i].1);
    }
    lemma_no_differ(ls, l);
}

/// Loading gives back what saving wrote, also after some places were
/// deleted: when every place is either missing or holds a copy that
/// decrypts, under its own place's key, to what saving writes there for a
/// verified trial state and a licence line (each copy that `save` returns
/// does, by its contract), and at least one place holds one, loading reads
/// that trial state and that licence line and sees no tampering; it asks
/// for the places to be written again exactly when one is missing.
pub proof fn lemma_load_gives_back_saved(
    cs: Seq<ContentView>,
    t: TrialView,
    lic: Option<Seq<char>>,
    m: Seq<char>,
    fp: Seq<u8>,
)
    requires
        exists|i: int| 0 <= i < cs.len() && (#[trigger] cs[i]).1 is Some,
        trial_verifies(t, fp),
        field_safe(m),
        license_line_ok(lic),
        forall|i: int|
            0 <= i < cs.len() ==> (#[trigger] cs[i]).1 is None || holds_saved_copy(cs[i], t, lic, m, fp),
    ensures
        load_spec(cs, fp, m) == (
            Some(t),
            lic,
            false,
            exists|i: int| 0 <= i < cs.len() && (#[trigger] cs[i]).1 is None,
        ),
{
    lemma_fold_saved(cs, t, lic, m, fp);
    lemma_present_records(cs, t, lic, m);
    let recs = present_records(cs, t, lic, m);
    assert forall|i: int| 0 <= i < recs.len() implies (#[trigger] recs[i]).1.0 == Some(t) && recs[i].1.1
        == lic by {
        assert(recs[i].1 == saved_record(t, lic, recs[i].0, m));
    }
    lemma_merged_same(recs, t);
    lemma_first_license_same(recs, lic);
    lemma_saved_agree(recs, t, lic, m);
    assert(trial_body((t.0, t.1, t.2, Seq::empty())) == trial_body(t));
}

/// A trial line: its fields and its MAC.
pub open spec fn trial_line(t: TrialView) -> Seq<char> {
    trial_body(t) + seq!['|', 'm', 'a', 'c', '='] + t.3
}

/// A signed trial line reads back as the trial it was written from: the
/// line `f=..|l=..|r=..|mac=..` of a trial state that verifies on the
/// machine parses, on that machine, to the same state.
pub proof fn lemma_trial_line_reads(t: TrialView, fp: Seq<u8>)
    requires
        trial_verifies(t, fp),
    ensures
        trial_parse(trial_line(t), fp) == Some(t),
{
    let ps = stored_parts(t, Seq::empty(), Seq::empty());
    assert(field_safe(Seq::<char>::empty()));
    lemma_parts_plain(t, Seq::empty(), Seq::empty(), fp);
    assert(field_safe(ps[0]) && field_safe(ps[1]) && field_safe(ps[2]) && field_safe(ps[3]));
    let s3 = ps[2] + seq!['|'] + ps[3];
    let s2 = ps[1] + seq!['|'] + s3;
    let s1 = ps[0] + seq!['|'] + s2;
    assert(trial_line(t) =~= s1);
    lemma_split_single(ps[3], '|');
    lemma_split_cons(ps[2], ps[3], '|');
    lemma_split_cons(ps[1], s3, '|');
    lemma_split_cons(ps[0], s2, '|');
    let parts = seq![ps[0], ps[1], ps[2], ps[3]];
    assert(split_on(s1, '|') =~= parts);
    lemma_find_at(seq!['f'], dec(t.0 as nat), '=');
    lemma_find_at(seq!['l'], dec(t.1 as nat), '=');
    lemma_find_at(seq!['r'], dec(t.2 as nat), '=');
    lemma_find_at(seq!['m', 'a', 'c'], t.3, '=');
    lemma_parse_u64_dec(t.0);
    lemma_parse_u64_dec(t.1);
    lemma_parse_u32_dec(t.2);
    assert(seq!['l'] != seq!['f']) by {
        assert(seq!['l'][0] != seq!['f'][0]);
    }
    assert(seq!['r'] != seq!['f'] && seq!['r'] != seq!['l']) by {
        assert(seq!['r'][0] != seq!['f'][0]);
        assert(seq!['r'][0] != seq!['l'][0]);
    }
    assert(seq!['m', 'a', 'c'].len() != 1);
    let a0: crate::license::store::TrialAcc = (None, None, None, Seq::empty());
    let a1: crate::license::store::TrialAcc = (Some(t.0), None, None, Seq::empty());
    let a2: crate::license::store::TrialAcc = (Some(t.0), Some(t.1), None, Seq::empty());
    let a3: crate::license::store::TrialAcc = (Some(t.0), Some(t.1), Some(t.2), Seq::empty());
    let a4: crate::license::store::TrialAcc = (Some(t.0), Some(t.1), Some(t.2), t.3);
    assert(trial_field(a0, ps[0]) == Some(a1));
    assert(trial_field(a1, ps[1]) == Some(a2));
    assert(trial_field(a2, ps[2]) == Some(a3));
    assert(trial_field(a3, ps[3]) == Some(a4));
    let r3 = seq![ps[3]];
    let r2 = seq![ps[2]] + r3;
    let r1 = seq![ps[1]] + r2;
    assert(parts =~= seq![ps[0]] + r1);
    assert(r3 =~= seq![ps[3]] + Seq::<Seq<char>>::empty());
    lemma_fields_cons(a3, ps[3], Seq::empty());
    lemma_fields_cons(a2, ps[2], r3);
    lemma_fields_cons(a1, ps[1], r2);
    lemma_fields_cons(a0, ps[0], r1);
}

} // verus!
