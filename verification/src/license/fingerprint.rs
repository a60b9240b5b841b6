//! The machine fingerprint and the codes derived from it. The identifiers
//! themselves (board serial and model, CPU, machine GUID, host name) are
//! read by the program and handed in.

use vstd::prelude::*;
use vstd::utf8::encode_utf8;
use crate::license::crypto::{hex, hex_of, sha256_digest, sha256_hex, sha256_of};
use crate::text::{chars_of, push_all, string_from};

verus! {

broadcast use vstd::string::group_string_axioms;

/// The identifiers joined with `|`.
pub open spec fn join_bar(ids: Seq<Seq<char>>) -> Seq<char>
    decreases ids.len(),
{
    if ids.len() == 0 {
        Seq::empty()
    } else if ids.len() == 1 {
        ids[0]
    } else {
        join_bar(ids.drop_last()) + seq!['|'] + ids.last()
    }
}

pub open spec fn id_views(ids: Seq<String>) -> Seq<Seq<char>> {
    ids.map_values(|s: String| s@)
}

fn join_ids(ids: &Vec<String>) -> (r: Vec<char>)
    ensures
        r@ == join_bar(id_views(ids@)),
{
    let ghost iv = id_views(ids@);
    let mut v: Vec<char> = Vec::new();
    let mut i: usize = 0;
    assert(iv.take(0) =~= Seq::<Seq<char>>::empty());
    while i < ids.len()
        invariant
            iv == id_views(ids@),
            i <= ids@.len(),
            v@ == join_bar(iv.take(i as int)),
        decreases ids@.len() - i,
    {
        if i > 0 {
            v.push('|');
        }
        push_all(&mut v, chars_of(ids[i].as_str()).as_slice());
        proof {
            let t = iv.take(i + 1);
            assert(t.drop_last() =~= iv.take(i as int));
            assert(t.last() == ids@[i as int]@);
            if i == 0 {
                assert(v@ =~= t[0]);
            }
        }
        i += 1;
    }
    assert(iv.take(ids@.len() as int) =~= iv);
    v
}

fn char_bytes(v: &Vec<char>) -> (b: Vec<u8>)
    ensures
        b@ == encode_utf8(v@),
{
    let s = string_from(v.as_slice());
    let x = s.as_str().as_bytes();
    let mut out: Vec<u8> = Vec::new();
    let mut i: usize = 0;
    while i < x.len()
        invariant
            i <= x@.len(),
            x@ == encode_utf8(v@),
            out@ == x@.take(i as int),
        decreases x@.len() - i,
    {
        out.push(x[i]);
        i += 1;
        assert(out@ =~= x@.take(i as int));
    }
    assert(x@.take(x@.len() as int) =~= x@);
    out
}

/// The fingerprint: the SHA-256 (hex, as bytes) of the identifiers joined
/// with `|`.
pub open spec fn fingerprint_of(ids: Seq<Seq<char>>) -> Seq<u8> {
    encode_utf8(hex_of(sha256_of(encode_utf8(join_bar(ids)))))
}

/// The machine fingerprint of the given identifiers; the key of the trial's
/// MAC comes from it.
pub fn fingerprint_bytes(ids: &Vec<String>) -> (r: Vec<u8>)
    ensures
        r@ == fingerprint_of(id_views(ids@)),
{
    let raw = join_ids(ids);
    let rb = char_bytes(&raw);
    let h = sha256_hex(rb.as_slice());
    char_bytes(&chars_of(h.as_str()))
}

pub proof fn lemma_hex_len(b: Seq<u8>)
    ensures
        hex_of(b).len() == 2 * b.len(),
    decreases b.len(),
{
    if b.len() > 0 {
        lemma_hex_len(b.drop_last());
    }
}

/// The machine code: the first 16 hex digits of the SHA-256 of the
/// fingerprint, in four groups of four joined with `-`.
pub open spec fn machine_code_of(ids: Seq<Seq<char>>) -> Seq<char> {
    let h = hex_of(sha256_of(fingerprint_of(ids)));
    h.subrange(0, 4) + seq!['-'] + h.subrange(4, 8) + seq!['-'] + h.subrange(8, 12) + seq!['-']
        + h.subrange(12, 16)
}

/// The machine code shown to the user, from the identifiers.
pub fn machine_code(ids: &Vec<String>) -> (r: String)
    ensures
        r@ == machine_code_of(id_views(ids@)),
{
    let fp = fingerprint_bytes(ids);
    let d = sha256_digest(fp.as_slice());
    let h = chars_of(hex(d.as_slice()).as_str());
    proof {
        lemma_hex_len(d@);
    }
    let mut v: Vec<char> = Vec::new();
    push_all(&mut v, crate::text::slice_to_vec(h.as_slice(), 0, 4).as_slice());
    v.push('-');
    push_all(&mut v, crate::text::slice_to_vec(h.as_slice(), 4, 8).as_slice());
    v.push('-');
    push_all(&mut v, crate::text::slice_to_vec(h.as_slice(), 8, 12).as_slice());
    v.push('-');
    push_all(&mut v, crate::text::slice_to_vec(h.as_slice(), 12, 16).as_slice());
    let ghost m = machine_code_of(id_views(ids@));
    assert(v@ =~= m);
    string_from(v.as_slice())
}

/// The bytes of the registry UUID: the first 16 bytes of the digest with the
/// version nibble set to 5 and the RFC 4122 variant bits.
pub open spec fn uuid_bytes(d: Seq<u8>) -> Seq<u8> {
    d.subrange(0, 16).update(6, (d[6] & 0x0F) | 0x50).update(8, (d[8] & 0x3F) | 0x80)
}

/// The registry UUID text: hex groups of 4, 2, 2, 2 and 6 bytes joined
/// with `-`.
pub open spec fn uuid_text(b: Seq<u8>) -> Seq<char> {
    hex_of(b.subrange(0, 4)) + seq!['-'] + hex_of(b.subrange(4, 6)) + seq!['-'] + hex_of(
        b.subrange(6, 8),
    ) + seq!['-'] + hex_of(b.subrange(8, 10)) + seq!['-'] + hex_of(b.subrange(10, 16))
}

fn copy_bytes(b: &Vec<u8>, lo: usize, hi: usize) -> (r: Vec<u8>)
    requires
        lo <= hi <= b@.len(),
    ensures
        r@ == b@.subrange(lo as int, hi as int),
{
    let mut r: Vec<u8> = Vec::new();
    let mut i = lo;
    while i < hi
        invariant
            lo <= i <= hi <= b@.len(),
            r@ == b@.subrange(lo as int, i as int),
        decreases hi - i,
    {
        r.push(b[i]);
        i += 1;
        assert(r@ =~= b@.subrange(lo as int, i as int));
    }
    r
}

/// The UUID under which the registry copies are kept, from the stable
/// hardware identifiers (already joined with `|`): UUID version 5 style,
/// from the first 16 bytes of their SHA-256.
pub fn registry_uuid(stable_identifiers: &str) -> (r: String)
    ensures
        r@ == uuid_text(uuid_bytes(sha256_of(encode_utf8(stable_identifiers@)))),
{
    let d = sha256_digest(stable_identifiers.as_bytes());
    let mut b = copy_bytes(&d, 0, 16);
    let b6 = (b[6] & 0x0F) | 0x50;
    b.set(6, b6);
    let b8 = (b[8] & 0x3F) | 0x80;
    b.set(8, b8);
    let ghost u = uuid_bytes(d@);
    assert(b@ =~= u);
    let mut v: Vec<char> = Vec::new();
    push_all(&mut v, chars_of(hex(copy_bytes(&b, 0, 4).as_slice()).as_str()).as_slice());
    v.push('-');
    push_all(&mut v, chars_of(hex(copy_bytes(&b, 4, 6).as_slice()).as_str()).as_slice());
    v.push('-');
    push_all(&mut v, chars_of(hex(copy_bytes(&b, 6, 8).as_slice()).as_str()).as_slice());
    v.push('-');
    push_all(&mut v, chars_of(hex(copy_bytes(&b, 8, 10).as_slice()).as_str()).as_slice());
    v.push('-');
    push_all(&mut v, chars_of(hex(copy_bytes(&b, 10, 16).as_slice()).as_str()).as_slice());
    assert(v@ =~= uuid_text(u));
    string_from(v.as_slice())
}

} // verus!
