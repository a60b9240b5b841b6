//! Cryptographic building blocks of the licence check: SHA-256, HMAC-SHA256,
//! Ed25519 verification, Base64 and AES-256-GCM, each behind a small trusted
//! wrapper, and the key derivations and encodings built on them.

use vstd::prelude::*;
use vstd::utf8::{decode_utf8, encode_utf8, valid_utf8};
use base64::Engine;
use ed25519_dalek::Verifier;
use hmac::Mac;
use sha2::Digest;
use aes_gcm::aead::Aead;
use aes_gcm::KeyInit;

verus! {

broadcast use vstd::string::group_string_axioms;

// ===========================================================================
// Trusted wrappers
// ===========================================================================

/// Name for the SHA-256 digest of a byte string.
pub uninterp spec fn sha256_of(data: Seq<u8>) -> Seq<u8>;

/// Name for HMAC-SHA256 of `msg` under `key`.
pub uninterp spec fn hmac_sha256_of(key: Seq<u8>, msg: Seq<u8>) -> Seq<u8>;

/// Name for whether `sig` is a valid Ed25519 signature of `msg` under the
/// verifying key `key` (false as well when `key` or `sig` cannot be read).
pub uninterp spec fn ed25519_accepts(key: Seq<u8>, msg: Seq<u8>, sig: Seq<u8>) -> bool;

/// Name for the standard (padded) Base64 text of a byte string.
pub uninterp spec fn b64_text_of(data: Seq<u8>) -> Seq<char>;

/// Name for the bytes that standard Base64 decoding reads from a text, if
/// it is valid Base64.
pub uninterp spec fn b64_bytes_of(text: Seq<char>) -> Option<Seq<u8>>;

/// Name for AES-256-GCM encryption (no associated data) of `pt` under `key`
/// and `nonce`: ciphertext followed by the tag.
pub uninterp spec fn gcm_sealed(key: Seq<u8>, nonce: Seq<u8>, pt: Seq<u8>) -> Option<Seq<u8>>;

/// Name for AES-256-GCM decryption of `ct` (ciphertext and tag) under `key`
/// and `nonce`; nothing when the tag does not authenticate.
pub uninterp spec fn gcm_opened(key: Seq<u8>, nonce: Seq<u8>, ct: Seq<u8>) -> Option<Seq<u8>>;

/// `sha2::Sha256::digest`. Claims: the result is the named digest of the
/// input, 32 bytes long.
#[verifier::external_body]
pub(crate) fn sha256_digest(data: &[u8]) -> (r: Vec<u8>)
    ensures
        r@ == sha256_of(data@),
        r@.len() == 32,
{
    sha2::Sha256::digest(data).to_vec()
}

/// `hmac::Hmac<Sha256>`: `new_from_slice` (which takes keys of any length),
/// `update`, `finalize`. Claims: the result is the named MAC of the message
/// under the key, 32 bytes long (the SHA-256 output size).
#[verifier::external_body]
fn hmac_sha256(key: &[u8], msg: &[u8]) -> (r: Vec<u8>)
    ensures
        r@ == hmac_sha256_of(key@, msg@),
        r@.len() == 32,
{
    let mut mac = <hmac::Hmac<sha2::Sha256> as Mac>::new_from_slice(key).expect(
        "HMAC takes keys of any length",
    );
    mac.update(msg);
    mac.finalize().into_bytes().to_vec()
}

/// `ed25519_dalek::VerifyingKey::from_bytes`, `Signature::from_slice` and
/// `Verifier::verify`. Claims: the answer is the named verdict on the key,
/// message and signature.
#[verifier::external_body]
fn ed25519_check(key: &[u8; 32], msg: &[u8], sig: &[u8]) -> (r: bool)
    ensures
        r == ed25519_accepts(key@, msg@, sig@),
{
    let vk = match ed25519_dalek::VerifyingKey::from_bytes(key) {
        Ok(v) => v,
        Err(_) => return false,
    };
    let s = match ed25519_dalek::Signature::from_slice(sig) {
        Ok(s) => s,
        Err(_) => return false,
    };
    vk.verify(msg, &s).is_ok()
}

/// A character of the standard Base64 alphabet, or the `=` pad.
pub open spec fn b64_char(c: char) -> bool {
    ||| ('A' <= c && c <= 'Z')
    ||| ('a' <= c && c <= 'z')
    ||| ('0' <= c && c <= '9')
    ||| c == '+'
    ||| c == '/'
    ||| c == '='
}

/// `base64::engine::general_purpose::STANDARD.encode`. Claims: the result is
/// the named Base64 text, made of the standard alphabet and the `=` pad
/// only, and decoding it gives the input back.
#[verifier::external_body]
pub fn b64_encode(data: &[u8]) -> (r: String)
    ensures
        r@ == b64_text_of(data@),
        forall|i: int| 0 <= i < r@.len() ==> b64_char(#[trigger] r@[i]),
        b64_bytes_of(r@) == Some(data@),
{
    base64::engine::general_purpose::STANDARD.encode(data)
}

/// `base64::engine::general_purpose::STANDARD.decode`. Claims: the result is
/// the named decoding of the text (nothing when it is not valid Base64).
#[verifier::external_body]
pub fn b64_decode(s: &str) -> (r: Option<Vec<u8>>)
    ensures
        match r {
            Some(v) => b64_bytes_of(s@) == Some(v@),
            None => b64_bytes_of(s@) is None,
        },
{
    base64::engine::general_purpose::STANDARD.decode(s).ok()
}

/// `aes_gcm::Aes256Gcm::new_from_slice` and `Aead::encrypt` with a 12-byte
/// nonce. Claims: the result is the named sealing; when there is one,
/// decrypting it under the same key and nonce gives the plaintext back, and
/// it is 16 bytes (the tag) longer than the plaintext; the sealing fails only
/// for a plaintext longer than `P_MAX` (2^36 bytes), as `encrypt_in_place_detached`
/// checks.
#[verifier::external_body]
fn gcm_seal(key: &[u8], nonce: &[u8], pt: &[u8]) -> (r: Option<Vec<u8>>)
    requires
        key@.len() == 32,
        nonce@.len() == 12,
    ensures
        match r {
            Some(c) => gcm_sealed(key@, nonce@, pt@) == Some(c@) && gcm_opened(key@, nonce@, c@)
                == Some(pt@) && c@.len() == pt@.len() + 16,
            None => gcm_sealed(key@, nonce@, pt@) is None,
        },
        pt@.len() <= 0x10_0000_0000 ==> r is Some,
{
    let cipher = aes_gcm::Aes256Gcm::new_from_slice(key).ok()?;
    cipher.encrypt(aes_gcm::Nonce::from_slice(nonce), pt).ok()
}

/// `aes_gcm::Aes256Gcm::new_from_slice` and `Aead::decrypt` with a 12-byte
/// nonce. Claims: the result is the named opening.
#[verifier::external_body]
fn gcm_open(key: &[u8], nonce: &[u8], ct: &[u8]) -> (r: Option<Vec<u8>>)
    requires
        key@.len() == 32,
        nonce@.len() == 12,
    ensures
        match r {
            Some(p) => gcm_opened(key@, nonce@, ct@) == Some(p@),
            None => gcm_opened(key@, nonce@, ct@) is None,
        },
{
    let cipher = aes_gcm::Aes256Gcm::new_from_slice(key).ok()?;
    cipher.decrypt(aes_gcm::Nonce::from_slice(nonce), ct).ok()
}

/// `getrandom::getrandom` on a 12-byte buffer. Claims only the length of
/// what it gives: the bytes are random.
#[verifier::external_body]
pub(crate) fn random_nonce() -> (r: Option<Vec<u8>>)
    ensures
        match r {
            Some(v) => v@.len() == 12,
            None => true,
        },
{
    let mut b = [0u8; 12];
    match getrandom::getrandom(&mut b) {
        Ok(()) => Some(b.to_vec()),
        Err(_) => None,
    }
}

/// `std::str::from_utf8`. Claims what its documentation says: text exactly
/// when the bytes are valid UTF-8, and then the text they encode.
#[verifier::external_body]
pub fn utf8_text(bytes: &[u8]) -> (r: Option<String>)
    ensures
        match r {
            Some(s) => valid_utf8(bytes@) && s@ == decode_utf8(bytes@),
            None => !valid_utf8(bytes@),
        },
{
    match std::str::from_utf8(bytes) {
        Ok(s) => Some(s.to_string()),
        Err(_) => None,
    }
}

// ===========================================================================
// Hex
// ===========================================================================

pub open spec fn hex_digit(n: int) -> char {
    if n < 10 {
        (n + 48) as char
    } else {
        (n + 87) as char
    }
}

/// Lower-case hex, two digits per byte.
pub open spec fn hex_of(b: Seq<u8>) -> Seq<char>
    decreases b.len(),
{
    if b.len() == 0 {
        Seq::empty()
    } else {
        hex_of(b.drop_last()) + seq![
            hex_digit(b.last() as int / 16),
            hex_digit(b.last() as int % 16),
        ]
    }
}

/// A lower-case hex digit: `0`-`9` or `a`-`f`.
pub open spec fn lower_hex(c: char) -> bool {
    ('0' <= c && c <= '9') || ('a' <= c && c <= 'f')
}

/// The hex of `b` has two lower-case hex digits per byte.
pub proof fn lemma_hex_of_shape(b: Seq<u8>)
    ensures
        hex_of(b).len() == 2 * b.len(),
        forall|i: int| 0 <= i < hex_of(b).len() ==> lower_hex(#[trigger] hex_of(b)[i]),
    decreases b.len(),
{
    if b.len() > 0 {
        let p = b.drop_last();
        lemma_hex_of_shape(p);
        let hi = b.last() as int / 16;
        let lo = b.last() as int % 16;
        assert(lower_hex(hex_digit(hi)));
        assert(lower_hex(hex_digit(lo)));
        let h = hex_of(b);
        assert forall|i: int| 0 <= i < h.len() implies lower_hex(#[trigger] h[i]) by {
            if i < hex_of(p).len() {
                assert(h[i] == hex_of(p)[i]);
            }
        }
    }
}

fn hex_digit_exec(n: u8) -> (c: char)
    requires
        n < 16,
    ensures
        c == hex_digit(n as int),
{
    if n < 10 {
        crate::text::char_from_ascii((n + 48) as u32)
    } else {
        crate::text::char_from_ascii((n + 87) as u32)
    }
}

/// Lower-case hex of a byte string.
pub fn hex(bytes: &[u8]) -> (s: String)
    ensures
        s@ == hex_of(bytes@),
{
    let mut v: Vec<char> = Vec::new();
    let mut i: usize = 0;
    while i < bytes.len()
        invariant
            i <= bytes@.len(),
            v@ == hex_of(bytes@.take(i as int)),
        decreases bytes@.len() - i,
    {
        let b = bytes[i];
        v.push(hex_digit_exec(b / 16));
        v.push(hex_digit_exec(b % 16));
        proof {
            assert(bytes@.take(i + 1).drop_last() =~= bytes@.take(i as int));
        }
        i += 1;
        assert(v@ =~= hex_of(bytes@.take(i as int)));
    }
    assert(bytes@.take(bytes@.len() as int) =~= bytes@);
    crate::text::string_from(v.as_slice())
}

// ===========================================================================
// Digests, MACs and signatures
// ===========================================================================

/// The pepper mixed into the HMAC key.
pub const HMAC_PEPPER: &'static str = "umya-excel-v1-s3cr3t-pepper-CHANGE-ME";

/// The context label of the export key.
pub const EXPORT_LABEL: &'static str = "umya-excel-license-export-v1";

/// The context label of the per-location keys.
pub const LOCATION_LABEL: &'static str = "umya-excel-license-store-v1";

/// The developer's Ed25519 verifying key, in the place of the key that a
/// release embeds. These bytes do not encode a curve point
/// (`VerifyingKey::from_bytes` refuses them), so no licence code verifies
/// against them.
pub const DEVELOPER_PUBLIC_KEY: [u8; 32] = [
    2, 0, 0, 0, 0, 0, 0, 0, 0, 0, 0, 0, 0, 0, 0, 0, 0, 0, 0, 0, 0, 0, 0, 0, 0, 0, 0, 0, 0, 0, 0, 0,
];

fn push_bytes(out: &mut Vec<u8>, b: &[u8])
    ensures
        final(out)@ == old(out)@ + b@,
{
    let mut i: usize = 0;
    while i < b.len()
        invariant
            i <= b@.len(),
            out@ == old(out)@ + b@.take(i as int),
        decreases b@.len() - i,
    {
        out.push(b[i]);
        i += 1;
        assert(out@ =~= old(out)@ + b@.take(i as int));
    }
    assert(b@.take(b@.len() as int) =~= b@);
}

/// SHA-256 of `data` in lower-case hex.
pub fn sha256_hex(data: &[u8]) -> (s: String)
    ensures
        s@ == hex_of(sha256_of(data@)),
{
    let d = sha256_digest(data);
    hex(d.as_slice())
}

/// The HMAC key of a machine: SHA-256 of the pepper and the fingerprint.
pub open spec fn hmac_key_of(fp: Seq<u8>) -> Seq<u8> {
    sha256_of(encode_utf8(HMAC_PEPPER@) + fp)
}

/// The export key of a machine: SHA-256 of the export label, the pepper and
/// the fingerprint.
pub open spec fn export_key_of(fp: Seq<u8>) -> Seq<u8> {
    sha256_of(encode_utf8(EXPORT_LABEL@) + encode_utf8(HMAC_PEPPER@) + fp)
}

/// The key of one storage place: SHA-256 of the location label, the pepper,
/// the fingerprint and the place's tag.
pub open spec fn location_key_of(fp: Seq<u8>, tag: Seq<u8>) -> Seq<u8> {
    sha256_of(encode_utf8(LOCATION_LABEL@) + encode_utf8(HMAC_PEPPER@) + fp + tag)
}

fn derive_hmac_key(fp: &[u8]) -> (k: Vec<u8>)
    ensures
        k@ == hmac_key_of(fp@),
        k@.len() == 32,
{
    let mut buf: Vec<u8> = Vec::new();
    push_bytes(&mut buf, HMAC_PEPPER.as_bytes());
    push_bytes(&mut buf, fp);
    assert(buf@ =~= encode_utf8(HMAC_PEPPER@) + fp@);
    sha256_digest(buf.as_slice())
}

fn derive_export_key(fp: &[u8]) -> (k: Vec<u8>)
    ensures
        k@ == export_key_of(fp@),
        k@.len() == 32,
{
    let mut buf: Vec<u8> = Vec::new();
    push_bytes(&mut buf, EXPORT_LABEL.as_bytes());
    push_bytes(&mut buf, HMAC_PEPPER.as_bytes());
    push_bytes(&mut buf, fp);
    assert(buf@ =~= encode_utf8(EXPORT_LABEL@) + encode_utf8(HMAC_PEPPER@) + fp@);
    sha256_digest(buf.as_slice())
}

pub(crate) fn derive_location_key(fp: &[u8], tag: &[u8]) -> (k: Vec<u8>)
    ensures
        k@ == location_key_of(fp@, tag@),
        k@.len() == 32,
{
    let mut buf: Vec<u8> = Vec::new();
    push_bytes(&mut buf, LOCATION_LABEL.as_bytes());
    push_bytes(&mut buf, HMAC_PEPPER.as_bytes());
    push_bytes(&mut buf, fp);
    push_bytes(&mut buf, tag);
    assert(buf@ =~= encode_utf8(LOCATION_LABEL@) + encode_utf8(HMAC_PEPPER@) + fp@ + tag@);
    sha256_digest(buf.as_slice())
}

/// The MAC of `msg` for a machine, in lower-case hex.
pub open spec fn hmac_hex_of(fp: Seq<u8>, msg: Seq<u8>) -> Seq<char> {
    hex_of(hmac_sha256_of(hmac_key_of(fp), msg))
}

/// HMAC-SHA256 of `msg` under the machine's key, in lower-case hex: 64
/// digits.
pub fn hmac_hex(machine_fingerprint: &[u8], msg: &[u8]) -> (s: String)
    ensures
        s@ == hmac_hex_of(machine_fingerprint@, msg@),
        s@.len() == 64,
        forall|i: int| 0 <= i < s@.len() ==> lower_hex(#[trigger] s@[i]),
{
    let key = derive_hmac_key(machine_fingerprint);
    let mac = hmac_sha256(key.as_slice(), msg);
    proof {
        lemma_hex_of_shape(mac@);
    }
    hex(mac.as_slice())
}

/// Whether `expected_hex` is the MAC of `msg` for the machine. Every
/// character is compared, whatever the first difference.
pub fn hmac_verify(machine_fingerprint: &[u8], msg: &[u8], expected_hex: &str) -> (r: bool)
    ensures
        r == (hmac_hex_of(machine_fingerprint@, msg@) == expected_hex@),
{
    let actual = hmac_hex(machine_fingerprint, msg);
    let a = crate::text::chars_of(actual.as_str());
    let b = crate::text::chars_of(expected_hex);
    if a.len() != b.len() {
        return false;
    }
    let mut same = true;
    let mut i: usize = 0;
    while i < a.len()
        invariant
            a@.len() == b@.len(),
            i <= a@.len(),
            same == (forall|j: int| 0 <= j < i ==> a@[j] == b@[j]),
        decreases a@.len() - i,
    {
        let eq = a[i] == b[i];
        same = same && eq;
        i += 1;
    }
    proof {
        if same {
            assert(a@ =~= b@);
        }
    }
    same
}

/// Whether `sig_bytes` is the developer's signature of `msg`.
pub fn ed25519_verify(msg: &[u8], sig_bytes: &[u8]) -> (r: bool)
    ensures
        r == (sig_bytes@.len() == 64 && ed25519_accepts(DEVELOPER_PUBLIC_KEY@, msg@, sig_bytes@)),
{
    if sig_bytes.len() != 64 {
        return false;
    }
    ed25519_check(&DEVELOPER_PUBLIC_KEY, msg, sig_bytes)
}

// ===========================================================================
// AES-256-GCM blobs: base64(nonce || ciphertext || tag)
// ===========================================================================

pub open spec fn opt_bytes(r: Option<Vec<u8>>) -> Option<Seq<u8>> {
    match r {
        Some(v) => Some(v@),
        None => None,
    }
}

/// What decrypting a blob under `key` gives: nothing unless the text is
/// Base64 of at least a nonce and a tag and the tag authenticates.
pub open spec fn gcm_decoded(encoded: Seq<char>, key: Seq<u8>) -> Option<Seq<u8>> {
    match b64_bytes_of(encoded) {
        None => None,
        Some(d) => if d.len() < 28 {
            None
        } else {
            gcm_opened(key, d.take(12), d.skip(12))
        },
    }
}

fn copy_range(b: &Vec<u8>, lo: usize, hi: usize) -> (r: Vec<u8>)
    requires
        lo <= hi <= b@.len(),
    ensures
        r@ == b@.subrange(lo as int, hi as int),
{
    let mut r: Vec<u8> = Vec::new();
    let mut i = lo;
    while i < hi
        invariant
            lo <= i <= hi <= b@.len(),
            r@ == b@.subrange(lo as int, i as int),
        decreases hi - i,
    {
        r.push(b[i]);
        i += 1;
        assert(r@ =~= b@.subrange(lo as int, i as int));
    }
    r
}

/// The blob that sealing `pt` under `key` with `nonce` gives: Base64 of the
/// nonce followed by the ciphertext (with its tag); nothing when sealing
/// fails.
pub open spec fn sealed_blob(key: Seq<u8>, nonce: Seq<u8>, pt: Seq<u8>) -> Option<Seq<char>> {
    match gcm_sealed(key, nonce, pt) {
        Some(c) => Some(b64_text_of(nonce + c)),
        None => None,
    }
}

/// Seals `plaintext` under `key` with the given nonce and encodes the blob
/// (see [`sealed_blob`]); a blob it gives is Base64 text that decrypts back
/// to the plaintext under the same key.
pub fn seal_blob(plaintext: &[u8], key: &[u8], nonce: &[u8]) -> (r: Option<String>)
    requires
        key@.len() == 32,
        nonce@.len() == 12,
    ensures
        match r {
            Some(s) => sealed_blob(key@, nonce@, plaintext@) == Some(s@),
            None => sealed_blob(key@, nonce@, plaintext@) is None,
        },
        r matches Some(s) ==> gcm_decoded(s@, key@) == Some(plaintext@) && forall|i: int|
            0 <= i < s@.len() ==> b64_char(#[trigger] s@[i]),
        plaintext@.len() <= 0x10_0000_0000 ==> r is Some,
{
    let ct = match gcm_seal(key, nonce, plaintext) {
        Some(c) => c,
        None => {
            return None;
        },
    };
    let mut out: Vec<u8> = Vec::new();
    push_bytes(&mut out, nonce);
    push_bytes(&mut out, ct.as_slice());
    assert(out@ =~= nonce@ + ct@);
    assert(out@.take(12) =~= nonce@);
    assert(out@.skip(12) =~= ct@);
    Some(b64_encode(out.as_slice()))
}

fn gcm_encrypt_with(pt: &[u8], key: &Vec<u8>) -> (r: Option<String>)
    requires
        key@.len() == 32,
    ensures
        r matches Some(s) ==> exists|nonce: Seq<u8>|
            nonce.len() == 12 && #[trigger] sealed_blob(key@, nonce, pt@) == Some(s@),
        r matches Some(s) ==> gcm_decoded(s@, key@) == Some(pt@) && forall|i: int|
            0 <= i < s@.len() ==> b64_char(#[trigger] s@[i]),
{
    let nonce = match random_nonce() {
        Some(n) => n,
        None => {
            return None;
        },
    };
    seal_blob(pt, key.as_slice(), nonce.as_slice())
}

fn gcm_decrypt_with(encoded: &str, key: &Vec<u8>) -> (r: Option<Vec<u8>>)
    requires
        key@.len() == 32,
    ensures
        opt_bytes(r) == gcm_decoded(encoded@, key@),
{
    let data = match b64_decode(encoded) {
        Some(d) => d,
        None => {
            return None;
        },
    };
    if data.len() < 28 {
        return None;
    }
    let nonce = copy_range(&data, 0, 12);
    let ct = copy_range(&data, 12, data.len());
    assert(nonce@ =~= data@.take(12));
    assert(ct@ =~= data@.skip(12));
    gcm_open(key.as_slice(), nonce.as_slice(), ct.as_slice())
}

/// Encrypts under the machine's export key with a fresh random nonce. What
/// holds of every outcome: a blob it gives is the sealing of the plaintext
/// under that key with some 12-byte nonce, and decrypts back to the
/// plaintext.
pub fn aes256gcm_encrypt(plaintext: &[u8], machine_fingerprint: &[u8]) -> (r: Option<String>)
    ensures
        r matches Some(s) ==> exists|nonce: Seq<u8>|
            nonce.len() == 12 && #[trigger] sealed_blob(export_key_of(machine_fingerprint@), nonce, plaintext@)
                == Some(s@),
        r matches Some(s) ==> gcm_decoded(s@, export_key_of(machine_fingerprint@)) == Some(
            plaintext@,
        ),
{
    let key = derive_export_key(machine_fingerprint);
    gcm_encrypt_with(plaintext, &key)
}

/// Decrypts a blob made by [`aes256gcm_encrypt`].
pub fn aes256gcm_decrypt(encoded: &str, machine_fingerprint: &[u8]) -> (r: Option<Vec<u8>>)
    ensures
        opt_bytes(r) == gcm_decoded(encoded@, export_key_of(machine_fingerprint@)),
{
    let key = derive_export_key(machine_fingerprint);
    gcm_decrypt_with(encoded, &key)
}

/// Encrypts under the key of one storage place with a fresh random nonce.
/// What holds of every outcome: a blob it gives is the sealing of the
/// plaintext under the place's key with some 12-byte nonce: Base64 text that
/// decrypts back to the plaintext under the same place.
pub fn aes256gcm_encrypt_for(
    plaintext: &[u8],
    machine_fingerprint: &[u8],
    location_tag: &[u8],
) -> (r: Option<String>)
    ensures
        r matches Some(s) ==> exists|nonce: Seq<u8>|
            nonce.len() == 12 && #[trigger] sealed_blob(
                location_key_of(machine_fingerprint@, location_tag@),
                nonce,
                plaintext@,
            ) == Some(s@),
        r matches Some(s) ==> gcm_decoded(
            s@,
            location_key_of(machine_fingerprint@, location_tag@),
        ) == Some(plaintext@) && forall|i: int| 0 <= i < s@.len() ==> b64_char(#[trigger] s@[i]),
{
    let key = derive_location_key(machine_fingerprint, location_tag);
    gcm_encrypt_with(plaintext, &key)
}

/// Decrypts a blob made by [`aes256gcm_encrypt_for`] for the same place.
pub fn aes256gcm_decrypt_for(encoded: &str, machine_fingerprint: &[u8], location_tag: &[u8]) -> (r:
    Option<Vec<u8>>)
    ensures
        opt_bytes(r) == gcm_decoded(encoded@, location_key_of(machine_fingerprint@, location_tag@)),
{
    let key = derive_location_key(machine_fingerprint, location_tag);
    gcm_decrypt_with(encoded, &key)
}

} // verus!
