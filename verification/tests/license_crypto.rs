use umya_excel::license::crypto::{
    aes256gcm_decrypt, aes256gcm_decrypt_for, aes256gcm_encrypt, aes256gcm_encrypt_for, b64_decode,
    b64_encode, ed25519_verify, hex, hmac_hex, hmac_verify, seal_blob, sha256_hex,
};

#[test]
fn hmac_sign_and_verify() {
    let fp: &[u8] = b"fingerprint-bytes";
    let msg: &[u8] = b"message body";
    let mac = hmac_hex(fp, msg);
    assert!(hmac_verify(fp, msg, &mac), "valid mac should verify");
    assert!(!hmac_verify(fp, b"tampered", &mac), "tampered msg rejected");
    assert!(!hmac_verify(b"other-fp", msg, &mac), "different fingerprint rejected");
}

#[test]
fn b64_roundtrip() {
    let data: &[u8] = b"hello \x00\xff license";
    assert_eq!(b64_decode(&b64_encode(data)), Some(data.to_vec()));
}

#[test]
fn ed25519_rejects_garbage() {
    assert!(!ed25519_verify(b"msg", &[0u8; 64]));
    assert!(!ed25519_verify(b"msg", &[0u8; 10]));
}

#[test]
fn sha256_of_abc() {
    assert_eq!(
        sha256_hex(b"abc"),
        "ba7816bf8f01cfea414140de5dae2223b00361a396177a9cb410ff61f20015ad"
    );
}

#[test]
fn hex_is_lower_case_two_digits_per_byte() {
    assert_eq!(hex(&[0x00, 0x0f, 0xa0, 0xff]), "000fa0ff");
}

#[test]
fn hmac_verify_rejects_other_length() {
    let fp: &[u8] = b"fp";
    let mac = hmac_hex(fp, b"m");
    assert_eq!(mac.len(), 64);
    assert!(!hmac_verify(fp, b"m", &mac[..63]));
}

#[test]
fn aes256gcm_roundtrip() {
    let fp: &[u8] = b"test-fingerprint-bytes";
    let plaintext = b"f=20622|l=20622|r=0|mac=abc123";
    let encoded = aes256gcm_encrypt(plaintext, fp).expect("encrypt should succeed");
    let decoded = aes256gcm_decrypt(&encoded, fp).expect("decrypt should succeed");
    assert_eq!(decoded, plaintext);
}

#[test]
fn aes256gcm_wrong_key_fails() {
    let fp1: &[u8] = b"machine-A";
    let fp2: &[u8] = b"machine-B";
    let plaintext = b"secret data";
    let encoded = aes256gcm_encrypt(plaintext, fp1).expect("encrypt");
    assert!(aes256gcm_decrypt(&encoded, fp2).is_none(), "wrong machine key must fail");
}

#[test]
fn aes256gcm_for_roundtrip() {
    let fp: &[u8] = b"test-fingerprint-bytes";
    let plaintext = b"f=20622|l=20622|r=0|mac=abc123|loc=home|mani=zzz";
    let encoded = aes256gcm_encrypt_for(plaintext, fp, b"home").expect("encrypt_for");
    let decoded = aes256gcm_decrypt_for(&encoded, fp, b"home").expect("decrypt_for");
    assert_eq!(decoded, plaintext);
}

#[test]
fn aes256gcm_for_tag_isolation() {
    let fp: &[u8] = b"machine-fp";
    let plaintext = b"secret trial state";
    let encoded = aes256gcm_encrypt_for(plaintext, fp, b"home").expect("encrypt_for home");
    assert!(
        aes256gcm_decrypt_for(&encoded, fp, b"config").is_none(),
        "blob encrypted under 'home' must not decrypt under 'config'"
    );
}

#[test]
fn aes256gcm_for_distinct_ciphertext_per_call() {
    let fp: &[u8] = b"machine-fp";
    let plaintext = b"identical plaintext";
    let a = aes256gcm_encrypt_for(plaintext, fp, b"home").expect("encrypt a");
    let b = aes256gcm_encrypt_for(plaintext, fp, b"home").expect("encrypt b");
    assert_ne!(a, b, "two encryptions of same plaintext must differ (random nonce)");
}

#[test]
fn aes256gcm_for_distinct_from_legacy() {
    let fp: &[u8] = b"machine-fp";
    let plaintext = b"identical plaintext";
    let legacy = aes256gcm_encrypt(plaintext, fp).expect("legacy encrypt");
    let tagged = aes256gcm_encrypt_for(plaintext, fp, b"home").expect("tagged encrypt");
    assert_ne!(legacy, tagged, "tagged ciphertext must differ from legacy");
    assert!(
        aes256gcm_decrypt_for(&legacy, fp, b"home").is_none(),
        "legacy blob must not decrypt via tagged path"
    );
}

#[test]
fn aes256gcm_decrypt_rejects_short_blob() {
    let short = b64_encode(&[1u8; 27]);
    assert!(aes256gcm_decrypt(&short, b"fp").is_none());
    assert!(aes256gcm_decrypt("not base64 !!", b"fp").is_none());
}

#[test]
fn aes256gcm_tampered_fails() {
    let fp: &[u8] = b"test-fp";
    let plaintext = b"secret data";
    let encoded = aes256gcm_encrypt(plaintext, fp).expect("encrypt");
    let bytes = encoded.into_bytes();
    if bytes.len() > 10 {
        let mut tampered = bytes;
        tampered[10] = if tampered[10] == b'A' { b'B' } else { b'A' };
        let tampered_str = String::from_utf8(tampered).unwrap_or_default();
        assert!(
            aes256gcm_decrypt(&tampered_str, fp).is_none(),
            "tampered ciphertext must not decrypt successfully"
        );
    }
}

#[test]
fn aes256gcm_for_distinct_ciphertext_per_tag() {
    let fp: &[u8] = b"machine-fp";
    let plaintext = b"identical plaintext";
    let home = aes256gcm_encrypt_for(plaintext, fp, b"home").expect("encrypt home");
    let config = aes256gcm_encrypt_for(plaintext, fp, b"config").expect("encrypt config");
    assert_ne!(home, config, "ciphertext must differ per location tag");
}

#[test]
fn b64_uses_standard_alphabet_and_pad() {
    assert_eq!(b64_encode(&[0xfb, 0xff]), "+/8=");
    let blob = aes256gcm_encrypt_for(b"plain text", b"fp", b"home").expect("encrypts");
    assert!(blob
        .chars()
        .all(|c| c.is_ascii_alphanumeric() || c == '+' || c == '/' || c == '='));
    assert_eq!(blob.trim(), blob);
}

#[test]
fn seal_blob_is_fixed_by_its_nonce() {
    let key = [7u8; 32];
    let nonce = [1u8; 12];
    let a = seal_blob(b"hello", &key, &nonce).expect("seal");
    let b = seal_blob(b"hello", &key, &nonce).expect("seal");
    assert_eq!(a, b);
    let raw = b64_decode(&a).expect("base64");
    assert_eq!(&raw[..12], &nonce);
    assert_eq!(raw.len(), 12 + 5 + 16);
    let c = seal_blob(b"hello", &key, &[2u8; 12]).expect("seal");
    assert_ne!(a, c);
}

#[test]
fn hmac_hex_is_64_lower_hex_digits() {
    let h = hmac_hex(b"fp", b"message");
    assert_eq!(h.len(), 64);
    assert!(h.chars().all(|c| c.is_ascii_digit() || ('a'..='f').contains(&c)));
    assert_eq!(h, hmac_hex(b"fp", b"message"));
}
