use umya_excel::license::crypto::{aes256gcm_decrypt_for, aes256gcm_encrypt, aes256gcm_encrypt_for};
use umya_excel::license::store::{
    build_plaintext, cross_validate, decrypt_for_display, expected_manifest, load, parse_record,
    parse_trial_line, save, save_with_nonces, try_decrypt, Record, StoreContent, TrialState,
};

fn line_of(t: &TrialState) -> String {
    format!(
        "f={}|l={}|r={}|mac={}",
        t.first_run_day, t.last_run_day, t.rollback_count, t.mac
    )
}

fn signed_trial(first: u64, last: u64, roll: u32, fp: &[u8]) -> TrialState {
    let mut t = TrialState {
        first_run_day: first,
        last_run_day: last,
        rollback_count: roll,
        mac: String::new(),
    };
    t.sign(fp);
    t
}

#[test]
fn trial_sign_parse_roundtrip() {
    let fp: &[u8] = b"machine-fp";
    let t = signed_trial(100, 150, 2, fp);
    let parsed = parse_trial_line(&line_of(&t), fp).expect("should parse + verify");
    assert_eq!(parsed.first_run_day, 100);
    assert_eq!(parsed.last_run_day, 150);
    assert_eq!(parsed.rollback_count, 2);
}

#[test]
fn trial_tampered_field_rejected() {
    let fp: &[u8] = b"machine-fp";
    let t = signed_trial(100, 150, 2, fp);
    let mut bad = line_of(&t);
    bad = bad.replace("l=150", "l=999");
    assert!(parse_trial_line(&bad, fp).is_none(), "tampered trial must fail HMAC");
}

#[test]
fn trial_wrong_machine_rejected() {
    let t = signed_trial(100, 150, 0, b"machine-A");
    assert!(parse_trial_line(&line_of(&t), b"machine-B").is_none());
}

#[test]
fn encrypted_file_roundtrip() {
    let fp: &[u8] = b"test-machine-fp";
    let t = signed_trial(20622, 20622, 0, fp);
    let lic = Some("test-license-code".to_string());
    let plaintext = build_plaintext(&t, &lic, "home", &expected_manifest(false));
    let encrypted = aes256gcm_encrypt(plaintext.as_bytes(), fp).expect("tag-less encrypt for roundtrip");
    let decrypted = try_decrypt(&encrypted, fp).expect("decrypt should succeed");
    let rec = parse_record(&decrypted, fp);
    assert!(rec.trial.is_some(), "trial should parse");
    let parsed_t = rec.trial.unwrap();
    assert_eq!(parsed_t.first_run_day, 20622);
    assert_eq!(parsed_t.last_run_day, 20622);
    assert_eq!(rec.license, lic);
}

#[test]
fn plaintext_fallback_works() {
    let fp: &[u8] = b"test-machine-fp";
    let t = signed_trial(100, 150, 0, fp);
    let content = format!("{}\ntest-license\n", line_of(&t));
    assert!(try_decrypt(&content, fp).is_none());
    let rec = parse_record(&content, fp);
    assert!(rec.trial.is_some());
    assert_eq!(rec.license, Some("test-license".to_string()));
}

#[test]
fn differentiated_ciphertext_per_store() {
    let fp: &[u8] = b"machine-fp";
    let t = signed_trial(100, 150, 0, fp);
    let manifest = expected_manifest(false);
    let home_pt = build_plaintext(&t, &None, "home", &manifest);
    let cfg_pt = build_plaintext(&t, &None, "config", &manifest);
    let home_enc = aes256gcm_encrypt_for(home_pt.as_bytes(), fp, b"home").expect("encrypt home");
    let cfg_enc = aes256gcm_encrypt_for(cfg_pt.as_bytes(), fp, b"config").expect("encrypt config");
    assert_ne!(home_enc, cfg_enc, "ciphertext must differ per store");
    assert!(home_pt.contains("loc=home"));
    assert!(cfg_pt.contains("loc=config"));
}

#[test]
fn cross_validate_first_run_disagreement_is_tamper() {
    let fp: &[u8] = b"machine-fp";
    let manifest = expected_manifest(false);
    let mk = |first: u64, loc: &str| {
        let t = signed_trial(first, 150, 0, fp);
        let line = format!(
            "f={}|l={}|r={}|mac={}|loc={}|mani={}",
            t.first_run_day, t.last_run_day, t.rollback_count, t.mac, loc, manifest
        );
        let text = format!("{line}\n\n");
        (loc.to_string(), parse_record(&text, fp))
    };
    let records = vec![mk(100, "home"), mk(200, "config")];
    let cv: Vec<(&str, &Record)> = records.iter().map(|(t, r)| (t.as_str(), r)).collect();
    assert!(cross_validate(&cv, &manifest), "first_run_day disagreement => tamper");
}

#[test]
fn cross_validate_rollback_disagreement_is_not_tamper() {
    let fp: &[u8] = b"machine-fp";
    let manifest = expected_manifest(false);
    let mk = |roll: u32, loc: &str| {
        let t = signed_trial(100, 150, roll, fp);
        let line = format!(
            "f={}|l={}|r={}|mac={}|loc={}|mani={}",
            t.first_run_day, t.last_run_day, t.rollback_count, t.mac, loc, manifest
        );
        let text = format!("{line}\n\n");
        (loc.to_string(), parse_record(&text, fp))
    };
    let records = vec![mk(0, "home"), mk(5, "config")];
    let cv: Vec<(&str, &Record)> = records.iter().map(|(t, r)| (t.as_str(), r)).collect();
    assert!(!cross_validate(&cv, &manifest), "rollback/last_run disagreement must NOT be tamper");
}

#[test]
fn cross_validate_legacy_record_excluded() {
    let fp: &[u8] = b"machine-fp";
    let manifest = expected_manifest(false);
    let cur_t = signed_trial(100, 150, 0, fp);
    let cur_line = format!(
        "f={}|l={}|r={}|mac={}|loc=home|mani={}",
        cur_t.first_run_day, cur_t.last_run_day, cur_t.rollback_count, cur_t.mac, manifest
    );
    let cur = parse_record(&format!("{cur_line}\n\n"), fp);
    let leg_t = signed_trial(999, 999, 0, fp);
    let leg_line = line_of(&leg_t);
    let leg = parse_record(&format!("{leg_line}\n\n"), fp);
    let records = vec![("home".to_string(), cur), ("config".to_string(), leg)];
    let cv: Vec<(&str, &Record)> = records.iter().map(|(t, r)| (t.as_str(), r)).collect();
    assert!(!cross_validate(&cv, &manifest), "legacy record must be excluded from cross-validation");
}

#[test]
fn legacy_fallback_decrypts_old_blob() {
    let fp: &[u8] = b"machine-fp";
    let t = signed_trial(20622, 20630, 0, fp);
    let legacy_pt = format!("{}\nmy-license\n", line_of(&t));
    let legacy_enc = aes256gcm_encrypt(legacy_pt.as_bytes(), fp).expect("legacy encrypt");
    assert!(
        aes256gcm_decrypt_for(&legacy_enc, fp, b"home").is_none(),
        "legacy blob must not decrypt via tagged path"
    );
    let text = try_decrypt(&legacy_enc, fp).expect("legacy fallback decrypt");
    let rec = parse_record(&text, fp);
    assert!(rec.trial.is_some());
    assert_eq!(rec.mani, None, "legacy blob has no manifest");
    assert_eq!(rec.license, Some("my-license".to_string()));
}

#[test]
fn partial_deletion_does_not_reset_trial() {
    let fp: &[u8] = b"machine-fp";
    let manifest = expected_manifest(false);
    let t = signed_trial(20622, 20640, 0, fp);
    let mk = |loc: &str| {
        let line = format!(
            "f={}|l={}|r={}|mac={}|loc={}|mani={}",
            t.first_run_day, t.last_run_day, t.rollback_count, t.mac, loc, manifest
        );
        (loc.to_string(), parse_record(&format!("{line}\n\n"), fp))
    };
    let survivors = vec![mk("home"), mk("regmain")];
    let cv: Vec<(&str, &Record)> = survivors.iter().map(|(t, r)| (t.as_str(), r)).collect();
    assert!(!cross_validate(&cv, &manifest), "consistent survivors must not be tamper");
    assert_eq!(survivors[0].1.trial.as_ref().unwrap().last_run_day, 20640);
}

#[test]
fn relocation_rejected() {
    let fp: &[u8] = b"machine-fp";
    let pt = b"some trial plaintext";
    let home_enc = aes256gcm_encrypt_for(pt, fp, b"home").expect("enc");
    assert!(
        aes256gcm_decrypt_for(&home_enc, fp, b"config").is_none(),
        "relocated blob must not decrypt under wrong tag"
    );
    let manifest = expected_manifest(false);
    let t = signed_trial(100, 150, 0, fp);
    let line = format!(
        "f={}|l={}|r={}|mac={}|loc=home|mani={}",
        t.first_run_day, t.last_run_day, t.rollback_count, t.mac, manifest
    );
    let rec = parse_record(&format!("{line}\n\n"), fp);
    assert_eq!(rec.loc.as_deref(), Some("home"));
    assert_ne!(rec.loc.as_deref(), Some("config"), "loc mismatches the store it was read from");
}

#[test]
fn save_then_load_gives_the_state_back() {
    let fp: &[u8] = b"machine-fp";
    let manifest = expected_manifest(false);
    let t = signed_trial(20000, 20010, 1, fp);
    let lic = Some("CODE.SIG".to_string());
    let tags: Vec<String> = vec!["home".to_string(), "config".to_string(), "local".to_string()];
    let writes = save(&t, &lic, fp, &tags, &manifest);
    assert_eq!(writes.len(), 3);
    let contents: Vec<StoreContent> = writes
        .iter()
        .map(|w| StoreContent { tag: w.tag.clone(), raw: Some(w.blob.clone()) })
        .collect();
    let lr = load(&contents, fp, &manifest);
    assert!(!lr.tampered);
    assert!(!lr.needs_heal);
    let merged = lr.trial.expect("trial");
    assert_eq!((merged.first_run_day, merged.last_run_day, merged.rollback_count), (20000, 20010, 1));
    assert_eq!(lr.license_raw, lic);
}

#[test]
fn load_flags_relocated_copy_and_missing_place() {
    let fp: &[u8] = b"machine-fp";
    let manifest = expected_manifest(false);
    let t = signed_trial(100, 150, 0, fp);
    let pt = build_plaintext(&t, &None, "home", &manifest);
    let contents = vec![
        StoreContent { tag: "config".to_string(), raw: Some(pt.clone()) },
        StoreContent { tag: "local".to_string(), raw: None },
    ];
    let lr = load(&contents, fp, &manifest);
    assert!(lr.tampered, "a copy naming another place is tampering");
    let contents2 = vec![
        StoreContent { tag: "home".to_string(), raw: Some(pt) },
        StoreContent { tag: "local".to_string(), raw: None },
    ];
    let lr2 = load(&contents2, fp, &manifest);
    assert!(!lr2.tampered);
    assert!(lr2.needs_heal, "a missing place is written again");
}

#[test]
fn encrypted_file_tampered_rejected() {
    let fp: &[u8] = b"test-machine-fp";
    let plaintext = "f=100|l=150|r=0|mac=bad\n\n";
    let encrypted = aes256gcm_encrypt(plaintext.as_bytes(), fp).expect("encrypt");
    let mut bytes = encrypted.into_bytes();
    bytes[5] = if bytes[5] == b'A' { b'B' } else { b'A' };
    let tampered = String::from_utf8(bytes).unwrap_or_default();
    assert!(
        try_decrypt(&tampered, fp).is_none(),
        "tampered encrypted file must fail to decrypt"
    );
}

#[test]
fn display_decrypts_export_blobs_and_copies_of_any_place() {
    let fp: &[u8] = b"machine";
    let exported = aes256gcm_encrypt(b"exported text", fp).expect("encrypts");
    assert_eq!(decrypt_for_display(&exported, fp).as_deref(), Some("exported text"));
    for tag in ["home", "config", "local", "regmain", "regclsid"] {
        let blob = aes256gcm_encrypt_for(tag.as_bytes(), fp, tag.as_bytes()).expect("encrypts");
        let padded = format!("  {blob}\n");
        assert_eq!(decrypt_for_display(&padded, fp).as_deref(), Some(tag));
    }
    let other = aes256gcm_encrypt_for(b"x", fp, b"elsewhere").expect("encrypts");
    assert_eq!(decrypt_for_display(&other, fp), None);
    assert_eq!(decrypt_for_display(&exported, b"other machine"), None);
    assert_eq!(decrypt_for_display("not a blob", fp), None);
}

#[test]
fn deleted_places_keep_the_trial_and_ask_for_healing() {
    let fp: &[u8] = b"machine-fp";
    let manifest = expected_manifest(false);
    let t = signed_trial(20000, 20030, 2, fp);
    let tags: Vec<String> = vec!["home".to_string(), "config".to_string(), "local".to_string()];
    let writes = save(&t, &None, fp, &tags, &manifest);
    let mut contents: Vec<StoreContent> = writes
        .iter()
        .map(|w| StoreContent { tag: w.tag.clone(), raw: Some(w.blob.clone()) })
        .collect();
    contents[0].raw = None;
    contents[2].raw = None;
    let lr = load(&contents, fp, &manifest);
    assert!(!lr.tampered);
    assert!(lr.needs_heal);
    let merged = lr.trial.expect("trial");
    assert_eq!((merged.first_run_day, merged.last_run_day, merged.rollback_count), (20000, 20030, 2));
    assert!(merged.verify(fp));
    assert_eq!(lr.license_raw, None);
}

#[test]
fn save_with_nonces_writes_each_place_with_its_nonce() {
    let fp: &[u8] = b"machine-fp";
    let manifest = expected_manifest(false);
    let t = signed_trial(20000, 20003, 0, fp);
    let tags: Vec<String> = vec!["home".to_string(), "config".to_string(), "local".to_string()];
    let nonces = vec![Some(vec![3u8; 12]), None, Some(vec![4u8; 12])];
    let writes = save_with_nonces(&t, &None, fp, &tags, &manifest, &nonces);
    assert_eq!(writes.len(), 2);
    assert_eq!(writes[0].tag, "home");
    assert_eq!(writes[1].tag, "local");
    let again = save_with_nonces(&t, &None, fp, &tags, &manifest, &nonces);
    assert_eq!(writes[0].blob, again[0].blob);
    assert_eq!(writes[1].blob, again[1].blob);
    let pt = aes256gcm_decrypt_for(&writes[1].blob, fp, b"local").expect("decrypt");
    assert_eq!(String::from_utf8(pt).unwrap(), build_plaintext(&t, &None, "local", &manifest));
    assert!(aes256gcm_decrypt_for(&writes[0].blob, fp, b"local").is_none());
    let all = vec![Some(vec![5u8; 12]), Some(vec![6u8; 12]), Some(vec![7u8; 12])];
    assert_eq!(save_with_nonces(&t, &None, fp, &tags, &manifest, &all).len(), 3);
}
