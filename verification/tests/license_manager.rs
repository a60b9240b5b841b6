use umya_excel::license::manager::{verify_license, ActivateError, LicenseManager, LicenseStatus};
use umya_excel::license::payload::LicensePayload;
use umya_excel::license::store::{LoadResult, TrialState};

const TEST_LICENSE: &str = "dj0xCnA9dW15YS1leGNlbAptPVRFU1QtTUFDSElORS0wMDAxCmk9MjA2MjIKZT0wCmVkPXBybwpjPVRlc3RDdXN0b21lcgo=.ylkD01m4TO92M/syID43V3ZBr7WL1sF97HA/j0aBgvSCrKN/G4UI/8NZGWQ5x28xt4/s4lFxKCEnzIXmUmdhBw==";
const TEST_MACHINE: &str = "TEST-MACHINE-0001";

#[test]
fn e2e_wrong_machine_rejected() {
    assert!(verify_license(TEST_LICENSE, "WRONG-MACHINE").is_none());
}

#[test]
fn e2e_tampered_signature_rejected() {
    let (payload, sig) = TEST_LICENSE.split_once('.').unwrap();
    let mut sig_bytes: Vec<u8> = sig.bytes().collect();
    sig_bytes[0] = if sig_bytes[0] == b'A' { b'B' } else { b'A' };
    let tampered = format!("{}.{}", payload, String::from_utf8(sig_bytes).unwrap());
    assert!(verify_license(&tampered, TEST_MACHINE).is_none());
}

#[test]
fn e2e_malformed_rejected() {
    assert!(verify_license("not-a-license", TEST_MACHINE).is_none());
    assert!(verify_license("aaaa.bbbb", TEST_MACHINE).is_none());
}

fn fresh(today: u64) -> LicenseManager {
    let lr = LoadResult { trial: None, license_raw: None, tampered: false, needs_heal: false };
    let (m, save) = LicenseManager::load("CODE".to_string(), b"fp".to_vec(), today, lr);
    assert!(save, "a first run writes the new trial");
    m
}

#[test]
fn first_run_starts_a_trial_that_has_already_ended() {
    let m = fresh(20000);
    let t = m.trial.as_ref().expect("trial");
    assert_eq!((t.first_run_day, t.last_run_day, t.rollback_count), (20000, 20000, 0));
    assert!(t.verify(b"fp"));
    assert_eq!(m.status(20000), LicenseStatus::TrialExpired);
    assert!(m.status(20000).is_blocking());
}

#[test]
fn clock_rollback_is_tampering() {
    let mut m = fresh(20000);
    assert!(m.checkpoint(20010));
    assert_eq!(m.trial.as_ref().unwrap().last_run_day, 20010);
    assert_eq!(m.status(20007), LicenseStatus::Tampered);
    assert!(!m.checkpoint(20009), "within tolerance nothing changes");
    assert!(m.checkpoint(20000), "a roll-back is counted");
    let t = m.trial.as_ref().unwrap();
    assert_eq!(t.last_run_day, 20010);
    assert_eq!(t.rollback_count, 1);
}

#[test]
fn tampered_store_without_trial() {
    let lr = LoadResult { trial: None, license_raw: None, tampered: true, needs_heal: false };
    let (m, save) = LicenseManager::load("CODE".to_string(), b"fp".to_vec(), 20000, lr);
    assert!(!save);
    assert!(m.trial.is_none());
    assert_eq!(m.status(20000), LicenseStatus::Tampered);
}

#[test]
fn loaded_trial_with_rollback_counts_it() {
    let mut t = TrialState { first_run_day: 100, last_run_day: 200, rollback_count: 0, mac: String::new() };
    t.sign(b"fp");
    let lr = LoadResult { trial: Some(t), license_raw: None, tampered: false, needs_heal: true };
    let (m, save) = LicenseManager::load("CODE".to_string(), b"fp".to_vec(), 150, lr);
    assert!(save);
    let t = m.trial.as_ref().unwrap();
    assert_eq!(t.rollback_count, 1);
    assert!(t.verify(b"fp"));
}

#[test]
fn activate_rejects_malformed_codes() {
    let mut m = fresh(20000);
    assert_eq!(m.activate("no-dot-here", 20000).unwrap_err(), ActivateError::Format);
    assert_eq!(m.activate("!!!.???", 20000).unwrap_err(), ActivateError::Format);
    assert_eq!(m.activate("aaaa.bbbb", 20000).unwrap_err(), ActivateError::InvalidSig);
    assert!(m.license().is_none());
    assert_eq!(ActivateError::Format.message(), "授权码格式不正确");
}

#[test]
fn machine_code_is_kept() {
    let m = fresh(1);
    assert_eq!(m.machine_code(), "CODE");
}

#[test]
fn status_labels_for_the_about_menu() {
    assert_eq!(LicenseStatus::Trial { days_left: 12 }.label(), "试用剩余 12 天");
    assert_eq!(LicenseStatus::Trial { days_left: -3 }.label(), "试用剩余 0 天");
    assert_eq!(LicenseStatus::Licensed { days_left: None }.label(), "已授权（永久）");
    assert_eq!(LicenseStatus::Licensed { days_left: Some(30) }.label(), "已授权（剩余 30 天）");
    assert_eq!(LicenseStatus::TrialExpired.label(), "试用期已结束");
    assert_eq!(LicenseStatus::LicensedExpired.label(), "授权已到期");
    assert_eq!(LicenseStatus::Tampered.label(), "授权异常");
}

#[test]
fn typed_code_blank_or_malformed_is_refused_with_a_message() {
    let mut m = fresh(20000);
    assert_eq!(m.activate_typed("  \n ", 20000).err(), Some("请输入授权码"));
    assert_eq!(m.activate_typed(" not-a-license ", 20000).err(), Some("授权码格式不正确"));
    assert!(m.license.is_none());
    assert!(m.license_raw.is_none());
}

fn licensed(expires_day: u64, tampered: bool) -> LicenseManager {
    LicenseManager {
        machine_code: "M".to_string(),
        machine_fp: b"fp".to_vec(),
        license: Some(LicensePayload {
            version: 1,
            product: "umya-excel".to_string(),
            machine: "M".to_string(),
            issued_day: 1,
            expires_day,
            edition: "pro".to_string(),
            customer: "C".to_string(),
        }),
        license_raw: Some("CODE.SIG".to_string()),
        trial: None,
        tampered,
    }
}

#[test]
fn licence_decides_before_tampering_and_trial() {
    assert_eq!(licensed(0, true).status(30000), LicenseStatus::Licensed { days_left: None });
    assert_eq!(licensed(20010, false).status(20000), LicenseStatus::Licensed { days_left: Some(10) });
    assert_eq!(licensed(20010, false).status(20010), LicenseStatus::LicensedExpired);
    // an expired licence needs no day difference, however far the days lie apart
    assert_eq!(licensed((1u64 << 63) - 1, false).status(u64::MAX - 2), LicenseStatus::LicensedExpired);
}
