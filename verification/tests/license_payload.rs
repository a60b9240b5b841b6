use umya_excel::license::payload::{LicensePayload, EXPIRES_NEVER, LICENSE_VERSION, PRODUCT_ID};

fn sample() -> LicensePayload {
    LicensePayload {
        version: LICENSE_VERSION,
        product: PRODUCT_ID.to_string(),
        machine: "ABCD-EFGH-IJKL-MNOP".to_string(),
        issued_day: 20_000,
        expires_day: EXPIRES_NEVER,
        edition: "pro".to_string(),
        customer: "Acme".to_string(),
    }
}

#[test]
fn text_parse_roundtrip() {
    let p = sample();
    let p2 = LicensePayload::parse(&p.to_text()).expect("parse");
    assert_eq!(p2.version, p.version);
    assert_eq!(p2.product, p.product);
    assert_eq!(p2.machine, p.machine);
    assert_eq!(p2.expires_day, EXPIRES_NEVER);
    assert_eq!(p2.customer, p.customer);
}

#[test]
fn perpetual_never_expires() {
    let p = sample();
    assert!(!p.is_expired(u64::MAX));
}

#[test]
fn expiry_boundary() {
    let mut p = sample();
    p.expires_day = 200;
    assert!(!p.is_expired(199));
    assert!(p.is_expired(200));
}

#[test]
fn parse_rejects_incomplete() {
    assert!(LicensePayload::parse("v=1\n").is_none());
    assert!(LicensePayload::parse("").is_none());
}

#[test]
fn payload_text_layout() {
    let p = sample();
    assert_eq!(
        p.to_text(),
        "v=1\np=umya-excel\nm=ABCD-EFGH-IJKL-MNOP\ni=20000\ne=0\ned=pro\nc=Acme\n"
    );
}

#[test]
fn parse_reads_crlf_lines_and_last_value_wins() {
    let p = LicensePayload::parse("p=a\r\nm=b\r\np=c\nx=ignored\ne=7").expect("parse");
    assert_eq!(p.product, "c");
    assert_eq!(p.machine, "b");
    assert_eq!(p.expires_day, 7);
}

#[test]
fn parse_rejects_line_without_equals_and_bad_number() {
    assert!(LicensePayload::parse("p=a\nm=b\nbroken\n").is_none());
    assert!(LicensePayload::parse("p=a\nm=b\ni=12x\n").is_none());
    assert!(LicensePayload::parse("p=a\nm=b\nv=4294967296\n").is_none());
}
