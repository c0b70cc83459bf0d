use connection_store::certs::{cert_fingerprint, parse_trusted_certs, CertError, TrustedCerts};

const CERT: &str = "MIIBdTCCARugAwIBAgIUV+hK9AjSgkScyhbwEnZHBVCac+QwCgYIKoZIzj0EAwIwDzENMAsGA1UEAwwEdGVzdDAgFw0yNjExMTkxODI1MTNaGA8yMTI2MTAyNjE4MjUxM1owDzENMAsGA1UEAwwEdGVzdDBZMBMGByqGSM49AgEGCCqGSM49AwEHA0IABNtepBJM6v22rtZRp/nHFYYuI6FC485P1x9nS8k7u3MI5aDaRklEK3dcEnuVe+TOdE+8K1tbF6obO+Q1Z/JjjHOjUzBRMB0GA1UdDgQWBBR3qdyT63BI1pYVB1pXExcZiBIfPDAfBgNVHSMEGDAWgBR3qdyT63BI1pYVB1pXExcZiBIfPDAPBgNVHRMBAf8EBTADAQH/MAoGCCqGSM49BAMCA0gAMEUCIHgJbzqnqFOtITG9k0k9UbibfANr77pIa3rYA5BYUYnwAiEAi+OsC6jOnpUBeq/s8v5uCxUDiM3xnlNEfDw11vL/3WU=";
const CERT_FINGERPRINT: &str = "0870bf1a4edead92f881e66d66af58507aba585814186542f41c956921c32212";

#[test]
fn fingerprint_is_hex_sha256_of_the_text() {
    assert_eq!(
        cert_fingerprint("abc"),
        "ba7816bf8f01cfea414140de5dae2223b00361a396177a9cb410ff61f20015ad"
    );
    assert_eq!(cert_fingerprint(CERT), CERT_FINGERPRINT);
    assert_eq!(cert_fingerprint("").len(), 64);
}

#[test]
fn trusting_a_certificate_keeps_it_under_its_fingerprint() {
    let mut t = TrustedCerts::new();
    assert_eq!(t.add_trusted_cert(CERT), Ok(()));
    assert_eq!(t.keys(), vec![CERT_FINGERPRINT.to_string()]);
}

#[test]
fn trusting_twice_changes_nothing() {
    let mut t = TrustedCerts::new();
    t.add_trusted_cert(CERT).unwrap();
    t.add_trusted_cert(CERT).unwrap();
    assert_eq!(t.keys().len(), 1);
}

#[test]
fn invalid_base64_is_refused() {
    let mut t = TrustedCerts::new();
    assert_eq!(t.add_trusted_cert("@@@@"), Err(CertError::InvalidBase64));
    assert!(t.keys().is_empty());
}

#[test]
fn bytes_that_are_no_certificate_are_refused() {
    let mut t = TrustedCerts::new();
    assert_eq!(t.add_trusted_cert("Zm9vYmFy"), Err(CertError::InvalidCertificate));
    assert_eq!(t.insert_stored("k".to_string(), "Zm9vYmFy"), Err(CertError::InvalidCertificate));
    assert!(t.keys().is_empty());
}

#[test]
fn stored_certificates_are_written_back_as_base64_der() {
    let mut t = TrustedCerts::new();
    assert_eq!(t.insert_stored("mine".to_string(), CERT), Ok(()));
    assert_eq!(t.insert_stored("mine".to_string(), CERT), Ok(()));
    let stored = t.stored_form().unwrap();
    assert_eq!(stored, vec![("mine".to_string(), CERT.to_string())]);
    assert_eq!(t.certificate_ders().len(), 1);
}

#[test]
fn no_certificates_are_written_as_an_empty_list() {
    assert_eq!(TrustedCerts::new().stored_form(), Ok(vec![]));
}

#[test]
fn trusting_keeps_the_certificate_bytes_under_the_fingerprint() {
    let mut t = TrustedCerts::new();
    t.insert_stored("old".to_string(), CERT).unwrap();
    let before = t.certificate_ders();
    t.add_trusted_cert(CERT).unwrap();
    assert_eq!(t.keys(), vec!["old".to_string(), CERT_FINGERPRINT.to_string()]);
    let ders = t.certificate_ders();
    assert_eq!(ders[0], before[0]);
    assert_eq!(ders[1], before[0]);
}

#[test]
fn trust_file_keeps_valid_entries_only() {
    let text = format!(
        "{{\"good\": \"{}\", \"bad64\": \"@@@@\", \"notcert\": \"Zm9vYmFy\"}}",
        CERT
    );
    let t = parse_trusted_certs(&text).unwrap();
    assert_eq!(t.keys(), vec!["good".to_string()]);
}

#[test]
fn trust_file_that_is_not_json_keeps_nothing() {
    assert!(parse_trusted_certs("not json").unwrap().keys().is_empty());
    assert!(parse_trusted_certs("").unwrap().keys().is_empty());
    assert!(parse_trusted_certs("{\"k\": 3}").unwrap().keys().is_empty());
}

#[test]
fn trust_file_text_round_trips() {
    let mut t = TrustedCerts::new();
    t.add_trusted_cert(CERT).unwrap();
    let text = t.trust_file_text().unwrap();
    let back = parse_trusted_certs(&text).unwrap();
    assert_eq!(back.keys(), t.keys());
    assert_eq!(back.certificate_ders(), t.certificate_ders());
}

#[test]
fn certificates_are_kept_as_the_bytes_they_were_read_from() {
    let mut t = TrustedCerts::new();
    t.insert_stored("k".to_string(), CERT).unwrap();
    let ders = t.certificate_ders();
    assert_eq!(ders[0].len(), 377);
    assert_eq!(&ders[0][..2], &[0x30u8, 0x82u8]);
}

#[test]
fn trust_file_text_is_a_json_object_of_base64_ders() {
    let mut t = TrustedCerts::new();
    t.insert_stored("a".to_string(), CERT).unwrap();
    t.insert_stored("b".to_string(), CERT).unwrap();
    let text = t.trust_file_text().unwrap();
    let back: std::collections::HashMap<String, String> = serde_json::from_str(&text).unwrap();
    assert_eq!(back.len(), 2);
    assert_eq!(back["a"], CERT);
    assert_eq!(back["b"], CERT);
}
