use rdns::tls::{accept_certificates, accept_key, read_certificates, read_key, KeyFormat};

fn pem(label: &str, body: &str) -> String {
    format!("-----BEGIN {label}-----\n{body}\n-----END {label}-----\n")
}

#[test]
fn certificates_are_read_in_order() {
    let file = pem("CERTIFICATE", "AQID") + &pem("EC PARAMETERS", "AAAA") + &pem("CERTIFICATE", "BAU=");
    assert_eq!(read_certificates(file.as_bytes(), "c.pem").unwrap(), vec![vec![1, 2, 3], vec![4, 5]]);
    assert_eq!(read_certificates(b"", "c.pem").unwrap_err(), "No certificates found in 'c.pem'");
    let broken = pem("CERTIFICATE", "?");
    assert!(read_certificates(broken.as_bytes(), "c.pem")
        .unwrap_err()
        .starts_with("Failed to parse certificate chain from 'c.pem': "));
    assert_eq!(
        accept_certificates(Err("cut".to_string()), "c.pem").unwrap_err(),
        "Failed to parse certificate chain from 'c.pem': cut"
    );
}

#[test]
fn the_first_key_is_read() {
    for (label, format) in [
        ("RSA PRIVATE KEY", KeyFormat::Pkcs1),
        ("EC PRIVATE KEY", KeyFormat::Sec1),
        ("PRIVATE KEY", KeyFormat::Pkcs8),
    ] {
        let file = pem("CERTIFICATE", "AQID") + &pem(label, "BAU=") + &pem("PRIVATE KEY", "AAAA");
        let key = read_key(file.as_bytes(), "k.pem").unwrap();
        assert_eq!(key.format, format);
        assert_eq!(key.der, vec![4, 5]);
    }
    let other = pem("CERTIFICATE", "AQID");
    assert!(matches!(read_key(other.as_bytes(), "k.pem"), Err(e) if e == "No private key found in 'k.pem'"));
    assert!(matches!(
        accept_key(Err("cut".to_string()), "k.pem"),
        Err(e) if e == "Failed to parse private key from 'k.pem': cut"
    ));
}
