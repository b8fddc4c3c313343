use w3replay::request::{same_bytes, RequestData};

#[test]
fn admin_needs_the_exact_secret() {
    let secret: &[u8] = b"s3cret";
    assert!(RequestData::from_admin_header(Some(b"s3cret"), secret).is_admin);
    assert!(!RequestData::from_admin_header(Some(b"s3cre"), secret).is_admin);
    assert!(!RequestData::from_admin_header(Some(b"s3cret "), secret).is_admin);
    assert!(!RequestData::from_admin_header(Some(b"S3cret"), secret).is_admin);
    assert!(!RequestData::from_admin_header(None, secret).is_admin);
    assert!(RequestData::from_admin_header(Some(b""), b"").is_admin);
    assert!(!RequestData::from_admin_header(None, b"").is_admin);
}

#[test]
fn same_bytes_compares_every_byte() {
    assert!(same_bytes(b"", b""));
    assert!(same_bytes(b"abc", b"abc"));
    assert!(!same_bytes(b"abc", b"abd"));
    assert!(!same_bytes(b"abc", b"ab"));
    assert!(!same_bytes(b"", b"a"));
}
