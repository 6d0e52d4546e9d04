use onebrc::order::compare_bytes;

#[test]
fn compares_bytewise() {
    assert!(compare_bytes(b"abc", b"abd") < 0);
    assert!(compare_bytes(b"abd", b"abc") > 0);
    assert_eq!(compare_bytes(b"abc", b"abc"), 0);
    assert!(compare_bytes(b"ab", b"abc") < 0);
    assert!(compare_bytes(b"", b"a") < 0);
    assert!(compare_bytes("Zürich".as_bytes(), b"Zurich") > 0);
}
