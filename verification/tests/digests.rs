use justpkg::digest::{digest_hex, hash_string};

#[test]
fn digest_of_abc() {
    assert_eq!(
        hash_string("abc"),
        "ba7816bf8f01cfea414140de5dae2223b00361a396177a9cb410ff61f20015ad"
    );
}

#[test]
fn digest_of_empty_string() {
    assert_eq!(
        hash_string(""),
        "e3b0c44298fc1c149afbf4c8996fb92427ae41e4649b934ca495991b7852b855"
    );
}

#[test]
fn digest_of_bytes_matches_digest_of_text() {
    assert_eq!(digest_hex(b"abc"), hash_string("abc"));
    assert_eq!(digest_hex("héllo".as_bytes()), hash_string("héllo"));
}

#[test]
fn digests_are_64_lowercase_hex_digits() {
    for s in ["", "a", "github.com/user/repo", "ünïcode"] {
        let d = hash_string(s);
        assert_eq!(d.len(), 64);
        assert!(d.chars().all(|c| c.is_ascii_digit() || ('a'..='f').contains(&c)));
    }
}
