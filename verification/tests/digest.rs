//! Digests.

use broodcasc::digest::{md5_of, verify_raw_ckey};
use broodcasc::{CascError, ContentKey, EncodingKey};

#[test]
fn known_digests() {
    for (text, digest) in [
        ("", "d41d8cd98f00b204e9800998ecf8427e"),
        ("a", "0cc175b9c0f1b6a831c399e269772661"),
        ("message digest", "f96b697d7cb7938d525a2f31aaf161d0"),
    ] {
        let got = EncodingKey::from(md5_of(text.as_bytes()));
        assert_eq!(got.to_string(), digest);
    }
}

#[test]
fn raw_content_is_held_against_its_key() {
    let key = ContentKey::from_hex("0cc175b9c0f1b6a831c399e269772661").unwrap();
    assert!(verify_raw_ckey(b"a", &key, "config").is_ok());
    assert!(matches!(
        verify_raw_ckey(b"b", &key, "config"),
        Err(CascError::ChecksumMismatch("config"))
    ));
}
