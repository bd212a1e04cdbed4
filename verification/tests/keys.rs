//! Key types and their hexadecimal form.

use broodcasc::{ContentKey, EncodingKey, TruncatedKey};

#[test]
fn hex_round_trip() {
    let key = ContentKey::from_hex("b96213f265684e16db5a8552eba1be09").unwrap();
    assert_eq!(key.to_string(), "b96213f265684e16db5a8552eba1be09");
    assert_eq!(key.as_bytes()[0], 0xb9);
    assert_eq!(key.as_bytes()[15], 0x09);
}

#[test]
fn hex_rejects_bad_input() {
    assert!(ContentKey::from_hex("b96213").is_err());
    assert!(ContentKey::from_hex("zz6213f265684e16db5a8552eba1be09").is_err());
}

#[test]
fn truncation() {
    let key = EncodingKey::from_hex("b135dde729b026904eeb4b7e76332750").unwrap();
    assert_eq!(key.truncated().to_string(), "b135dde729b026904e");
}

#[test]
fn hexadecimal_form_round_trips() {
    let key = ContentKey::from_hex("00112233445566778899AABBCCDDEEFF").unwrap();
    assert_eq!(key.to_string(), "00112233445566778899aabbccddeeff");
    assert_eq!(key.as_bytes()[15], 0xFF);
    assert_eq!(ContentKey::from_hex(&key.to_string()).unwrap(), key);
    for first in 0..=255u8 {
        let key = EncodingKey::from([first; 16]);
        assert_eq!(EncodingKey::from_hex(&key.to_string()).unwrap(), key);
        assert_eq!(key.to_string(), format!("{first:02x}").repeat(16));
    }
}

#[test]
fn truncated_keys_hold_the_first_nine_bytes() {
    let key = EncodingKey::from_hex("00112233445566778899aabbccddeeff").unwrap();
    assert_eq!(key.truncated().to_string(), "001122334455667788");
    assert_eq!(
        TruncatedKey::from_hex("001122334455667788").unwrap(),
        key.truncated()
    );
    assert_eq!(
        TruncatedKey::from_slice(&key.as_bytes()[..9]).unwrap(),
        key.truncated()
    );
}

#[test]
fn keys_of_the_wrong_length_are_refused() {
    assert!(ContentKey::from_slice(&[0; 15]).is_err());
    assert!(EncodingKey::from_slice(&[0; 17]).is_err());
    assert!(TruncatedKey::from_slice(&[0; 16]).is_err());
    assert!(EncodingKey::from_hex("zz112233445566778899aabbccddeeff").is_err());
    assert!(TruncatedKey::from_hex("").is_err());
}
