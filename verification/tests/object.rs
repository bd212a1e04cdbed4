//! The verified-object boundary.

use broodcasc::blte::ReadLimits;
use broodcasc::object::{read_verified, ExpectedObject};
use broodcasc::{CascError, ContentKey};
use md5::{Digest, Md5};

fn single_raw(payload: &[u8]) -> Vec<u8> {
    let mut out = b"BLTE\0\0\0\0N".to_vec();
    out.extend_from_slice(payload);
    out
}

fn ckey(bytes: &[u8]) -> ContentKey {
    ContentKey::from(<[u8; 16]>::from(Md5::digest(bytes)))
}

#[test]
fn known_oversize_rejects_before_acquisition() {
    let encoded = single_raw(b"ok");
    let called = std::cell::Cell::new(false);
    let err = read_verified(
        ExpectedObject {
            ckey: None,
            decoded_size: Some(ReadLimits::default().max_decoded_bytes as u64 + 1),
        },
        ReadLimits::default(),
        |_| {
            called.set(true);
            Ok(encoded.clone())
        },
    )
    .unwrap_err();
    assert!(matches!(err, CascError::LimitExceeded { .. }));
    assert!(!called.get());
}

#[test]
fn malformed_blte_is_rejected_before_decoded_checks() {
    let encoded = b"not BLTE".to_vec();
    let err = read_verified(
        ExpectedObject {
            ckey: None,
            decoded_size: None,
        },
        ReadLimits::default(),
        |_| Ok(encoded),
    )
    .unwrap_err();
    assert!(matches!(
        err,
        CascError::Malformed {
            what: "BLTE header",
            ..
        }
    ));
}

#[test]
fn decoded_size_is_checked_before_ckey() {
    let encoded = single_raw(b"ok");
    let wrong_ckey = ContentKey::from([0; 16]);
    let err = read_verified(
        ExpectedObject {
            ckey: Some(&wrong_ckey),
            decoded_size: Some(3),
        },
        ReadLimits::default(),
        |_| Ok(encoded),
    )
    .unwrap_err();
    assert!(matches!(
        err,
        CascError::Malformed {
            what: "decoded content",
            ..
        }
    ));
}

#[test]
fn ckey_is_checked_after_successful_decode() {
    let encoded = single_raw(b"ok");
    let wrong_ckey = ContentKey::from([0; 16]);
    let err = read_verified(
        ExpectedObject {
            ckey: Some(&wrong_ckey),
            decoded_size: Some(2),
        },
        ReadLimits::default(),
        |_| Ok(encoded),
    )
    .unwrap_err();
    assert!(matches!(
        err,
        CascError::ChecksumMismatch("decoded content (CKey)")
    ));
}

#[test]
fn verified_object_is_returned() {
    let encoded = single_raw(b"ok");
    let payload = b"ok";
    let expected_ckey = ckey(payload);
    let decoded = read_verified(
        ExpectedObject {
            ckey: Some(&expected_ckey),
            decoded_size: Some(payload.len() as u64),
        },
        ReadLimits::default(),
        |_| Ok(encoded),
    )
    .unwrap();
    assert_eq!(decoded, payload);
}
