//! The lookup hash of guarded blocks.

use broodcasc::jenkins::{hashlittle, hashlittle2};

#[test]
fn documented_span_header_hash_uses_casclib_seed_and_first_word() {
    let header_prefix = [
        0x58, 0x43, 0xa2, 0xff, 0x71, 0xe8, 0xc2, 0xa1, 0xbe, 0xff, 0x0e, 0x82, 0x9b, 0x00,
        0x00, 0x07, 0x1e, 0x00, 0x00, 0x00, 0x01, 0x00,
    ];
    assert_eq!(hashlittle2(&header_prefix, 0x3d6b_e971, 0).0, 0xbba5_b2bd);
}

#[test]
fn known_hashes_of_text() {
    let text = b"Four score and seven years ago";
    assert_eq!(hashlittle(text, 0), 0x1777_0551);
    assert_eq!(hashlittle(text, 1), 0xcd62_8161);
    assert_eq!(hashlittle2(text, 0, 0), (0x1777_0551, 0xce72_26e6));
    assert_eq!(hashlittle2(text, 0, 1), (0xe360_7cae, 0xbd37_1de4));
    assert_eq!(hashlittle2(text, 1, 0), (0xcd62_8161, 0x6cbe_a4b3));
    assert_eq!(hashlittle2(b"", 0, 0), (0xdead_beef, 0xdead_beef));
}

#[test]
fn one_word_hash_is_the_first_of_two() {
    let data: Vec<u8> = (0..40u8).map(|b| b.wrapping_mul(31)).collect();
    for n in 0..=data.len() {
        assert_eq!(hashlittle(&data[..n], 7), hashlittle2(&data[..n], 7, 0).0);
    }
}
