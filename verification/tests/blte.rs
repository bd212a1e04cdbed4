//! Decoding of BLTE buffers.

use broodcasc::blte::{
    decode, decode_chunk, decode_with_limits, BlteHeader, ReadLimits, CHUNK_ENTRY_SIZE,
};
use broodcasc::CascError;
use md5::{Digest, Md5};

/// Builds a BLTE buffer with a chunk table from `(mode, payload)` pairs,
/// where `payload` is the pre-mode-byte data (raw bytes for `N`, already
/// zlib-compressed bytes for `Z`, a full nested BLTE buffer for `F`).
fn build_blte(chunks: &[(u8, &[u8], u32)]) -> Vec<u8> {
    // (mode, payload, decompressed_size)
    let chunk_count = chunks.len() as u32;
    let header_size = 8 + 4 + CHUNK_ENTRY_SIZE * chunks.len();

    let mut chunk_datas: Vec<Vec<u8>> = Vec::new();
    for &(mode, payload, _) in chunks {
        let mut d = Vec::with_capacity(1 + payload.len());
        d.push(mode);
        d.extend_from_slice(payload);
        chunk_datas.push(d);
    }

    let mut out = Vec::new();
    out.extend_from_slice(b"BLTE");
    out.extend_from_slice(&(header_size as u32).to_be_bytes());
    out.push(0x0F);
    out.extend_from_slice(&chunk_count.to_be_bytes()[1..4]);
    for (&(_, _, decompressed_size), data) in chunks.iter().zip(&chunk_datas) {
        let md5: [u8; 16] = Md5::digest(data).into();
        out.extend_from_slice(&(data.len() as u32).to_be_bytes());
        out.extend_from_slice(&decompressed_size.to_be_bytes());
        out.extend_from_slice(&md5);
    }
    for data in &chunk_datas {
        out.extend_from_slice(data);
    }
    out
}

fn build_single_chunk(mode: u8, payload: &[u8]) -> Vec<u8> {
    // header_size == 0: magic + header_size(0) + mode byte + payload
    let mut out = Vec::new();
    out.extend_from_slice(b"BLTE");
    out.extend_from_slice(&0u32.to_be_bytes());
    out.push(mode);
    out.extend_from_slice(payload);
    out
}

fn zlib(data: &[u8]) -> Vec<u8> {
    miniz_oxide::deflate::compress_to_vec_zlib(data, 6)
}

#[test]
fn header_size_zero_raw() {
    let data = b"hello world";
    let blte = build_single_chunk(b'N', data);
    let decoded = decode(&blte).unwrap();
    assert_eq!(decoded, data);
}

#[test]
fn header_size_zero_zlib() {
    let data = b"hello world, this is compressible compressible compressible data";
    let compressed = zlib(data);
    let blte = build_single_chunk(b'Z', &compressed);
    let decoded = decode(&blte).unwrap();
    assert_eq!(decoded, data);
}

#[test]
fn multi_chunk_mixed_n_and_z() {
    let raw = b"raw chunk data";
    let text = b"compressible compressible compressible compressible text";
    let compressed = zlib(text);
    let blte = build_blte(&[
        (b'N', raw, raw.len() as u32),
        (b'Z', &compressed, text.len() as u32),
    ]);
    let decoded = decode(&blte).unwrap();
    let mut expected = raw.to_vec();
    expected.extend_from_slice(text);
    assert_eq!(decoded, expected);
}

#[test]
fn md5_mismatch_is_detected() {
    let raw = b"raw chunk data";
    let mut blte = build_blte(&[(b'N', raw, raw.len() as u32)]);
    // Corrupt a byte of the chunk data (after the header) so the MD5 no
    // longer matches the table entry.
    let last = blte.len() - 1;
    blte[last] ^= 0xFF;
    let err = decode(&blte).unwrap_err();
    assert!(matches!(err, CascError::ChecksumMismatch("BLTE chunk")));
}

#[test]
fn blte_bad_magic_is_rejected() {
    let mut blte = build_single_chunk(b'N', b"data");
    blte[0] = b'X';
    assert!(decode(&blte).is_err());
}

#[test]
fn blte_truncated_input_is_rejected() {
    assert!(decode(b"BLT").is_err());
    assert!(decode(b"").is_err());

    let blte = build_blte(&[(b'N', b"hello", 5)]);
    let truncated = &blte[..blte.len() - 2];
    assert!(decode(truncated).is_err());
}

#[test]
fn header_size_disagreeing_with_chunk_count_is_rejected() {
    let mut blte = build_blte(&[(b'N', b"hello", 5), (b'N', b"world", 5)]);
    // Corrupt header_size to no longer match 2 chunks worth of table.
    let bad_header_size = (8 + 4 + CHUNK_ENTRY_SIZE) as u32; // only 1 entry's worth
    blte[4..8].copy_from_slice(&bad_header_size.to_be_bytes());
    let err = decode(&blte).unwrap_err();
    assert!(matches!(err, CascError::Malformed { .. }));
}

#[test]
fn encrypted_mode_is_unsupported() {
    let blte = build_single_chunk(b'E', b"whatever");
    let err = decode(&blte).unwrap_err();
    assert!(matches!(
        err,
        CascError::Unsupported {
            what: "BLTE chunk",
            ..
        }
    ));
}

#[test]
fn unknown_mode_is_unsupported() {
    let blte = build_single_chunk(0x34, b"whatever");
    let err = decode(&blte).unwrap_err();
    match err {
        CascError::Unsupported { what, reason } => {
            assert_eq!(what, "BLTE chunk");
            assert!(reason.contains("0x34"), "reason was: {reason}");
        }
        other => panic!("expected Unsupported, got {other:?}"),
    }
}

#[test]
fn nested_f_mode_works() {
    let inner_data = b"deeply nested payload";
    let inner_blte = build_blte(&[(b'N', inner_data, inner_data.len() as u32)]);
    let outer = build_blte(&[(b'F', &inner_blte, inner_data.len() as u32)]);
    let decoded = decode(&outer).unwrap();
    assert_eq!(decoded, inner_data);
}

#[test]
fn nested_f_mode_recursion_depth_limit() {
    // Build a chain of nested BLTE buffers deeper than MAX_NEST_DEPTH.
    let leaf = b"leaf";
    let mut current = build_blte(&[(b'N', leaf, leaf.len() as u32)]);
    for _ in 0..(ReadLimits::default().max_nesting + 2) {
        current = build_blte(&[(b'F', &current, leaf.len() as u32)]);
    }
    let err = decode(&current).unwrap_err();
    assert!(matches!(err, CascError::Malformed { .. }));
}

#[test]
fn decompressed_size_mismatch_is_an_error() {
    let raw = b"raw chunk data";
    // Declare a decompressed_size that doesn't match the actual payload length.
    let blte = build_blte(&[(b'N', raw, raw.len() as u32 + 1)]);
    assert!(decode(&blte).is_err());
}

#[test]
fn zlib_decompressed_size_mismatch_is_an_error() {
    let text = b"compressible compressible compressible compressible text";
    let compressed = zlib(text);
    let blte = build_blte(&[(b'Z', &compressed, text.len() as u32 - 1)]);
    assert!(decode(&blte).is_err());
}

#[test]
fn header_parse_reports_chunk_table() {
    let blte = build_blte(&[(b'N', b"hello", 5), (b'N', b"world", 5)]);
    let header = BlteHeader::parse(&blte).unwrap();
    assert_eq!(header.chunks().len(), 2);
    assert_eq!(header.total_decompressed_size(), Some(10));
    assert_eq!(header.chunks()[0].decompressed_size, 5);
    assert_eq!(header.chunks()[1].decompressed_size, 5);
}

#[test]
fn header_parse_no_chunk_table_has_unknown_size() {
    let blte = build_single_chunk(b'N', b"hello");
    let header = BlteHeader::parse(&blte).unwrap();
    assert!(header.chunks().is_empty());
    assert_eq!(header.total_decompressed_size(), None);
}

#[test]
fn decode_chunk_standalone() {
    let raw = b"standalone chunk";
    let mut encoded = vec![b'N'];
    encoded.extend_from_slice(raw);
    let decoded = decode_chunk(&encoded, Some(raw.len() as u32), None).unwrap();
    assert_eq!(decoded, raw);
}

#[test]
fn chunk_count_zero_is_rejected() {
    let mut out = Vec::new();
    out.extend_from_slice(b"BLTE");
    // header_size = 8 + 4 + 0 entries = 12
    out.extend_from_slice(&12u32.to_be_bytes());
    out.push(0x0F);
    out.extend_from_slice(&[0, 0, 0]); // chunk_count = 0
    assert!(decode(&out).is_err());
}

#[test]
fn short_nonzero_header_is_rejected_without_panicking() {
    let mut input = Vec::new();
    input.extend_from_slice(b"BLTE");
    input.extend_from_slice(&8u32.to_be_bytes());
    assert!(BlteHeader::parse(&input).is_err());
}

#[test]
fn bad_flags_byte_is_rejected() {
    let mut blte = build_blte(&[(b'N', b"hello", 5)]);
    blte[8] = 0x00;
    assert!(decode(&blte).is_err());
}

#[test]
fn huge_declared_chunk_count_is_rejected_before_table_allocation() {
    let mut input = Vec::new();
    input.extend_from_slice(b"BLTE");
    input.extend_from_slice(&12u32.to_be_bytes());
    input.push(0x0F);
    input.extend_from_slice(&16_385u32.to_be_bytes()[1..]);

    let err = BlteHeader::parse(&input).unwrap_err();
    assert!(matches!(
        err,
        CascError::LimitExceeded {
            what: "BLTE chunk count",
            ..
        }
    ));
}

#[test]
fn encoded_input_limit_is_checked_before_header_parsing() {
    let blte = build_single_chunk(b'N', b"hello");
    let limits = ReadLimits {
        max_encoded_bytes: blte.len() - 1,
        ..ReadLimits::default()
    };
    let err = decode_with_limits(&blte, limits).unwrap_err();
    assert!(matches!(
        err,
        CascError::LimitExceeded {
            what: "BLTE encoded input",
            ..
        }
    ));
}

#[test]
fn per_chunk_decoded_limit_is_enforced_before_copying() {
    let blte = build_blte(&[(b'N', b"12345", 5)]);
    let limits = ReadLimits {
        max_chunk_decoded_bytes: 4,
        ..ReadLimits::default()
    };
    let err = decode_with_limits(&blte, limits).unwrap_err();
    assert!(matches!(
        err,
        CascError::LimitExceeded {
            what: "BLTE decoded chunk",
            ..
        }
    ));
}

#[test]
fn aggregate_decoded_limit_is_enforced_before_decoding_chunks() {
    let blte = build_blte(&[(b'N', b"1234", 4), (b'N', b"5678", 4)]);
    let limits = ReadLimits {
        max_decoded_bytes: 7,
        max_chunk_decoded_bytes: 4,
        ..ReadLimits::default()
    };
    let err = decode_with_limits(&blte, limits).unwrap_err();
    assert!(matches!(
        err,
        CascError::LimitExceeded {
            what: "BLTE decoded output",
            ..
        }
    ));
}

#[test]
fn chunk_table_rejects_trailing_unchecked_bytes() {
    let mut blte = build_blte(&[(b'N', b"payload", 7)]);
    blte.extend_from_slice(b"trailing");

    let err = decode(&blte).unwrap_err();
    assert!(matches!(
        err,
        CascError::Malformed {
            what: "BLTE chunk data",
            ..
        }
    ));
}

#[test]
fn nested_frame_must_match_its_parent_declared_size() {
    let inner = build_blte(&[(b'N', b"ok", 2)]);
    let outer = build_blte(&[(b'F', &inner, 3)]);
    let err = decode(&outer).unwrap_err();
    assert!(matches!(
        err,
        CascError::Malformed {
            what: "BLTE chunk",
            ..
        }
    ));
}
