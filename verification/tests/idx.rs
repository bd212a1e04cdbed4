//! Local index files.

use broodcasc::idx::{entry_block_hash, LocalIndex, ENTRIES_OFFSET, ENTRY_LEN};
use broodcasc::jenkins::hashlittle;
use broodcasc::{CascError, EncodingKey, TruncatedKey};

const HEADER_BLOCK_SIZE: u32 = 0x10;
const FILE_HEADER_OFFSET: usize = 0x08;
const FILE_HEADER_LEN: usize = 16;
const ENTRIES_GUARD_OFFSET: usize = 0x20;

/// Builds a valid `.idx` (v7) file from raw entry tuples: `(key9,
/// storage_offset as 5 raw big-endian bytes, encoded_size)`. Mirrors the
/// on-disk layout exactly, including both guarded-block hashes.
fn build_idx_file(segment_bits: u8, entries: &[([u8; 9], [u8; 5], u32)]) -> Vec<u8> {
    let entry_block_size = (entries.len() * ENTRY_LEN) as u32;

    let mut out = Vec::new();
    // File header guarded block.
    out.extend_from_slice(&HEADER_BLOCK_SIZE.to_le_bytes());
    out.extend_from_slice(&0u32.to_le_bytes()); // BlockHash, filled below

    // File header (16 bytes).
    out.extend_from_slice(&7u16.to_le_bytes()); // Revision
    out.push(0); // BucketIndex (unused)
    out.push(0); // Flags
    out.push(4); // SpanSizeBytes
    out.push(5); // SpanOffsetBytes
    out.push(9); // KeyBytes
    out.push(segment_bits); // SegmentBits
    out.extend_from_slice(&0x0000_00FF_C000_0000u64.to_le_bytes()); // MaxFileOffset
    update_header_hash(&mut out);

    // 8 bytes zero padding.
    out.extend_from_slice(&[0u8; 8]);

    // Entries guarded block header.
    out.extend_from_slice(&entry_block_size.to_le_bytes());
    out.extend_from_slice(&0u32.to_le_bytes()); // BlockHash, filled below

    // Entries.
    for (key9, storage_offset, encoded_size) in entries {
        out.extend_from_slice(key9);
        out.extend_from_slice(storage_offset);
        out.extend_from_slice(&encoded_size.to_le_bytes());
    }
    let hash = entry_block_hash(&out[ENTRIES_OFFSET..]);
    out[ENTRIES_GUARD_OFFSET + 4..ENTRIES_OFFSET].copy_from_slice(&hash.to_le_bytes());

    out
}

fn update_header_hash(data: &mut [u8]) {
    let hash = hashlittle(
        &data[FILE_HEADER_OFFSET..FILE_HEADER_OFFSET + FILE_HEADER_LEN],
        0,
    );
    data[4..8].copy_from_slice(&hash.to_le_bytes());
}

/// Packs `(archive, offset)` into 5 raw big-endian bytes given
/// `segment_bits`, the inverse of the unpacking this module implements.
fn pack_storage_offset(archive: u16, offset: u64, segment_bits: u8) -> [u8; 5] {
    let v = (u64::from(archive) << segment_bits) | offset;
    let be = v.to_be_bytes();
    be[3..8].try_into().unwrap()
}

fn key9(byte: u8) -> [u8; 9] {
    [byte; 9]
}

#[test]
fn documented_real_header_hash_matches() {
    // Bytes +0x08..+0x17 from
    // 000000001b.idx. The guarded header stores 0x1bc0046b.
    let header = [
        0x07, 0x00, 0x00, 0x00, 0x04, 0x05, 0x09, 0x1e, 0x00, 0x00, 0x00, 0xc0, 0xff, 0x00,
        0x00, 0x00,
    ];
    assert_eq!(hashlittle(&header, 0), 0x1bc0_046b);

    let mut file = Vec::new();
    file.extend_from_slice(&HEADER_BLOCK_SIZE.to_le_bytes());
    file.extend_from_slice(&0x1bc0_046bu32.to_le_bytes());
    file.extend_from_slice(&header);
    file.extend_from_slice(&[0; 8]);
    file.extend_from_slice(&0u32.to_le_bytes());
    file.extend_from_slice(&0u32.to_le_bytes());
    assert!(
        LocalIndex::from_files(&[file.as_slice()])
            .unwrap()
            .is_empty()
    );
}

#[test]
fn corrupt_header_payload_or_hash_is_rejected() {
    let original = build_idx_file(30, &[]);

    let mut bad_payload = original.clone();
    bad_payload[FILE_HEADER_OFFSET + 8] ^= 1;
    assert!(matches!(
        LocalIndex::from_files(&[bad_payload.as_slice()]),
        Err(CascError::ChecksumMismatch("local index file header"))
    ));

    let mut bad_hash = original;
    bad_hash[4] ^= 1;
    assert!(matches!(
        LocalIndex::from_files(&[bad_hash.as_slice()]),
        Err(CascError::ChecksumMismatch("local index file header"))
    ));
}

#[test]
fn corrupt_entry_payload_or_hash_is_rejected() {
    let original = build_idx_file(30, &[(key9(1), pack_storage_offset(0, 10, 30), 100)]);

    let mut bad_payload = original.clone();
    bad_payload[ENTRIES_OFFSET + 3] ^= 1;
    assert!(matches!(
        LocalIndex::from_files(&[bad_payload.as_slice()]),
        Err(CascError::ChecksumMismatch("local index entry array"))
    ));

    let mut bad_hash = original;
    bad_hash[ENTRIES_GUARD_OFFSET + 4] ^= 1;
    assert!(matches!(
        LocalIndex::from_files(&[bad_hash.as_slice()]),
        Err(CascError::ChecksumMismatch("local index entry array"))
    ));
}

#[test]
fn parse_and_lookup_roundtrip_verified_example() {
    // StorageOffset raw bytes
    // [0x01, 0x8B, 0xEA, 0x86, 0x7F] (ground truth, transcribed directly
    // from a hex dump of the real file) with segment_bits=30. The doc's
    // prose gives the derived offset as 0x0BE7A87F / "199 689 855", but
    // that's internally inconsistent (0x0BE7A87F is actually 199,731,327)
    // and doesn't match applying the documented archive/offset formula to
    // the verified raw bytes: 0x018BEA867F >> 30 = 6,
    // 0x018BEA867F & 0x3FFFFFFF = 0x0BEA867F (199,919,231) -- a
    // transcription slip in the worked example, not a spec error.
    // Confirmed independently in Python.
    let key = key9(0xAB);
    let data = build_idx_file(30, &[(key, [0x01, 0x8B, 0xEA, 0x86, 0x7F], 1234)]);

    let index = LocalIndex::from_files(&[data.as_slice()]).unwrap();
    assert_eq!(index.len(), 1);

    let entry = index.lookup_truncated(&TruncatedKey(key)).unwrap();
    assert_eq!(entry.archive, 6);
    assert_eq!(entry.offset, 0x0BEA_867F);
    assert_eq!(entry.encoded_size, 1234);
}

#[test]
fn placeholder_entries_are_skipped() {
    let real_key = key9(0x01);
    let placeholder_key = key9(0x02);
    let data = build_idx_file(
        30,
        &[
            (placeholder_key, pack_storage_offset(0, 0, 30), 30),
            (real_key, pack_storage_offset(1, 100, 30), 200),
        ],
    );

    let index = LocalIndex::from_files(&[data.as_slice()]).unwrap();
    assert_eq!(index.len(), 1);
    assert!(
        index
            .lookup_truncated(&TruncatedKey(placeholder_key))
            .is_none()
    );
    assert!(index.lookup_truncated(&TruncatedKey(real_key)).is_some());
}

#[test]
fn placeholder_boundary_is_inclusive() {
    // encoded_size == 30 exactly must also be skipped, not just < 30.
    let key = key9(0x03);
    let data = build_idx_file(30, &[(key, pack_storage_offset(0, 0, 30), 30)]);
    let index = LocalIndex::from_files(&[data.as_slice()]).unwrap();
    assert!(index.is_empty());
}

#[test]
fn wrong_revision_is_rejected() {
    let mut data = build_idx_file(30, &[(key9(1), pack_storage_offset(0, 0, 30), 100)]);
    data[FILE_HEADER_OFFSET..FILE_HEADER_OFFSET + 2].copy_from_slice(&6u16.to_le_bytes());
    update_header_hash(&mut data);
    let err = LocalIndex::from_files(&[data.as_slice()]).unwrap_err();
    assert!(matches!(err, CascError::Unsupported { .. }));
}

#[test]
fn wrong_key_bytes_rejected_as_unsupported() {
    let mut data = build_idx_file(30, &[(key9(1), pack_storage_offset(0, 0, 30), 100)]);
    data[FILE_HEADER_OFFSET + 6] = 16; // KeyBytes
    update_header_hash(&mut data);
    let err = LocalIndex::from_files(&[data.as_slice()]).unwrap_err();
    assert!(matches!(err, CascError::Unsupported { .. }));
}

#[test]
fn nonzero_flags_rejected_as_unsupported() {
    let mut data = build_idx_file(30, &[(key9(1), pack_storage_offset(0, 0, 30), 100)]);
    data[FILE_HEADER_OFFSET + 3] = 1; // Flags
    update_header_hash(&mut data);
    let err = LocalIndex::from_files(&[data.as_slice()]).unwrap_err();
    assert!(matches!(err, CascError::Unsupported { .. }));
}

#[test]
fn truncated_file_is_rejected() {
    let data = build_idx_file(30, &[(key9(1), pack_storage_offset(0, 0, 30), 100)]);
    // Cut off partway through the fixed header.
    assert!(LocalIndex::from_files(&[&data[..0x10]]).is_err());
    assert!(LocalIndex::from_files(&[&data[..0]]).is_err());
}

#[test]
fn entry_block_size_not_multiple_of_18_is_rejected() {
    let mut data = build_idx_file(30, &[(key9(1), pack_storage_offset(0, 0, 30), 100)]);
    data[ENTRIES_GUARD_OFFSET..ENTRIES_GUARD_OFFSET + 4].copy_from_slice(&19u32.to_le_bytes());
    let err = LocalIndex::from_files(&[data.as_slice()]).unwrap_err();
    assert!(matches!(err, CascError::Malformed { .. }));
}

#[test]
fn entry_block_overrunning_file_is_rejected() {
    let mut data = build_idx_file(30, &[(key9(1), pack_storage_offset(0, 0, 30), 100)]);
    // Claim two entries' worth of bytes when only one is actually present.
    data[ENTRIES_GUARD_OFFSET..ENTRIES_GUARD_OFFSET + 4]
        .copy_from_slice(&((ENTRY_LEN * 2) as u32).to_le_bytes());
    let err = LocalIndex::from_files(&[data.as_slice()]).unwrap_err();
    assert!(matches!(err, CascError::Malformed { .. }));
}

#[test]
fn select_files_picks_highest_version_and_ignores_junk() {
    let names: Vec<String> = [
        "000000001b.idx",
        "0000000005.idx", // older version of bucket 00, should lose
        "0f0000001e.idx",
        "070000001a.IDX", // uppercase extension, still valid
        "shmem",          // no extension match
        "data.000",       // wrong extension
        "1000000001.idx", // bucket 0x10 is out of range (only 00..0f exist)
        "0g0000001a.idx", // 'g' isn't hex
        "00000000.idx",   // stem too short
    ]
    .into_iter()
    .map(String::from)
    .collect();

    let mut selected = LocalIndex::select_files(&names);
    selected.sort();
    let mut expected = vec![
        "000000001b.idx".to_string(),
        "070000001a.IDX".to_string(),
        "0f0000001e.idx".to_string(),
    ];
    expected.sort();
    assert_eq!(selected, expected);
}

#[test]
fn select_files_handles_missing_buckets() {
    let names = vec!["050000000a.idx".to_string()];
    assert_eq!(LocalIndex::select_files(&names), vec!["050000000a.idx"]);
}

#[test]
fn merge_across_files_duplicate_key_last_wins() {
    let key = key9(0x42);
    let first = build_idx_file(30, &[(key, pack_storage_offset(1, 10, 30), 100)]);
    let second = build_idx_file(30, &[(key, pack_storage_offset(2, 20, 30), 200)]);

    let index = LocalIndex::from_files(&[first.as_slice(), second.as_slice()]).unwrap();
    assert_eq!(index.len(), 1);
    let entry = index.lookup_truncated(&TruncatedKey(key)).unwrap();
    assert_eq!(entry.archive, 2);
    assert_eq!(entry.offset, 20);
    assert_eq!(entry.encoded_size, 200);
}

#[test]
fn lookup_by_full_encoding_key_truncates() {
    let key9_bytes = key9(0x77);
    let data = build_idx_file(30, &[(key9_bytes, pack_storage_offset(3, 42, 30), 500)]);
    let index = LocalIndex::from_files(&[data.as_slice()]).unwrap();

    let mut full = [0x77u8; 16];
    full[9..].copy_from_slice(&[0, 1, 2, 3, 4, 5, 6]); // arbitrary trailing bytes
    let ekey = EncodingKey(full);

    let entry = index.lookup(&ekey).unwrap();
    assert_eq!(entry.archive, 3);
    assert_eq!(entry.offset, 42);
}

#[test]
fn non_default_segment_bits_honored() {
    let key = key9(0x11);
    let segment_bits = 20u8;
    let archive = 900u16; // needs > 10 bits to prove segment_bits is actually used
    let offset = 0x0007_FFFFu64; // just under 2^20
    let data = build_idx_file(
        segment_bits,
        &[(key, pack_storage_offset(archive, offset, segment_bits), 999)],
    );

    let index = LocalIndex::from_files(&[data.as_slice()]).unwrap();
    let entry = index.lookup_truncated(&TruncatedKey(key)).unwrap();
    assert_eq!(entry.archive, archive);
    assert_eq!(entry.offset, offset);
}

#[test]
fn empty_index_is_empty() {
    let data = build_idx_file(30, &[]);
    let index = LocalIndex::from_files(&[data.as_slice()]).unwrap();
    assert!(index.is_empty());
    assert_eq!(index.len(), 0);
    assert_eq!(index.entries().len(), 0);
}

#[test]
fn entries_hand_out_every_key_with_its_entry() {
    let data = build_idx_file(
        30,
        &[
            (key9(0x21), pack_storage_offset(1, 5, 30), 100),
            (key9(0x22), pack_storage_offset(2, 6, 30), 200),
        ],
    );
    let index = LocalIndex::from_files(&[data.as_slice()]).unwrap();
    let mut entries = index.entries();
    entries.sort_by_key(|(key, _)| key.0);
    assert_eq!(entries.len(), 2);
    assert_eq!(entries[0].0, TruncatedKey(key9(0x21)));
    assert_eq!(entries[1].0, TruncatedKey(key9(0x22)));
    for (key, entry) in &entries {
        assert_eq!(index.lookup_truncated(key), Some(entry));
    }
}

#[test]
fn block_hash_ignores_a_trailing_partial_entry() {
    let entries: Vec<u8> = (0..54u8).collect();
    let whole = entry_block_hash(&entries[..36]);
    assert_eq!(entry_block_hash(&entries[..37]), whole);
    assert_eq!(entry_block_hash(&entries[..53]), whole);
    assert_ne!(entry_block_hash(&entries), whole);
    assert_eq!(entry_block_hash(&entries[..17]), entry_block_hash(&[]));
}
