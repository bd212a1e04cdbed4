//! CDN archive indices.

use broodcasc::cdnindex::{ArchiveIndex, CdnIndex, FOOTER_LEN};
use broodcasc::{CascError, EncodingKey};

/// One test-builder entry tuple: `(ekey, encoded_size, offset)`.
type RawEntry = ([u8; 16], u32, u32);

/// Builds one page's worth of raw bytes (`page_size_kb` KiB) from entry
/// tuples `(ekey, encoded_size, offset)`, zero-padding the remainder.
/// Entries must fit within the page; this is a test-only builder
/// invariant (real files never let an entry straddle a page boundary).
fn build_page(page_size_kb: u8, entries: &[RawEntry]) -> Vec<u8> {
    let page_size = usize::from(page_size_kb) * 1024;
    let mut out = Vec::with_capacity(page_size);
    for (ekey, encoded_size, offset) in entries {
        out.extend_from_slice(ekey);
        out.extend_from_slice(&encoded_size.to_be_bytes());
        out.extend_from_slice(&offset.to_be_bytes());
    }
    assert!(
        out.len() <= page_size,
        "test builder: page overflowed (entries don't fit in {page_size} bytes)"
    );
    out.resize(page_size, 0);
    out
}

/// Builds the 36-byte footer.
fn build_footer(
    version: u8,
    page_size_kb: u8,
    offset_bytes: u8,
    size_bytes: u8,
    ekey_length: u8,
    footer_hash_bytes: u8,
    element_count: u32,
) -> Vec<u8> {
    let mut out = Vec::with_capacity(FOOTER_LEN);
    out.extend_from_slice(&[0xCDu8; 16]); // TocHash, unverified
    out.push(version);
    out.push(0); // reserved
    out.push(0); // reserved
    out.push(page_size_kb);
    out.push(offset_bytes);
    out.push(size_bytes);
    out.push(ekey_length);
    out.push(footer_hash_bytes);
    out.extend_from_slice(&element_count.to_le_bytes());
    out.extend_from_slice(&[0xEFu8; 8]); // FooterHash, unverified
    assert_eq!(out.len(), FOOTER_LEN);
    out
}

/// Assembles a full `.index` file from pages of entries, an arbitrary
/// TOC filler (the parser must never depend on its content or exact
/// length -- only the footer's `ElementCount` and the page boundaries
/// matter), and a valid footer whose `ElementCount` is the given value
/// (defaults to the true number of real entries via [`valid_file`]).
fn build_file(page_size_kb: u8, pages: &[Vec<RawEntry>], element_count: u32) -> Vec<u8> {
    let mut out = Vec::new();
    for page in pages {
        out.extend(build_page(page_size_kb, page));
    }
    out.extend_from_slice(&[0xAAu8; 41]); // arbitrary TOC filler, skipped
    out.extend(build_footer(1, page_size_kb, 4, 4, 16, 8, element_count));
    out
}

fn valid_file(page_size_kb: u8, pages: &[Vec<RawEntry>]) -> Vec<u8> {
    let element_count = pages.iter().map(Vec::len).sum::<usize>() as u32;
    build_file(page_size_kb, pages, element_count)
}

fn ekey(byte: u8) -> [u8; 16] {
    [byte; 16]
}

/// Builds an ascending-by-EKey run of `n` distinct entries starting at
/// `first`, each `[u8; 16]` filled with a single repeated byte.
fn ascending_entries(first: u8, n: u8) -> Vec<RawEntry> {
    (0..n)
        .map(|i| (ekey(first + i), 100 + u32::from(i), 1000 + u32::from(i)))
        .collect()
}

#[test]
fn parses_single_page_roundtrip() {
    let entries = ascending_entries(1, 3);
    let data = valid_file(4, std::slice::from_ref(&entries));

    let index = ArchiveIndex::parse(&data).unwrap();
    assert_eq!(index.len(), 3);
    assert_eq!(index.entries().len(), 3);
    for (ek, size, off) in &entries {
        let found = index.lookup(&EncodingKey(*ek)).unwrap();
        assert_eq!(found.encoded_size, *size);
        assert_eq!(found.offset, *off);
    }
}

#[test]
fn parses_multi_page_with_padding_mid_file() {
    // First page: a handful of entries, well short of capacity so the
    // padding region is large. Second page: more entries.
    let page1 = ascending_entries(1, 5);
    let page2 = ascending_entries(10, 4);
    let data = valid_file(4, &[page1.clone(), page2.clone()]);

    let index = ArchiveIndex::parse(&data).unwrap();
    assert_eq!(index.len(), 9);
    for (ek, size, off) in page1.iter().chain(&page2) {
        let found = index.lookup(&EncodingKey(*ek)).unwrap();
        assert_eq!(found.encoded_size, *size);
        assert_eq!(found.offset, *off);
    }
}

#[test]
fn lookup_miss_returns_none() {
    let data = valid_file(4, &[ascending_entries(1, 2)]);
    let index = ArchiveIndex::parse(&data).unwrap();
    assert!(index.lookup(&EncodingKey(ekey(200))).is_none());
}

#[test]
fn zero_entry_file_is_valid_and_empty() {
    let data = valid_file(4, &[vec![]]);
    let index = ArchiveIndex::parse(&data).unwrap();
    assert!(index.is_empty());
    assert_eq!(index.len(), 0);
}

#[test]
fn zero_entry_file_with_no_pages_is_valid() {
    let data = build_file(4, &[], 0);
    let index = ArchiveIndex::parse(&data).unwrap();
    assert!(index.is_empty());
}

#[test]
fn element_count_exceeding_available_entries_errors() {
    // Only one real entry exists but the footer claims two. Build
    // without the usual arbitrary TOC filler so there's provably no
    // room for a second entry before the footer -- with filler bytes
    // present the parser can't tell "real data ran out" from "more TOC
    // padding", so a mismatch is only guaranteed detectable when the
    // shortfall runs past the footer boundary itself.
    let mut data = build_page(4, &ascending_entries(1, 1));
    data.extend(build_footer(1, 4, 4, 4, 16, 8, 2));
    let err = ArchiveIndex::parse(&data).unwrap_err();
    assert!(matches!(err, CascError::Malformed { .. }));
}

#[test]
fn unsorted_entries_are_rejected() {
    let entries = vec![
        (ekey(5), 100, 1000),
        (ekey(1), 100, 1000), // out of order
    ];
    let data = valid_file(4, &[entries]);
    let err = ArchiveIndex::parse(&data).unwrap_err();
    assert!(matches!(err, CascError::Malformed { .. }));
}

#[test]
fn truncated_shorter_than_footer_is_rejected() {
    let data = valid_file(4, &[ascending_entries(1, 1)]);
    let err = ArchiveIndex::parse(&data[..FOOTER_LEN - 1]).unwrap_err();
    assert!(matches!(err, CascError::Malformed { .. }));
    assert!(ArchiveIndex::parse(&[]).is_err());
}

#[test]
fn wrong_version_is_unsupported() {
    let mut data = valid_file(4, &[ascending_entries(1, 1)]);
    let footer_start = data.len() - FOOTER_LEN;
    data[footer_start + 16] = 2; // Version
    let err = ArchiveIndex::parse(&data).unwrap_err();
    assert!(matches!(err, CascError::Unsupported { .. }));
}

#[test]
fn wrong_widths_are_unsupported() {
    for offset_in_footer in [20usize, 21, 22, 23] {
        let mut data = valid_file(4, &[ascending_entries(1, 1)]);
        let footer_start = data.len() - FOOTER_LEN;
        data[footer_start + offset_in_footer] = 99;
        let err = ArchiveIndex::parse(&data).unwrap_err();
        assert!(
            matches!(err, CascError::Unsupported { .. }),
            "field at footer offset {offset_in_footer} should be rejected as unsupported"
        );
    }
}

#[test]
fn cdnindex_zero_page_size_is_rejected() {
    let mut data = valid_file(4, &[ascending_entries(1, 1)]);
    let footer_start = data.len() - FOOTER_LEN;
    data[footer_start + 19] = 0; // PageSizeKB
    let err = ArchiveIndex::parse(&data).unwrap_err();
    assert!(matches!(err, CascError::Malformed { .. }));
}

#[test]
fn u32_max_offsets_and_sizes_round_trip() {
    let entries = vec![(ekey(1), u32::MAX, u32::MAX)];
    let data = valid_file(4, &[entries]);
    let index = ArchiveIndex::parse(&data).unwrap();
    let found = index.lookup(&EncodingKey(ekey(1))).unwrap();
    assert_eq!(found.encoded_size, u32::MAX);
    assert_eq!(found.offset, u32::MAX);
}

#[test]
fn cdn_index_merges_single_archive() {
    let entries = ascending_entries(1, 3);
    let data = valid_file(4, std::slice::from_ref(&entries));
    let archive_index = ArchiveIndex::parse(&data).unwrap();

    let mut cdn_index = CdnIndex::new();
    assert!(cdn_index.is_empty());
    cdn_index.add_archive(7, &archive_index);
    assert_eq!(cdn_index.len(), 3);

    for (ek, size, off) in &entries {
        let found = cdn_index.lookup(&EncodingKey(*ek)).unwrap();
        assert_eq!(found.archive, 7);
        assert_eq!(found.encoded_size, *size);
        assert_eq!(found.offset, *off);
    }
}

#[test]
fn cdn_index_merge_duplicate_ekey_last_add_wins() {
    // Documented policy: the most recently added archive wins on a
    // duplicate EKey, mirroring `LocalIndex`'s "later file wins".
    let key = ekey(0x42);
    let first_data = valid_file(4, &[vec![(key, 100, 1000)]]);
    let second_data = valid_file(4, &[vec![(key, 200, 2000)]]);
    let first = ArchiveIndex::parse(&first_data).unwrap();
    let second = ArchiveIndex::parse(&second_data).unwrap();

    let mut cdn_index = CdnIndex::new();
    cdn_index.add_archive(1, &first);
    cdn_index.add_archive(2, &second);
    assert_eq!(cdn_index.len(), 1);

    let found = cdn_index.lookup(&EncodingKey(key)).unwrap();
    assert_eq!(found.archive, 2);
    assert_eq!(found.encoded_size, 200);
    assert_eq!(found.offset, 2000);
}

#[test]
fn many_pages_round_trip() {
    for page_size_kb in [1u8, 2, 3, 4, 8] {
        for page_len in [1u8, 7, 20] {
            let mut next = 1u8;
            let pages: Vec<Vec<RawEntry>> = (0..4)
                .map(|_| {
                    let page = ascending_entries(next, page_len);
                    next += page_len + 1;
                    page
                })
                .collect();
            let index = ArchiveIndex::parse(&valid_file(page_size_kb, &pages)).unwrap();
            let all: Vec<RawEntry> = pages.concat();
            assert_eq!(index.len(), all.len());
            for (entry, (ek, size, off)) in index.entries().iter().zip(&all) {
                assert_eq!(entry.ekey, EncodingKey(*ek));
                assert_eq!(entry.encoded_size, *size);
                assert_eq!(entry.offset, *off);
            }
        }
    }
}

#[test]
fn full_pages_that_leave_no_room_for_padding_round_trip() {
    // Three KiB hold exactly 128 entries.
    let pages = [ascending_entries(1, 128), ascending_entries(129, 1)];
    let index = ArchiveIndex::parse(&valid_file(3, &pages)).unwrap();
    assert_eq!(index.len(), 129);
}

#[test]
fn other_field_widths_and_versions_are_unsupported() {
    for (at, value) in [(16usize, 2u8), (20, 5), (21, 3), (22, 9), (23, 16)] {
        let mut data = valid_file(4, &[ascending_entries(1, 1)]);
        let footer = data.len() - FOOTER_LEN;
        data[footer + at] = value;
        assert!(matches!(
            ArchiveIndex::parse(&data),
            Err(CascError::Unsupported { .. })
        ));
    }
}

#[test]
fn empty_indices_hold_nothing() {
    assert!(ArchiveIndex::empty().is_empty());
    assert!(CdnIndex::default().is_empty());
    assert!(ArchiveIndex::empty().lookup(&EncodingKey([1; 16])).is_none());
}
