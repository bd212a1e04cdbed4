//! Encoding tables.

use broodcasc::encoding::{EncodingTable, HEADER_SIZE, KEY_SIZE, PAGE_INDEX_ENTRY_SIZE};
use broodcasc::{CascError, ContentKey, EncodingKey};
use md5::{Digest, Md5};

/// One entry to feed into [`build_encoding`]: a CKey, its (possibly
/// multiple) EKeys, and the decoded size.
#[derive(Debug)]
struct RawEntry {
    ckey: ContentKey,
    ekeys: Vec<EncodingKey>,
    size: u64,
}

fn entry(seed: u8, size: u64) -> RawEntry {
    RawEntry {
        ckey: ContentKey([seed; 16]),
        ekeys: vec![EncodingKey([seed.wrapping_add(0x40); 16])],
        size,
    }
}

fn entry_multi_ekey(seed: u8, size: u64, ekey_seeds: &[u8]) -> RawEntry {
    RawEntry {
        ckey: ContentKey([seed; 16]),
        ekeys: ekey_seeds.iter().map(|&s| EncodingKey([s; 16])).collect(),
        size,
    }
}

fn serialize_entry(e: &RawEntry) -> Vec<u8> {
    let mut out = Vec::new();
    out.push(e.ekeys.len() as u8);
    let size_bytes = e.size.to_be_bytes();
    out.extend_from_slice(&size_bytes[3..8]);
    out.extend_from_slice(e.ckey.as_bytes());
    for ekey in &e.ekeys {
        out.extend_from_slice(ekey.as_bytes());
    }
    out
}

/// Builds a full encoding-file buffer from a list of entries (assumed
/// already CKey-sorted), greedily packing them into pages of
/// `page_size_kb` KB, with a real page index (first CKey + MD5) and a
/// standard header. No EKey→ESpec table is appended (trailing data is
/// optional per the format).
fn build_encoding(entries: &[RawEntry], page_size_kb: u16) -> Vec<u8> {
    let page_bytes = page_size_kb as usize * 1024;

    // Pack entries into pages.
    let mut pages: Vec<Vec<u8>> = Vec::new();
    let mut current = Vec::new();
    for e in entries {
        let serialized = serialize_entry(e);
        assert!(
            serialized.len() <= page_bytes,
            "entry too large for page size in test"
        );
        if current.len() + serialized.len() > page_bytes {
            current.resize(page_bytes, 0);
            pages.push(std::mem::take(&mut current));
        }
        current.extend_from_slice(&serialized);
    }
    if !current.is_empty() {
        current.resize(page_bytes, 0);
        pages.push(current);
    }

    // Page index: first CKey of each page + page MD5.
    let mut page_index = Vec::new();
    for page in &pages {
        let first_ckey = &page[6..22]; // skip ekey_count(1) + file_size(5)
        page_index.extend_from_slice(first_ckey);
        let md5: [u8; 16] = Md5::digest(page).into();
        page_index.extend_from_slice(&md5);
    }

    let espec_block: Vec<u8> = Vec::new();

    let mut out = Vec::new();
    out.extend_from_slice(b"EN");
    out.push(1); // version
    out.push(KEY_SIZE as u8); // ckey_length
    out.push(KEY_SIZE as u8); // ekey_length
    out.extend_from_slice(&page_size_kb.to_be_bytes()); // ckey_page_size
    out.extend_from_slice(&page_size_kb.to_be_bytes()); // ekey_page_size (unused)
    out.extend_from_slice(&(pages.len() as u32).to_be_bytes()); // ckey_page_count
    out.extend_from_slice(&0u32.to_be_bytes()); // ekey_page_count (unused)
    out.push(0); // flags
    out.extend_from_slice(&(espec_block.len() as u32).to_be_bytes());
    out.extend_from_slice(&espec_block);
    out.extend_from_slice(&page_index);
    for page in &pages {
        out.extend_from_slice(page);
    }
    out
}

#[test]
fn empty_table_parses() {
    let data = build_encoding(&[], 1);
    let table = EncodingTable::parse(&data).unwrap();
    assert_eq!(table.len(), 0);
    assert!(table.is_empty());
    assert!(table.lookup(&ContentKey([0; 16])).is_none());
}

#[test]
fn single_page_lookup() {
    let entries = vec![entry(0x01, 100), entry(0x02, 200), entry(0x03, 300)];
    let data = build_encoding(&entries, 1);
    let table = EncodingTable::parse(&data).unwrap();
    assert_eq!(table.len(), 3);

    let found = table.lookup(&ContentKey([0x02; 16])).unwrap();
    assert_eq!(found.size, 200);
    assert_eq!(found.ekey, EncodingKey([0x42; 16]));

    assert!(table.lookup(&ContentKey([0x02; 16])).is_some());
    // A key that would sort between existing entries but isn't present.
    let mut between = [0x02u8; 16];
    between[15] = 0x80;
    assert!(table.lookup(&ContentKey(between)).is_none());
}

#[test]
fn multi_page_lookup_first_and_last() {
    // Small page size forces multiple pages.
    let entries: Vec<RawEntry> = (1..=40u8).map(|i| entry(i, i as u64 * 10)).collect();
    let data = build_encoding(&entries, 1);
    let table = EncodingTable::parse(&data).unwrap();
    assert!(table.entries().len() == 40);

    let first = table.lookup(&ContentKey([1; 16])).unwrap();
    assert_eq!(first.size, 10);
    let last = table.lookup(&ContentKey([40; 16])).unwrap();
    assert_eq!(last.size, 400);

    assert!(table.lookup(&ContentKey([0; 16])).is_none());
    assert!(table.lookup(&ContentKey([41; 16])).is_none());
}

#[test]
fn page_md5_mismatch_is_detected() {
    let entries = vec![entry(0x01, 100), entry(0x02, 200)];
    let mut data = build_encoding(&entries, 1);
    // Corrupt a byte inside the (single) page, after the header + espec
    // block + page index.
    let page_data_start = HEADER_SIZE + PAGE_INDEX_ENTRY_SIZE;
    data[page_data_start] ^= 0xFF;
    let err = EncodingTable::parse(&data).unwrap_err();
    assert!(matches!(err, CascError::ChecksumMismatch("encoding page")));
}

#[test]
fn encoding_bad_magic_is_rejected() {
    let mut data = build_encoding(&[entry(1, 1)], 1);
    data[0] = b'X';
    assert!(EncodingTable::parse(&data).is_err());
}

#[test]
fn bad_version_is_rejected() {
    let mut data = build_encoding(&[entry(1, 1)], 1);
    data[2] = 2;
    assert!(EncodingTable::parse(&data).is_err());
}

#[test]
fn bad_key_length_is_rejected() {
    let mut ckey_len_bad = build_encoding(&[entry(1, 1)], 1);
    ckey_len_bad[3] = 20;
    assert!(EncodingTable::parse(&ckey_len_bad).is_err());

    let mut ekey_len_bad = build_encoding(&[entry(1, 1)], 1);
    ekey_len_bad[4] = 9;
    assert!(EncodingTable::parse(&ekey_len_bad).is_err());
}

#[test]
fn encoding_zero_page_size_is_rejected() {
    let mut data = build_encoding(&[], 1);
    data[5] = 0;
    data[6] = 0;
    assert!(EncodingTable::parse(&data).is_err());
}

#[test]
fn encoding_truncated_input_is_rejected() {
    assert!(EncodingTable::parse(b"EN").is_err());
    assert!(EncodingTable::parse(b"").is_err());

    let entries = vec![entry(1, 1), entry(2, 2)];
    let data = build_encoding(&entries, 1);

    // Truncate mid-header.
    assert!(EncodingTable::parse(&data[..10]).is_err());
    // Truncate mid-page-index.
    assert!(EncodingTable::parse(&data[..HEADER_SIZE + 5]).is_err());
    // Truncate mid-page.
    let page_data_start = HEADER_SIZE + PAGE_INDEX_ENTRY_SIZE;
    assert!(EncodingTable::parse(&data[..page_data_start + 10]).is_err());
}

#[test]
fn multiple_ekeys_only_first_is_stored() {
    let entries = vec![
        entry(0x01, 10),
        entry_multi_ekey(0x02, 20, &[0xAA, 0xBB, 0xCC]),
        entry(0x03, 30),
    ];
    let data = build_encoding(&entries, 1);
    let table = EncodingTable::parse(&data).unwrap();
    assert_eq!(table.len(), 3);

    let multi = table.lookup(&ContentKey([0x02; 16])).unwrap();
    assert_eq!(multi.ekey, EncodingKey([0xAA; 16]));
    assert_eq!(multi.size, 20);

    // The entry after the multi-EKey one must still parse correctly,
    // proving the extra EKeys were skipped over rather than misread.
    let after = table.lookup(&ContentKey([0x03; 16])).unwrap();
    assert_eq!(after.size, 30);
}

#[test]
fn out_of_order_entries_are_rejected() {
    // Manually build a single page with descending CKeys, bypassing the
    // builder's implicit sortedness.
    let e1 = entry(0x05, 1);
    let e2 = entry(0x01, 2);
    let mut page = Vec::new();
    page.extend_from_slice(&serialize_entry(&e1));
    page.extend_from_slice(&serialize_entry(&e2));
    page.resize(1024, 0);

    let mut page_index = Vec::new();
    page_index.extend_from_slice(&page[6..22]); // first_ckey = e1's ckey
    let md5: [u8; 16] = Md5::digest(&page).into();
    page_index.extend_from_slice(&md5);

    let mut out = Vec::new();
    out.extend_from_slice(b"EN");
    out.push(1);
    out.push(KEY_SIZE as u8);
    out.push(KEY_SIZE as u8);
    out.extend_from_slice(&1u16.to_be_bytes());
    out.extend_from_slice(&1u16.to_be_bytes());
    out.extend_from_slice(&1u32.to_be_bytes());
    out.extend_from_slice(&0u32.to_be_bytes());
    out.push(0);
    out.extend_from_slice(&0u32.to_be_bytes());
    out.extend_from_slice(&page_index);
    out.extend_from_slice(&page);

    let err = EncodingTable::parse(&out).unwrap_err();
    assert!(matches!(err, CascError::Malformed { .. }));
}

#[test]
fn zero_padding_tail_of_page_is_handled() {
    // A page much larger than its entries, so most of it is zero padding.
    let entries = vec![entry(1, 1), entry(2, 2)];
    let data = build_encoding(&entries, 4); // 4KB page, entries total ~76 bytes
    let table = EncodingTable::parse(&data).unwrap();
    assert_eq!(table.len(), 2);
}

#[test]
fn u40_size_above_u32_max_round_trips() {
    let big_size = (u32::MAX as u64) + 12345;
    let entries = vec![entry(1, big_size)];
    let data = build_encoding(&entries, 1);
    let table = EncodingTable::parse(&data).unwrap();
    let found = table.lookup(&ContentKey([1; 16])).unwrap();
    assert_eq!(found.size, big_size);
}
