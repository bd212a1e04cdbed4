//! The synthetic seed corpus: every seed is small, and every one but the
//! deliberately broken one parses.

use broodcasc::blte::{
    decode, decode_chunk, decode_with_limits, BlteHeader, ReadLimits, MODE_RAW, MODE_ZLIB,
};
use broodcasc::config::{BuildConfig, BuildInfo};
use broodcasc::encoding::EncodingTable;
use broodcasc::idx::LocalIndex;
use broodcasc::root::RootFile;
use broodcasc::seeds::blte::{blte_seeds, build_multi_chunk, build_single_chunk};
use broodcasc::seeds::encoding::{
    build_encoding, encoding_seeds, serialize_entry, synthetic_key, RawEntry,
};
use broodcasc::seeds::idx::{build_idx_file, idx_seeds, pack_storage_offset};
use broodcasc::seeds::tables::{
    build_info_text, build_root, config_seeds, root_seeds, synthetic_ckey_hex,
};
use broodcasc::seeds::targets::{
    pick_by_size, seed_is_good, spread_picks, target_name, worth_decoding, Target, MAX_SEED_BYTES,
};
use broodcasc::{CascError, ContentKey, EncodingKey, TruncatedKey};

fn names(seeds: &[(&'static str, Vec<u8>)]) -> Vec<&'static str> {
    seeds.iter().map(|(name, _)| *name).collect()
}

fn seed(seeds: Vec<(&'static str, Vec<u8>)>, name: &str) -> Vec<u8> {
    seeds.into_iter().find(|(n, _)| *n == name).unwrap().1
}

#[test]
fn every_seed_is_small_and_good() {
    for (target, seeds) in [
        (Target::Blte, blte_seeds()),
        (Target::Encoding, encoding_seeds()),
        (Target::Idx, idx_seeds()),
        (Target::Root, root_seeds()),
        (Target::Config, config_seeds()),
    ] {
        assert!(!seeds.is_empty());
        for (name, data) in seeds {
            assert!(data.len() <= MAX_SEED_BYTES, "{name} is too large");
            assert!(seed_is_good(target, name, &data), "{name} is not good");
        }
    }
}

#[test]
fn bad_seeds_are_noticed() {
    assert!(!seed_is_good(Target::Blte, "x.blte", b"BLTE"));
    assert!(!seed_is_good(Target::Encoding, "x", b"EN"));
    assert!(!seed_is_good(Target::Idx, "x.idx", &[0; 40]));
    assert!(!seed_is_good(Target::Root, "x", b"no bar"));
    let mismatch = seed(blte_seeds(), "nested_f_parent_size_mismatch.blte");
    assert!(!seed_is_good(Target::Blte, "x.blte", &mismatch));
    let nested = seed(blte_seeds(), "nested_f.blte");
    assert!(!seed_is_good(
        Target::Blte,
        "nested_f_parent_size_mismatch.blte",
        &nested
    ));
}

#[test]
fn target_names_are_those_of_the_fuzz_targets() {
    assert_eq!(target_name(Target::Blte), "blte_decode");
    assert_eq!(target_name(Target::Encoding), "encoding_parse");
    assert_eq!(target_name(Target::Idx), "idx_parse");
    assert_eq!(target_name(Target::Root), "root_parse");
    assert_eq!(target_name(Target::Config), "config_parse");
}

#[test]
fn blte_seeds_decode_to_their_texts() {
    let decoded = |name: &str| decode(&seed(blte_seeds(), name)).unwrap();
    assert_eq!(
        decoded("single_n.blte"),
        b"synthetic seed payload, mode N, no chunk table"
    );
    assert_eq!(
        decoded("single_z.blte"),
        b"synthetic seed payload, mode Z, compressible compressible compressible"
    );
    assert_eq!(
        decoded("two_chunk_n_z.blte"),
        b"first chunk, stored raw (mode N)second chunk, zlib compressed (mode Z), compressible compressible"
    );
    assert_eq!(
        decoded("three_chunk_z.blte"),
        b"chunk a chunk a chunk a chunk a chunk achunk b chunk b chunk b chunk b chunk bchunk c chunk c chunk c chunk c chunk c"
    );
    assert!(decoded("empty_n.blte").is_empty());
    assert_eq!(
        decoded("nested_f.blte"),
        b"synthetic nested F-mode payload"
    );
    assert!(matches!(
        decode(&seed(
            blte_seeds(),
            "nested_f_parent_size_mismatch.blte"
        )),
        Err(CascError::Malformed { .. })
    ));
    assert_eq!(blte_seeds().len(), 7);
}

#[test]
fn blte_builders_write_exact_bytes() {
    assert_eq!(
        build_single_chunk(MODE_RAW, b"ab"),
        b"BLTE\0\0\0\0Nab".to_vec()
    );
    let chunks: [(u8, &[u8], u32); 1] = [(MODE_RAW, b"ab", 2)];
    let built = build_multi_chunk(&chunks);
    let mut expected = b"BLTE".to_vec();
    expected.extend_from_slice(&36u32.to_be_bytes());
    expected.extend_from_slice(&[0x0F, 0, 0, 1]);
    expected.extend_from_slice(&3u32.to_be_bytes());
    expected.extend_from_slice(&2u32.to_be_bytes());
    let body = b"Nab";
    let digest: [u8; 16] = broodcasc::digest::md5_of(body);
    expected.extend_from_slice(&digest);
    expected.extend_from_slice(body);
    assert_eq!(built, expected);
}

#[test]
fn table_round_trips_over_many_shapes() {
    for shape in 1..=6usize {
        let contents: Vec<Vec<u8>> = (0..shape)
            .map(|i| (0..i * 37).map(|b| (b * 7 + i) as u8).collect())
            .collect();
        let payloads: Vec<Vec<u8>> = contents
            .iter()
            .enumerate()
            .map(|(i, c)| {
                if i % 2 == 0 {
                    c.clone()
                } else {
                    broodcasc::blte::zlib(c)
                }
            })
            .collect();
        let chunks: Vec<(u8, &[u8], u32)> = contents
            .iter()
            .zip(&payloads)
            .enumerate()
            .map(|(i, (c, p))| {
                let mode = if i % 2 == 0 { MODE_RAW } else { MODE_ZLIB };
                (mode, p.as_slice(), c.len() as u32)
            })
            .collect();
        let built = build_multi_chunk(&chunks);
        assert_eq!(decode(&built).unwrap(), contents.concat());
        assert_eq!(
            BlteHeader::parse(&built).unwrap().total_decompressed_size(),
            Some(contents.concat().len() as u64)
        );
    }
}

#[test]
fn zlib_streams_inflate_under_every_limit_they_fit_in() {
    let noisy: Vec<u8> = (0..70_000u32)
        .map(|i| (i.wrapping_mul(2_654_435_761) >> 24) as u8)
        .collect();
    let flat = vec![7u8; 70_000];
    for source in [&noisy, &flat] {
        for n in [0usize, 1, 2, 3, 7, 100, 1000, 4096, 32_767, 32_768, 32_769, 65_536, 70_000] {
            let content = &source[..n];
            let stream = broodcasc::blte::zlib(content);
            let buffer = build_single_chunk(MODE_ZLIB, &stream);
            for slack in [0usize, 1, 2, 1000] {
                let limits = ReadLimits {
                    max_chunk_decoded_bytes: n + slack,
                    max_decoded_bytes: n + slack,
                    ..ReadLimits::default()
                };
                let got = decode_with_limits(&buffer, limits).unwrap();
                assert!(got == content, "{n} bytes with {slack} to spare");
            }
            let mut chunk = vec![MODE_ZLIB];
            chunk.extend_from_slice(&stream);
            assert!(decode_chunk(&chunk, Some(n as u32), None).unwrap() == content);
            if n > 0 {
                let tight = ReadLimits {
                    max_chunk_decoded_bytes: n - 1,
                    ..ReadLimits::default()
                };
                assert!(decode_with_limits(&buffer, tight).is_err());
                assert!(decode_chunk(&chunk, Some(n as u32 - 1), None).is_err());
            }
        }
    }
}

#[test]
fn encoding_tables_list_their_entries() {
    assert_eq!(
        names(&encoding_seeds()),
        ["empty.enc", "small_single_page.enc", "multi_page.enc"]
    );
    let key = synthetic_key(5);
    let entries = [
        RawEntry {
            ckey: [1; 16],
            ekeys: vec![key, [8; 16]],
            size: 0xFF_FFFF_FFFF,
        },
        RawEntry {
            ckey: [2; 16],
            ekeys: vec![[9; 16]],
            size: 3,
        },
    ];
    let table = EncodingTable::parse(&build_encoding(&entries, 1)).unwrap();
    assert_eq!(table.len(), 2);
    let first = table.lookup(&ContentKey::from([1; 16])).unwrap();
    assert_eq!(first.ekey, EncodingKey::from(key));
    assert_eq!(first.size, 0xFF_FFFF_FFFF);
    let second = table.lookup(&ContentKey::from([2; 16])).unwrap();
    assert_eq!(second.ekey, EncodingKey::from([9; 16]));
    assert_eq!(second.size, 3);
    assert!(table.lookup(&ContentKey::from([3; 16])).is_none());

    let mut bytes = vec![2, 0xFF, 0xFF, 0xFF, 0xFF, 0xFF];
    bytes.extend_from_slice(&[1; 16]);
    bytes.extend_from_slice(&key);
    bytes.extend_from_slice(&[8; 16]);
    assert_eq!(serialize_entry(&entries[0]), bytes);
}

#[test]
fn many_entries_fill_several_pages() {
    let entries: Vec<RawEntry> = (1..=200u8)
        .map(|i| RawEntry {
            ckey: [i; 16],
            ekeys: vec![[255 - i; 16]; 1 + usize::from(i % 3)],
            size: u64::from(i),
        })
        .collect();
    for page_kb in [1u16, 2, 4] {
        let table = EncodingTable::parse(&build_encoding(&entries, page_kb)).unwrap();
        assert_eq!(table.len(), 200);
        for e in &entries {
            let found = table.lookup(&ContentKey::from(e.ckey)).unwrap();
            assert_eq!(found.ekey, EncodingKey::from(e.ekeys[0]));
            assert_eq!(found.size, e.size);
        }
    }
}

#[test]
fn index_files_place_their_entries() {
    assert_eq!(pack_storage_offset(1, 0, 30), [0, 0x40, 0, 0, 0]);
    assert_eq!(pack_storage_offset(0, 0x1234, 30), [0, 0, 0, 0x12, 0x34]);
    assert_eq!(
        pack_storage_offset(1023, 0x3FFF_FFFF, 30),
        [0xFF, 0xFF, 0xFF, 0xFF, 0xFF]
    );
    let entries = [
        ([1; 9], pack_storage_offset(3, 77, 30), 100),
        ([2; 9], pack_storage_offset(0, 5, 30), 31),
    ];
    let file = build_idx_file(30, &entries);
    let index = LocalIndex::from_files(&[&file]).unwrap();
    assert_eq!(index.len(), 2);
    let found = index.lookup_truncated(&TruncatedKey::from([1; 9])).unwrap();
    assert_eq!((found.archive, found.offset, found.encoded_size), (3, 77, 100));
    let mut full = [0; 16];
    full[..9].copy_from_slice(&[2; 9]);
    let found = index.lookup(&EncodingKey::from(full)).unwrap();
    assert_eq!((found.archive, found.offset, found.encoded_size), (0, 5, 31));
}

#[test]
fn later_index_files_win() {
    let old = build_idx_file(30, &[([1; 9], pack_storage_offset(3, 77, 30), 100)]);
    let new = build_idx_file(30, &[([1; 9], pack_storage_offset(4, 78, 30), 101)]);
    let index = LocalIndex::from_files(&[&old, &new]).unwrap();
    let found = index.lookup_truncated(&TruncatedKey::from([1; 9])).unwrap();
    assert_eq!((found.archive, found.offset, found.encoded_size), (4, 78, 101));
    assert_eq!(index.len(), 1);
}

#[test]
fn tables_state_what_was_written() {
    assert_eq!(synthetic_ckey_hex(0x1F), format!("{}1f", "0".repeat(30)));
    let records = vec![
        ("a/b.txt".to_string(), "0a".repeat(16)),
        ("c.txt".to_string(), "0b".repeat(16)),
    ];
    for crlf in [false, true] {
        let text = build_root(&records, crlf);
        let end = if crlf { "\r\n" } else { "\n" };
        assert_eq!(
            text,
            format!(
                "a/b.txt|{}{end}c.txt|{}{end}",
                "0a".repeat(16),
                "0b".repeat(16)
            )
        );
        let root = RootFile::parse(text.as_bytes()).unwrap();
        assert_eq!(root.len(), 2);
        assert_eq!(
            root.lookup("A\\B.TXT").unwrap().ckey,
            ContentKey::from([0x0A; 16])
        );
    }

    let text = build_info_text(&["Branch", "Active"], &[&["us", ""], &["", "1"]]);
    assert_eq!(
        text,
        "Branch!STRING:0|Active!STRING:0\r\nus|\r\n|1\r\n"
    );
    let info = BuildInfo::parse(&text).unwrap();
    assert_eq!(info.records().len(), 2);
    assert_eq!(info.records()[0].get("Branch"), Some("us"));
    assert_eq!(info.records()[0].get("Active"), None);
    assert_eq!(info.records()[1].get("Branch"), None);
    assert_eq!(info.records()[1].get("Active"), Some("1"));

    for (_, data) in config_seeds() {
        let text = String::from_utf8(data).unwrap();
        assert!(BuildConfig::parse(&text).is_ok() || BuildInfo::parse(&text).is_ok());
    }
}

#[test]
fn picks_are_spread_over_the_whole() {
    assert!(spread_picks(0).is_empty());
    assert_eq!(spread_picks(1), [0]);
    let picks = spread_picks(1000);
    assert_eq!(picks[0], 0);
    assert!(picks.windows(2).all(|w| w[0] < w[1]));
    assert!(*picks.last().unwrap() < 1000);
}

#[test]
fn only_buffers_of_a_bearable_size_are_worth_decoding() {
    assert!(worth_decoding(b"not a buffer"));
    assert!(worth_decoding(&build_single_chunk(MODE_RAW, b"ab")));
    let small: [(u8, &[u8], u32); 1] = [(MODE_RAW, b"ab", 2)];
    assert!(worth_decoding(&build_multi_chunk(&small)));
    let huge: [(u8, &[u8], u32); 1] = [(MODE_RAW, b"ab", 0x400_0001)];
    assert!(!worth_decoding(&build_multi_chunk(&huge)));
}

#[test]
fn larger_limits_decode_to_the_same_bytes() {
    for (name, seed) in blte_seeds() {
        let Ok(content) = decode(&seed) else {
            assert_eq!(name, "nested_f_parent_size_mismatch.blte");
            continue;
        };
        let tight = ReadLimits {
            max_encoded_bytes: seed.len(),
            max_decoded_bytes: content.len(),
            max_chunk_decoded_bytes: content.len(),
            max_chunk_count: 3,
            max_nesting: 1,
            ..ReadLimits::default()
        };
        assert_eq!(decode_with_limits(&seed, tight).unwrap(), content, "{name}");
        let loose = ReadLimits {
            max_encoded_bytes: usize::MAX,
            max_decoded_bytes: usize::MAX,
            max_chunk_decoded_bytes: usize::MAX,
            ..tight
        };
        assert_eq!(decode_with_limits(&seed, loose).unwrap(), content, "{name}");
    }
}

#[test]
fn rows_may_be_shorter_than_the_header() {
    let info = BuildInfo::parse("a!STRING:0|!STRING:0|c!STRING:0\n1\n|2\n1|2|3\n").unwrap();
    let values = |i: usize| ["a", "", "c", "d"].map(|name| info.records()[i].get(name));
    assert_eq!(values(0), [Some("1"), None, None, None]);
    assert_eq!(values(1), [None, Some("2"), None, None]);
    assert_eq!(values(2), [Some("1"), Some("2"), Some("3"), None]);
}

#[test]
fn samples_by_size_go_from_the_smallest_to_the_largest() {
    assert!(pick_by_size(&[]).is_empty());
    assert_eq!(pick_by_size(&[7]), [0]);
    assert_eq!(pick_by_size(&[30, 10, 20, 10]), [1, 3, 2, 0]);
    // 19 items, of sizes 18 down to 0: every second one of them.
    let sizes: Vec<u32> = (0..19).rev().collect();
    assert_eq!(pick_by_size(&sizes), [18, 16, 14, 12, 10, 8, 6, 4, 2, 0]);
}
