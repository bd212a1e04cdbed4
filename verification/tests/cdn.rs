//! Reading from a CDN.

use std::collections::HashMap;
use std::sync::Mutex;

use broodcasc::blte::ReadLimits;
use broodcasc::cdn::{
    load_archive_indexes, merge_archive_index, CdnFetcher, CdnStorage, CdnTransport,
    MAX_CDN_INDEX_BYTES, MAX_CDN_INDEX_ENTRIES,
};
use broodcasc::cdnindex::{ArchiveIndex, CdnIndex};
use broodcasc::storage::StorageOptions;
use broodcasc::tact::{cdn_file_url, cdns_url, CdnPathKind};
use broodcasc::{CascError, ContentKey, EncodingKey};
use md5::{Digest, Md5};

#[derive(Debug, Clone, PartialEq, Eq)]
enum Call {
    Get {
        url: String,
        max_bytes: usize,
    },
    Range {
        url: String,
        offset: u64,
        len: u64,
    },
    Invalidate {
        url: String,
        range: Option<(u64, u64)>,
    },
}

struct ScriptTransport {
    bodies: HashMap<String, Vec<u8>>,
    range_body: Option<Vec<u8>>,
    calls: Mutex<Vec<Call>>,
}

impl ScriptTransport {
    fn new(bodies: HashMap<String, Vec<u8>>) -> Self {
        Self {
            bodies,
            range_body: None,
            calls: Mutex::new(Vec::new()),
        }
    }

    fn calls(&self) -> Vec<Call> {
        self.calls.lock().unwrap().clone()
    }
}

impl CdnTransport for ScriptTransport {
    fn get(&self, url: &str, max_bytes: usize) -> Result<Vec<u8>, CascError> {
        self.calls.lock().unwrap().push(Call::Get {
            url: url.to_string(),
            max_bytes,
        });
        let bytes = self
            .bodies
            .get(url)
            .cloned()
            .ok_or_else(|| CascError::NotFound(url.to_string()))?;
        if bytes.len() > max_bytes {
            return Err(CascError::LimitExceeded {
                what: "scripted response",
                limit: max_bytes,
            });
        }
        Ok(bytes)
    }

    fn get_range(&self, url: &str, offset: u64, len: u64) -> Result<Vec<u8>, CascError> {
        self.calls.lock().unwrap().push(Call::Range {
            url: url.to_string(),
            offset,
            len,
        });
        let bytes = self
            .range_body
            .clone()
            .ok_or_else(|| CascError::NotFound(url.to_string()))?;
        if bytes.len() as u64 != len {
            return Err(CascError::Transport {
                url: url.to_string(),
                reason: "scripted range length mismatch".to_string(),
            });
        }
        Ok(bytes)
    }

    fn invalidate(&self, url: &str, range: Option<(u64, u64)>) {
        self.calls.lock().unwrap().push(Call::Invalidate {
            url: url.to_string(),
            range,
        });
    }
}

fn single_raw(payload: &[u8]) -> Vec<u8> {
    let mut out = b"BLTE\0\0\0\0N".to_vec();
    out.extend_from_slice(payload);
    out
}

fn content_key(bytes: &[u8]) -> ContentKey {
    ContentKey::from(<[u8; 16]>::from(Md5::digest(bytes)))
}

fn expect_error<T>(result: Result<T, CascError>) -> CascError {
    match result {
        Ok(_) => panic!("operation unexpectedly succeeded"),
        Err(err) => err,
    }
}

fn archive_index_bytes(ekey: EncodingKey, encoded_size: u32, offset: u32) -> Vec<u8> {
    let mut data = vec![0u8; 1024];
    data[0..16].copy_from_slice(ekey.as_bytes());
    data[16..20].copy_from_slice(&encoded_size.to_be_bytes());
    data[20..24].copy_from_slice(&offset.to_be_bytes());
    let mut footer = [0u8; 36];
    footer[16] = 1;
    footer[19] = 1;
    footer[20] = 4;
    footer[21] = 4;
    footer[22] = 16;
    footer[23] = 8;
    footer[24..28].copy_from_slice(&1u32.to_le_bytes());
    data.extend_from_slice(&footer);
    data
}

fn archive_index(ekey: EncodingKey, encoded_size: u32, offset: u32) -> ArchiveIndex {
    ArchiveIndex::parse(&archive_index_bytes(ekey, encoded_size, offset)).unwrap()
}

fn fetcher(
    transport: ScriptTransport,
    limits: ReadLimits,
    archives: Vec<EncodingKey>,
    index: CdnIndex,
) -> CdnFetcher<ScriptTransport> {
    CdnFetcher {
        transport,
        limits,
        hosts: vec!["cdn.example".to_string()],
        cdn_path: "tpr/sc1live".to_string(),
        archives,
        index,
    }
}

#[test]
fn loose_object_uses_verified_boundary_and_propagates_encoded_cap() {
    let ekey = EncodingKey::from([2; 16]);
    let payload = b"hello";
    let encoded = single_raw(payload);
    let url = cdn_file_url(
        "cdn.example",
        "tpr/sc1live",
        CdnPathKind::Data,
        &ekey.to_string(),
        false,
    );
    let transport = ScriptTransport::new(HashMap::from([(url.clone(), encoded)]));
    let limits = ReadLimits {
        max_encoded_bytes: 123,
        ..ReadLimits::default()
    };
    let fetcher = fetcher(transport, limits, Vec::new(), CdnIndex::new());
    let ckey = content_key(payload);

    let decoded = fetcher
        .read_by_ekey(&ekey, Some(&ckey), Some(payload.len() as u64))
        .unwrap();

    assert_eq!(decoded, payload);
    assert_eq!(
        fetcher.transport.calls(),
        vec![Call::Get {
            url,
            max_bytes: 123
        }]
    );
}

#[test]
fn indexed_object_routes_to_range_request() {
    let ekey = EncodingKey::from([3; 16]);
    let archive = EncodingKey::from([4; 16]);
    let payload = b"archive";
    let encoded = single_raw(payload);
    let parsed = archive_index(ekey, encoded.len() as u32, 77);
    let mut index = CdnIndex::new();
    index.add_archive(0, &parsed);
    let mut transport = ScriptTransport::new(HashMap::new());
    transport.range_body = Some(encoded.clone());
    let fetcher = fetcher(transport, ReadLimits::default(), vec![archive], index);

    assert_eq!(fetcher.read_by_ekey(&ekey, None, None).unwrap(), payload);
    assert!(matches!(
        fetcher.transport.calls().as_slice(),
        [Call::Range { offset: 77, len, .. }] if *len == encoded.len() as u64
    ));
}

#[test]
fn archive_count_limit_is_checked_before_transport() {
    let fetcher = fetcher(
        ScriptTransport::new(HashMap::new()),
        ReadLimits::default(),
        Vec::new(),
        CdnIndex::new(),
    );
    let archives = vec![EncodingKey::from([8; 16]); 257];

    let err = load_archive_indexes(&fetcher, &archives, 1024).unwrap_err();

    assert!(matches!(
        err,
        CascError::LimitExceeded {
            what: "CDN archive count",
            limit: 256
        }
    ));
    assert!(fetcher.transport.calls().is_empty());
}

#[test]
fn aggregate_index_limits_are_checked_before_insertion() {
    let ekey = EncodingKey::from([13; 16]);
    let parsed = archive_index(ekey, 1, 0);
    let mut merged = CdnIndex::new();
    let mut total_bytes = MAX_CDN_INDEX_BYTES;
    let mut total_entries = 0;

    let bytes_err = merge_archive_index(
        &mut merged,
        0,
        1,
        &parsed,
        &mut total_bytes,
        &mut total_entries,
    )
    .unwrap_err();
    assert!(matches!(
        bytes_err,
        CascError::LimitExceeded {
            what: "aggregate CDN archive index bytes",
            limit: MAX_CDN_INDEX_BYTES
        }
    ));
    assert_eq!(merged.len(), 0);

    total_bytes = 0;
    total_entries = MAX_CDN_INDEX_ENTRIES;
    let entries_err = merge_archive_index(
        &mut merged,
        0,
        1,
        &parsed,
        &mut total_bytes,
        &mut total_entries,
    )
    .unwrap_err();
    assert!(matches!(
        entries_err,
        CascError::LimitExceeded {
            what: "aggregate CDN archive index entries",
            limit: MAX_CDN_INDEX_ENTRIES
        }
    ));
    assert_eq!(merged.len(), 0);
}

#[test]
fn oversized_indexed_object_is_rejected_before_transport() {
    let ekey = EncodingKey::from([5; 16]);
    let archive = EncodingKey::from([6; 16]);
    let parsed = archive_index(ekey, 11, 0);
    let mut index = CdnIndex::new();
    index.add_archive(0, &parsed);
    let limits = ReadLimits {
        max_encoded_bytes: 10,
        ..ReadLimits::default()
    };
    let fetcher = fetcher(
        ScriptTransport::new(HashMap::new()),
        limits,
        vec![archive],
        index,
    );

    let err = fetcher.read_by_ekey(&ekey, None, None).unwrap_err();
    assert!(matches!(err, CascError::LimitExceeded { .. }));
    assert!(fetcher.transport.calls().is_empty());
}

#[test]
fn malformed_object_invalidates_its_transport_entry() {
    let ekey = EncodingKey::from([9; 16]);
    let url = cdn_file_url(
        "cdn.example",
        "tpr/sc1live",
        CdnPathKind::Data,
        &ekey.to_string(),
        false,
    );
    let transport = ScriptTransport::new(HashMap::from([(
        url.clone(),
        b"not a BLTE object".to_vec(),
    )]));
    let fetcher = fetcher(
        transport,
        ReadLimits::default(),
        Vec::new(),
        CdnIndex::new(),
    );

    assert!(matches!(
        fetcher.read_by_ekey(&ekey, None, None),
        Err(CascError::Malformed { .. })
    ));
    assert!(
        fetcher
            .transport
            .calls()
            .contains(&Call::Invalidate { url, range: None })
    );
}

#[test]
fn corrupt_first_host_is_invalidated_then_next_host_is_tried() {
    let ekey = EncodingKey::from([10; 16]);
    let payload = b"healthy";
    let first_url = cdn_file_url(
        "first.example",
        "tpr/sc1live",
        CdnPathKind::Data,
        &ekey.to_string(),
        false,
    );
    let second_url = cdn_file_url(
        "second.example",
        "tpr/sc1live",
        CdnPathKind::Data,
        &ekey.to_string(),
        false,
    );
    let transport = ScriptTransport::new(HashMap::from([
        (first_url.clone(), b"corrupt".to_vec()),
        (second_url.clone(), single_raw(payload)),
    ]));
    let mut fetcher = fetcher(
        transport,
        ReadLimits::default(),
        Vec::new(),
        CdnIndex::new(),
    );
    fetcher.hosts = vec!["first.example".to_string(), "second.example".to_string()];

    assert_eq!(
        fetcher
            .read_by_ekey(&ekey, Some(&content_key(payload)), None)
            .unwrap(),
        payload
    );
    let calls = fetcher.transport.calls();
    assert!(calls.contains(&Call::Invalidate {
        url: first_url,
        range: None,
    }));
    assert!(calls.iter().any(|call| matches!(
        call,
        Call::Get { url, .. } if url == &second_url
    )));
}

#[test]
fn corrupt_index_host_is_invalidated_then_next_host_is_tried() {
    let archive = EncodingKey::from([11; 16]);
    let first_url = cdn_file_url(
        "first.example",
        "tpr/sc1live",
        CdnPathKind::Data,
        &archive.to_string(),
        true,
    );
    let second_url = cdn_file_url(
        "second.example",
        "tpr/sc1live",
        CdnPathKind::Data,
        &archive.to_string(),
        true,
    );
    let mut empty_index = vec![0; 36];
    empty_index[16] = 1;
    empty_index[19] = 1;
    empty_index[20] = 4;
    empty_index[21] = 4;
    empty_index[22] = 16;
    empty_index[23] = 8;
    let transport = ScriptTransport::new(HashMap::from([
        (first_url.clone(), b"corrupt".to_vec()),
        (second_url, empty_index),
    ]));
    let mut fetcher = fetcher(
        transport,
        ReadLimits::default(),
        Vec::new(),
        CdnIndex::new(),
    );
    fetcher.hosts = vec!["first.example".to_string(), "second.example".to_string()];

    assert!(fetcher.get_index(&archive, 1024).unwrap().1.is_empty());
    assert!(fetcher.transport.calls().contains(&Call::Invalidate {
        url: first_url,
        range: None,
    }));
}

#[test]
fn corrupt_config_host_is_invalidated_then_next_host_is_tried() {
    let body = b"archives =\n";
    let key = content_key(body);
    let first_url = cdn_file_url(
        "first.example",
        "tpr/sc1live",
        CdnPathKind::Config,
        &key.to_string(),
        false,
    );
    let second_url = cdn_file_url(
        "second.example",
        "tpr/sc1live",
        CdnPathKind::Config,
        &key.to_string(),
        false,
    );
    let transport = ScriptTransport::new(HashMap::from([
        (first_url.clone(), b"forged".to_vec()),
        (second_url, body.to_vec()),
    ]));
    let mut fetcher = fetcher(
        transport,
        ReadLimits::default(),
        Vec::new(),
        CdnIndex::new(),
    );
    fetcher.hosts = vec!["first.example".to_string(), "second.example".to_string()];

    assert_eq!(fetcher.get_config(&key, 1024, "test config").unwrap(), body);
    assert!(fetcher.transport.calls().contains(&Call::Invalidate {
        url: first_url,
        range: None,
    }));
}

#[test]
fn pinned_open_bounds_discovery_metadata() {
    let url = cdns_url("us", "s1");
    let transport = ScriptTransport::new(HashMap::from([(url.clone(), vec![0; 9])]));
    let options = StorageOptions::new().with_max_metadata_bytes(8);

    let err = expect_error(CdnStorage::open_pinned_with_options(
        "s1",
        "us",
        ContentKey::from([1; 16]),
        ContentKey::from([2; 16]),
        transport,
        options,
    ));

    assert!(matches!(err, CascError::LimitExceeded { .. }));
}

#[test]
fn pinned_open_rejects_forged_build_config_before_parsing() {
    let cdns = b"Name!STRING:0|Path!STRING:0|Hosts!STRING:0\nus|tpr/sc1live|cdn.blizzard.com\n"
        .to_vec();
    let build_key = content_key(b"authentic build config");
    let cdn_key = content_key(b"authentic CDN config");
    let build_url = cdn_file_url(
        "cdn.blizzard.com",
        "tpr/sc1live",
        CdnPathKind::Config,
        &build_key.to_string(),
        false,
    );
    let transport = ScriptTransport::new(HashMap::from([
        (cdns_url("us", "s1"), cdns),
        (build_url, b"forged".to_vec()),
    ]));

    let err = expect_error(CdnStorage::open_pinned(
        "s1", "us", build_key, cdn_key, transport,
    ));
    assert!(matches!(err, CascError::ChecksumMismatch("build config")));
}

#[test]
fn cdn_types_are_send_and_sync() {
    fn assert_send_sync<T: Send + Sync>() {}
    assert_send_sync::<ScriptTransport>();
    assert_send_sync::<CdnStorage<ScriptTransport>>();
}

#[test]
fn later_archive_wins_while_loading() {
    let shared = EncodingKey::from([21; 16]);
    let archives = [EncodingKey::from([31; 16]), EncodingKey::from([32; 16])];
    let mut bodies = HashMap::new();
    for (archive, offset) in archives.iter().zip([100u32, 200]) {
        let url = cdn_file_url(
            "cdn.example",
            "tpr/sc1live",
            CdnPathKind::Data,
            &archive.to_string(),
            true,
        );
        bodies.insert(url, archive_index_bytes(shared, 9, offset));
    }
    let fetcher = fetcher(
        ScriptTransport::new(bodies),
        ReadLimits::default(),
        Vec::new(),
        CdnIndex::new(),
    );
    let merged = load_archive_indexes(&fetcher, &archives, 1 << 20).unwrap();
    let entry = merged.lookup(&shared).unwrap();
    assert_eq!((entry.archive, entry.offset, entry.encoded_size), (1, 200, 9));
    assert_eq!(merged.len(), 1);
}

#[test]
fn without_hosts_nothing_can_be_fetched() {
    let mut fetcher = fetcher(
        ScriptTransport::new(HashMap::new()),
        ReadLimits::default(),
        Vec::new(),
        CdnIndex::new(),
    );
    fetcher.hosts = Vec::new();
    let expected = "transport error for : no CDN hosts available";
    let key = EncodingKey::from([1; 16]);
    assert_eq!(
        expect_error(fetcher.get_config(&ContentKey::from([1; 16]), 9, "config")).message(),
        expected
    );
    assert_eq!(expect_error(fetcher.get_index(&key, 9)).message(), expected);
    assert_eq!(
        expect_error(fetcher.read_by_ekey(&key, None, None)).message(),
        expected
    );
}

struct DeadTransport;

impl CdnTransport for DeadTransport {
    fn get(&self, url: &str, _max_bytes: usize) -> Result<Vec<u8>, CascError> {
        Err(CascError::Transport {
            url: url.to_string(),
            reason: "connection refused".to_string(),
        })
    }

    fn get_range(&self, url: &str, _offset: u64, _len: u64) -> Result<Vec<u8>, CascError> {
        self.get(url, 0)
    }
}

/// Hosts without number are tried one after the other, and the last failure
/// is the one reported.
#[test]
fn a_long_list_of_dead_hosts_is_walked_to_its_end() {
    let count = 50_000;
    let fetcher = CdnFetcher {
        transport: DeadTransport,
        limits: ReadLimits::default(),
        hosts: (0..count).map(|n| format!("h{n}.example")).collect(),
        cdn_path: "tpr/sc1live".to_string(),
        archives: Vec::new(),
        index: CdnIndex::new(),
    };
    let key = EncodingKey::from([1; 16]);
    let last = format!("h{}.example", count - 1);
    for failure in [
        expect_error(fetcher.get_config(&ContentKey::from([1; 16]), 9, "config")),
        expect_error(fetcher.get_index(&key, 9)),
        expect_error(fetcher.read_by_ekey(&key, None, None)),
    ] {
        assert!(matches!(failure, CascError::Transport { url, .. } if url.contains(&last)));
    }
}

struct GarbageTransport;

impl CdnTransport for GarbageTransport {
    fn get(&self, _url: &str, _max_bytes: usize) -> Result<Vec<u8>, CascError> {
        Ok(b"garbage".to_vec())
    }

    fn get_range(&self, url: &str, _offset: u64, _len: u64) -> Result<Vec<u8>, CascError> {
        self.get(url, 0)
    }
}

#[test]
fn a_long_list_of_corrupt_hosts_is_walked_to_its_end() {
    let fetcher = CdnFetcher {
        transport: GarbageTransport,
        limits: ReadLimits::default(),
        hosts: (0..20_000).map(|n| format!("h{n}.example")).collect(),
        cdn_path: "tpr/sc1live".to_string(),
        archives: Vec::new(),
        index: CdnIndex::new(),
    };
    let key = EncodingKey::from([1; 16]);
    assert!(matches!(
        expect_error(fetcher.get_config(&ContentKey::from([1; 16]), 9, "config")),
        CascError::ChecksumMismatch(_)
    ));
    assert!(matches!(
        expect_error(fetcher.get_index(&key, 9)),
        CascError::Malformed { .. }
    ));
    assert!(matches!(
        expect_error(fetcher.read_by_ekey(&key, None, None)),
        CascError::Malformed { .. }
    ));
}
