//! Reading local storages.

use std::collections::HashMap;
use std::sync::{
    atomic::{AtomicUsize, Ordering},
    Arc,
};

use broodcasc::blte::ReadLimits;
use broodcasc::digest::verify_raw_ckey;
use broodcasc::idx::{IdxEntry, LocalIndex};
use broodcasc::io::{ReadAt, StorageProvider};
use broodcasc::jenkins::hashlittle2;
use broodcasc::storage::{
    check_span, read_metadata, SpanReader, StorageOptions, SPAN_HEADER_SIZE, SPAN_JENKINS_SEED,
};
use broodcasc::{CascError, ContentKey, EncodingKey, Storage};
use md5::{Digest, Md5};

#[derive(Clone)]
struct MemoryFile {
    bytes: Vec<u8>,
    positioned_reads: Arc<AtomicUsize>,
}

impl ReadAt for MemoryFile {
    fn read_exact_at(&self, offset: u64, buf: &mut [u8]) -> Result<(), CascError> {
        self.positioned_reads.fetch_add(1, Ordering::Relaxed);
        self.bytes.as_slice().read_exact_at(offset, buf)
    }

    fn len(&self) -> Result<u64, CascError> {
        Ok(self.bytes.len() as u64)
    }
}

struct MemoryProvider {
    files: HashMap<String, MemoryFile>,
}

impl MemoryProvider {
    fn one(path: &str, bytes: Vec<u8>) -> (Self, Arc<AtomicUsize>) {
        let positioned_reads = Arc::new(AtomicUsize::new(0));
        let mut files = HashMap::new();
        files.insert(
            path.to_string(),
            MemoryFile {
                bytes,
                positioned_reads: positioned_reads.clone(),
            },
        );
        (Self { files }, positioned_reads)
    }
}

impl StorageProvider for MemoryProvider {
    type File = MemoryFile;

    fn open(&self, path: &str) -> Result<Self::File, CascError> {
        self.files
            .get(path)
            .cloned()
            .ok_or_else(|| CascError::NotFound(path.to_string()))
    }

    fn read(&self, _path: &str) -> Result<Vec<u8>, CascError> {
        panic!("storage bootstrap must use bounded positioned reads")
    }

    fn list_dir(&self, _path: &str) -> Result<Vec<String>, CascError> {
        Ok(Vec::new())
    }
}

fn raw_blte(payload: &[u8]) -> Vec<u8> {
    let mut out = b"BLTE\0\0\0\0N".to_vec();
    out.extend_from_slice(payload);
    out
}

#[test]
fn metadata_reads_are_bounded_and_bypass_provider_read_override() {
    let (provider, positioned_reads) = MemoryProvider::one("metadata", b"small".to_vec());
    assert_eq!(read_metadata(&provider, "metadata", 5).unwrap(), b"small");
    assert_eq!(positioned_reads.load(Ordering::Relaxed), 1);

    let err = read_metadata(&provider, "metadata", 4).unwrap_err();
    assert!(matches!(err, CascError::LimitExceeded { .. }));
    assert_eq!(positioned_reads.load(Ordering::Relaxed), 1);
}

#[test]
fn raw_build_config_ckey_is_verified() {
    let bytes = b"root = test\n";
    let good = ContentKey::from(<[u8; 16]>::from(Md5::digest(bytes)));
    assert!(verify_raw_ckey(bytes, &good, "build config").is_ok());
    let err = verify_raw_ckey(bytes, &ContentKey::from([0; 16]), "build config").unwrap_err();
    assert!(matches!(err, CascError::ChecksumMismatch("build config")));
}

#[test]
fn span_reader_uses_one_positioned_read_and_enforces_encoded_limit() {
    let payload = raw_blte(b"ok");
    let ekey = EncodingKey::from(<[u8; 16]>::from(Md5::digest(&payload)));
    let entry = IdxEntry {
        archive: 0,
        offset: 0,
        encoded_size: (SPAN_HEADER_SIZE as usize + payload.len()) as u32,
    };
    let mut span = vec![0u8; SPAN_HEADER_SIZE as usize];
    for (dst, src) in span[..16].iter_mut().zip(ekey.as_bytes().iter().rev()) {
        *dst = *src;
    }
    span[16..20].copy_from_slice(&entry.encoded_size.to_le_bytes());
    let jenkins_hash = hashlittle2(&span[..0x16], SPAN_JENKINS_SEED, 0).0;
    span[0x16..0x1A].copy_from_slice(&jenkins_hash.to_le_bytes());
    span.extend_from_slice(&payload);
    let expected_span = span.clone();
    let mut corrupt_hash_span = span.clone();
    corrupt_hash_span[0x15] ^= 1;

    let (provider, positioned_reads) = MemoryProvider::one("Data/data/data.000", span);
    let reader = SpanReader::new(provider, LocalIndex::default(), ReadLimits::default());
    assert_eq!(
        reader.read_span(&ekey, &entry, payload.len()).unwrap(),
        expected_span
    );
    assert_eq!(positioned_reads.load(Ordering::Relaxed), 1);

    let err = reader
        .read_span(&ekey, &entry, payload.len() - 1)
        .unwrap_err();
    assert!(matches!(err, CascError::LimitExceeded { .. }));
    assert_eq!(positioned_reads.load(Ordering::Relaxed), 1);

    let (provider, _) = MemoryProvider::one("Data/data/data.000", corrupt_hash_span);
    let reader = SpanReader::new(provider, LocalIndex::default(), ReadLimits::default());
    let err = reader.read_span(&ekey, &entry, payload.len()).unwrap_err();
    assert!(matches!(
        err,
        CascError::ChecksumMismatch("local span header Jenkins hash")
    ));
}

#[test]
fn storage_options_and_storage_are_send_and_sync() {
    fn assert_send_sync<T: Send + Sync>() {}

    assert_send_sync::<StorageOptions>();
    assert_send_sync::<Storage<MemoryProvider>>();
}

#[test]
fn metadata_limits_are_the_smaller_ones() {
    let options = StorageOptions::new().with_max_metadata_bytes(100);
    let limits = options.metadata_read_limits();
    assert_eq!(limits.max_encoded_bytes, 100);
    assert_eq!(limits.max_decoded_bytes, 100);
    assert_eq!(limits.max_chunk_decoded_bytes, 100);
    assert_eq!(limits.max_nesting, ReadLimits::default().max_nesting);
    let tight = ReadLimits {
        max_encoded_bytes: 7,
        max_decoded_bytes: 8,
        ..ReadLimits::default()
    };
    let limits = options.with_read_limits(tight).metadata_read_limits();
    assert_eq!(limits.max_encoded_bytes, 7);
    assert_eq!(limits.max_decoded_bytes, 8);
    assert_eq!(limits.max_chunk_decoded_bytes, 100);
}

#[test]
fn spans_that_disagree_with_the_index_are_refused() {
    let ekey = EncodingKey::from([3; 16]);
    let entry = IdxEntry {
        archive: 0,
        offset: 0,
        encoded_size: 40,
    };
    let mut span = vec![3u8; 16];
    span.extend_from_slice(&40u32.to_le_bytes());
    span.extend_from_slice(&[0, 0]);
    let hash = hashlittle2(&span, SPAN_JENKINS_SEED, 0).0;
    span.extend_from_slice(&hash.to_le_bytes());
    span.resize(40, 0);
    assert_eq!(check_span(span.clone(), &ekey, &entry).unwrap(), span);

    let text = |span: Vec<u8>| check_span(span, &ekey, &entry).unwrap_err().message();
    assert_eq!(
        text(span[..29].to_vec()),
        "malformed span: truncated span header"
    );
    let mut other = span.clone();
    other[15] = 4;
    assert_eq!(
        text(other),
        "malformed span: span header EKey does not match index entry"
    );
    let mut other = span.clone();
    other[16] = 41;
    assert_eq!(
        text(other),
        "malformed span: span header size 41 disagrees with index entry 40"
    );
    let mut other = span.clone();
    other[22] ^= 1;
    assert_eq!(
        text(other),
        "checksum mismatch in local span header Jenkins hash"
    );
}
