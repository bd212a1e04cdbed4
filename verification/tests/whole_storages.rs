//! Whole storages, kept in memory: from the build info, or from discovery on
//! a CDN, down to the bytes of a file.

use std::collections::HashMap;
use std::sync::{Arc, Mutex};

use broodcasc::blte::{zlib, ReadLimits, MODE_RAW, MODE_ZLIB};
use broodcasc::cdn::{CdnStorage, CdnTransport, MAX_CDN_ARCHIVES};
use broodcasc::io::{ReadAt, StorageProvider};
use broodcasc::jenkins::hashlittle2;
use broodcasc::report::{count_installed, info_lines, local_label, version_label};
use broodcasc::seeds::blte::{build_multi_chunk, build_single_chunk};
use broodcasc::seeds::encoding::{build_encoding, RawEntry};
use broodcasc::seeds::idx::{build_idx_file, pack_storage_offset};
use broodcasc::seeds::tables::{build_info_text, build_root};
use broodcasc::storage::{StorageOptions, SPAN_HEADER_SIZE, SPAN_JENKINS_SEED};
use broodcasc::tact::{cdn_file_url, cdns_url, versions_url, CdnPathKind};
use broodcasc::{CascError, ContentKey, EncodingKey, Storage};
use md5::{Digest, Md5};

const JUNGLE: &str = "SD/tileset/Jungle.wpe";
const SPEECH: &str = "locales/deDE/speech.wav";
const ORPHAN: &str = "SD/orphan.bin";
const TWICE: &str = "SD/tileset/copy.wpe";

fn md5(bytes: &[u8]) -> [u8; 16] {
    Md5::digest(bytes).into()
}

fn jungle() -> Vec<u8> {
    b"jungle jungle jungle jungle jungle".repeat(100)
}

/// One object: what it decodes to and the buffer that holds it.
struct Object {
    content: Vec<u8>,
    encoded: Vec<u8>,
}

impl Object {
    fn raw(content: &[u8]) -> Object {
        Object {
            content: content.to_vec(),
            encoded: build_single_chunk(MODE_RAW, content),
        }
    }

    fn zlib(content: &[u8]) -> Object {
        Object {
            content: content.to_vec(),
            encoded: build_single_chunk(MODE_ZLIB, &zlib(content)),
        }
    }

    fn table(content: &[u8]) -> Object {
        let half = content.len() / 2;
        let stream = zlib(&content[half..]);
        let chunks: [(u8, &[u8], u32); 2] = [
            (MODE_RAW, &content[..half], half as u32),
            (MODE_ZLIB, &stream, (content.len() - half) as u32),
        ];
        Object {
            content: content.to_vec(),
            encoded: build_multi_chunk(&chunks),
        }
    }

    fn ckey(&self) -> [u8; 16] {
        md5(&self.content)
    }

    fn ekey(&self) -> [u8; 16] {
        md5(&self.encoded)
    }
}

/// A build: its config and its objects, the encoding table among them.
struct Build {
    config: Vec<u8>,
    objects: Vec<Object>,
}

fn hex(key: [u8; 16]) -> String {
    EncodingKey::from(key).to_string()
}

/// A build that catalogs three files: one that every storage holds, one that
/// the encoding table knows and no storage holds, and one that not even the
/// encoding table knows. The first is cataloged twice.
fn build() -> Build {
    let jungle = Object::table(&jungle());
    let speech = Object::raw(b"Guten Tag");
    let records = vec![
        (JUNGLE.to_string(), hex(jungle.ckey())),
        (SPEECH.to_string(), hex(speech.ckey())),
        (ORPHAN.to_string(), "00".repeat(16)),
        (TWICE.to_string(), hex(jungle.ckey())),
    ];
    let root = Object::zlib(build_root(&records, true).as_bytes());
    let mut entries: Vec<RawEntry> = [&jungle, &speech, &root]
        .iter()
        .map(|o| RawEntry {
            ckey: o.ckey(),
            ekeys: vec![o.ekey()],
            size: o.content.len() as u64,
        })
        .collect();
    entries.sort_by_key(|e| e.ckey);
    let encoding = Object::raw(&build_encoding(&entries, 1));
    let config = format!(
        "# Build Configuration\n\nroot = {}\nencoding = {} {}\nencoding-size = {} {}\nbuild-name = B1\n",
        hex(root.ckey()),
        hex(encoding.ckey()),
        hex(encoding.ekey()),
        encoding.content.len(),
        encoding.encoded.len(),
    );
    Build {
        config: config.into_bytes(),
        objects: vec![jungle, root, encoding],
    }
}

fn span(object: &Object) -> Vec<u8> {
    let mut out: Vec<u8> = object.ekey().iter().rev().copied().collect();
    out.extend_from_slice(&((SPAN_HEADER_SIZE + object.encoded.len()) as u32).to_le_bytes());
    out.extend_from_slice(&[0, 0]);
    let hash = hashlittle2(&out, SPAN_JENKINS_SEED, 0).0;
    out.extend_from_slice(&hash.to_le_bytes());
    out.extend_from_slice(&[0xEE; 4]);
    out.extend_from_slice(&object.encoded);
    out
}

#[derive(Clone)]
struct Files(HashMap<String, Vec<u8>>);

impl StorageProvider for Files {
    type File = Vec<u8>;

    fn open(&self, path: &str) -> Result<Vec<u8>, CascError> {
        self.0
            .get(path)
            .cloned()
            .ok_or_else(|| CascError::NotFound(path.to_string()))
    }

    fn list_dir(&self, path: &str) -> Result<Vec<String>, CascError> {
        let prefix = format!("{path}/");
        Ok(self
            .0
            .keys()
            .filter_map(|name| name.strip_prefix(&prefix))
            .map(str::to_string)
            .collect())
    }
}

fn local_files(build: &Build) -> Files {
    let key = hex(md5(&build.config));
    let info = build_info_text(
        &["Branch", "Active", "Build Key", "Version"],
        &[
            &["us", "0", "864772b9ff94f6d372aa4ee90ee2f8ab", "1.0.0"],
            &["eu", "1", key.as_str(), "1.23.10"],
        ],
    );
    let mut data = vec![0xCC; 5];
    let mut places = Vec::new();
    for object in &build.objects {
        let bytes = span(object);
        let mut key9 = [0; 9];
        key9.copy_from_slice(&object.ekey()[..9]);
        places.push((
            key9,
            pack_storage_offset(2, data.len() as u64, 30),
            bytes.len() as u32,
        ));
        data.extend_from_slice(&bytes);
    }
    Files(HashMap::from([
        (".build.info".to_string(), info.into_bytes()),
        (
            format!("Data/config/{}/{}/{key}", &key[0..2], &key[2..4]),
            build.config.clone(),
        ),
        (
            "Data/data/0000000001.idx".to_string(),
            build_idx_file(30, &places),
        ),
        ("Data/data/data.002".to_string(), data),
    ]))
}

fn expect_error<T>(result: Result<T, CascError>) -> CascError {
    match result {
        Ok(_) => panic!("unexpected success"),
        Err(e) => e,
    }
}

#[test]
fn local_storage_reads_its_files() {
    let storage = Storage::open_with_provider(local_files(&build())).unwrap();

    assert_eq!(storage.file_names(), [JUNGLE, SPEECH, ORPHAN, TWICE]);
    assert_eq!(storage.read_file(JUNGLE).unwrap(), jungle());
    assert_eq!(storage.read_file(TWICE).unwrap(), jungle());
    assert_eq!(
        storage.read_file(r"sd\TILESET/jungle.WPE").unwrap(),
        jungle()
    );
    assert_eq!(storage.file_size(JUNGLE).unwrap(), jungle().len() as u64);
    assert_eq!(storage.file_size(SPEECH).unwrap(), 9);
    assert_eq!(
        storage
            .read_by_ckey(&ContentKey::from(md5(&jungle())))
            .unwrap(),
        jungle()
    );
    let ekey = build().objects[0].ekey();
    assert_eq!(
        storage
            .read_by_ekey(&EncodingKey::from(ekey), None)
            .unwrap(),
        jungle()
    );

    assert_eq!(storage.root().len(), 4);
    assert_eq!(storage.encoding().len(), 3);
    assert_eq!(storage.index().len(), 3);
    assert_eq!(storage.build_config().build_name(), Some("B1"));
    assert_eq!(storage.build_info().records().len(), 2);
    let active = storage.build_info().active_record().unwrap();
    assert_eq!(active.version(), Some("1.23.10"));
    assert_eq!(active.branch(), Some("eu"));
}

/// Files that count how often each of them is opened and how many are open.
struct CountedFiles {
    files: Files,
    opened: Arc<Mutex<HashMap<String, usize>>>,
    open: Arc<()>,
}

struct CountedFile {
    bytes: Vec<u8>,
    _open: Arc<()>,
}

impl ReadAt for CountedFile {
    fn read_exact_at(&self, offset: u64, buf: &mut [u8]) -> Result<(), CascError> {
        self.bytes.read_exact_at(offset, buf)
    }

    fn len(&self) -> Result<u64, CascError> {
        ReadAt::len(&self.bytes)
    }
}

impl StorageProvider for CountedFiles {
    type File = CountedFile;

    fn open(&self, path: &str) -> Result<CountedFile, CascError> {
        let bytes = self.files.open(path)?;
        *self.opened.lock().unwrap().entry(path.to_string()).or_insert(0) += 1;
        Ok(CountedFile {
            bytes,
            _open: self.open.clone(),
        })
    }

    fn list_dir(&self, path: &str) -> Result<Vec<String>, CascError> {
        self.files.list_dir(path)
    }
}

#[test]
fn an_archive_is_opened_once_and_closed_with_its_storage() {
    let opened = Arc::new(Mutex::new(HashMap::new()));
    let open = Arc::new(());
    let storage = Storage::open_with_provider(CountedFiles {
        files: local_files(&build()),
        opened: opened.clone(),
        open: open.clone(),
    })
    .unwrap();
    for _ in 0..3 {
        assert_eq!(storage.read_file(JUNGLE).unwrap(), jungle());
    }
    assert_eq!(opened.lock().unwrap()["Data/data/data.002"], 1);
    // The provider, the archive and this function.
    assert_eq!(Arc::strong_count(&open), 3);
    drop(storage);
    assert_eq!(Arc::strong_count(&open), 1);
}

#[test]
fn an_archive_that_does_not_open_is_tried_again() {
    let key = md5(b"absent");
    let mut key9 = [0; 9];
    key9.copy_from_slice(&key[..9]);
    let mut files = local_files(&build());
    let index = build_idx_file(30, &[(key9, pack_storage_offset(7, 0, 30), 99)]);
    files.0.insert("Data/data/0100000001.idx".to_string(), index);
    let storage = Storage::open_with_provider(files).unwrap();
    for _ in 0..2 {
        assert!(matches!(
            storage.read_by_ekey(&EncodingKey::from(key), None),
            Err(CascError::NotFound(path)) if path == "Data/data/data.007"
        ));
    }
}

#[test]
fn missing_and_uninstalled_files_fail_differently() {
    let storage = Storage::open_with_provider(local_files(&build())).unwrap();

    assert!(matches!(
        storage.read_file("nowhere.bin"),
        Err(CascError::NotFound(path)) if path == "nowhere.bin"
    ));
    assert!(matches!(
        storage.read_file("LOCALES/dede/speech.wav"),
        Err(CascError::NotInstalled(path)) if path == "LOCALES/dede/speech.wav"
    ));
    assert!(matches!(
        storage.read_file(ORPHAN),
        Err(CascError::NotInstalled(path)) if path == ORPHAN
    ));
    assert!(matches!(
        storage.file_size(ORPHAN),
        Err(CascError::NotFound(path)) if path == ORPHAN
    ));
    assert!(storage.contains(SPEECH));
    assert!(!storage.contains("nowhere.bin"));
    assert!(storage.is_installed(JUNGLE));
    assert!(!storage.is_installed(SPEECH));
    assert!(!storage.is_installed(ORPHAN));
    assert!(!storage.is_installed("nowhere.bin"));
    assert!(matches!(
        storage.read_by_ckey(&ContentKey::from([9; 16])),
        Err(CascError::NotFound(key)) if key == "09".repeat(16)
    ));
    assert!(matches!(
        storage.read_by_ekey(&EncodingKey::from([9; 16]), None),
        Err(CascError::NotFound(key)) if key == "09".repeat(16)
    ));
}

#[test]
fn summary_counts_the_installed_files() {
    let storage = Storage::open_with_provider(local_files(&build())).unwrap();
    let installed = count_installed(&storage);
    assert_eq!(installed, (2, 4));
    assert_eq!(
        info_lines(
            &local_label("C:/StarCraft"),
            version_label(None, storage.build_config().build_name()),
            storage.root().len(),
            Some(installed),
        ),
        [
            "source:  local install at C:/StarCraft",
            "version: B1",
            "files:   4",
            "installed: 2/4"
        ]
    );
}

#[test]
fn every_byte_of_a_span_but_its_last_header_word_is_verified() {
    let build = build();
    let files = local_files(&build);
    let data = &files.0["Data/data/data.002"];
    let first = 5;
    let len = SPAN_HEADER_SIZE + build.objects[0].encoded.len();
    for at in first..first + len {
        let mut broken = files.clone();
        let mut bytes = data.clone();
        bytes[at] ^= 1;
        broken.0.insert("Data/data/data.002".to_string(), bytes);
        let storage = Storage::open_with_provider(broken).unwrap();
        let read = storage.read_file(JUNGLE);
        if (26..30).contains(&(at - first)) {
            assert_eq!(read.unwrap(), jungle());
        } else {
            assert!(read.is_err(), "byte {at} is not covered");
        }
    }
}

#[test]
fn broken_local_storages_are_refused() {
    let build = build();
    let files = local_files(&build);
    let open = |files: Files| expect_error(Storage::open_with_provider(files));

    let mut broken = files.clone();
    broken.0.remove(".build.info");
    assert!(matches!(open(broken), CascError::NotFound(path) if path == ".build.info"));

    let mut broken = files.clone();
    broken.0.insert(
        ".build.info".to_string(),
        b"Active!DEC:1|Build Key!HEX:16\n".to_vec(),
    );
    assert!(matches!(
        open(broken),
        CascError::Malformed { what: "build info", reason } if reason == "no build records"
    ));

    let key = hex(md5(&build.config));
    let config = format!("Data/config/{}/{}/{key}", &key[0..2], &key[2..4]);
    let mut broken = files.clone();
    broken.0.get_mut(&config).unwrap().push(b'\n');
    assert!(matches!(
        open(broken),
        CascError::ChecksumMismatch("build config")
    ));

    let mut broken = files.clone();
    broken.0.remove("Data/data/0000000001.idx");
    assert!(matches!(
        open(broken),
        CascError::Malformed { what: "local index", .. }
    ));

    let mut broken = files.clone();
    broken.0.remove("Data/data/data.002");
    assert!(matches!(open(broken), CascError::NotFound(path) if path == "Data/data/data.002"));
}

#[test]
fn the_first_record_stands_in_for_an_active_one() {
    let build = build();
    let mut files = local_files(&build);
    let key = hex(md5(&build.config));
    let info = build_info_text(&["Active", "Build Key"], &[&["0", key.as_str()]]);
    files.0.insert(".build.info".to_string(), info.into_bytes());
    assert!(Storage::open_with_provider(files).is_ok());
}

#[test]
fn metadata_and_content_limits_are_separate() {
    let build = build();
    let files = local_files(&build);
    let tight = StorageOptions::new().with_max_metadata_bytes(16);
    assert!(matches!(
        expect_error(Storage::open_with_provider_and_options(files.clone(), tight)),
        CascError::LimitExceeded { limit: 16, .. }
    ));

    // Enough for the metadata, too little for the file.
    let limits = ReadLimits {
        max_decoded_bytes: 2000,
        ..ReadLimits::default()
    };
    let options = StorageOptions::new().with_read_limits(limits);
    let storage = Storage::open_with_provider_and_options(files, options).unwrap();
    assert!(matches!(
        storage.read_file(JUNGLE),
        Err(CascError::LimitExceeded { limit: 2000, .. })
    ));
}

// ---------------------------------------------------------------------
// The same build on a CDN

const ARCHIVE: [u8; 16] = [0xAB; 16];

struct Cdn {
    bodies: HashMap<String, Vec<u8>>,
    invalidated: Mutex<Vec<String>>,
}

/// The first host is down.
fn down(url: &str) -> Result<(), CascError> {
    if url.starts_with("http://a.blizzard.com/") {
        return Err(CascError::Transport {
            url: url.to_string(),
            reason: "connection refused".to_string(),
        });
    }
    Ok(())
}

impl CdnTransport for Cdn {
    fn get(&self, url: &str, max_bytes: usize) -> Result<Vec<u8>, CascError> {
        down(url)?;
        match self.bodies.get(url) {
            None => Err(CascError::NotFound(url.to_string())),
            Some(body) if body.len() > max_bytes => Err(CascError::LimitExceeded {
                what: "body",
                limit: max_bytes,
            }),
            Some(body) => Ok(body.clone()),
        }
    }

    fn get_range(&self, url: &str, offset: u64, len: u64) -> Result<Vec<u8>, CascError> {
        down(url)?;
        match self.bodies.get(url) {
            None => Err(CascError::NotFound(url.to_string())),
            Some(body) => Ok(body[offset as usize..(offset + len) as usize].to_vec()),
        }
    }

    fn invalidate(&self, url: &str, _range: Option<(u64, u64)>) {
        self.invalidated.lock().unwrap().push(url.to_string());
    }
}

fn url(host: &str, kind: CdnPathKind, key: [u8; 16], index: bool) -> String {
    cdn_file_url(host, "tpr/sc1live", kind, &hex(key), index)
}

/// A CDN with two hosts. The first object lies in an archive, the others are
/// loose; everything is served by the second host alone.
fn cdn(build: &Build) -> Cdn {
    let host = "b.blizzard.com";
    let cdn_config = format!("archives = {}\n", hex(ARCHIVE)).into_bytes();
    let mut bodies = HashMap::new();
    bodies.insert(
        versions_url("eu", "s1"),
        format!(
            "Region!STRING:0|BuildConfig!HEX:16|CDNConfig!HEX:16|VersionsName!String:0\n## seqn = 1\neu|{}|{}|1.23.10\n",
            hex(md5(&build.config)),
            hex(md5(&cdn_config))
        )
        .into_bytes(),
    );
    bodies.insert(
        cdns_url("eu", "s1"),
        b"Name!STRING:0|Path!STRING:0|Hosts!STRING:0\neu|tpr/sc1live|a.blizzard.com b.blizzard.com\n".to_vec(),
    );
    for config in [&build.config, &cdn_config] {
        bodies.insert(
            url(host, CdnPathKind::Config, md5(config), false),
            config.clone(),
        );
    }
    for object in &build.objects[1..] {
        bodies.insert(
            url(host, CdnPathKind::Data, object.ekey(), false),
            object.encoded.clone(),
        );
    }
    let mut archive = vec![0x77; 13];
    archive.extend_from_slice(&build.objects[0].encoded);
    archive.extend_from_slice(&[0x77; 3]);
    bodies.insert(url(host, CdnPathKind::Data, ARCHIVE, false), archive);
    let mut index = vec![0u8; 1024];
    index[0..16].copy_from_slice(&build.objects[0].ekey());
    index[16..20].copy_from_slice(&(build.objects[0].encoded.len() as u32).to_be_bytes());
    index[20..24].copy_from_slice(&13u32.to_be_bytes());
    let mut footer = [0u8; 36];
    footer[16] = 1;
    footer[19] = 1;
    footer[20..24].copy_from_slice(&[4, 4, 16, 8]);
    footer[24] = 1;
    index.extend_from_slice(&footer);
    bodies.insert(url(host, CdnPathKind::Data, ARCHIVE, true), index);
    Cdn {
        bodies,
        invalidated: Mutex::new(Vec::new()),
    }
}

#[test]
fn cdn_storage_reads_its_files() {
    let build = build();
    let cdn = cdn(&build);
    let storage = CdnStorage::open("s1", "eu", &cdn).unwrap();

    assert_eq!(storage.version_name(), Some("1.23.10"));
    assert_eq!(storage.file_names(), [JUNGLE, SPEECH, ORPHAN, TWICE]);
    assert_eq!(storage.read_file(JUNGLE).unwrap(), jungle());
    assert_eq!(
        storage.read_file(r"sd\TILESET/jungle.WPE").unwrap(),
        jungle()
    );
    assert_eq!(storage.file_size(SPEECH).unwrap(), 9);
    assert_eq!(
        storage
            .read_by_ckey(&ContentKey::from(md5(&jungle())))
            .unwrap(),
        jungle()
    );
    assert_eq!(
        storage
            .read_by_ekey(&EncodingKey::from(build.objects[0].ekey()), None)
            .unwrap(),
        jungle()
    );
    assert_eq!(storage.root().len(), 4);
    assert_eq!(storage.encoding().len(), 3);
    assert_eq!(storage.build_config().build_name(), Some("B1"));
    assert!(cdn.invalidated.lock().unwrap().is_empty());

    assert!(storage.contains(SPEECH));
    for path in ["nowhere.bin", SPEECH, ORPHAN] {
        assert!(matches!(
            storage.read_file(path),
            Err(CascError::NotFound(p)) if p == path
        ));
    }
    assert!(matches!(
        storage.file_size(ORPHAN),
        Err(CascError::NotFound(p)) if p == ORPHAN
    ));
}

#[test]
fn pinned_cdn_storage_needs_no_versions() {
    let build = build();
    let mut cdn = cdn(&build);
    cdn.bodies.remove(&versions_url("eu", "s1"));
    let cdn_config = format!("archives = {}\n", hex(ARCHIVE)).into_bytes();
    let storage = CdnStorage::open_pinned(
        "s1",
        "eu",
        ContentKey::from(md5(&build.config)),
        ContentKey::from(md5(&cdn_config)),
        &cdn,
    )
    .unwrap();
    assert_eq!(storage.version_name(), None);
    assert_eq!(storage.read_file(JUNGLE).unwrap(), jungle());
    assert!(matches!(
        expect_error(CdnStorage::open("s1", "eu", &cdn)),
        CascError::NotFound(url) if url == versions_url("eu", "s1")
    ));
}

#[test]
fn corrupt_archive_bytes_are_invalidated_and_refused() {
    let build = build();
    let mut cdn = cdn(&build);
    let archive = url("b.blizzard.com", CdnPathKind::Data, ARCHIVE, false);
    cdn.bodies.get_mut(&archive).unwrap()[60] ^= 1;
    let storage = CdnStorage::open("s1", "eu", &cdn).unwrap();
    assert!(storage.read_file(JUNGLE).is_err());
    assert_eq!(
        *cdn.invalidated.lock().unwrap(),
        [
            archive,
            url("a.blizzard.com", CdnPathKind::Data, ARCHIVE, true),
            url("b.blizzard.com", CdnPathKind::Data, ARCHIVE, true),
        ]
    );
}

#[test]
fn broken_discovery_is_refused() {
    let build = build();
    let open = |cdn: Cdn, product: &str, region: &str| {
        expect_error(CdnStorage::open(product, region, cdn))
    };
    assert!(matches!(
        open(cdn(&build), "s1", "kr"),
        CascError::NotFound(url) if url == versions_url("kr", "s1")
    ));
    assert!(open(cdn(&build), "s1/..", "eu").message().contains("product"));
    assert!(open(cdn(&build), "s1", "e u").message().contains("region"));

    // The versions of the region lack its row.
    let mut other = cdn(&build);
    let versions = other.bodies[&versions_url("eu", "s1")].clone();
    other.bodies.insert(versions_url("us", "s1"), versions);
    assert!(matches!(
        open(other, "s1", "us"),
        CascError::NotFound(text) if text == "region us in s1 versions"
    ));

    let mut other = cdn(&build);
    other.bodies.insert(
        cdns_url("eu", "s1"),
        b"Name!STRING:0|Path!STRING:0|Hosts!STRING:0\nus|tpr/sc1live|a.blizzard.com\n".to_vec(),
    );
    assert!(matches!(
        open(other, "s1", "eu"),
        CascError::NotFound(text) if text == "region eu in s1 cdns"
    ));

    // A config that does not hash to its address is refused by every host.
    let mut other = cdn(&build);
    let config = url("b.blizzard.com", CdnPathKind::Config, md5(&build.config), false);
    other.bodies.get_mut(&config).unwrap().push(b'\n');
    assert!(matches!(
        open(other, "s1", "eu"),
        CascError::ChecksumMismatch("build config")
    ));
}

#[test]
fn archive_lists_are_checked() {
    let build = build();
    let with_config = |text: String| {
        let mut other = cdn(&build);
        let key = md5(text.as_bytes());
        other.bodies.insert(
            url("b.blizzard.com", CdnPathKind::Config, key, false),
            text.into_bytes(),
        );
        expect_error(CdnStorage::open_pinned(
            "s1",
            "eu",
            ContentKey::from(md5(&build.config)),
            ContentKey::from(key),
            other,
        ))
    };
    assert!(matches!(
        with_config("archive-group = 0\n".to_string()),
        CascError::Malformed { what: "CDN config", reason } if reason == "missing 'archives'"
    ));
    assert!(matches!(
        with_config("archives = xyz\n".to_string()),
        CascError::Malformed { what: "CDN config", reason }
            if reason == "invalid archive content address"
    ));
    let many = format!("{} ", hex(ARCHIVE)).repeat(MAX_CDN_ARCHIVES + 1);
    assert!(matches!(
        with_config(format!("archives = {many}\n")),
        CascError::LimitExceeded {
            what: "CDN archive count",
            limit: MAX_CDN_ARCHIVES
        }
    ));
}
