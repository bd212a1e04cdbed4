//! The top-level [`Storage`] type: opens a CASC install and reads files.
//!
//! Opening follows the bootstrap pipeline: `.build.info` → build config →
//! merged `.idx` index → encoding table (found by EKey directly, the one file
//! that can be) → root catalog. After that, reading a file is `path → CKey →
//! EKey → (archive, offset) → BLTE`.

use vstd::prelude::*;
use vstd::string::*;

use crate::archives;
use crate::archives::Archives;
use crate::blte;
use crate::blte::ReadLimits;
use crate::bytes;
use crate::config;
use crate::config::BuildConfig;
use crate::config::BuildInfo;
use crate::config::RecordView;
use crate::digest;
use crate::encoding;
use crate::encoding::EncodingTable;
use crate::encoding::EncodingView;
use crate::error;
use crate::error::CascError;
use crate::error::ErrorView;
use crate::idx;
use crate::idx::IdxEntry;
use crate::idx::LocalIndex;
use crate::io::ReadAt;
use crate::io::StorageProvider;
use crate::jenkins;
use crate::keys;
use crate::keys::ContentKey;
use crate::keys::EncodingKey;
use crate::object;
use crate::object::ExpectedObject;
use crate::object::ExpectedView;
use crate::root;
use crate::root::RootFile;
use crate::root::RootView;
use crate::text;

verus! {

/// Size of the span header preceding every BLTE stream in a `data.###`
/// archive.
pub const SPAN_HEADER_SIZE: usize = 30;

/// Seed of the Jenkins hash in a span header.
pub const SPAN_JENKINS_SEED: u32 = 0x3D6B_E971;

// ---------------------------------------------------------------------
// Options

/// Resource policy used while opening and reading local CASC storage.
///
/// Metadata files are bounded separately from encoded content because they
/// are parsed before the encoding table can establish content identities.
#[derive(Debug, Clone, Copy, PartialEq, Eq)]
pub struct StorageOptions {
    read_limits: ReadLimits,
    max_metadata_bytes: usize,
}

/// The content of [`StorageOptions`].
pub struct OptionsView {
    pub read_limits: ReadLimits,
    pub max_metadata_bytes: nat,
}

impl View for StorageOptions {
    type V = OptionsView;

    closed spec fn view(&self) -> OptionsView {
        OptionsView {
            read_limits: self.read_limits,
            max_metadata_bytes: self.max_metadata_bytes as nat,
        }
    }
}

/// The policy that applies where a caller gives none.
pub open spec fn default_options() -> OptionsView {
    OptionsView { read_limits: blte::default_limits(), max_metadata_bytes: 0x400_0000 }
}

/// The smaller of a limit and the metadata limit.
pub open spec fn capped(n: usize, cap: nat) -> usize {
    if n <= cap {
        n
    } else {
        cap as usize
    }
}

/// The limits for encoded objects that are read while a storage opens: the
/// metadata limit applies to both their encoded and their decoded form.
pub open spec fn metadata_limits(o: OptionsView) -> ReadLimits {
    let l = o.read_limits;
    let cap = o.max_metadata_bytes;
    ReadLimits {
        max_encoded_bytes: capped(l.max_encoded_bytes, cap),
        max_decoded_bytes: capped(l.max_decoded_bytes, cap),
        max_chunk_decoded_bytes: capped(l.max_chunk_decoded_bytes, cap),
        max_chunk_count: l.max_chunk_count,
        max_nesting: l.max_nesting,
        initial_reserve_bytes: capped(l.initial_reserve_bytes, cap),
    }
}

fn smaller(a: usize, b: usize) -> (r: usize)
    ensures
        r == capped(a, b as nat),
{
    if a <= b {
        a
    } else {
        b
    }
}

impl Default for StorageOptions {
    fn default() -> (r: StorageOptions)
        ensures
            r@ == default_options(),
    {
        StorageOptions {
            read_limits: ReadLimits::default(),
            max_metadata_bytes: 64 * 1024 * 1024,
        }
    }
}

impl StorageOptions {
    /// Creates the default secure resource policy.
    pub fn new() -> (r: StorageOptions)
        ensures
            r@ == default_options(),
    {
        StorageOptions::default()
    }

    /// Limits for encoded CASC objects and BLTE decoding.
    pub fn read_limits(&self) -> (r: ReadLimits)
        ensures
            r == self@.read_limits,
    {
        self.read_limits
    }

    /// Maximum bytes read for each bootstrap metadata file.
    pub fn max_metadata_bytes(&self) -> (n: usize)
        ensures
            n == self@.max_metadata_bytes,
    {
        self.max_metadata_bytes
    }

    /// Replaces the encoded-object and BLTE limits.
    pub fn with_read_limits(self, read_limits: ReadLimits) -> (r: StorageOptions)
        ensures
            r@ == (OptionsView { read_limits, max_metadata_bytes: self@.max_metadata_bytes }),
    {
        StorageOptions { read_limits, max_metadata_bytes: self.max_metadata_bytes }
    }

    /// Replaces the per-file bootstrap metadata limit.
    pub fn with_max_metadata_bytes(self, max_metadata_bytes: usize) -> (r: StorageOptions)
        ensures
            r@ == (OptionsView {
                read_limits: self@.read_limits,
                max_metadata_bytes: max_metadata_bytes as nat,
            }),
    {
        StorageOptions { read_limits: self.read_limits, max_metadata_bytes }
    }

    /// Applies the metadata cap to both encoded and decoded bootstrap
    /// objects. Encoding and root files are BLTE objects, so bounding only
    /// the text configs and index files would still allow oversized parser
    /// inputs during open.
    pub fn metadata_read_limits(&self) -> (r: ReadLimits)
        ensures
            r == metadata_limits(self@),
    {
        let cap = self.max_metadata_bytes;
        ReadLimits {
            max_encoded_bytes: smaller(self.read_limits.max_encoded_bytes, cap),
            max_decoded_bytes: smaller(self.read_limits.max_decoded_bytes, cap),
            max_chunk_decoded_bytes: smaller(self.read_limits.max_chunk_decoded_bytes, cap),
            max_chunk_count: self.read_limits.max_chunk_count,
            max_nesting: self.read_limits.max_nesting,
            initial_reserve_bytes: smaller(self.read_limits.initial_reserve_bytes, cap),
        }
    }
}

// ---------------------------------------------------------------------
// Spans

/// Whether the span of an index entry may be read at all.
pub open spec fn span_request(entry: IdxEntry, limit: nat) -> Result<(), ErrorView> {
    if entry.encoded_size <= 30 {
        Err(error::malformed_view("span"@, "span has no BLTE payload"@))
    } else if entry.encoded_size - 30 > limit {
        Err(error::limit_view("local encoded span"@, limit))
    } else if entry.offset + entry.encoded_size > u64::MAX {
        Err(error::malformed_view("span"@, "span offset overflows u64"@))
    } else {
        Ok(())
    }
}

/// The first 9 bytes of the key in a span header, which stores it reversed.
pub open spec fn span_key(span: Seq<u8>) -> Seq<u8> {
    Seq::new(9, |i: int| span[15 - i])
}

/// Whether a span is the one that an index entry names.
pub open spec fn checked_span(span: Seq<u8>, ekey: Seq<u8>, entry: IdxEntry) -> Result<
    Seq<u8>,
    ErrorView,
> {
    let size = bytes::le_at(span, 16, 4);
    if span.len() < 30 {
        Err(error::malformed_view("span"@, "truncated span header"@))
    } else if span_key(span) != ekey.subrange(0, 9) {
        Err(error::malformed_view("span"@, "span header EKey does not match index entry"@))
    } else if size != entry.encoded_size {
        Err(
            error::malformed_view(
                "span"@,
                "span header size "@ + text::dec(size) + " disagrees with index entry "@
                    + text::dec(entry.encoded_size as nat),
            ),
        )
    } else if jenkins::hash2(span.subrange(0, 0x16), SPAN_JENKINS_SEED, 0).0 != bytes::le_at(
        span,
        0x16,
        4,
    ) {
        Err(ErrorView::ChecksumMismatch("local span header Jenkins hash"@))
    } else {
        Ok(span)
    }
}

/// `out` is what reading the span of `entry` from an open archive can give.
pub open spec fn span_read<F: ReadAt>(
    f: F,
    ekey: Seq<u8>,
    entry: IdxEntry,
    out: Result<Seq<u8>, ErrorView>,
) -> bool {
    let offset = entry.offset as nat;
    let size = entry.encoded_size as nat;
    ||| out is Err && f.read_fails(offset, size, out->Err_0)
    ||| exists|span: Seq<u8>| #[trigger]
        f.reads(offset, span) && span.len() == size && out == checked_span(span, ekey, entry)
}

/// `out` is what acquiring the span of `entry` can give.
pub open spec fn span_outcome<P: StorageProvider>(
    provider: P,
    ekey: Seq<u8>,
    entry: IdxEntry,
    limit: nat,
    out: Result<Seq<u8>, ErrorView>,
) -> bool {
    match span_request(entry, limit) {
        Err(e) => out == Err::<Seq<u8>, ErrorView>(e),
        Ok(_) => {
            ||| out is Err && provider.refuses(archives::archive_path(entry.archive), out->Err_0)
            ||| exists|f: P::File| #[trigger]
                provider.gives(archives::archive_path(entry.archive), f) && span_read(f, ekey, entry, out)
        },
    }
}

/// What acquired span bytes give.
pub open spec fn span_verdict(
    acquired: Result<Seq<u8>, ErrorView>,
    expected: ExpectedView,
    limits: ReadLimits,
) -> Result<Seq<u8>, ErrorView> {
    match acquired {
        Err(e) => Err(e),
        Ok(span) => object::verified(span, expected, limits, 30),
    }
}

/// `out` is what reading the content of an encoding key can give.
pub open spec fn ekey_outcome<P: StorageProvider>(
    provider: P,
    index: Map<Seq<u8>, IdxEntry>,
    limits: ReadLimits,
    ekey: Seq<u8>,
    expected: ExpectedView,
    out: Result<Seq<u8>, ErrorView>,
) -> bool {
    let key = ekey.subrange(0, 9);
    if !index.contains_key(key) {
        out == Err::<Seq<u8>, ErrorView>(ErrorView::NotFound(keys::key_hex(ekey)))
    } else {
        match object::size_status(expected, limits) {
            Err(e) => out == Err::<Seq<u8>, ErrorView>(e),
            Ok(_) => exists|a: Result<Seq<u8>, ErrorView>| #[trigger]
                span_outcome(provider, ekey, index[key], limits.max_encoded_bytes as nat, a) && out
                    == span_verdict(a, expected, limits),
        }
    }
}

/// Checks that a span is the one that an index entry names.
///
/// The span header EKey is stored byte-reversed, and is sometimes truncated
/// to 9 bytes (+ zero padding), so only the first 9 bytes of the logical key
/// are compared. The final four header bytes use a separate,
/// offset-dependent checksum algorithm that is deliberately left unverified.
pub fn check_span(span: Vec<u8>, ekey: &EncodingKey, entry: &IdxEntry) -> (r: Result<
    Vec<u8>,
    CascError,
>)
    ensures
        error::outcome(r) == checked_span(span@, ekey@, *entry),
{
    if span.len() < SPAN_HEADER_SIZE {
        return Err(CascError::malformed("span", "truncated span header"));
    }
    let mut i: usize = 0;
    while i < 9
        invariant
            0 <= i <= 9,
            span@.len() >= 30,
            forall|j: int| 0 <= j < i ==> span@[15 - j] == ekey@[j],
        decreases 9 - i,
    {
        if span[15 - i] != ekey.0[i] {
            proof {
                assert(span_key(span@)[i as int] != ekey@.subrange(0, 9)[i as int]);
            }
            return Err(
                CascError::malformed("span", "span header EKey does not match index entry"),
            );
        }
        i += 1;
    }
    assert(span_key(span@) =~= ekey@.subrange(0, 9));
    let size = bytes::le32(span.as_slice(), 16);
    if size != entry.encoded_size {
        let mut reason = "span header size ".to_owned();
        reason.append(text::dec_text(size as u64).as_str());
        reason.append(" disagrees with index entry ");
        reason.append(text::dec_text(entry.encoded_size as u64).as_str());
        return Err(CascError::malformed("span", reason.as_str()));
    }
    let expected_hash = bytes::le32(span.as_slice(), 0x16);
    let actual_hash = jenkins::hashlittle2(
        bytes::cut(span.as_slice(), 0, 0x16),
        SPAN_JENKINS_SEED,
        0,
    ).0;
    if actual_hash != expected_hash {
        return Err(CascError::ChecksumMismatch("local span header Jenkins hash"));
    }
    Ok(span)
}

/// The EKey-addressed lower half of a storage: the merged local index plus
/// lazily-opened archives. This exists separately from [`Storage`] so the
/// bootstrap can read the encoding table before the CKey layer is up.
#[verifier::reject_recursive_types(P)]
pub struct SpanReader<P: StorageProvider> {
    pub archives: Archives<P>,
    pub index: LocalIndex,
    pub limits: ReadLimits,
}

impl<P: StorageProvider> SpanReader<P> {
    pub fn new(provider: P, index: LocalIndex, limits: ReadLimits) -> (r: SpanReader<P>)
        requires
            index.wf(),
        ensures
            r.archives.source() == provider,
            r.index == index,
            r.limits == limits,
    {
        SpanReader { archives: Archives::new(provider, &index), index, limits }
    }

    /// Reads and BLTE-decodes the span for `ekey`. When `expected_ckey` is
    /// given, the decoded bytes' MD5 is verified against it.
    pub fn read_by_ekey(
        &self,
        ekey: &EncodingKey,
        expected_ckey: Option<&ContentKey>,
        decoded_size: Option<u64>,
    ) -> (r: Result<Vec<u8>, CascError>)
        requires
            self.index.wf(),
        ensures
            ekey_outcome(
                self.archives.source(),
                self.index@,
                self.limits,
                ekey@,
                (ExpectedObject { ckey: expected_ckey, decoded_size })@,
                error::outcome(r),
            ),
    {
        let entry = match self.index.lookup(ekey) {
            Some(e) => *e,
            None => {
                return Err(CascError::NotFound(ekey.to_string()));
            },
        };
        let expected = ExpectedObject { ckey: expected_ckey, decoded_size };
        let acquire = |encoded_limit: usize| -> (a: Result<Vec<u8>, CascError>)
            ensures
                span_outcome(
                    self.archives.source(),
                    ekey@,
                    entry,
                    encoded_limit as nat,
                    error::outcome(a),
                ),
            { self.read_span(ekey, &entry, encoded_limit) };
        let r = object::read_verified_prefixed(expected, self.limits, SPAN_HEADER_SIZE, acquire);
        proof {
            if object::size_status(expected@, self.limits) is Ok {
                let a = choose|a: Result<Vec<u8>, CascError>|
                    {
                        &&& #[trigger] call_ensures(acquire, (self.limits.max_encoded_bytes,), a)
                        &&& error::outcome(r) == (match a {
                            Err(e) => Err(e@),
                            Ok(v) => object::verified(v@, expected@, self.limits, 30),
                        })
                    };
                assert(span_outcome(
                    self.archives.source(),
                    ekey@,
                    entry,
                    self.limits.max_encoded_bytes as nat,
                    error::outcome(a),
                ));
                assert(error::outcome(r) == span_verdict(
                    error::outcome(a),
                    expected@,
                    self.limits,
                ));
            }
        }
        r
    }

    /// Acquires a complete span (30-byte header plus BLTE stream),
    /// sanity-checking the header against the index entry. The verification
    /// boundary decodes only the suffix without copying it.
    pub fn read_span(&self, ekey: &EncodingKey, entry: &IdxEntry, encoded_limit: usize) -> (r:
        Result<Vec<u8>, CascError>)
        ensures
            span_outcome(
                self.archives.source(),
                ekey@,
                *entry,
                encoded_limit as nat,
                error::outcome(r),
            ),
    {
        if entry.encoded_size <= 30 {
            // Placeholder spans are filtered at idx parse time; seeing one
            // here means the index and archives disagree.
            return Err(CascError::malformed("span", "span has no BLTE payload"));
        }
        if entry.encoded_size as u64 - 30 > encoded_limit as u64 {
            return Err(CascError::limit("local encoded span", encoded_limit));
        }
        let span_size = entry.encoded_size as usize;
        if entry.offset > u64::MAX - entry.encoded_size as u64 {
            return Err(CascError::malformed("span", "span offset overflows u64"));
        }
        let archive = match self.archives.open(entry.archive) {
            Ok(a) => a,
            Err(e) => {
                return Err(e);
            },
        };
        let ghost file = archive.content();
        assert(self.archives.source().gives(archives::archive_path(entry.archive), file));
        // A single positioned read avoids a header read followed by a second
        // payload read for every object.
        let span = match archive.file().read_vec_at(entry.offset, span_size) {
            Ok(v) => v,
            Err(e) => {
                return Err(e);
            },
        };
        check_span(span, ekey, entry)
    }
}

// ---------------------------------------------------------------------
// Metadata files

/// `out` is what reading a metadata file of at most `max` bytes can give.
pub open spec fn metadata_outcome<P: StorageProvider>(
    provider: P,
    path: Seq<char>,
    max: nat,
    out: Result<Seq<u8>, ErrorView>,
) -> bool {
    ||| out is Err && provider.refuses(path, out->Err_0)
    ||| exists|f: P::File| #[trigger] provider.gives(path, f) && metadata_read(f, max, out)
}

/// `out` is what reading an open metadata file of at most `max` bytes can
/// give.
pub open spec fn metadata_read<F: ReadAt>(f: F, max: nat, out: Result<Seq<u8>, ErrorView>) -> bool {
    match out {
        Ok(data) => data.len() <= max && f.measures(data.len()) && f.reads(0, data),
        Err(e) => {
            ||| f.len_fails(e)
            ||| exists|n: nat| #[trigger] f.measures(n) && n <= max && f.read_fails(0, n, e)
            ||| exists|n: nat| #[trigger]
                f.measures(n) && n > max && e == error::limit_view("storage metadata file"@, max)
        },
    }
}

/// Reads a whole metadata file of at most `max_bytes` bytes, with one
/// positioned read.
pub fn read_metadata<P: StorageProvider>(provider: &P, path: &str, max_bytes: usize) -> (r: Result<
    Vec<u8>,
    CascError,
>)
    ensures
        metadata_outcome(*provider, path@, max_bytes as nat, error::outcome(r)),
{
    let file = match provider.open(path) {
        Ok(f) => f,
        Err(e) => {
            return Err(e);
        },
    };
    assert(provider.gives(path@, file));
    let len = match file.len() {
        Ok(n) => n,
        Err(e) => {
            return Err(e);
        },
    };
    if len > max_bytes as u64 {
        return Err(CascError::limit("storage metadata file", max_bytes));
    }
    file.read_vec_at(0, len as usize)
}

// ---------------------------------------------------------------------
// Opening: the build

/// Where the build config of a build key lies.
pub open spec fn config_path(key: Seq<u8>) -> Seq<char> {
    let hex = keys::key_hex(key);
    "Data/config/"@ + hex.subrange(0, 2) + "/"@ + hex.subrange(2, 4) + "/"@ + hex
}

/// The records of a `.build.info` file, and the build key of the active
/// record, or of the first where none is active.
pub open spec fn chosen_build(data: Seq<u8>) -> Result<(Seq<RecordView>, Seq<u8>), ErrorView> {
    match config::build_info(text::utf8_lossy(data)) {
        Err(e) => Err(e),
        Ok(records) => {
            let i = config::first_active(records);
            if records.len() == 0 {
                Err(error::malformed_view("build info"@, "no build records"@))
            } else {
                match config::record_build_key(if i < records.len() { records[i] } else { records[0] }) {
                    Err(e) => Err(e),
                    Ok(key) => Ok((records, key)),
                }
            }
        },
    }
}

/// What the bytes of a config file give, where `key` is the key that it was
/// fetched by: nothing is parsed before the digest has been checked.
pub open spec fn checked_config(data: Seq<u8>, key: Seq<u8>, what: Seq<char>) -> Result<
    Map<Seq<char>, Seq<char>>,
    ErrorView,
> {
    match digest::raw_ckey_status(data, key, what) {
        Err(e) => Err(e),
        Ok(_) => config::build_config(text::utf8_lossy(data)),
    }
}

/// What the config file's bytes give, beside the records.
pub open spec fn build_verdict(
    records: Seq<RecordView>,
    key: Seq<u8>,
    data: Result<Seq<u8>, ErrorView>,
) -> Result<(Seq<RecordView>, Map<Seq<char>, Seq<char>>), ErrorView> {
    match data {
        Err(e) => Err(e),
        Ok(bytes) => match checked_config(bytes, key, "build config"@) {
            Err(e) => Err(e),
            Ok(m) => Ok((records, m)),
        },
    }
}

/// `out` is what the build of a storage can be, where `info` is what reading
/// its `.build.info` gave.
pub open spec fn config_outcome<P: StorageProvider>(
    provider: P,
    max: nat,
    info: Result<Seq<u8>, ErrorView>,
    out: Result<(Seq<RecordView>, Map<Seq<char>, Seq<char>>), ErrorView>,
) -> bool {
    match info {
        Err(e) => out == Err::<(Seq<RecordView>, Map<Seq<char>, Seq<char>>), ErrorView>(e),
        Ok(bytes) => match chosen_build(bytes) {
            Err(e) => out == Err::<(Seq<RecordView>, Map<Seq<char>, Seq<char>>), ErrorView>(e),
            Ok((records, key)) => exists|c: Result<Seq<u8>, ErrorView>| #[trigger]
                metadata_outcome(provider, config_path(key), max, c) && out == build_verdict(
                    records,
                    key,
                    c,
                ),
        },
    }
}

/// `out` is what the build of a storage can be: its records and the active
/// build's config.
pub open spec fn build_outcome<P: StorageProvider>(
    provider: P,
    max: nat,
    out: Result<(Seq<RecordView>, Map<Seq<char>, Seq<char>>), ErrorView>,
) -> bool {
    exists|a: Result<Seq<u8>, ErrorView>| #[trigger]
        metadata_outcome(provider, ".build.info"@, max, a) && config_outcome(provider, max, a, out)
}

/// Parses a `.build.info` file and chooses the build to open.
pub fn choose_build(data: &[u8]) -> (r: Result<(BuildInfo, ContentKey), CascError>)
    ensures
        error::outcome(r) == chosen_build(data@),
{
    let input = text::lossy_text(data);
    let info = match BuildInfo::parse(input.as_str()) {
        Ok(i) => i,
        Err(e) => {
            return Err(e);
        },
    };
    let records = info.records();
    assert(config::record_views(records@).len() == records@.len());
    if records.len() == 0 {
        proof {
            assert(info@.len() == 0);
        }
        return Err(CascError::malformed("build info", "no build records"));
    }
    let record = match info.active_record() {
        Some(r) => r,
        None => {
            assert(config::record_views(records@)[0] == records@[0]@);
            &records[0]
        },
    };
    let key = match record.build_key() {
        Ok(k) => k,
        Err(e) => {
            return Err(e);
        },
    };
    Ok((info, key))
}

/// Checks a config file against its key, and parses it.
pub fn check_config(data: &[u8], key: &ContentKey, what: &'static str) -> (r: Result<
    BuildConfig,
    CascError,
>)
    ensures
        error::outcome(r) == checked_config(data@, key@, what@),
        r matches Ok(c) ==> c.wf(),
{
    match digest::verify_raw_ckey(data, key, what) {
        Ok(_) => {},
        Err(e) => {
            return Err(e);
        },
    }
    let input = text::lossy_text(data);
    BuildConfig::parse(input.as_str())
}

/// The path of the build config of a build key.
fn config_file(key: &ContentKey) -> (s: String)
    ensures
        s@ == config_path(key@),
{
    let hex = key.to_string();
    proof {
        keys::lemma_hex_ascii(key@);
    }
    let mut s = "Data/config/".to_owned();
    s.append(hex.as_str().substring_ascii(0, 2));
    s.append("/");
    s.append(hex.as_str().substring_ascii(2, 4));
    s.append("/");
    s.append(hex.as_str());
    s
}

/// Reads the build of a storage.
fn open_build<P: StorageProvider>(provider: &P, max_bytes: usize) -> (r: Result<
    (BuildInfo, BuildConfig),
    CascError,
>)
    ensures
        build_outcome(*provider, max_bytes as nat, error::outcome(r)),
        r matches Ok((_, c)) ==> c.wf(),
{
    let info_bytes = match read_metadata(provider, ".build.info", max_bytes) {
        Ok(v) => v,
        Err(e) => {
            assert(config_outcome(
                *provider,
                max_bytes as nat,
                Err(e@),
                Err::<(Seq<RecordView>, Map<Seq<char>, Seq<char>>), ErrorView>(e@),
            ));
            return Err(e);
        },
    };
    assert(metadata_outcome(*provider, ".build.info"@, max_bytes as nat, Ok(info_bytes@)));
    let (info, key) = match choose_build(info_bytes.as_slice()) {
        Ok(p) => p,
        Err(e) => {
            return Err(e);
        },
    };
    let path = config_file(&key);
    let config_bytes = match read_metadata(provider, path.as_str(), max_bytes) {
        Ok(v) => v,
        Err(e) => {
            assert(metadata_outcome(
                *provider,
                config_path(key@),
                max_bytes as nat,
                Err::<Seq<u8>, ErrorView>(e@),
            ));
            return Err(e);
        },
    };
    assert(metadata_outcome(
        *provider,
        config_path(key@),
        max_bytes as nat,
        Ok::<Seq<u8>, ErrorView>(config_bytes@),
    ));
    match check_config(config_bytes.as_slice(), &key, "build config") {
        Ok(c) => Ok((info, c)),
        Err(e) => Err(e),
    }
}

// ---------------------------------------------------------------------
// Opening: the index

/// What the bytes of an index file make of the index before it.
pub open spec fn index_verdict(m: Map<Seq<u8>, IdxEntry>, data: Result<Seq<u8>, ErrorView>) -> Result<
    Map<Seq<u8>, IdxEntry>,
    ErrorView,
> {
    match data {
        Err(e) => Err(e),
        Ok(bytes) => match idx::file_status(bytes, m.dom().len()) {
            Err(e) => Err(e),
            Ok(_) => Ok(idx::file_merged(bytes, m)),
        },
    }
}

/// `out` is what merging one further index file can give.
pub open spec fn file_outcome<P: StorageProvider>(
    provider: P,
    max: nat,
    name: Seq<char>,
    before: Result<Map<Seq<u8>, IdxEntry>, ErrorView>,
    out: Result<Map<Seq<u8>, IdxEntry>, ErrorView>,
) -> bool {
    match before {
        Err(e) => out == before,
        Ok(m) => exists|b: Result<Seq<u8>, ErrorView>| #[trigger]
            metadata_outcome(provider, "Data/data/"@ + name, max, b) && out == index_verdict(m, b),
    }
}

/// `out` is what merging the index files of the given names can give.
pub open spec fn files_outcome<P: StorageProvider>(
    provider: P,
    max: nat,
    names: Seq<Seq<char>>,
    out: Result<Map<Seq<u8>, IdxEntry>, ErrorView>,
) -> bool
    decreases names.len(),
{
    if names.len() == 0 {
        out == Ok::<Map<Seq<u8>, IdxEntry>, ErrorView>(Map::empty())
    } else {
        exists|before: Result<Map<Seq<u8>, IdxEntry>, ErrorView>|
            files_outcome(provider, max, names.drop_last(), before) && #[trigger] file_outcome(
                provider,
                max,
                names.last(),
                before,
                out,
            )
    }
}

/// `out` is what the index can be, where `listing` is what listing the
/// directory of the index files gave.
pub open spec fn listed_outcome<P: StorageProvider>(
    provider: P,
    max: nat,
    listing: Result<Seq<Seq<char>>, ErrorView>,
    out: Result<Map<Seq<u8>, IdxEntry>, ErrorView>,
) -> bool {
    match listing {
        Err(e) => out == Err::<Map<Seq<u8>, IdxEntry>, ErrorView>(e),
        Ok(names) => {
            let chosen = idx::winners(names, 16);
            if chosen.len() == 0 {
                out == Err::<Map<Seq<u8>, IdxEntry>, ErrorView>(
                    error::malformed_view("local index"@, "no .idx files found under Data/data"@),
                )
            } else {
                files_outcome(provider, max, chosen, out)
            }
        },
    }
}

/// `out` is what the merged index of a storage can be.
pub open spec fn index_outcome<P: StorageProvider>(
    provider: P,
    max: nat,
    out: Result<Map<Seq<u8>, IdxEntry>, ErrorView>,
) -> bool {
    exists|l: Result<Seq<Seq<char>>, ErrorView>| #[trigger]
        provider.lists("Data/data"@, l) && listed_outcome(provider, max, l, out)
}

proof fn lemma_files_fail<P: StorageProvider>(
    provider: P,
    max: nat,
    names: Seq<Seq<char>>,
    i: int,
    e: ErrorView,
)
    requires
        0 <= i <= names.len(),
        files_outcome(
            provider,
            max,
            names.subrange(0, i),
            Err::<Map<Seq<u8>, IdxEntry>, ErrorView>(e),
        ),
    ensures
        files_outcome(provider, max, names, Err::<Map<Seq<u8>, IdxEntry>, ErrorView>(e)),
    decreases names.len() - i,
{
    if i < names.len() {
        let next = names.subrange(0, i + 1);
        assert(next.drop_last() =~= names.subrange(0, i));
        assert(file_outcome(
            provider,
            max,
            next.last(),
            Err::<Map<Seq<u8>, IdxEntry>, ErrorView>(e),
            Err::<Map<Seq<u8>, IdxEntry>, ErrorView>(e),
        ));
        lemma_files_fail(provider, max, names, i + 1, e);
    } else {
        assert(names.subrange(0, i) =~= names);
    }
}

/// Reads and merges the index files of a storage. Only `Data/data` is a real
/// v7 index set; other directories hold indices for storages that are not
/// read here.
fn open_index<P: StorageProvider>(provider: &P, max_bytes: usize) -> (r: Result<
    LocalIndex,
    CascError,
>)
    ensures
        index_outcome(*provider, max_bytes as nat, error::outcome(r)),
        r matches Ok(i) ==> i.wf(),
{
    let names = match provider.list_dir("Data/data") {
        Ok(v) => v,
        Err(e) => {
            assert(listed_outcome(
                *provider,
                max_bytes as nat,
                Err(e@),
                Err::<Map<Seq<u8>, IdxEntry>, ErrorView>(e@),
            ));
            return Err(e);
        },
    };
    let idx_names = LocalIndex::select_files(names.as_slice());
    let ghost chosen = text::texts(idx_names@);
    let ghost listing = Ok::<Seq<Seq<char>>, ErrorView>(text::texts(names@));
    assert(provider.lists("Data/data"@, listing));
    assert(chosen.len() == idx_names@.len());
    if idx_names.len() == 0 {
        return Err(CascError::malformed("local index", "no .idx files found under Data/data"));
    }
    let mut index = LocalIndex::new();
    let mut i: usize = 0;
    assert(chosen.subrange(0, 0) =~= seq![]);
    while i < idx_names.len()
        invariant
            0 <= i <= idx_names@.len(),
            idx_names@.len() > 0,
            chosen == text::texts(idx_names@),
            chosen == idx::winners(text::texts(names@), 16),
            listing == Ok::<Seq<Seq<char>>, ErrorView>(text::texts(names@)),
            provider.lists("Data/data"@, listing),
            index.wf(),
            files_outcome(
                *provider,
                max_bytes as nat,
                chosen.subrange(0, i as int),
                Ok::<Map<Seq<u8>, IdxEntry>, ErrorView>(index@),
            ),
        decreases idx_names@.len() - i,
    {
        let ghost seen = chosen.subrange(0, i + 1);
        let ghost before = Ok::<Map<Seq<u8>, IdxEntry>, ErrorView>(index@);
        proof {
            assert(seen.drop_last() =~= chosen.subrange(0, i as int));
            assert(seen.last() == idx_names@[i as int]@);
        }
        let path = text::cat2("Data/data/", idx_names[i].as_str());
        let data = match read_metadata(provider, path.as_str(), max_bytes) {
            Ok(v) => v,
            Err(e) => {
                proof {
                    let failed = Err::<Map<Seq<u8>, IdxEntry>, ErrorView>(e@);
                    assert(metadata_outcome(
                        *provider,
                        "Data/data/"@ + seen.last(),
                        max_bytes as nat,
                        Err::<Seq<u8>, ErrorView>(e@),
                    ));
                    assert(file_outcome(
                        *provider,
                        max_bytes as nat,
                        seen.last(),
                        before,
                        failed,
                    ));
                    lemma_files_fail(*provider, max_bytes as nat, chosen, i + 1, e@);
                    assert(listed_outcome(*provider, max_bytes as nat, listing, failed));
                }
                return Err(e);
            },
        };
        let ghost read = Ok::<Seq<u8>, ErrorView>(data@);
        assert(metadata_outcome(
            *provider,
            "Data/data/"@ + seen.last(),
            max_bytes as nat,
            read,
        ));
        match index.add_file(data.as_slice()) {
            Ok(_) => {
                proof {
                    let after = Ok::<Map<Seq<u8>, IdxEntry>, ErrorView>(index@);
                    assert(after == index_verdict(before->Ok_0, read));
                    assert(file_outcome(*provider, max_bytes as nat, seen.last(), before, after));
                }
            },
            Err(e) => {
                proof {
                    let failed = Err::<Map<Seq<u8>, IdxEntry>, ErrorView>(e@);
                    assert(failed == index_verdict(before->Ok_0, read));
                    assert(file_outcome(*provider, max_bytes as nat, seen.last(), before, failed));
                    lemma_files_fail(*provider, max_bytes as nat, chosen, i + 1, e@);
                    assert(listed_outcome(*provider, max_bytes as nat, listing, failed));
                }
                return Err(e);
            },
        }
        i += 1;
    }
    proof {
        assert(chosen.subrange(0, i as int) =~= chosen);
        assert(listed_outcome(
            *provider,
            max_bytes as nat,
            listing,
            Ok::<Map<Seq<u8>, IdxEntry>, ErrorView>(index@),
        ));
    }
    Ok(index)
}

// ---------------------------------------------------------------------
// Opening: the encoding table and the catalog

/// What a build config says of the encoding table: its keys and its decoded
/// size, where it is given.
pub open spec fn encoding_expected(m: Map<Seq<char>, Seq<char>>, ckey: Seq<u8>) -> ExpectedView {
    ExpectedView {
        ckey: Some(ckey),
        size: match config::config_encoding_size(m) {
            Some((decoded, _)) => Some(decoded),
            None => None,
        },
    }
}

/// The encoding table, and the entry of the root file in it, where `data` is
/// what reading the encoding table's content gave.
pub open spec fn encoding_verdict(
    m: Map<Seq<char>, Seq<char>>,
    data: Result<Seq<u8>, ErrorView>,
) -> Result<(Seq<EncodingView>, EncodingView), ErrorView> {
    match data {
        Err(e) => Err(e),
        Ok(bytes) => match encoding::table(bytes) {
            Err(e) => Err(e),
            Ok(table) => match config::config_root(m) {
                Err(e) => Err(e),
                Ok(key) => match encoding::found(table, key) {
                    None => Err(
                        error::malformed_view("root file"@, "root CKey not in encoding table"@),
                    ),
                    Some(entry) => Ok((table, entry)),
                },
            },
        },
    }
}

/// The encoding table and the catalog, where `data` is what reading the root
/// file's content gave.
pub open spec fn root_verdict(table: Seq<EncodingView>, data: Result<Seq<u8>, ErrorView>) -> Result<
    (Seq<EncodingView>, Seq<RootView>),
    ErrorView,
> {
    match data {
        Err(e) => Err(e),
        Ok(bytes) => match root::root_file(bytes) {
            Err(e) => Err(e),
            Ok(rows) => Ok((table, rows)),
        },
    }
}

/// `out` is what the catalog can be, where the encoding table has been read.
pub open spec fn catalog_outcome<P: StorageProvider>(
    provider: P,
    index: Map<Seq<u8>, IdxEntry>,
    limits: ReadLimits,
    found: Result<(Seq<EncodingView>, EncodingView), ErrorView>,
    out: Result<(Seq<EncodingView>, Seq<RootView>), ErrorView>,
) -> bool {
    match found {
        Err(e) => out == Err::<(Seq<EncodingView>, Seq<RootView>), ErrorView>(e),
        Ok((table, entry)) => exists|b: Result<Seq<u8>, ErrorView>| #[trigger]
            ekey_outcome(
                provider,
                index,
                limits,
                entry.ekey,
                ExpectedView { ckey: Some(entry.ckey), size: Some(entry.size) },
                b,
            ) && out == root_verdict(table, b),
    }
}

/// `out` is what the encoding table and the catalog can be.
pub open spec fn tables_outcome<P: StorageProvider>(
    provider: P,
    index: Map<Seq<u8>, IdxEntry>,
    m: Map<Seq<char>, Seq<char>>,
    limits: ReadLimits,
    out: Result<(Seq<EncodingView>, Seq<RootView>), ErrorView>,
) -> bool {
    match config::config_encoding(m) {
        Err(e) => out == Err::<(Seq<EncodingView>, Seq<RootView>), ErrorView>(e),
        Ok((ckey, ekey)) => exists|a: Result<Seq<u8>, ErrorView>| #[trigger]
            ekey_outcome(provider, index, limits, ekey, encoding_expected(m, ckey), a)
                && catalog_outcome(provider, index, limits, encoding_verdict(m, a), out),
    }
}

/// Parses the encoding table and finds the root file in it.
pub fn find_root(data: &[u8], config: &BuildConfig) -> (r: Result<
    (EncodingTable, ContentKey, EncodingKey, u64),
    CascError,
>)
    requires
        config.wf(),
    ensures
        match r {
            Ok((t, ckey, ekey, size)) => t.wf() && encoding_verdict(config@, Ok(data@)) == Ok::<
                (Seq<EncodingView>, EncodingView),
                ErrorView,
            >((t@, EncodingView { ckey: ckey@, ekey: ekey@, size: size as nat })),
            Err(e) => encoding_verdict(config@, Ok(data@)) == Err::<
                (Seq<EncodingView>, EncodingView),
                ErrorView,
            >(e@),
        },
{
    let table = match EncodingTable::parse(data) {
        Ok(t) => t,
        Err(e) => {
            return Err(e);
        },
    };
    let root_ckey = match config.root() {
        Ok(k) => k,
        Err(e) => {
            return Err(e);
        },
    };
    let (ekey, size) = match table.lookup(&root_ckey) {
        Some(entry) => (entry.ekey, entry.size),
        None => {
            return Err(CascError::malformed("root file", "root CKey not in encoding table"));
        },
    };
    Ok((table, root_ckey, ekey, size))
}

proof fn lemma_catalog<P: StorageProvider>(
    provider: P,
    index: Map<Seq<u8>, IdxEntry>,
    limits: ReadLimits,
    table: Seq<EncodingView>,
    entry: EncodingView,
    b: Result<Seq<u8>, ErrorView>,
)
    requires
        ekey_outcome(
            provider,
            index,
            limits,
            entry.ekey,
            ExpectedView { ckey: Some(entry.ckey), size: Some(entry.size) },
            b,
        ),
    ensures
        catalog_outcome(
            provider,
            index,
            limits,
            Ok((table, entry)),
            root_verdict(table, b),
        ),
{
}

proof fn lemma_tables<P: StorageProvider>(
    provider: P,
    index: Map<Seq<u8>, IdxEntry>,
    m: Map<Seq<char>, Seq<char>>,
    limits: ReadLimits,
    ckey: Seq<u8>,
    ekey: Seq<u8>,
    a: Result<Seq<u8>, ErrorView>,
    out: Result<(Seq<EncodingView>, Seq<RootView>), ErrorView>,
)
    requires
        config::config_encoding(m) == Ok::<(Seq<u8>, Seq<u8>), ErrorView>((ckey, ekey)),
        ekey_outcome(provider, index, limits, ekey, encoding_expected(m, ckey), a),
        catalog_outcome(provider, index, limits, encoding_verdict(m, a), out),
    ensures
        tables_outcome(provider, index, m, limits, out),
{
    match config::config_encoding(m) {
        Ok((c, e)) => {
            assert(c == ckey && e == ekey);
            assert(ekey_outcome(provider, index, limits, e, encoding_expected(m, c), a));
            assert(exists|a: Result<Seq<u8>, ErrorView>| #[trigger]
                ekey_outcome(provider, index, limits, e, encoding_expected(m, c), a)
                    && catalog_outcome(provider, index, limits, encoding_verdict(m, a), out));
        },
        Err(_) => {},
    }
}

/// Reads the catalog, whose root file has the given keys and size.
fn open_root<P: StorageProvider>(
    spans: &SpanReader<P>,
    table: EncodingTable,
    ckey: ContentKey,
    ekey: EncodingKey,
    size: u64,
) -> (r: Result<(EncodingTable, RootFile), CascError>)
    requires
        spans.index.wf(),
        table.wf(),
    ensures
        catalog_outcome(
            spans.archives.source(),
            spans.index@,
            spans.limits,
            Ok((table@, EncodingView { ckey: ckey@, ekey: ekey@, size: size as nat })),
            error::outcome(r),
        ),
        r matches Ok((t, f)) ==> t.wf() && f.wf(),
{
    let read = spans.read_by_ekey(&ekey, Some(&ckey), Some(size));
    let ghost b = error::outcome(read);
    proof {
        let entry = EncodingView { ckey: ckey@, ekey: ekey@, size: size as nat };
        assert((ExpectedObject { ckey: Some(&ckey), decoded_size: Some(size) })@ == (
        ExpectedView { ckey: Some(entry.ckey), size: Some(entry.size) }));
        lemma_catalog(spans.archives.source(), spans.index@, spans.limits, table@, entry, b);
    }
    match read {
        Ok(data) => match RootFile::parse(data.as_slice()) {
            Ok(f) => Ok((table, f)),
            Err(e) => Err(e),
        },
        Err(e) => Err(e),
    }
}

/// Reads the encoding table and the catalog. The encoding table is the one
/// file whose EKey the build config states directly; everything else resolves
/// CKey → EKey through it.
fn open_tables<P: StorageProvider>(spans: &SpanReader<P>, config: &BuildConfig) -> (r: Result<
    (EncodingTable, RootFile),
    CascError,
>)
    requires
        spans.index.wf(),
        config.wf(),
    ensures
        tables_outcome(
            spans.archives.source(),
            spans.index@,
            config@,
            spans.limits,
            error::outcome(r),
        ),
        r matches Ok((t, f)) ==> t.wf() && f.wf(),
{
    let (ckey, ekey) = match config.encoding() {
        Ok(p) => p,
        Err(e) => {
            return Err(e);
        },
    };
    let size: Option<u64> = match config.encoding_size() {
        Some((decoded, _)) => Some(decoded),
        None => None,
    };
    let read = spans.read_by_ekey(&ekey, Some(&ckey), size);
    let ghost a = error::outcome(read);
    assert((ExpectedObject { ckey: Some(&ckey), decoded_size: size })@ == encoding_expected(
        config@,
        ckey@,
    ));
    let r = match read {
        Ok(data) => match find_root(data.as_slice(), config) {
            Ok((table, root_ckey, root_ekey, root_size)) => open_root(
                spans,
                table,
                root_ckey,
                root_ekey,
                root_size,
            ),
            Err(e) => Err(e),
        },
        Err(e) => Err(e),
    };
    proof {
        lemma_tables(
            spans.archives.source(),
            spans.index@,
            config@,
            spans.limits,
            ckey@,
            ekey@,
            a,
            error::outcome(r),
        );
    }
    r
}

// ---------------------------------------------------------------------
// The storage

/// An opened CASC storage, ready to read files.
///
/// All read methods take `&self`; a `Storage` can be shared across threads
/// when the provider's file handles allow it.
#[verifier::reject_recursive_types(P)]
pub struct Storage<P: StorageProvider> {
    spans: SpanReader<P>,
    build_info: BuildInfo,
    build_config: BuildConfig,
    encoding: EncodingTable,
    root: RootFile,
}

/// What an opened storage holds.
pub struct StorageView {
    pub limits: ReadLimits,
    pub records: Seq<RecordView>,
    pub config: Map<Seq<char>, Seq<char>>,
    pub index: Map<Seq<u8>, IdxEntry>,
    pub encoding: Seq<EncodingView>,
    pub root: Seq<RootView>,
}

impl<P: StorageProvider> View for Storage<P> {
    type V = StorageView;

    closed spec fn view(&self) -> StorageView {
        StorageView {
            limits: self.spans.limits,
            records: self.build_info@,
            config: self.build_config@,
            index: self.spans.index@,
            encoding: self.encoding@,
            root: self.root@,
        }
    }
}

/// What a storage holds once its tables have been read.
pub open spec fn opened(
    options: OptionsView,
    records: Seq<RecordView>,
    m: Map<Seq<char>, Seq<char>>,
    index: Map<Seq<u8>, IdxEntry>,
    tables: Result<(Seq<EncodingView>, Seq<RootView>), ErrorView>,
) -> Result<StorageView, ErrorView> {
    match tables {
        Err(e) => Err(e),
        Ok((table, rows)) => Ok(
            StorageView {
                limits: options.read_limits,
                records,
                config: m,
                index,
                encoding: table,
                root: rows,
            },
        ),
    }
}

/// `out` is what opening can give, where the build and the index have been
/// read.
pub open spec fn open_with_index<P: StorageProvider>(
    provider: P,
    options: OptionsView,
    records: Seq<RecordView>,
    m: Map<Seq<char>, Seq<char>>,
    index: Result<Map<Seq<u8>, IdxEntry>, ErrorView>,
    out: Result<StorageView, ErrorView>,
) -> bool {
    match index {
        Err(e) => out == Err::<StorageView, ErrorView>(e),
        Ok(i) => exists|t: Result<(Seq<EncodingView>, Seq<RootView>), ErrorView>| #[trigger]
            tables_outcome(provider, i, m, metadata_limits(options), t) && out == opened(
                options,
                records,
                m,
                i,
                t,
            ),
    }
}

/// `out` is what opening can give, where the build has been read.
pub open spec fn open_with_build<P: StorageProvider>(
    provider: P,
    options: OptionsView,
    build: Result<(Seq<RecordView>, Map<Seq<char>, Seq<char>>), ErrorView>,
    out: Result<StorageView, ErrorView>,
) -> bool {
    match build {
        Err(e) => out == Err::<StorageView, ErrorView>(e),
        Ok((records, m)) => exists|i: Result<Map<Seq<u8>, IdxEntry>, ErrorView>| #[trigger]
            index_outcome(provider, options.max_metadata_bytes, i) && open_with_index(
                provider,
                options,
                records,
                m,
                i,
                out,
            ),
    }
}

/// `out` is what opening the storage behind `provider` can give.
pub open spec fn open_outcome<P: StorageProvider>(
    provider: P,
    options: OptionsView,
    out: Result<StorageView, ErrorView>,
) -> bool {
    exists|b: Result<(Seq<RecordView>, Map<Seq<char>, Seq<char>>), ErrorView>| #[trigger]
        build_outcome(provider, options.max_metadata_bytes, b) && open_with_build(
            provider,
            options,
            b,
            out,
        )
}

/// The outcome of opening a storage, by the storage's view.
pub open spec fn open_view<P: StorageProvider>(r: Result<Storage<P>, CascError>) -> Result<
    StorageView,
    ErrorView,
> {
    match r {
        Ok(s) => Ok(s@),
        Err(e) => Err(e@),
    }
}

/// `out` is what reading the content of a content key can give.
pub open spec fn ckey_outcome<P: StorageProvider>(
    provider: P,
    s: StorageView,
    ckey: Seq<u8>,
    out: Result<Seq<u8>, ErrorView>,
) -> bool {
    match encoding::found(s.encoding, ckey) {
        None => out == Err::<Seq<u8>, ErrorView>(ErrorView::NotFound(keys::key_hex(ckey))),
        Some(entry) => ekey_outcome(
            provider,
            s.index,
            s.limits,
            entry.ekey,
            ExpectedView { ckey: Some(ckey), size: Some(entry.size) },
            out,
        ),
    }
}

/// The outcome of reading a cataloged file: content that is not found is
/// reported as not installed.
pub open spec fn installed_view(path: Seq<char>, r: Result<Seq<u8>, ErrorView>) -> Result<
    Seq<u8>,
    ErrorView,
> {
    match r {
        Err(ErrorView::NotFound(_)) => Err(ErrorView::NotInstalled(path)),
        _ => r,
    }
}

/// `out` is what reading a file by its path can give.
pub open spec fn file_read_outcome<P: StorageProvider>(
    provider: P,
    s: StorageView,
    path: Seq<char>,
    out: Result<Seq<u8>, ErrorView>,
) -> bool {
    match root::cataloged(s.root, path) {
        None => out == Err::<Seq<u8>, ErrorView>(ErrorView::NotFound(path)),
        Some(row) => exists|a: Result<Seq<u8>, ErrorView>| #[trigger]
            ckey_outcome(provider, s, row.ckey, a) && out == installed_view(path, a),
    }
}

/// What asking for the size of a file gives.
pub open spec fn size_of(
    table: Seq<EncodingView>,
    rows: Seq<RootView>,
    path: Seq<char>,
) -> Result<nat, ErrorView> {
    match root::cataloged(rows, path) {
        None => Err(ErrorView::NotFound(path)),
        Some(row) => match encoding::found(table, row.ckey) {
            None => Err(ErrorView::NotFound(path)),
            Some(entry) => Ok(entry.size),
        },
    }
}

/// The file is cataloged and its content is present locally.
pub open spec fn installed(s: StorageView, path: Seq<char>) -> bool {
    match root::cataloged(s.root, path) {
        None => false,
        Some(row) => match encoding::found(s.encoding, row.ckey) {
            None => false,
            Some(entry) => s.index.contains_key(entry.ekey.subrange(0, 9)),
        },
    }
}

/// The paths of a catalog, in their order.
pub open spec fn catalog_paths(rows: Seq<RootView>) -> Seq<Seq<char>> {
    Seq::new(rows.len(), |i: int| rows[i].path)
}

/// String slices, taken by their views.
pub open spec fn str_views(v: Seq<&str>) -> Seq<Seq<char>> {
    Seq::new(v.len(), |i: int| v[i]@)
}

/// The paths of a catalog, in their order.
pub fn paths_of(root: &RootFile) -> (v: Vec<&str>)
    ensures
        str_views(v@) == catalog_paths(root@),
{
    let entries = root.entries();
    let ghost rows = root@;
    let mut v: Vec<&str> = Vec::new();
    let mut i: usize = 0;
    assert(str_views(v@) =~= catalog_paths(rows).subrange(0, 0));
    while i < entries.len()
        invariant
            0 <= i <= entries@.len(),
            rows == root::entry_views(entries@),
            str_views(v@) == catalog_paths(rows).subrange(0, i as int),
        decreases entries@.len() - i,
    {
        let ghost before = str_views(v@);
        assert(rows[i as int] == entries@[i as int]@);
        v.push(entries[i].path.as_str());
        assert(str_views(v@) =~= before.push(rows[i as int].path));
        i += 1;
        assert(str_views(v@) =~= catalog_paths(rows).subrange(0, i as int));
    }
    assert(catalog_paths(rows).subrange(0, i as int) =~= catalog_paths(rows));
    v
}

/// The decoded size of a file, from the encoding table and the catalog.
pub fn size_in(encoding: &EncodingTable, root: &RootFile, path: &str) -> (r: Result<u64, CascError>)
    requires
        encoding.wf(),
        root.wf(),
    ensures
        match r {
            Ok(n) => size_of(encoding@, root@, path@) == Ok::<nat, ErrorView>(n as nat),
            Err(e) => size_of(encoding@, root@, path@) == Err::<nat, ErrorView>(e@),
        },
{
    match root.lookup(path) {
        Some(entry) => match encoding.lookup(&entry.ckey) {
            Some(enc) => Ok(enc.size),
            None => Err(CascError::NotFound(path.to_owned())),
        },
        None => Err(CascError::NotFound(path.to_owned())),
    }
}

impl<P: StorageProvider> Storage<P> {
    /// The parts of the storage are well-formed.
    pub closed spec fn wf(&self) -> bool {
        &&& self.spans.index.wf()
        &&& self.build_config.wf()
        &&& self.encoding.wf()
        &&& self.root.wf()
    }

    /// The provider that the storage reads from.
    pub closed spec fn source(&self) -> P {
        self.spans.archives.source()
    }

    /// Opens the storage reachable through `provider` (rooted at the install
    /// directory containing `.build.info`).
    ///
    /// This reads and parses `.build.info`, the active build's config, all
    /// local index files, the encoding table, and the root catalog — a few MB
    /// of parsing in total; everything needed for fast lookups afterwards.
    pub fn open_with_provider(provider: P) -> (r: Result<Storage<P>, CascError>)
        ensures
            open_outcome(provider, default_options(), open_view(r)),
            r matches Ok(s) ==> s.wf() && s.source() == provider,
    {
        Storage::open_with_provider_and_options(provider, StorageOptions::default())
    }

    /// Opens storage with an explicit resource policy.
    pub fn open_with_provider_and_options(provider: P, options: StorageOptions) -> (r: Result<
        Storage<P>,
        CascError,
    >)
        ensures
            open_outcome(provider, options@, open_view(r)),
            r matches Ok(s) ==> s.wf() && s.source() == provider,
    {
        let max = options.max_metadata_bytes;
        let (build_info, build_config) = match open_build(&provider, max) {
            Ok(p) => p,
            Err(e) => {
                proof {
                    let b = Err::<(Seq<RecordView>, Map<Seq<char>, Seq<char>>), ErrorView>(e@);
                    assert(build_outcome(provider, options@.max_metadata_bytes, b));
                    assert(open_with_build(
                        provider,
                        options@,
                        b,
                        Err::<StorageView, ErrorView>(e@),
                    ));
                }
                return Err(e);
            },
        };
        let ghost build = Ok::<(Seq<RecordView>, Map<Seq<char>, Seq<char>>), ErrorView>(
            (build_info@, build_config@),
        );
        assert(build_outcome(provider, options@.max_metadata_bytes, build));
        let index = match open_index(&provider, max) {
            Ok(i) => i,
            Err(e) => {
                proof {
                    let i = Err::<Map<Seq<u8>, IdxEntry>, ErrorView>(e@);
                    assert(index_outcome(provider, options@.max_metadata_bytes, i));
                    assert(open_with_build(
                        provider,
                        options@,
                        build,
                        Err::<StorageView, ErrorView>(e@),
                    ));
                }
                return Err(e);
            },
        };
        let ghost i = Ok::<Map<Seq<u8>, IdxEntry>, ErrorView>(index@);
        assert(index_outcome(provider, options@.max_metadata_bytes, i));
        let mut spans = SpanReader::new(provider, index, options.metadata_read_limits());
        let (encoding, root) = match open_tables(&spans, &build_config) {
            Ok(p) => p,
            Err(e) => {
                proof {
                    let t = Err::<(Seq<EncodingView>, Seq<RootView>), ErrorView>(e@);
                    let failed = Err::<StorageView, ErrorView>(e@);
                    assert(tables_outcome(
                        provider,
                        index@,
                        build_config@,
                        metadata_limits(options@),
                        t,
                    ));
                    assert(open_with_index(
                        provider,
                        options@,
                        build_info@,
                        build_config@,
                        i,
                        failed,
                    ));
                    assert(open_with_build(provider, options@, build, failed));
                }
                return Err(e);
            },
        };
        let ghost t = Ok::<(Seq<EncodingView>, Seq<RootView>), ErrorView>((encoding@, root@));
        assert(tables_outcome(
            provider,
            index@,
            build_config@,
            metadata_limits(options@),
            t,
        ));
        // Bootstrap metadata is deliberately tighter than ordinary content.
        // Restore the caller's content policy for subsequent file reads.
        spans.limits = options.read_limits;
        let storage = Storage { spans, build_info, build_config, encoding, root };
        proof {
            assert(Ok::<StorageView, ErrorView>(storage@) == opened(
                options@,
                build_info@,
                build_config@,
                index@,
                t,
            ));
            assert(open_with_index(
                provider,
                options@,
                build_info@,
                build_config@,
                i,
                Ok::<StorageView, ErrorView>(storage@),
            ));
            assert(open_with_build(
                provider,
                options@,
                build,
                Ok::<StorageView, ErrorView>(storage@),
            ));
        }
        Ok(storage)
    }

    /// Reads a file by its root-catalog path (case-insensitive, `/` or `\`
    /// separators).
    ///
    /// Returns [`CascError::NotFound`] for paths not in the catalog and
    /// [`CascError::NotInstalled`] for cataloged files whose content isn't
    /// present locally (normal for unselected locales).
    pub fn read_file(&self, path: &str) -> (r: Result<Vec<u8>, CascError>)
        requires
            self.wf(),
        ensures
            file_read_outcome(self.source(), self@, path@, error::outcome(r)),
    {
        let ckey = match self.root.lookup(path) {
            Some(entry) => entry.ckey,
            None => {
                return Err(CascError::NotFound(path.to_owned()));
            },
        };
        let read = self.read_by_ckey(&ckey);
        let ghost a = error::outcome(read);
        assert(ckey_outcome(self.source(), self@, ckey@, a));
        let r = match read {
            Ok(v) => Ok(v),
            Err(CascError::NotFound(_)) => Err(CascError::NotInstalled(path.to_owned())),
            Err(e) => Err(e),
        };
        proof {
            let row = root::cataloged(self@.root, path@)->0;
            assert(row.ckey == ckey@);
            assert(error::outcome(r) == installed_view(path@, a));
            assert(ckey_outcome(self.source(), self@, row.ckey, a));
        }
        r
    }

    /// The decoded size of a file, without reading it (from the encoding
    /// table).
    pub fn file_size(&self, path: &str) -> (r: Result<u64, CascError>)
        requires
            self.wf(),
        ensures
            match r {
                Ok(n) => size_of(self@.encoding, self@.root, path@) == Ok::<nat, ErrorView>(
                    n as nat,
                ),
                Err(e) => size_of(self@.encoding, self@.root, path@) == Err::<nat, ErrorView>(e@),
            },
    {
        size_in(&self.encoding, &self.root, path)
    }

    /// Whether `path` exists in the root catalog (it may still not be
    /// installed locally; see [`Storage::is_installed`]).
    pub fn contains(&self, path: &str) -> (b: bool)
        requires
            self.wf(),
        ensures
            b == (root::cataloged(self@.root, path@) is Some),
    {
        self.root.lookup(path).is_some()
    }

    /// Whether `path` is in the catalog *and* its content is present in the
    /// local archives.
    pub fn is_installed(&self, path: &str) -> (b: bool)
        requires
            self.wf(),
        ensures
            b == installed(self@, path@),
    {
        match self.root.lookup(path) {
            Some(entry) => match self.encoding.lookup(&entry.ckey) {
                Some(enc) => self.spans.index.lookup(&enc.ekey).is_some(),
                None => false,
            },
            None => false,
        }
    }

    /// All file paths in the root catalog, in catalog order.
    pub fn file_names(&self) -> (v: Vec<&str>)
        ensures
            str_views(v@) == catalog_paths(self@.root),
    {
        paths_of(&self.root)
    }

    /// Reads and decodes content by CKey, verifying the result's MD5 matches.
    pub fn read_by_ckey(&self, ckey: &ContentKey) -> (r: Result<Vec<u8>, CascError>)
        requires
            self.wf(),
        ensures
            ckey_outcome(self.source(), self@, ckey@, error::outcome(r)),
    {
        match self.encoding.lookup(ckey) {
            Some(enc) => {
                assert((ExpectedObject { ckey: Some(ckey), decoded_size: Some(enc.size) })@ == (
                ExpectedView { ckey: Some(ckey@), size: Some(enc@.size) }));
                self.spans.read_by_ekey(&enc.ekey, Some(ckey), Some(enc.size))
            },
            None => Err(CascError::NotFound(ckey.to_string())),
        }
    }

    /// Reads and decodes content selected by EKey. When `expected_ckey` is
    /// given, the decoded bytes' MD5 is verified against it. Without a CKey,
    /// BLTE chunk checks and the span/index addressing checks still apply.
    pub fn read_by_ekey(&self, ekey: &EncodingKey, expected_ckey: Option<&ContentKey>) -> (r: Result<
        Vec<u8>,
        CascError,
    >)
        requires
            self.wf(),
        ensures
            ekey_outcome(
                self.source(),
                self@.index,
                self@.limits,
                ekey@,
                (ExpectedObject { ckey: expected_ckey, decoded_size: None })@,
                error::outcome(r),
            ),
    {
        self.spans.read_by_ekey(ekey, expected_ckey, None)
    }

    /// The parsed root catalog.
    pub fn root(&self) -> (r: &RootFile)
        requires
            self.wf(),
        ensures
            r@ == self@.root,
            r.wf(),
    {
        &self.root
    }

    /// The parsed encoding (CKey → EKey) table.
    pub fn encoding(&self) -> (r: &EncodingTable)
        requires
            self.wf(),
        ensures
            r@ == self@.encoding,
            r.wf(),
    {
        &self.encoding
    }

    /// The merged local index (EKey → archive location).
    pub fn index(&self) -> (r: &LocalIndex)
        requires
            self.wf(),
        ensures
            r@ == self@.index,
            r.wf(),
    {
        &self.spans.index
    }

    /// The active build's config.
    pub fn build_config(&self) -> (r: &BuildConfig)
        requires
            self.wf(),
        ensures
            r@ == self@.config,
            r.wf(),
    {
        &self.build_config
    }

    /// The parsed `.build.info`.
    pub fn build_info(&self) -> (r: &BuildInfo)
        ensures
            r@ == self@.records,
    {
        &self.build_info
    }
}

// ---------------------------------------------------------------------
// Laws

proof fn lemma_ekey_verified<P: StorageProvider>(
    provider: P,
    index: Map<Seq<u8>, IdxEntry>,
    limits: ReadLimits,
    ekey: Seq<u8>,
    expected: ExpectedView,
    content: Seq<u8>,
)
    requires
        ekey_outcome(provider, index, limits, ekey, expected, Ok(content)),
    ensures
        expected.ckey is Some ==> digest::digest(content) == expected.ckey->0,
        expected.size is Some ==> content.len() == expected.size->0,
        content.len() <= limits.max_decoded_bytes,
        index.contains_key(ekey.subrange(0, 9)),
{
    let entry = index[ekey.subrange(0, 9)];
    let a = choose|a: Result<Seq<u8>, ErrorView>| #[trigger]
        span_outcome(provider, ekey, entry, limits.max_encoded_bytes as nat, a) && Ok::<
            Seq<u8>,
            ErrorView,
        >(content) == span_verdict(a, expected, limits);
    match a {
        Ok(span) => {
            object::law_verified(span, expected, limits, 30);
        },
        Err(_) => {},
    }
}

/// Every read is verified end to end: what reading a content key gives has
/// that key as its MD5, the size that the encoding table states, and no more
/// bytes than the limits allow.
pub proof fn law_ckey_read_is_verified<P: StorageProvider>(
    provider: P,
    s: StorageView,
    ckey: Seq<u8>,
    content: Seq<u8>,
)
    requires
        ckey_outcome(provider, s, ckey, Ok(content)),
    ensures
        digest::digest(content) == ckey,
        encoding::found(s.encoding, ckey) matches Some(entry) && content.len() == entry.size,
        content.len() <= s.limits.max_decoded_bytes,
{
    let entry = encoding::found(s.encoding, ckey)->0;
    lemma_ekey_verified(
        provider,
        s.index,
        s.limits,
        entry.ekey,
        ExpectedView { ckey: Some(ckey), size: Some(entry.size) },
        content,
    );
}

/// Every read is verified end to end: what reading a file gives has the MD5
/// that the catalog states of it and the size that `file_size` gives, and the
/// file is installed.
pub proof fn law_file_read_is_verified<P: StorageProvider>(
    provider: P,
    s: StorageView,
    path: Seq<char>,
    content: Seq<u8>,
)
    requires
        file_read_outcome(provider, s, path, Ok(content)),
    ensures
        root::cataloged(s.root, path) matches Some(row) && digest::digest(content) == row.ckey,
        size_of(s.encoding, s.root, path) == Ok::<nat, ErrorView>(content.len()),
        installed(s, path),
{
    let row = root::cataloged(s.root, path)->0;
    let a = choose|a: Result<Seq<u8>, ErrorView>| #[trigger]
        ckey_outcome(provider, s, row.ckey, a) && Ok::<Seq<u8>, ErrorView>(content)
            == installed_view(path, a);
    assert(a == Ok::<Seq<u8>, ErrorView>(content));
    law_ckey_read_is_verified(provider, s, row.ckey, content);
    let entry = encoding::found(s.encoding, row.ckey)->0;
    lemma_ekey_verified(
        provider,
        s.index,
        s.limits,
        entry.ekey,
        ExpectedView { ckey: Some(row.ckey), size: Some(entry.size) },
        content,
    );
}

/// The archive of `entry` always opens and always holds `span` where the
/// entry says, and reading it there does not fail.
pub open spec fn stored<P: StorageProvider>(provider: P, entry: IdxEntry, span: Seq<u8>) -> bool {
    let path = archives::archive_path(entry.archive);
    let offset = entry.offset as nat;
    let size = entry.encoded_size as nat;
    &&& forall|e: ErrorView| !#[trigger] provider.refuses(path, e)
    &&& forall|f: P::File| #[trigger]
        provider.gives(path, f) ==> {
            &&& forall|bytes: Seq<u8>| #[trigger]
                f.reads(offset, bytes) && bytes.len() == size ==> bytes == span
            &&& forall|e: ErrorView| !#[trigger] f.read_fails(offset, size, e)
        }
}

/// A file whose span is stored is read: where the span is the one that the
/// index names, is within the limits, and decodes to content with the key and
/// the size that the tables state, reading the path gives that content and
/// nothing else.
pub proof fn law_stored_file_is_read<P: StorageProvider>(
    provider: P,
    s: StorageView,
    path: Seq<char>,
    span: Seq<u8>,
    content: Seq<u8>,
    out: Result<Seq<u8>, ErrorView>,
)
    requires
        file_read_outcome(provider, s, path, out),
        installed(s, path),
        ({
            let row = root::cataloged(s.root, path)->0;
            let known = encoding::found(s.encoding, row.ckey)->0;
            let entry = s.index[known.ekey.subrange(0, 9)];
            &&& stored(provider, entry, span)
            &&& span_request(entry, s.limits.max_encoded_bytes as nat) is Ok
            &&& checked_span(span, known.ekey, entry) is Ok
            &&& blte::decoded(
                span.subrange(30, span.len() as int),
                0,
                s.limits,
                s.limits.max_decoded_bytes as nat,
            ) == Ok::<Seq<u8>, ErrorView>(content)
            &&& digest::digest(content) == row.ckey
            &&& content.len() == known.size
        }),
    ensures
        out == Ok::<Seq<u8>, ErrorView>(content),
{
    let row = root::cataloged(s.root, path)->0;
    let known = encoding::found(s.encoding, row.ckey)->0;
    let entry = s.index[known.ekey.subrange(0, 9)];
    let expected = ExpectedView { ckey: Some(row.ckey), size: Some(known.size) };
    let limit = s.limits.max_encoded_bytes as nat;
    blte::law_output_within_limit(
        span.subrange(30, span.len() as int),
        0,
        s.limits,
        s.limits.max_decoded_bytes as nat,
    );
    let a = choose|a: Result<Seq<u8>, ErrorView>| #[trigger]
        ckey_outcome(provider, s, row.ckey, a) && out == installed_view(path, a);
    let b = choose|b: Result<Seq<u8>, ErrorView>| #[trigger]
        span_outcome(provider, known.ekey, entry, limit, b) && a == span_verdict(
            b,
            expected,
            s.limits,
        );
    assert(b == Ok::<Seq<u8>, ErrorView>(span)) by {
        let f = choose|f: P::File| #[trigger]
            provider.gives(archives::archive_path(entry.archive), f) && span_read(
                f,
                known.ekey,
                entry,
                b,
            );
        if b is Err {
            assert(!provider.refuses(archives::archive_path(entry.archive), b->Err_0));
            assert(!f.read_fails(
                entry.offset as nat,
                entry.encoded_size as nat,
                b->Err_0,
            ));
        }
    }
}

/// A read fails with `NotFound` exactly where the path is not in the catalog.
pub proof fn law_not_found<P: StorageProvider>(
    provider: P,
    s: StorageView,
    path: Seq<char>,
    out: Result<Seq<u8>, ErrorView>,
)
    requires
        file_read_outcome(provider, s, path, out),
    ensures
        root::cataloged(s.root, path) is None <==> out matches Err(ErrorView::NotFound(_)),
        root::cataloged(s.root, path) is None ==> out == Err::<Seq<u8>, ErrorView>(
            ErrorView::NotFound(path),
        ),
{
    if root::cataloged(s.root, path) is Some {
        let row = root::cataloged(s.root, path)->0;
        let a = choose|a: Result<Seq<u8>, ErrorView>| #[trigger]
            ckey_outcome(provider, s, row.ckey, a) && out == installed_view(path, a);
        assert(out == installed_view(path, a));
    }
}

/// A file that is cataloged but whose content is not present locally fails
/// with `NotInstalled`, distinct from `NotFound`.
pub proof fn law_not_installed<P: StorageProvider>(
    provider: P,
    s: StorageView,
    path: Seq<char>,
    out: Result<Seq<u8>, ErrorView>,
)
    requires
        file_read_outcome(provider, s, path, out),
        root::cataloged(s.root, path) is Some,
        !installed(s, path),
    ensures
        out == Err::<Seq<u8>, ErrorView>(ErrorView::NotInstalled(path)),
{
    let row = root::cataloged(s.root, path)->0;
    let a = choose|a: Result<Seq<u8>, ErrorView>| #[trigger]
        ckey_outcome(provider, s, row.ckey, a) && out == installed_view(path, a);
    assert(a matches Err(ErrorView::NotFound(_)));
}

/// Reads are case-insensitive and accept either separator: paths with the
/// same normalized form read the same content.
pub proof fn law_read_ignores_form<P: StorageProvider>(
    provider: P,
    s: StorageView,
    a: Seq<char>,
    b: Seq<char>,
    content: Seq<u8>,
)
    requires
        root::normalized(a) == root::normalized(b),
        file_read_outcome(provider, s, a, Ok(content)),
    ensures
        file_read_outcome(provider, s, b, Ok(content)),
{
    let row = root::cataloged(s.root, a)->0;
    let r = choose|r: Result<Seq<u8>, ErrorView>| #[trigger]
        ckey_outcome(provider, s, row.ckey, r) && Ok::<Seq<u8>, ErrorView>(content)
            == installed_view(a, r);
    assert(ckey_outcome(provider, s, row.ckey, r));
    assert(Ok::<Seq<u8>, ErrorView>(content) == installed_view(b, r));
}

/// The limits on bootstrap metadata are never looser than those on content,
/// nor than the metadata limit.
pub proof fn law_metadata_limits(o: OptionsView)
    ensures
        metadata_limits(o).max_encoded_bytes <= o.read_limits.max_encoded_bytes,
        metadata_limits(o).max_encoded_bytes <= o.max_metadata_bytes,
        metadata_limits(o).max_decoded_bytes <= o.read_limits.max_decoded_bytes,
        metadata_limits(o).max_decoded_bytes <= o.max_metadata_bytes,
{
}

/// An opened storage's build config is authentic: its bytes had the digest
/// that names the chosen build.
pub proof fn law_opened_config_is_verified<P: StorageProvider>(
    provider: P,
    max: nat,
    records: Seq<RecordView>,
    m: Map<Seq<char>, Seq<char>>,
)
    requires
        build_outcome(provider, max, Ok((records, m))),
    ensures
        exists|info: Seq<u8>, key: Seq<u8>, data: Seq<u8>|
            {
                &&& #[trigger] metadata_outcome(provider, ".build.info"@, max, Ok(info))
                &&& #[trigger] metadata_outcome(provider, config_path(key), max, Ok(data))
                &&& chosen_build(info) == Ok::<(Seq<RecordView>, Seq<u8>), ErrorView>(
                    (records, key),
                )
                &&& digest::digest(data) == key
                &&& config::build_config(text::utf8_lossy(data)) == Ok::<
                    Map<Seq<char>, Seq<char>>,
                    ErrorView,
                >(m)
            },
{
    let out = Ok::<(Seq<RecordView>, Map<Seq<char>, Seq<char>>), ErrorView>((records, m));
    let a = choose|a: Result<Seq<u8>, ErrorView>| #[trigger]
        metadata_outcome(provider, ".build.info"@, max, a) && config_outcome(provider, max, a, out);
    let info = a->Ok_0;
    assert(metadata_outcome(provider, ".build.info"@, max, Ok(info)));
    match chosen_build(info) {
        Ok((r, key)) => {
            let c = choose|c: Result<Seq<u8>, ErrorView>| #[trigger]
                metadata_outcome(provider, config_path(key), max, c) && out == build_verdict(
                    r,
                    key,
                    c,
                );
            let data = c->Ok_0;
            assert(metadata_outcome(provider, config_path(key), max, Ok(data)));
            assert(digest::raw_ckey_status(data, key, "build config"@) is Ok);
        },
        Err(_) => {},
    }
}

/// A span may be read exactly where it has something behind its header of 30
/// bytes, that is within the limit, and its end can be addressed.
pub proof fn law_span_request(entry: IdxEntry, limit: nat)
    ensures
        span_request(entry, limit) is Ok <==> 30 < entry.encoded_size <= limit + 30 && entry.offset
            + entry.encoded_size < 0x1_0000_0000_0000_0000,
{
}

/// A span is the one that the index names exactly where it has a whole
/// header, the first nine bytes of the key stand in the header's first sixteen
/// from their end on, the next four spell the size that the index states, and
/// the four after two more spell the hash of what is before them.
pub proof fn law_span_header(span: Seq<u8>, ekey: Seq<u8>, entry: IdxEntry)
    requires
        ekey.len() == 16,
    ensures
        ({
            let named = {
                &&& span.len() >= 30
                &&& forall|i: int| 0 <= i < 9 ==> span[15 - i] == #[trigger] ekey[i]
                &&& span[16] + span[17] * 0x100 + span[18] * 0x1_0000 + span[19] * 0x100_0000
                    == entry.encoded_size
                &&& span[22] + span[23] * 0x100 + span[24] * 0x1_0000 + span[25] * 0x100_0000
                    == jenkins::hash2(Seq::new(22, |i: int| span[i]), 0x3d6b_e971, 0).0
            };
            match checked_span(span, ekey, entry) {
                Ok(s) => named && s == span,
                Err(_) => !named,
            }
        }),
{
    if span.len() >= 30 {
        bytes::law_little_endian(span, 16);
        bytes::law_little_endian(span, 22);
        assert(span.subrange(0, 0x16) =~= Seq::new(22, |i: int| span[i]));
        if span_key(span) == ekey.subrange(0, 9) {
            assert forall|i: int| 0 <= i < 9 implies span[15 - i] == #[trigger] ekey[i] by {
                assert(span_key(span)[i] == ekey.subrange(0, 9)[i]);
            }
        }
        if forall|i: int| 0 <= i < 9 ==> span[15 - i] == #[trigger] ekey[i] {
            assert(span_key(span) =~= ekey.subrange(0, 9)) by {
                assert forall|i: int| 0 <= i < 9 implies span_key(span)[i] == ekey.subrange(
                    0,
                    9,
                )[i] by {
                    assert(span[15 - i] == ekey[i]);
                }
            }
        }
    }
}

/// Where files lie: archives under `data.` and at least three decimal digits
/// that spell their number, configs under the first two and the next two
/// digits of their key.
pub proof fn law_paths(archive: u16, key: Seq<u8>)
    requires
        key.len() == 16,
    ensures
        ({
            let hex = keys::key_hex(key);
            let path = archives::archive_path(archive);
            let digits = path.skip(15);
            &&& path.take(15) == "Data/data/data."@
            &&& digits.len() >= 3
            &&& text::spells(digits, archive as nat, 10)
            &&& archive < 1000 ==> digits.len() == 3
            &&& archive >= 1000 ==> digits[0] != '0'
            &&& config_path(key) == "Data/config/"@ + seq![hex[0], hex[1], '/', hex[2], hex[3], '/']
                + hex
        }),
{
    reveal_strlit("Data/data/data.");
    reveal_strlit("/");
    let hex = keys::key_hex(key);
    let path = archives::archive_path(archive);
    text::law_three_digits(archive as nat);
    text::law_decimal(archive as nat);
    assert(path.take(15) =~= "Data/data/data."@);
    assert(path.skip(15) =~= text::dec3(archive as nat));
    assert(config_path(key) =~= "Data/config/"@ + seq![hex[0], hex[1], '/', hex[2], hex[3], '/']
        + hex);
}

/// The build that is opened is that of the first record whose `Active` column
/// holds `1`, and of the very first record where there is none.
pub proof fn law_chosen_build(data: Seq<u8>, records: Seq<RecordView>, i: int)
    requires
        config::build_info(text::utf8_lossy(data)) == Ok::<Seq<RecordView>, ErrorView>(records),
        0 <= i <= records.len(),
        forall|j: int|
            0 <= j < i ==> config::record_value(#[trigger] records[j], "Active"@) != Some(
                seq!['1'],
            ),
        i < records.len() ==> config::record_value(records[i], "Active"@) == Some(seq!['1']),
    ensures
        records.len() == 0 ==> chosen_build(data) is Err,
        records.len() > 0 ==> {
            let r = if i < records.len() {
                records[i]
            } else {
                records[0]
            };
            let hex = config::record_value(r, "Build Key"@);
            let key = keys::key_from_hex(hex->0, 16, "content key"@);
            match chosen_build(data) {
                Ok((all, k)) => all == records && hex is Some && key == Ok::<Seq<u8>, ErrorView>(
                    k,
                ),
                Err(_) => hex is None || key is Err,
            }
        },
{
    config::law_first_active(records, i);
}

/// The provider always gives `data` for the file at `path`.
pub open spec fn serves<P: StorageProvider>(provider: P, path: Seq<char>, data: Seq<u8>) -> bool {
    &&& forall|e: ErrorView| !#[trigger] provider.refuses(path, e)
    &&& forall|f: P::File| #[trigger] provider.gives(path, f) ==> is_file_of(f, data)
}

/// An open file that always reads as `data`.
pub open spec fn is_file_of<F: ReadAt>(f: F, data: Seq<u8>) -> bool {
    &&& forall|e: ErrorView| !#[trigger] f.len_fails(e)
    &&& forall|n: nat| #[trigger] f.measures(n) ==> n == data.len()
    &&& forall|e: ErrorView| !#[trigger] f.read_fails(0, data.len(), e)
    &&& forall|b: Seq<u8>| #[trigger] f.reads(0, b) && b.len() == data.len() ==> b == data
}

/// A metadata file that is always given, and is within the limit, is read
/// whole.
pub proof fn law_metadata_is_read<P: StorageProvider>(
    provider: P,
    path: Seq<char>,
    max: nat,
    data: Seq<u8>,
    out: Result<Seq<u8>, ErrorView>,
)
    requires
        serves(provider, path, data),
        metadata_outcome(provider, path, max, out),
    ensures
        data.len() <= max ==> out == Ok::<Seq<u8>, ErrorView>(data),
        data.len() > max ==> out == Err::<Seq<u8>, ErrorView>(
            error::limit_view("storage metadata file"@, max),
        ),
{
    if out is Err {
        assert(!provider.refuses(path, out->Err_0));
    }
    let f = choose|f: P::File| #[trigger] provider.gives(path, f) && metadata_read(f, max, out);
    assert(is_file_of(f, data));
    match out {
        Ok(d) => {
            assert(f.measures(d.len()));
            assert(f.reads(0, d));
        },
        Err(e) => {
            assert(!f.len_fails(e));
            assert(!f.read_fails(0, data.len(), e));
        },
    }
}

/// The provider always gives a span that the index names for the key, and the
/// span decodes to the content.
pub open spec fn holds_object<P: StorageProvider>(
    provider: P,
    index: Map<Seq<u8>, IdxEntry>,
    limits: ReadLimits,
    ekey: Seq<u8>,
    span: Seq<u8>,
    content: Seq<u8>,
) -> bool {
    let entry = index[ekey.subrange(0, 9)];
    &&& index.contains_key(ekey.subrange(0, 9))
    &&& stored(provider, entry, span)
    &&& span_request(entry, limits.max_encoded_bytes as nat) is Ok
    &&& checked_span(span, ekey, entry) is Ok
    &&& span.len() - 30 <= limits.max_encoded_bytes
    &&& blte::decoded(
        span.subrange(30, span.len() as int),
        0,
        limits,
        limits.max_decoded_bytes as nat,
    ) == Ok::<Seq<u8>, ErrorView>(content)
}

/// An object that is held is read, whatever of its key and its size is
/// expected, where that fits.
pub proof fn law_held_object_is_read<P: StorageProvider>(
    provider: P,
    index: Map<Seq<u8>, IdxEntry>,
    limits: ReadLimits,
    ekey: Seq<u8>,
    expected: ExpectedView,
    span: Seq<u8>,
    content: Seq<u8>,
    out: Result<Seq<u8>, ErrorView>,
)
    requires
        holds_object(provider, index, limits, ekey, span, content),
        expected.ckey is Some ==> expected.ckey->0 == digest::digest(content),
        expected.size is Some ==> expected.size->0 == content.len(),
        ekey_outcome(provider, index, limits, ekey, expected, out),
    ensures
        out == Ok::<Seq<u8>, ErrorView>(content),
{
    let entry = index[ekey.subrange(0, 9)];
    let limit = limits.max_encoded_bytes as nat;
    let path = archives::archive_path(entry.archive);
    blte::law_output_within_limit(
        span.subrange(30, span.len() as int),
        0,
        limits,
        limits.max_decoded_bytes as nat,
    );
    let b = choose|b: Result<Seq<u8>, ErrorView>| #[trigger]
        span_outcome(provider, ekey, entry, limit, b) && out == span_verdict(b, expected, limits);
    assert(b == Ok::<Seq<u8>, ErrorView>(span)) by {
        let f = choose|f: P::File| #[trigger]
            provider.gives(path, f) && span_read(f, ekey, entry, b);
        if b is Err {
            assert(!provider.refuses(path, b->Err_0));
            assert(!f.read_fails(entry.offset as nat, entry.encoded_size as nat, b->Err_0));
        }
    }
}

/// Index files that are always given are merged in the order of their names.
pub proof fn law_index_files_are_merged<P: StorageProvider>(
    provider: P,
    max: nat,
    names: Seq<Seq<char>>,
    files: Seq<Seq<u8>>,
    out: Result<Map<Seq<u8>, IdxEntry>, ErrorView>,
)
    requires
        names.len() == files.len(),
        forall|i: int|
            0 <= i < names.len() ==> serves(provider, "Data/data/"@ + #[trigger] names[i], files[i])
                && files[i].len() <= max,
        files_outcome(provider, max, names, out),
    ensures
        out == idx::files_merged(files),
    decreases names.len(),
{
    if names.len() > 0 {
        let n = names.len() - 1;
        let before = choose|before: Result<Map<Seq<u8>, IdxEntry>, ErrorView>|
            files_outcome(provider, max, names.drop_last(), before) && #[trigger] file_outcome(
                provider,
                max,
                names.last(),
                before,
                out,
            );
        let a = names.drop_last();
        let b = files.drop_last();
        assert forall|i: int| 0 <= i < a.len() implies serves(
            provider,
            "Data/data/"@ + #[trigger] a[i],
            b[i],
        ) && b[i].len() <= max by {
            assert(a[i] == names[i]);
        }
        law_index_files_are_merged(provider, max, a, b, before);
        if before is Ok {
            let m = before->Ok_0;
            let r = choose|r: Result<Seq<u8>, ErrorView>| #[trigger]
                metadata_outcome(provider, "Data/data/"@ + names.last(), max, r) && out
                    == index_verdict(m, r);
            assert(serves(provider, "Data/data/"@ + names[n], files[n]));
            law_metadata_is_read(provider, "Data/data/"@ + names.last(), max, files[n], r);
        }
    }
}

/// A storage opens where its files are all there and all right: the build
/// info names a build whose config is there and has the digest that names it,
/// the directory lists index files that merge, the config names an encoding
/// table that is held and has the stated digest and size, and the table names
/// a root file that is held. It then holds exactly what those files say, and
/// the caller's limits.
pub proof fn law_healthy_storage_opens<P: StorageProvider>(
    provider: P,
    options: OptionsView,
    info: Seq<u8>,
    records: Seq<RecordView>,
    key: Seq<u8>,
    config_data: Seq<u8>,
    m: Map<Seq<char>, Seq<char>>,
    names: Seq<Seq<char>>,
    files: Seq<Seq<u8>>,
    index: Map<Seq<u8>, IdxEntry>,
    encoding_keys: (Seq<u8>, Seq<u8>),
    encoding_span: Seq<u8>,
    encoding_data: Seq<u8>,
    table: Seq<EncodingView>,
    root_key: Seq<u8>,
    root_span: Seq<u8>,
    root_data: Seq<u8>,
    rows: Seq<RootView>,
    out: Result<StorageView, ErrorView>,
)
    requires
        serves(provider, ".build.info"@, info),
        info.len() <= options.max_metadata_bytes,
        chosen_build(info) == Ok::<(Seq<RecordView>, Seq<u8>), ErrorView>((records, key)),
        serves(provider, config_path(key), config_data),
        config_data.len() <= options.max_metadata_bytes,
        digest::digest(config_data) == key,
        config::build_config(text::utf8_lossy(config_data)) == Ok::<
            Map<Seq<char>, Seq<char>>,
            ErrorView,
        >(m),
        forall|l: Result<Seq<Seq<char>>, ErrorView>| #[trigger]
            provider.lists("Data/data"@, l) ==> l == Ok::<Seq<Seq<char>>, ErrorView>(names),
        idx::winners(names, 16).len() == files.len() > 0,
        forall|i: int|
            0 <= i < files.len() ==> serves(
                provider,
                "Data/data/"@ + #[trigger] idx::winners(names, 16)[i],
                files[i],
            ) && files[i].len() <= options.max_metadata_bytes,
        idx::files_merged(files) == Ok::<Map<Seq<u8>, IdxEntry>, ErrorView>(index),
        config::config_encoding(m) == Ok::<(Seq<u8>, Seq<u8>), ErrorView>(encoding_keys),
        holds_object(
            provider,
            index,
            metadata_limits(options),
            encoding_keys.1,
            encoding_span,
            encoding_data,
        ),
        digest::digest(encoding_data) == encoding_keys.0,
        config::config_encoding_size(m) matches Some((n, _)) ==> n == encoding_data.len(),
        encoding::table(encoding_data) == Ok::<Seq<EncodingView>, ErrorView>(table),
        config::config_root(m) == Ok::<Seq<u8>, ErrorView>(root_key),
        encoding::found(table, root_key) is Some,
        holds_object(
            provider,
            index,
            metadata_limits(options),
            (encoding::found(table, root_key)->0).ekey,
            root_span,
            root_data,
        ),
        digest::digest(root_data) == root_key,
        root_data.len() == (encoding::found(table, root_key)->0).size,
        root::root_file(root_data) == Ok::<Seq<RootView>, ErrorView>(rows),
        open_outcome(provider, options, out),
    ensures
        out == Ok::<StorageView, ErrorView>(
            StorageView {
                limits: options.read_limits,
                records,
                config: m,
                index,
                encoding: table,
                root: rows,
            },
        ),
{
    let max = options.max_metadata_bytes;
    let limits = metadata_limits(options);
    let b = choose|b: Result<(Seq<RecordView>, Map<Seq<char>, Seq<char>>), ErrorView>| #[trigger]
        build_outcome(provider, max, b) && open_with_build(provider, options, b, out);
    lemma_healthy_build(provider, max, info, records, key, config_data, m, b);
    let i = choose|i: Result<Map<Seq<u8>, IdxEntry>, ErrorView>| #[trigger]
        index_outcome(provider, max, i) && open_with_index(provider, options, records, m, i, out);
    let l = choose|l: Result<Seq<Seq<char>>, ErrorView>| #[trigger]
        provider.lists("Data/data"@, l) && listed_outcome(provider, max, l, i);
    assert(l == Ok::<Seq<Seq<char>>, ErrorView>(names));
    law_index_files_are_merged(provider, max, idx::winners(names, 16), files, i);
    let t = choose|t: Result<(Seq<EncodingView>, Seq<RootView>), ErrorView>| #[trigger]
        tables_outcome(provider, index, m, limits, t) && out == opened(
            options,
            records,
            m,
            index,
            t,
        );
    lemma_healthy_tables(
        provider,
        index,
        m,
        limits,
        encoding_keys,
        encoding_span,
        encoding_data,
        table,
        root_key,
        root_span,
        root_data,
        rows,
        t,
    );
}

proof fn lemma_healthy_build<P: StorageProvider>(
    provider: P,
    max: nat,
    info: Seq<u8>,
    records: Seq<RecordView>,
    key: Seq<u8>,
    data: Seq<u8>,
    m: Map<Seq<char>, Seq<char>>,
    out: Result<(Seq<RecordView>, Map<Seq<char>, Seq<char>>), ErrorView>,
)
    requires
        serves(provider, ".build.info"@, info),
        info.len() <= max,
        chosen_build(info) == Ok::<(Seq<RecordView>, Seq<u8>), ErrorView>((records, key)),
        serves(provider, config_path(key), data),
        data.len() <= max,
        digest::digest(data) == key,
        config::build_config(text::utf8_lossy(data)) == Ok::<Map<Seq<char>, Seq<char>>, ErrorView>(
            m,
        ),
        build_outcome(provider, max, out),
    ensures
        out == Ok::<(Seq<RecordView>, Map<Seq<char>, Seq<char>>), ErrorView>((records, m)),
{
    let a = choose|a: Result<Seq<u8>, ErrorView>| #[trigger]
        metadata_outcome(provider, ".build.info"@, max, a) && config_outcome(provider, max, a, out);
    law_metadata_is_read(provider, ".build.info"@, max, info, a);
    let c = choose|c: Result<Seq<u8>, ErrorView>| #[trigger]
        metadata_outcome(provider, config_path(key), max, c) && out == build_verdict(
            records,
            key,
            c,
        );
    law_metadata_is_read(provider, config_path(key), max, data, c);
}

proof fn lemma_healthy_tables<P: StorageProvider>(
    provider: P,
    index: Map<Seq<u8>, IdxEntry>,
    m: Map<Seq<char>, Seq<char>>,
    limits: ReadLimits,
    encoding_keys: (Seq<u8>, Seq<u8>),
    encoding_span: Seq<u8>,
    encoding_data: Seq<u8>,
    table: Seq<EncodingView>,
    root_key: Seq<u8>,
    root_span: Seq<u8>,
    root_data: Seq<u8>,
    rows: Seq<RootView>,
    out: Result<(Seq<EncodingView>, Seq<RootView>), ErrorView>,
)
    requires
        config::config_encoding(m) == Ok::<(Seq<u8>, Seq<u8>), ErrorView>(encoding_keys),
        holds_object(
            provider,
            index,
            limits,
            encoding_keys.1,
            encoding_span,
            encoding_data,
        ),
        digest::digest(encoding_data) == encoding_keys.0,
        config::config_encoding_size(m) matches Some((n, _)) ==> n == encoding_data.len(),
        encoding::table(encoding_data) == Ok::<Seq<EncodingView>, ErrorView>(table),
        config::config_root(m) == Ok::<Seq<u8>, ErrorView>(root_key),
        encoding::found(table, root_key) is Some,
        holds_object(
            provider,
            index,
            limits,
            (encoding::found(table, root_key)->0).ekey,
            root_span,
            root_data,
        ),
        digest::digest(root_data) == root_key,
        root_data.len() == (encoding::found(table, root_key)->0).size,
        root::root_file(root_data) == Ok::<Seq<RootView>, ErrorView>(rows),
        tables_outcome(provider, index, m, limits, out),
    ensures
        out == Ok::<(Seq<EncodingView>, Seq<RootView>), ErrorView>((table, rows)),
{
    let (ckey, ekey) = encoding_keys;
    let entry = encoding::found(table, root_key)->0;
    assert(entry.ckey == root_key);
    let a = choose|a: Result<Seq<u8>, ErrorView>| #[trigger]
        ekey_outcome(provider, index, limits, ekey, encoding_expected(m, ckey), a)
            && catalog_outcome(provider, index, limits, encoding_verdict(m, a), out);
    law_held_object_is_read(
        provider,
        index,
        limits,
        ekey,
        encoding_expected(m, ckey),
        encoding_span,
        encoding_data,
        a,
    );
    let expected = ExpectedView { ckey: Some(entry.ckey), size: Some(entry.size) };
    let b = choose|b: Result<Seq<u8>, ErrorView>| #[trigger]
        ekey_outcome(provider, index, limits, entry.ekey, expected, b) && out == root_verdict(
            table,
            b,
        );
    law_held_object_is_read(
        provider,
        index,
        limits,
        entry.ekey,
        expected,
        root_span,
        root_data,
        b,
    );
}

/// The limits on bootstrap metadata are those on content, with the metadata
/// limit put on every size among them, and the same counts.
pub proof fn law_metadata_limits_are_the_smaller(o: OptionsView)
    requires
        o.max_metadata_bytes <= usize::MAX,
    ensures
        ({
            let l = metadata_limits(o);
            let r = o.read_limits;
            let cap = o.max_metadata_bytes;
            let smaller = |a: nat, b: nat| if a <= b { a } else { b };
            &&& l.max_encoded_bytes == smaller(r.max_encoded_bytes as nat, cap)
            &&& l.max_decoded_bytes == smaller(r.max_decoded_bytes as nat, cap)
            &&& l.max_chunk_decoded_bytes == smaller(r.max_chunk_decoded_bytes as nat, cap)
            &&& l.initial_reserve_bytes == smaller(r.initial_reserve_bytes as nat, cap)
            &&& l.max_chunk_count == r.max_chunk_count
            &&& l.max_nesting == r.max_nesting
        }),
{
}

/// The options that a caller gets without asking for others: the usual limits
/// of reading, and 64 MiB for a metadata file.
pub proof fn law_default_options()
    ensures
        default_options().read_limits == blte::default_limits(),
        default_options().max_metadata_bytes == 64 * 1024 * 1024,
{
}

/// The size of a path is the one that the encoding table states for the key of
/// its record; a path without a record, or whose key the table does not list,
/// is not found.
pub proof fn law_sizes(
    table: Seq<EncodingView>,
    rows: Seq<RootView>,
    path: Seq<char>,
    i: int,
    k: int,
)
    requires
        encoding::sorted(table),
        0 <= i < rows.len(),
        root::paths_alike(rows[i].path, path),
        forall|j: int| i < j < rows.len() ==> !root::paths_alike((#[trigger] rows[j]).path, path),
        0 <= k <= table.len(),
        k < table.len() ==> table[k].ckey == rows[i].ckey,
        k == table.len() ==> forall|j: int|
            0 <= j < table.len() ==> (#[trigger] table[j]).ckey != rows[i].ckey,
    ensures
        size_of(table, rows, path) == (if k < table.len() {
            Ok::<nat, ErrorView>(table[k].size)
        } else {
            Err(ErrorView::NotFound(path))
        }),
{
    root::law_lookup_is_last_alike(rows, path, i);
    encoding::law_found(table, rows[i].ckey, k);
}

/// A path is installed exactly where its record's key is in the encoding table
/// and the local index has the first nine bytes of the encoding key that the
/// table states for it.
pub proof fn law_installed(s: StorageView, path: Seq<char>, i: int, k: int)
    requires
        encoding::sorted(s.encoding),
        0 <= i < s.root.len(),
        root::paths_alike(s.root[i].path, path),
        forall|j: int|
            i < j < s.root.len() ==> !root::paths_alike((#[trigger] s.root[j]).path, path),
        0 <= k <= s.encoding.len(),
        k < s.encoding.len() ==> s.encoding[k].ckey == s.root[i].ckey,
        k == s.encoding.len() ==> forall|j: int|
            0 <= j < s.encoding.len() ==> (#[trigger] s.encoding[j]).ckey != s.root[i].ckey,
    ensures
        installed(s, path) <==> k < s.encoding.len() && s.index.contains_key(
            s.encoding[k].ekey.take(9),
        ),
{
    root::law_lookup_is_last_alike(s.root, path, i);
    encoding::law_found(s.encoding, s.root[i].ckey, k);
    if k < s.encoding.len() {
        assert(s.encoding[k].ekey.take(9) == s.encoding[k].ekey.subrange(0, 9));
    }
}

/// A path that is like no record's is neither installed nor has a size.
pub proof fn law_uncataloged(s: StorageView, path: Seq<char>)
    requires
        forall|j: int|
            0 <= j < s.root.len() ==> !root::paths_alike((#[trigger] s.root[j]).path, path),
    ensures
        !installed(s, path),
        size_of(s.encoding, s.root, path) == Err::<nat, ErrorView>(ErrorView::NotFound(path)),
{
    root::law_lookup_is_last_alike(s.root, path, -1);
}

/// The file names of a catalog are the paths of its records, one for each and
/// in their order.
pub proof fn law_file_names(rows: Seq<RootView>)
    ensures
        catalog_paths(rows) == rows.map_values(|r: RootView| r.path),
{
    assert(catalog_paths(rows) =~= rows.map_values(|r: RootView| r.path));
}

/// A config file is what its bytes say where their digest is the key that
/// names it, and a mismatch where it is any other, whatever the bytes say.
pub proof fn law_checked_config(data: Seq<u8>, key: Seq<u8>, what: Seq<char>)
    ensures
        digest::digest(data) == key ==> checked_config(data, key, what) == config::build_config(
            text::utf8_lossy(data),
        ),
        digest::digest(data) != key ==> checked_config(data, key, what) == Err::<
            Map<Seq<char>, Seq<char>>,
            ErrorView,
        >(ErrorView::ChecksumMismatch(what)),
{
}

/// Metadata beyond its limit is refused, and not for any other reason where
/// the file is sound.
pub proof fn law_large_metadata<P: StorageProvider>(
    provider: P,
    path: Seq<char>,
    max: nat,
    data: Seq<u8>,
    out: Result<Seq<u8>, ErrorView>,
)
    requires
        serves(provider, path, data),
        data.len() > max,
        metadata_outcome(provider, path, max, out),
    ensures
        out matches Err(ErrorView::LimitExceeded { limit, .. }) && limit == max,
{
    let f = choose|f: P::File| #[trigger] provider.gives(path, f) && metadata_read(f, max, out);
    assert(is_file_of(f, data));
}

/// A directory that lists no index file gives no index.
pub proof fn law_no_index_files<P: StorageProvider>(
    provider: P,
    max: nat,
    names: Seq<Seq<char>>,
    out: Result<Map<Seq<u8>, IdxEntry>, ErrorView>,
)
    requires
        forall|i: int| 0 <= i < names.len() ==> idx::index_name(#[trigger] names[i]) is None,
        listed_outcome(provider, max, Ok(names), out),
    ensures
        out matches Err(e) && e is Malformed,
{
    lemma_no_winners(names, 16);
}

proof fn lemma_no_winners(names: Seq<Seq<char>>, n: int)
    requires
        forall|i: int| 0 <= i < names.len() ==> idx::index_name(#[trigger] names[i]) is None,
    ensures
        idx::winners(names, n).len() == 0,
    decreases n,
{
    if n > 0 {
        lemma_no_winners(names, n - 1);
        idx::law_highest_version_wins(names, n - 1);
        if let Some((_, i)) = idx::winner(names, n - 1) {
            assert(idx::index_name(names[i]) is None);
        }
    }
}

/// An object whose truncated key the index does not have is not found, under
/// its whole key; neither is content whose key the encoding table does not
/// have.
pub proof fn law_unknown_keys<P: StorageProvider>(
    provider: P,
    s: StorageView,
    key: Seq<u8>,
    expected: ExpectedView,
    by_ekey: Result<Seq<u8>, ErrorView>,
    by_ckey: Result<Seq<u8>, ErrorView>,
)
    requires
        key.len() == 16,
        !s.index.contains_key(key.take(9)),
        ekey_outcome(provider, s.index, s.limits, key, expected, by_ekey),
        forall|i: int| 0 <= i < s.encoding.len() ==> (#[trigger] s.encoding[i]).ckey != key,
        ckey_outcome(provider, s, key, by_ckey),
    ensures
        by_ekey == Err::<Seq<u8>, ErrorView>(ErrorView::NotFound(keys::key_hex(key))),
        by_ckey == Err::<Seq<u8>, ErrorView>(ErrorView::NotFound(keys::key_hex(key))),
{
    assert(key.take(9) == key.subrange(0, 9));
}

/// Why a span is refused: one that is too large exceeds the limit, and one
/// that has no payload, or that the index does not describe, is malformed;
/// only the hash of its header is a mismatch.
pub proof fn law_span_errors(span: Seq<u8>, ekey: Seq<u8>, entry: IdxEntry, limit: nat)
    requires
        ekey.len() == 16,
    ensures
        entry.encoded_size > limit + 30 ==> (span_request(entry, limit) matches Err(
            ErrorView::LimitExceeded { limit: l, .. },
        ) && l == limit),
        entry.encoded_size <= 30 ==> (span_request(entry, limit) matches Err(e) && e is Malformed),
        checked_span(span, ekey, entry) matches Err(e) ==> {
            let described = span.len() >= 30 && (forall|i: int|
                0 <= i < 9 ==> span[15 - i] == #[trigger] ekey[i]) && span[16] + span[17] * 0x100
                + span[18] * 0x1_0000 + span[19] * 0x100_0000 == entry.encoded_size;
            &&& described ==> e is ChecksumMismatch
            &&& !described ==> e is Malformed
        },
{
    if span.len() >= 30 {
        bytes::law_little_endian(span, 16);
        let key = ekey.subrange(0, 9);
        if span_key(span) == key {
            assert forall|i: int| 0 <= i < 9 implies span[15 - i] == #[trigger] ekey[i] by {
                assert(span_key(span)[i] == key[i]);
            }
        }
        if forall|i: int| 0 <= i < 9 ==> span[15 - i] == #[trigger] ekey[i] {
            assert forall|i: int| 0 <= i < 9 implies span_key(span)[i] == key[i] by {
                assert(span[15 - i] == ekey[i]);
            }
            assert(span_key(span) =~= key);
        }
    }
}

} // verus!
