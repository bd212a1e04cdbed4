//! CDN ("online") storage: read files straight from Blizzard's CDN, no
//! local install required.
//!
//! The pipeline mirrors [`crate::storage::Storage`] above the EKey layer
//! (encoding table, root catalog, BLTE, CKey verification are identical);
//! what differs is how encoded bytes are obtained:
//!
//! 1. Discovery: `http://<region>.patch.battle.net:1119/<product>/versions`
//!    and `/cdns` name the build config, CDN config, hosts, and path prefix
//!    (see [`crate::tact`]).
//! 2. The CDN config's `archives` list names archive files; each has a
//!    `.index` mapping full EKeys to `(offset, size)` within it (see
//!    [`crate::cdnindex`]).
//! 3. Reading an EKey: archive-index hit → HTTP Range request into the
//!    archive; miss → loose GET of `data/<xx>/<yy>/<ekey>`.
//!
//! CDN-served data is **bare BLTE** — unlike local `data.###` archives there
//! is no 30-byte span header. Integrity still holds end to end: BLTE chunk
//! MD5s are verified during decode and whole files are verified against
//! their CKey.
//!
//! All fetching goes through the [`CdnTransport`] trait so the core stays
//! HTTP-library-free (and WASM-compatible).

use vstd::prelude::*;
use vstd::string::*;

use crate::blte::ReadLimits;
use crate::cdnindex;
use crate::cdnindex::ArchiveEntryView;
use crate::cdnindex::ArchiveIndex;
use crate::cdnindex::CdnIndex;
use crate::cdnindex::CdnIndexEntry;
use crate::config;
use crate::config::BuildConfig;
use crate::digest;
use crate::encoding;
use crate::encoding::EncodingTable;
use crate::encoding::EncodingView;
use crate::error;
use crate::error::CascError;
use crate::error::ErrorView;
use crate::keys;
use crate::keys::ContentKey;
use crate::keys::EncodingKey;
use crate::object;
use crate::object::ExpectedObject;
use crate::object::ExpectedView;
use crate::root;
use crate::root::RootFile;
use crate::root::RootView;
use crate::storage;
use crate::storage::OptionsView;
use crate::storage::StorageOptions;
use crate::tact;
use crate::tact::CdnPathKind;
use crate::tact::Cdns;
use crate::tact::VersionView;
use crate::tact::Versions;
use crate::text;

verus! {

/// Fetches resources from a CDN by URL.
///
/// Implementations should return [`CascError::NotFound`] for a clean HTTP
/// 404 (the storage layer uses this to fall back from "not archived" to
/// "doesn't exist") and [`CascError::Transport`] for other failures.
///
/// An implementation says what it may answer by the relations
/// [`answers`](Self::answers) and [`answers_range`](Self::answers_range);
/// one that leaves them out may answer anything.
pub trait CdnTransport: Send + Sync {
    /// Fetching `url` with at most `max` bytes can give this outcome.
    open spec fn answers(&self, url: Seq<char>, max: nat, r: Result<Seq<u8>, ErrorView>) -> bool {
        true
    }

    /// Fetching `len` bytes at `offset` of `url` can give this outcome.
    open spec fn answers_range(
        &self,
        url: Seq<char>,
        offset: nat,
        len: nat,
        r: Result<Seq<u8>, ErrorView>,
    ) -> bool {
        true
    }

    /// Fetches the entire resource at `url`, retaining at most `max_bytes`.
    /// Implementations must reject an oversized response before allocating or
    /// buffering beyond that bound.
    fn get(&self, url: &str, max_bytes: usize) -> (r: Result<Vec<u8>, CascError>)
        ensures
            self.answers(url@, max_bytes as nat, error::outcome(r)),
    ;

    /// Fetches exactly `len` bytes starting at byte `offset` of the resource
    /// at `url` (an HTTP Range request). Must fail rather than silently
    /// return a different amount of data.
    fn get_range(&self, url: &str, offset: u64, len: u64) -> (r: Result<Vec<u8>, CascError>)
        ensures
            self.answers_range(url@, offset as nat, len as nat, error::outcome(r)),
    ;

    /// Best-effort invalidation hook used when bytes fail verification above
    /// the transport layer. Stateless transports can keep the default no-op;
    /// persistent caches should evict the exact whole or range entry. What a
    /// transport keeps is its own: nothing is claimed of the effect.
    fn invalidate(&self, _url: &str, _range: Option<(u64, u64)>) {
    }
}

impl<T: CdnTransport + ?Sized> CdnTransport for &T {
    open spec fn answers(&self, url: Seq<char>, max: nat, r: Result<Seq<u8>, ErrorView>) -> bool {
        (**self).answers(url, max, r)
    }

    open spec fn answers_range(
        &self,
        url: Seq<char>,
        offset: nat,
        len: nat,
        r: Result<Seq<u8>, ErrorView>,
    ) -> bool {
        (**self).answers_range(url, offset, len, r)
    }

    fn get(&self, url: &str, max_bytes: usize) -> (r: Result<Vec<u8>, CascError>) {
        (**self).get(url, max_bytes)
    }

    fn get_range(&self, url: &str, offset: u64, len: u64) -> (r: Result<Vec<u8>, CascError>) {
        (**self).get_range(url, offset, len)
    }

    fn invalidate(&self, url: &str, range: Option<(u64, u64)>) {
        (**self).invalidate(url, range);
    }
}

/// Largest number of archives of one CDN config.
pub const MAX_CDN_ARCHIVES: usize = 256;

/// Largest number of entries of all archive indices together.
pub const MAX_CDN_INDEX_ENTRIES: usize = 1_000_000;

/// Largest archive index that is fetched.
pub const MAX_CDN_INDEX_FILE_BYTES: usize = 32 * 1024 * 1024;

/// Largest size of all archive indices together.
pub const MAX_CDN_INDEX_BYTES: usize = 128 * 1024 * 1024;

// ---------------------------------------------------------------------
// Trying one host after the other

/// Where a CDN serves a product's files: hosts in preference order, and the
/// path prefix under each.
pub struct Location {
    pub hosts: Seq<Seq<char>>,
    pub path: Seq<char>,
}

/// The URL of a file on the `i`-th host.
pub open spec fn address(
    at: Location,
    i: int,
    kind: CdnPathKind,
    key: Seq<u8>,
    index: bool,
) -> Seq<char> {
    tact::file_address(at.hosts[i], at.path, kind, keys::key_hex(key), index)
}

/// The transport has been asked to drop what it holds of `url`, or of the
/// given range of it: its `invalidate` has returned from such a call, which
/// nothing but the call itself shows of a transport.
pub open spec fn dropped<T: CdnTransport>(t: T, url: Seq<char>, range: Option<(nat, nat)>) -> bool {
    exists|u: &str, r: Option<(u64, u64)>| #[trigger]
        call_ensures(T::invalidate, (&t, u, r), ()) && u@ == url && range_view(r) == range
}

/// The transport has been asked to drop everything on the list.
pub open spec fn all_dropped<T: CdnTransport>(
    t: T,
    list: Seq<(Seq<char>, Option<(nat, nat)>)>,
) -> bool {
    forall|i: int| 0 <= i < list.len() ==> dropped(t, (#[trigger] list[i]).0, list[i].1)
}

/// A file on each of the hosts, as something to be dropped whole.
pub open spec fn whole_list(at: Location, kind: CdnPathKind, key: Seq<u8>, index: bool) -> Seq<
    (Seq<char>, Option<(nat, nat)>),
> {
    Seq::new(at.hosts.len(), |j: int| (address(at, j, kind, key, index), None))
}

/// The error after every host has been tried: the last one met, if any.
pub open spec fn exhausted(last: Option<ErrorView>) -> ErrorView {
    match last {
        Some(e) => e,
        None => ErrorView::Transport { url: ""@, reason: "no CDN hosts available"@ },
    }
}

/// An error that may be absent, by its view.
pub open spec fn error_view(e: Option<CascError>) -> Option<ErrorView> {
    match e {
        Some(e) => Some(e@),
        None => None,
    }
}

/// `out` is what fetching the config file of `key` can give, from the `i`-th
/// host on. A config that does not match its key is not accepted from any
/// host, and is dropped; a host's 404 is authoritative, since the CDN is content-addressed.
pub open spec fn config_from<T: CdnTransport>(
    t: T,
    at: Location,
    key: Seq<u8>,
    max: nat,
    what: Seq<char>,
    i: int,
    last: Option<ErrorView>,
    out: Result<Seq<u8>, ErrorView>,
) -> bool
    decreases at.hosts.len() - i,
{
    if i >= at.hosts.len() {
        out == Err::<Seq<u8>, ErrorView>(exhausted(last))
    } else {
        exists|a: Result<Seq<u8>, ErrorView>| #[trigger]
            t.answers(address(at, i, CdnPathKind::Config, key, false), max, a) && (match a {
                Ok(body) => match digest::raw_ckey_status(body, key, what) {
                    Ok(_) => out == a,
                    Err(e) => dropped(
                        t,
                        address(at, i, CdnPathKind::Config, key, false),
                        None,
                    ) && config_from(t, at, key, max, what, i + 1, Some(e), out),
                },
                Err(ErrorView::NotFound(_)) => out == a,
                Err(e) => config_from(t, at, key, max, what, i + 1, Some(e), out),
            })
    }
}

/// `out` is what fetching the archive index of `key` can give, from the
/// `i`-th host on: its size and its entries.
pub open spec fn index_from<T: CdnTransport>(
    t: T,
    at: Location,
    key: Seq<u8>,
    max: nat,
    i: int,
    last: Option<ErrorView>,
    out: Result<(nat, Seq<ArchiveEntryView>), ErrorView>,
) -> bool
    decreases at.hosts.len() - i,
{
    if i >= at.hosts.len() {
        out == Err::<(nat, Seq<ArchiveEntryView>), ErrorView>(exhausted(last))
    } else {
        exists|a: Result<Seq<u8>, ErrorView>| #[trigger]
            t.answers(address(at, i, CdnPathKind::Data, key, true), max, a) && (match a {
                Ok(body) => match cdnindex::archive_index(body) {
                    Ok(entries) => out == Ok::<(nat, Seq<ArchiveEntryView>), ErrorView>(
                        (body.len(), entries),
                    ),
                    Err(e) => dropped(
                        t,
                        address(at, i, CdnPathKind::Data, key, true),
                        None,
                    ) && index_from(t, at, key, max, i + 1, Some(e), out),
                },
                Err(ErrorView::NotFound(s)) => out == Err::<
                    (nat, Seq<ArchiveEntryView>),
                    ErrorView,
                >(ErrorView::NotFound(s)),
                Err(e) => index_from(t, at, key, max, i + 1, Some(e), out),
            })
    }
}

/// The outcome `r` of a request to the `i`-th host for a file or a part of
/// it.
pub open spec fn host_answers<T: CdnTransport>(
    t: T,
    at: Location,
    key: Seq<u8>,
    max: nat,
    range: Option<(nat, nat)>,
    i: int,
    r: Result<Seq<u8>, ErrorView>,
) -> bool {
    let url = address(at, i, CdnPathKind::Data, key, false);
    match range {
        Some((offset, len)) => t.answers_range(url, offset, len, r),
        None => t.answers(url, max, r),
    }
}

/// `out` is what acquiring a file or a part of it can give, from the `i`-th
/// host on: the bytes, and the position of the host after the one that
/// served them.
pub open spec fn bytes_from<T: CdnTransport>(
    t: T,
    at: Location,
    key: Seq<u8>,
    max: nat,
    range: Option<(nat, nat)>,
    i: int,
    last: Option<ErrorView>,
    out: Result<(Seq<u8>, nat), ErrorView>,
) -> bool
    decreases at.hosts.len() - i,
{
    if i >= at.hosts.len() {
        out == Err::<(Seq<u8>, nat), ErrorView>(exhausted(last))
    } else {
        exists|a: Result<Seq<u8>, ErrorView>| #[trigger]
            host_answers(t, at, key, max, range, i, a) && (match a {
                Ok(body) => out == Ok::<(Seq<u8>, nat), ErrorView>((body, (i + 1) as nat)),
                Err(ErrorView::NotFound(s)) => out == Err::<(Seq<u8>, nat), ErrorView>(
                    ErrorView::NotFound(s),
                ),
                Err(e) => bytes_from(t, at, key, max, range, i + 1, Some(e), out),
            })
    }
}

/// What a fetcher knows beside its transport.
pub struct FetchView {
    pub at: Location,
    pub archives: Seq<Seq<u8>>,
    pub index: Map<Seq<u8>, CdnIndexEntry>,
    pub limits: ReadLimits,
}

/// The outcome of a loose-file request for `ekey`.
pub open spec fn loose_view(ekey: Seq<u8>, r: Result<(Seq<u8>, nat), ErrorView>) -> Result<
    (Seq<u8>, nat),
    ErrorView,
> {
    match r {
        Err(ErrorView::NotFound(_)) => Err(ErrorView::NotFound(keys::key_hex(ekey))),
        _ => r,
    }
}

/// `out` is what acquiring the encoded bytes of `ekey` can give, from the
/// host at `start` on: a part of the archive that the index names, or a
/// loose file where the index does not have the key.
pub open spec fn acquire_outcome<T: CdnTransport>(
    t: T,
    f: FetchView,
    ekey: Seq<u8>,
    limit: nat,
    start: int,
    out: Result<(Seq<u8>, nat), ErrorView>,
) -> bool {
    if f.index.contains_key(ekey) {
        let entry = f.index[ekey];
        if entry.archive >= f.archives.len() {
            out == Err::<(Seq<u8>, nat), ErrorView>(
                error::malformed_view("CDN index"@, "archive number out of range"@),
            )
        } else if entry.encoded_size > limit {
            out == Err::<(Seq<u8>, nat), ErrorView>(
                error::limit_view("CDN encoded object"@, limit),
            )
        } else {
            bytes_from(
                t,
                f.at,
                f.archives[entry.archive as int],
                limit,
                Some((entry.offset as nat, entry.encoded_size as nat)),
                start,
                None,
                out,
            )
        }
    } else {
        exists|a: Result<(Seq<u8>, nat), ErrorView>| #[trigger]
            bytes_from(t, f.at, ekey, limit, None, start, None, a) && out == loose_view(ekey, a)
    }
}

/// What is asked of a host for `ekey`: the key of the file, the range of it,
/// and the archive whose index named the range.
pub open spec fn sought(f: FetchView, ekey: Seq<u8>) -> (
    Seq<u8>,
    Option<(nat, nat)>,
    Option<Seq<u8>>,
) {
    if f.index.contains_key(ekey) {
        let entry = f.index[ekey];
        let archive = f.archives[entry.archive as int];
        (archive, Some((entry.offset as nat, entry.encoded_size as nat)), Some(archive))
    } else {
        (ekey, None, None)
    }
}

/// What is to be dropped where the bytes for `ekey` that the `i`-th host
/// served fail verification: those bytes, and the index that named them, on
/// every host.
pub open spec fn suspect_list(f: FetchView, ekey: Seq<u8>, i: int) -> Seq<
    (Seq<char>, Option<(nat, nat)>),
> {
    let (key, range, archive) = sought(f, ekey);
    let served = seq![(address(f.at, i, CdnPathKind::Data, key, false), range)];
    match archive {
        Some(a) => served + whole_list(f.at, CdnPathKind::Data, a, true),
        None => served,
    }
}

/// Bytes that failed verification, so that another host may have better
/// ones.
pub open spec fn is_corrupt(r: Result<Seq<u8>, ErrorView>) -> bool {
    r matches Err(e) && (e is Malformed || e is ChecksumMismatch)
}

/// `out` is what reading the content of `ekey` can give, from the host at
/// `start` on: bytes that fail verification are dropped and asked of the next
/// host.
pub open spec fn fetch_outcome<T: CdnTransport>(
    t: T,
    f: FetchView,
    ekey: Seq<u8>,
    expected: ExpectedView,
    start: int,
    out: Result<Seq<u8>, ErrorView>,
) -> bool
    decreases f.at.hosts.len() - start,
{
    match object::size_status(expected, f.limits) {
        Err(e) => out == Err::<Seq<u8>, ErrorView>(e),
        Ok(_) => exists|a: Result<(Seq<u8>, nat), ErrorView>| #[trigger]
            acquire_outcome(t, f, ekey, f.limits.max_encoded_bytes as nat, start, a) && (match a {
                Err(e) => out == Err::<Seq<u8>, ErrorView>(e),
                Ok((body, next)) => {
                    let v = object::verified(body, expected, f.limits, 0);
                    &&& is_corrupt(v) ==> all_dropped(t, suspect_list(f, ekey, next - 1))
                    &&& if is_corrupt(v) && start < next < f.at.hosts.len() {
                        fetch_outcome(t, f, ekey, expected, next as int, out)
                    } else {
                        out == v
                    }
                },
            }),
    }
}

/// Encoded bytes and where they came from.
pub struct AcquiredEncoded {
    pub bytes: Vec<u8>,
    pub url: String,
    pub range: Option<(u64, u64)>,
    pub index_key: Option<EncodingKey>,
    pub next_host: usize,
}

/// The acquired bytes came from where the bytes of `ekey` are sought.
pub open spec fn came_from(a: AcquiredEncoded, f: FetchView, ekey: Seq<u8>) -> bool {
    let (key, range, archive) = sought(f, ekey);
    &&& 0 < a.next_host <= f.at.hosts.len()
    &&& a.url@ == address(f.at, a.next_host - 1, CdnPathKind::Data, key, false)
    &&& range_view(a.range) == range
    &&& index_key_view(a.index_key) == archive
}

/// A key that may be absent, by its view.
pub open spec fn index_key_view(key: Option<EncodingKey>) -> Option<Seq<u8>> {
    match key {
        Some(k) => Some(k@),
        None => None,
    }
}

/// URLs with ranges of them, taken by their views.
pub open spec fn suspect_views(v: Seq<(String, Option<(u64, u64)>)>) -> Seq<
    (Seq<char>, Option<(nat, nat)>),
> {
    Seq::new(v.len(), |i: int| (v[i].0@, range_view(v[i].1)))
}

/// The outcome of an acquisition, by its bytes and the next host.
pub open spec fn acquired_view(r: Result<AcquiredEncoded, CascError>) -> Result<
    (Seq<u8>, nat),
    ErrorView,
> {
    match r {
        Ok(a) => Ok((a.bytes@, a.next_host as nat)),
        Err(e) => Err(e@),
    }
}

/// The outcome of fetching an archive index.
pub open spec fn fetched_view(r: Result<(usize, ArchiveIndex), CascError>) -> Result<
    (nat, Seq<ArchiveEntryView>),
    ErrorView,
> {
    match r {
        Ok((n, index)) => Ok((n as nat, index@)),
        Err(e) => Err(e@),
    }
}

/// A range that may be absent, as mathematical integers.
pub open spec fn range_view(range: Option<(u64, u64)>) -> Option<(nat, nat)> {
    match range {
        Some((offset, len)) => Some((offset as nat, len as nat)),
        None => None,
    }
}

/// Keys, taken by their views.
pub open spec fn key_views(s: Seq<EncodingKey>) -> Seq<Seq<u8>> {
    Seq::new(s.len(), |i: int| s[i]@)
}

fn exhausted_error(last: Option<CascError>) -> (e: CascError)
    ensures
        e@ == exhausted(error_view(last)),
{
    match last {
        Some(e) => e,
        None => CascError::Transport {
            url: "".to_owned(),
            reason: "no CDN hosts available".to_owned(),
        },
    }
}

/// The EKey-addressed lower half of a CDN storage: hosts, archive list, and
/// merged archive index. Separate from [`CdnStorage`] so the bootstrap can
/// fetch the encoding table before the CKey layer exists (same shape as the
/// local storage's internal split).
pub struct CdnFetcher<T: CdnTransport> {
    pub transport: T,
    pub limits: ReadLimits,
    /// CDN hosts in preference order; later hosts are tried when earlier
    /// ones fail with transport errors (a 404 is authoritative and not
    /// retried — the CDN is content-addressed, so all hosts serve the same
    /// objects).
    pub hosts: Vec<String>,
    pub cdn_path: String,
    /// Archive hashes from the CDN config, in order; the merged index refers
    /// to archives by position in this list.
    pub archives: Vec<EncodingKey>,
    pub index: CdnIndex,
}

impl<T: CdnTransport> CdnFetcher<T> {
    /// The hosts and the path prefix.
    pub open spec fn location(&self) -> Location {
        Location { hosts: text::texts(self.hosts@), path: self.cdn_path@ }
    }

    /// What the fetcher knows beside its transport.
    pub open spec fn known(&self) -> FetchView {
        FetchView {
            at: self.location(),
            archives: key_views(self.archives@),
            index: self.index@,
            limits: self.limits,
        }
    }

    /// The URL of a file on the `i`-th host.
    fn url(&self, i: usize, kind: CdnPathKind, hex: &str, index: bool, Ghost(key): Ghost<Seq<u8>>) -> (s:
        String)
        requires
            i < self.hosts@.len(),
            hex@ == keys::key_hex(key),
            key.len() == 16,
        ensures
            s@ == address(self.location(), i as int, kind, key, index),
    {
        proof {
            keys::lemma_hex_ascii(key);
        }
        tact::cdn_file_url(self.hosts[i].as_str(), self.cdn_path.as_str(), kind, hex, index)
    }

    /// Fetches a config file by its key, trying each host in order on
    /// transport failures and on bytes that do not match the key.
    pub fn get_config(&self, key: &ContentKey, max_bytes: usize, what: &'static str) -> (r: Result<
        Vec<u8>,
        CascError,
    >)
        ensures
            config_from(
                self.transport,
                self.location(),
                key@,
                max_bytes as nat,
                what@,
                0,
                None,
                error::outcome(r),
            ),
    {
        let hex = key.to_string();
        let mut last: Option<CascError> = None;
        let mut i: usize = 0;
        while i < self.hosts.len()
            invariant
                i <= self.hosts@.len(),
                hex@ == keys::key_hex(key@),
                forall|out: Result<Seq<u8>, ErrorView>| #[trigger]
                    config_from(
                        self.transport,
                        self.location(),
                        key@,
                        max_bytes as nat,
                        what@,
                        i as int,
                        error_view(last),
                        out,
                    ) ==> config_from(
                        self.transport,
                        self.location(),
                        key@,
                        max_bytes as nat,
                        what@,
                        0,
                        None,
                        out,
                    ),
            decreases self.hosts@.len() - i,
        {
            let url = self.url(i, CdnPathKind::Config, hex.as_str(), false, Ghost(key@));
            let answer = self.transport.get(url.as_str(), max_bytes);
            let ghost a = error::outcome(answer);
            assert(self.transport.answers(
                address(self.location(), i as int, CdnPathKind::Config, key@, false),
                max_bytes as nat,
                a,
            ));
            let failed = match answer {
                Ok(body) => match digest::verify_raw_ckey(body.as_slice(), key, what) {
                    Ok(_) => {
                        assert(config_from(
                            self.transport,
                            self.location(),
                            key@,
                            max_bytes as nat,
                            what@,
                            i as int,
                            error_view(last),
                            a,
                        ));
                        return Ok(body);
                    },
                    Err(e) => {
                        let text = url.as_str();
                        self.transport.invalidate(text, None);
                        assert(call_ensures(T::invalidate, (&self.transport, text, None), ()));
                        e
                    },
                },
                Err(CascError::NotFound(s)) => {
                    assert(config_from(
                        self.transport,
                        self.location(),
                        key@,
                        max_bytes as nat,
                        what@,
                        i as int,
                        error_view(last),
                        a,
                    ));
                    return Err(CascError::NotFound(s));
                },
                Err(e) => e,
            };
            assert forall|out: Result<Seq<u8>, ErrorView>| #[trigger]
                config_from(
                    self.transport,
                    self.location(),
                    key@,
                    max_bytes as nat,
                    what@,
                    i + 1,
                    Some(failed@),
                    out,
                ) implies config_from(
                self.transport,
                self.location(),
                key@,
                max_bytes as nat,
                what@,
                i as int,
                error_view(last),
                out,
            ) by {}
            last = Some(failed);
            i += 1;
        }
        assert(config_from(
            self.transport,
            self.location(),
            key@,
            max_bytes as nat,
            what@,
            i as int,
            error_view(last),
            Err(exhausted(error_view(last))),
        ));
        Err(exhausted_error(last))
    }

    /// Fetches and parses the index of an archive, trying each host in order
    /// on transport failures and on bytes that do not parse.
    pub fn get_index(&self, key: &EncodingKey, max_bytes: usize) -> (r: Result<
        (usize, ArchiveIndex),
        CascError,
    >)
        ensures
            index_from(
                self.transport,
                self.location(),
                key@,
                max_bytes as nat,
                0,
                None,
                fetched_view(r),
            ),
            r matches Ok((_, index)) ==> index.wf(),
    {
        let hex = key.to_string();
        let mut last: Option<CascError> = None;
        let mut i: usize = 0;
        while i < self.hosts.len()
            invariant
                i <= self.hosts@.len(),
                hex@ == keys::key_hex(key@),
                forall|out: Result<(nat, Seq<ArchiveEntryView>), ErrorView>| #[trigger]
                    index_from(
                        self.transport,
                        self.location(),
                        key@,
                        max_bytes as nat,
                        i as int,
                        error_view(last),
                        out,
                    ) ==> index_from(
                        self.transport,
                        self.location(),
                        key@,
                        max_bytes as nat,
                        0,
                        None,
                        out,
                    ),
            decreases self.hosts@.len() - i,
        {
            let url = self.url(i, CdnPathKind::Data, hex.as_str(), true, Ghost(key@));
            let answer = self.transport.get(url.as_str(), max_bytes);
            let ghost a = error::outcome(answer);
            assert(self.transport.answers(
                address(self.location(), i as int, CdnPathKind::Data, key@, true),
                max_bytes as nat,
                a,
            ));
            let failed = match answer {
                Ok(body) => match ArchiveIndex::parse(body.as_slice()) {
                    Ok(parsed) => {
                        assert(index_from(
                            self.transport,
                            self.location(),
                            key@,
                            max_bytes as nat,
                            i as int,
                            error_view(last),
                            Ok((body@.len(), parsed@)),
                        ));
                        return Ok((body.len(), parsed));
                    },
                    Err(e) => {
                        let text = url.as_str();
                        self.transport.invalidate(text, None);
                        assert(call_ensures(T::invalidate, (&self.transport, text, None), ()));
                        e
                    },
                },
                Err(CascError::NotFound(s)) => {
                    assert(index_from(
                        self.transport,
                        self.location(),
                        key@,
                        max_bytes as nat,
                        i as int,
                        error_view(last),
                        Err(ErrorView::NotFound(s@)),
                    ));
                    return Err(CascError::NotFound(s));
                },
                Err(e) => e,
            };
            assert forall|out: Result<(nat, Seq<ArchiveEntryView>), ErrorView>| #[trigger]
                index_from(
                    self.transport,
                    self.location(),
                    key@,
                    max_bytes as nat,
                    i + 1,
                    Some(failed@),
                    out,
                ) implies index_from(
                self.transport,
                self.location(),
                key@,
                max_bytes as nat,
                i as int,
                error_view(last),
                out,
            ) by {}
            last = Some(failed);
            i += 1;
        }
        assert(index_from(
            self.transport,
            self.location(),
            key@,
            max_bytes as nat,
            i as int,
            error_view(last),
            Err(exhausted(error_view(last))),
        ));
        Err(exhausted_error(last))
    }

    /// Has the transport drop what it holds of each of the given URLs, or of
    /// the given ranges of them.
    fn invalidate_all(&self, suspects: Vec<(String, Option<(u64, u64)>)>)
        ensures
            all_dropped(self.transport, suspect_views(suspects@)),
    {
        let ghost list = suspect_views(suspects@);
        let mut i: usize = 0;
        while i < suspects.len()
            invariant
                0 <= i <= suspects@.len(),
                list == suspect_views(suspects@),
                forall|j: int|
                    0 <= j < i ==> dropped(self.transport, (#[trigger] list[j]).0, list[j].1),
            decreases suspects@.len() - i,
        {
            let url = suspects[i].0.as_str();
            let range = suspects[i].1;
            self.transport.invalidate(url, range);
            assert(call_ensures(T::invalidate, (&self.transport, url, range), ()));
            assert(dropped(self.transport, list[i as int].0, list[i as int].1));
            i += 1;
        }
    }

    /// A file on each of the hosts, as something to be dropped whole.
    fn whole_files(&self, kind: CdnPathKind, key: &[u8; 16], index: bool) -> (v: Vec<
        (String, Option<(u64, u64)>),
    >)
        ensures
            suspect_views(v@) == whole_list(self.location(), kind, key@, index),
    {
        let hex = EncodingKey(*key).to_string();
        let ghost all = whole_list(self.location(), kind, key@, index);
        let mut v: Vec<(String, Option<(u64, u64)>)> = Vec::new();
        let mut i: usize = 0;
        assert(suspect_views(v@) =~= all.subrange(0, 0));
        while i < self.hosts.len()
            invariant
                0 <= i <= self.hosts@.len(),
                hex@ == keys::key_hex(key@),
                all == whole_list(self.location(), kind, key@, index),
                suspect_views(v@) == all.subrange(0, i as int),
            decreases self.hosts@.len() - i,
        {
            let ghost before = suspect_views(v@);
            v.push((self.url(i, kind, hex.as_str(), index, Ghost(key@)), None));
            assert(suspect_views(v@) =~= before.push(all[i as int]));
            i += 1;
            assert(suspect_views(v@) =~= all.subrange(0, i as int));
        }
        assert(all.subrange(0, i as int) =~= all);
        v
    }

    /// What is to be dropped where the acquired bytes of `ekey` fail
    /// verification.
    pub fn suspects(&self, ekey: &EncodingKey, acquired: AcquiredEncoded) -> (v: Vec<
        (String, Option<(u64, u64)>),
    >)
        requires
            came_from(acquired, self.known(), ekey@),
        ensures
            suspect_views(v@) == suspect_list(self.known(), ekey@, acquired.next_host - 1),
    {
        let ghost list = suspect_list(self.known(), ekey@, acquired.next_host - 1);
        let mut v: Vec<(String, Option<(u64, u64)>)> = Vec::new();
        v.push((acquired.url, acquired.range));
        let ghost served = suspect_views(v@);
        match acquired.index_key {
            Some(archive) => {
                let mut indices = self.whole_files(CdnPathKind::Data, &archive.0, true);
                let ghost rest = suspect_views(indices@);
                v.append(&mut indices);
                assert(suspect_views(v@) =~= served + rest);
            },
            None => {},
        }
        assert(suspect_views(v@) =~= list);
        v
    }

    /// Has the transport drop what it holds of a config file, on every host.
    fn invalidate_config(&self, key: &ContentKey)
        ensures
            all_dropped(
                self.transport,
                whole_list(self.location(), CdnPathKind::Config, key@, false),
            ),
    {
        self.invalidate_all(self.whole_files(CdnPathKind::Config, &key.0, false));
    }

    /// Fetches and BLTE-decodes the content for `ekey`: a Range request into
    /// the owning archive when indexed, otherwise a loose-file GET. Verifies
    /// the decoded bytes against `expected_ckey` when given.
    pub fn read_by_ekey(
        &self,
        ekey: &EncodingKey,
        expected_ckey: Option<&ContentKey>,
        decoded_size: Option<u64>,
    ) -> (r: Result<Vec<u8>, CascError>)
        requires
            self.index.wf(),
        ensures
            fetch_outcome(
                self.transport,
                self.known(),
                ekey@,
                (ExpectedObject { ckey: expected_ckey, decoded_size })@,
                0,
                error::outcome(r),
            ),
    {
        let expected = ExpectedObject { ckey: expected_ckey, decoded_size };
        match object::check_size(expected, self.limits) {
            Ok(_) => {},
            Err(e) => {
                return Err(e);
            },
        }
        let mut host_start: usize = 0;
        loop
            invariant
                self.index.wf(),
                expected == (ExpectedObject { ckey: expected_ckey, decoded_size }),
                object::size_status(expected@, self.limits) is Ok,
                forall|out: Result<Seq<u8>, ErrorView>| #[trigger]
                    fetch_outcome(
                        self.transport,
                        self.known(),
                        ekey@,
                        expected@,
                        host_start as int,
                        out,
                    ) ==> fetch_outcome(self.transport, self.known(), ekey@, expected@, 0, out),
            decreases self.hosts@.len() - host_start,
        {
            let acquisition = self.acquire_encoded(ekey, self.limits.max_encoded_bytes, host_start);
            let ghost a = acquired_view(acquisition);
            assert(acquire_outcome(
                self.transport,
                self.known(),
                ekey@,
                self.limits.max_encoded_bytes as nat,
                host_start as int,
                a,
            ));
            let acquired = match acquisition {
                Ok(v) => v,
                Err(e) => {
                    assert(fetch_outcome(
                        self.transport,
                        self.known(),
                        ekey@,
                        expected@,
                        host_start as int,
                        Err(e@),
                    ));
                    return Err(e);
                },
            };
            let result = object::verify_acquired(
                acquired.bytes.as_slice(),
                expected,
                self.limits,
                0,
            );
            let corrupt = match &result {
                Err(CascError::Malformed { .. }) => true,
                Err(CascError::ChecksumMismatch(_)) => true,
                _ => false,
            };
            if !corrupt {
                assert(fetch_outcome(
                    self.transport,
                    self.known(),
                    ekey@,
                    expected@,
                    host_start as int,
                    error::outcome(result),
                ));
                return result;
            }
            let next_host = acquired.next_host;
            self.invalidate_all(self.suspects(ekey, acquired));
            if next_host <= host_start || next_host >= self.hosts.len() {
                assert(fetch_outcome(
                    self.transport,
                    self.known(),
                    ekey@,
                    expected@,
                    host_start as int,
                    error::outcome(result),
                ));
                return result;
            }
            assert forall|out: Result<Seq<u8>, ErrorView>| #[trigger]
                fetch_outcome(
                    self.transport,
                    self.known(),
                    ekey@,
                    expected@,
                    next_host as int,
                    out,
                ) implies fetch_outcome(
                self.transport,
                self.known(),
                ekey@,
                expected@,
                host_start as int,
                out,
            ) by {}
            host_start = next_host;
        }
    }

    /// Acquires the encoded bytes of `ekey`, from the host at `host_start`
    /// on.
    pub fn acquire_encoded(&self, ekey: &EncodingKey, encoded_limit: usize, host_start: usize) -> (r:
        Result<AcquiredEncoded, CascError>)
        requires
            self.index.wf(),
        ensures
            acquire_outcome(
                self.transport,
                self.known(),
                ekey@,
                encoded_limit as nat,
                host_start as int,
                acquired_view(r),
            ),
            r matches Ok(a) ==> came_from(a, self.known(), ekey@),
    {
        match self.index.lookup(ekey) {
            Some(entry) => {
                assert(key_views(self.archives@).len() == self.archives@.len());
                if entry.archive as usize >= self.archives.len() {
                    return Err(CascError::malformed("CDN index", "archive number out of range"));
                }
                if entry.encoded_size as usize > encoded_limit {
                    return Err(CascError::limit("CDN encoded object", encoded_limit));
                }
                let archive = self.archives[entry.archive as usize];
                assert(key_views(self.archives@)[entry.archive as int] == archive@);
                self.acquire_from_hosts(
                    &archive,
                    encoded_limit,
                    Some((entry.offset as u64, entry.encoded_size as u64)),
                    Some(archive),
                    host_start,
                )
            },
            None => {
                let acquired = self.acquire_from_hosts(ekey, encoded_limit, None, None, host_start);
                let ghost a = acquired_view(acquired);
                assert(bytes_from(
                    self.transport,
                    self.known().at,
                    ekey@,
                    encoded_limit as nat,
                    None,
                    host_start as int,
                    None,
                    a,
                ));
                let r = match acquired {
                    Err(CascError::NotFound(_)) => Err(CascError::NotFound(ekey.to_string())),
                    other => other,
                };
                assert(acquired_view(r) == loose_view(ekey@, a));
                r
            },
        }
    }

    fn acquire_from_hosts(
        &self,
        key: &EncodingKey,
        max_bytes: usize,
        range: Option<(u64, u64)>,
        index_key: Option<EncodingKey>,
        host_start: usize,
    ) -> (r: Result<AcquiredEncoded, CascError>)
        ensures
            bytes_from(
                self.transport,
                self.location(),
                key@,
                max_bytes as nat,
                range_view(range),
                host_start as int,
                None,
                acquired_view(r),
            ),
            r matches Ok(a) ==> {
                &&& 0 < a.next_host <= self.hosts@.len()
                &&& a.url@ == address(
                    self.location(),
                    a.next_host - 1,
                    CdnPathKind::Data,
                    key@,
                    false,
                )
                &&& a.range == range
                &&& a.index_key == index_key
            },
    {
        let hex = key.to_string();
        let mut last: Option<CascError> = None;
        let mut i: usize = host_start;
        while i < self.hosts.len()
            invariant
                hex@ == keys::key_hex(key@),
                forall|out: Result<(Seq<u8>, nat), ErrorView>| #[trigger]
                    bytes_from(
                        self.transport,
                        self.location(),
                        key@,
                        max_bytes as nat,
                        range_view(range),
                        i as int,
                        error_view(last),
                        out,
                    ) ==> bytes_from(
                        self.transport,
                        self.location(),
                        key@,
                        max_bytes as nat,
                        range_view(range),
                        host_start as int,
                        None,
                        out,
                    ),
            decreases self.hosts@.len() - i,
        {
            let url = self.url(i, CdnPathKind::Data, hex.as_str(), false, Ghost(key@));
            let answer = match range {
                Some((offset, len)) => self.transport.get_range(url.as_str(), offset, len),
                None => self.transport.get(url.as_str(), max_bytes),
            };
            let ghost a = error::outcome(answer);
            assert(host_answers(
                self.transport,
                self.location(),
                key@,
                max_bytes as nat,
                range_view(range),
                i as int,
                a,
            ));
            let failed = match answer {
                Ok(bytes) => {
                    assert(bytes_from(
                        self.transport,
                        self.location(),
                        key@,
                        max_bytes as nat,
                        range_view(range),
                        i as int,
                        error_view(last),
                        Ok((bytes@, (i + 1) as nat)),
                    ));
                    return Ok(AcquiredEncoded { bytes, url, range, index_key, next_host: i + 1 });
                },
                Err(CascError::NotFound(s)) => {
                    assert(bytes_from(
                        self.transport,
                        self.location(),
                        key@,
                        max_bytes as nat,
                        range_view(range),
                        i as int,
                        error_view(last),
                        Err(ErrorView::NotFound(s@)),
                    ));
                    return Err(CascError::NotFound(s));
                },
                Err(e) => e,
            };
            assert forall|out: Result<(Seq<u8>, nat), ErrorView>| #[trigger]
                bytes_from(
                    self.transport,
                    self.location(),
                    key@,
                    max_bytes as nat,
                    range_view(range),
                    i + 1,
                    Some(failed@),
                    out,
                ) implies bytes_from(
                self.transport,
                self.location(),
                key@,
                max_bytes as nat,
                range_view(range),
                i as int,
                error_view(last),
                out,
            ) by {}
            last = Some(failed);
            i += 1;
        }
        assert(bytes_from(
            self.transport,
            self.location(),
            key@,
            max_bytes as nat,
            range_view(range),
            i as int,
            error_view(last),
            Err(exhausted(error_view(last))),
        ));
        Err(exhausted_error(last))
    }
}

// ---------------------------------------------------------------------
// Loading the archive indices

/// Whether a further archive index may be merged, given what has been merged
/// before it.
pub open spec fn merge_status(
    total_bytes: nat,
    total_entries: nat,
    downloaded: nat,
    entries: nat,
    archive: nat,
) -> Result<(), ErrorView> {
    if total_bytes + downloaded > MAX_CDN_INDEX_BYTES {
        Err(
            error::limit_view(
                "aggregate CDN archive index bytes"@,
                MAX_CDN_INDEX_BYTES as nat,
            ),
        )
    } else if total_entries + entries > MAX_CDN_INDEX_ENTRIES {
        Err(
            error::limit_view(
                "aggregate CDN archive index entries"@,
                MAX_CDN_INDEX_ENTRIES as nat,
            ),
        )
    } else if archive > u32::MAX {
        Err(
            error::malformed_view("CDN config"@, "archive list exceeds u32::MAX entries"@),
        )
    } else {
        Ok(())
    }
}

/// `out` is what loading the archive indices can give, from the `i`-th
/// archive on: `m` is the index of the archives before it. Archives are
/// merged in their order, so that a later one wins.
pub open spec fn load_from<T: CdnTransport>(
    t: T,
    at: Location,
    archives: Seq<Seq<u8>>,
    max: nat,
    i: int,
    m: Map<Seq<u8>, CdnIndexEntry>,
    total_bytes: nat,
    total_entries: nat,
    out: Result<Map<Seq<u8>, CdnIndexEntry>, ErrorView>,
) -> bool
    decreases archives.len() - i,
{
    if i >= archives.len() {
        out == Ok::<Map<Seq<u8>, CdnIndexEntry>, ErrorView>(m)
    } else {
        exists|a: Result<(nat, Seq<ArchiveEntryView>), ErrorView>| #[trigger]
            index_from(t, at, archives[i], max, 0, None, a) && (match a {
                Err(e) => out == Err::<Map<Seq<u8>, CdnIndexEntry>, ErrorView>(e),
                Ok((n, entries)) => match merge_status(
                    total_bytes,
                    total_entries,
                    n,
                    entries.len(),
                    i as nat,
                ) {
                    Err(e) => out == Err::<Map<Seq<u8>, CdnIndexEntry>, ErrorView>(e),
                    Ok(_) => load_from(
                        t,
                        at,
                        archives,
                        max,
                        i + 1,
                        cdnindex::added(m, i as u32, entries),
                        total_bytes + n,
                        total_entries + entries.len(),
                        out,
                    ),
                },
            })
    }
}

/// `out` is what the merged index of the given archives can be.
pub open spec fn load_outcome<T: CdnTransport>(
    t: T,
    at: Location,
    archives: Seq<Seq<u8>>,
    max: nat,
    out: Result<Map<Seq<u8>, CdnIndexEntry>, ErrorView>,
) -> bool {
    if archives.len() > MAX_CDN_ARCHIVES {
        out == Err::<Map<Seq<u8>, CdnIndexEntry>, ErrorView>(
            error::limit_view("CDN archive count"@, MAX_CDN_ARCHIVES as nat),
        )
    } else {
        load_from(
            t,
            at,
            archives,
            if max <= MAX_CDN_INDEX_FILE_BYTES {
                max
            } else {
                MAX_CDN_INDEX_FILE_BYTES as nat
            },
            0,
            Map::empty(),
            0,
            0,
            out,
        )
    }
}

/// Merges the index of one archive, where the limits on all of them together
/// allow it.
pub fn merge_archive_index(
    merged: &mut CdnIndex,
    archive: usize,
    downloaded_bytes: usize,
    parsed: &ArchiveIndex,
    total_bytes: &mut usize,
    total_entries: &mut usize,
) -> (r: Result<(), CascError>)
    requires
        old(merged).wf(),
    ensures
        final(merged).wf(),
        error::status(r) == merge_status(
            *old(total_bytes) as nat,
            *old(total_entries) as nat,
            downloaded_bytes as nat,
            parsed@.len(),
            archive as nat,
        ),
        match r {
            Ok(_) => {
                &&& final(merged)@ == cdnindex::added(old(merged)@, archive as u32, parsed@)
                &&& *final(total_bytes) == *old(total_bytes) + downloaded_bytes
                &&& *final(total_entries) == *old(total_entries) + parsed@.len()
            },
            Err(_) => {
                &&& final(merged)@ == old(merged)@
                &&& *final(total_bytes) == *old(total_bytes)
                &&& *final(total_entries) == *old(total_entries)
            },
        },
{
    if *total_bytes > MAX_CDN_INDEX_BYTES || downloaded_bytes > MAX_CDN_INDEX_BYTES - *total_bytes {
        return Err(CascError::limit("aggregate CDN archive index bytes", MAX_CDN_INDEX_BYTES));
    }
    let count: usize = parsed.len();
    if *total_entries > MAX_CDN_INDEX_ENTRIES || count > MAX_CDN_INDEX_ENTRIES - *total_entries {
        return Err(
            CascError::limit("aggregate CDN archive index entries", MAX_CDN_INDEX_ENTRIES),
        );
    }
    if archive > u32::MAX as usize {
        return Err(CascError::malformed("CDN config", "archive list exceeds u32::MAX entries"));
    }
    merged.add_archive(archive as u32, parsed);
    *total_bytes = *total_bytes + downloaded_bytes;
    *total_entries = *total_entries + count;
    Ok(())
}

/// Fetches and merges the indices of a CDN config's archives, in their
/// order.
pub fn load_archive_indexes<T: CdnTransport>(
    fetcher: &CdnFetcher<T>,
    archives: &[EncodingKey],
    max_bytes: usize,
) -> (r: Result<CdnIndex, CascError>)
    ensures
        load_outcome(
            fetcher.transport,
            fetcher.location(),
            key_views(archives@),
            max_bytes as nat,
            error::outcome(r),
        ),
        r matches Ok(i) ==> i.wf(),
{
    if archives.len() > MAX_CDN_ARCHIVES {
        return Err(CascError::limit("CDN archive count", MAX_CDN_ARCHIVES));
    }
    let per_index_max: usize = if max_bytes <= MAX_CDN_INDEX_FILE_BYTES {
        max_bytes
    } else {
        MAX_CDN_INDEX_FILE_BYTES
    };
    let mut merged = CdnIndex::new();
    let mut total_bytes: usize = 0;
    let mut total_entries: usize = 0;
    let mut i: usize = 0;
    while i < archives.len()
        invariant
            i <= archives@.len() <= MAX_CDN_ARCHIVES,
            merged.wf(),
            per_index_max == if max_bytes <= MAX_CDN_INDEX_FILE_BYTES {
                max_bytes
            } else {
                MAX_CDN_INDEX_FILE_BYTES
            },
            forall|out: Result<Map<Seq<u8>, CdnIndexEntry>, ErrorView>| #[trigger]
                load_from(
                    fetcher.transport,
                    fetcher.location(),
                    key_views(archives@),
                    per_index_max as nat,
                    i as int,
                    merged@,
                    total_bytes as nat,
                    total_entries as nat,
                    out,
                ) ==> load_from(
                    fetcher.transport,
                    fetcher.location(),
                    key_views(archives@),
                    per_index_max as nat,
                    0,
                    Map::empty(),
                    0,
                    0,
                    out,
                ),
        decreases archives@.len() - i,
    {
        let fetched = fetcher.get_index(&archives[i], per_index_max);
        let ghost a = fetched_view(fetched);
        assert(key_views(archives@)[i as int] == archives@[i as int]@);
        assert(index_from(
            fetcher.transport,
            fetcher.location(),
            key_views(archives@)[i as int],
            per_index_max as nat,
            0,
            None,
            a,
        ));
        let ghost (m, n, k) = (merged@, total_bytes as nat, total_entries as nat);
        let (downloaded_bytes, parsed) = match fetched {
            Ok(v) => v,
            Err(e) => {
                assert(load_from(
                    fetcher.transport,
                    fetcher.location(),
                    key_views(archives@),
                    per_index_max as nat,
                    i as int,
                    m,
                    n,
                    k,
                    Err(e@),
                ));
                return Err(e);
            },
        };
        match merge_archive_index(
            &mut merged,
            i,
            downloaded_bytes,
            &parsed,
            &mut total_bytes,
            &mut total_entries,
        ) {
            Ok(_) => {},
            Err(e) => {
                assert(load_from(
                    fetcher.transport,
                    fetcher.location(),
                    key_views(archives@),
                    per_index_max as nat,
                    i as int,
                    m,
                    n,
                    k,
                    Err(e@),
                ));
                return Err(e);
            },
        }
        assert forall|out: Result<Map<Seq<u8>, CdnIndexEntry>, ErrorView>| #[trigger]
            load_from(
                fetcher.transport,
                fetcher.location(),
                key_views(archives@),
                per_index_max as nat,
                i + 1,
                merged@,
                total_bytes as nat,
                total_entries as nat,
                out,
            ) implies load_from(
            fetcher.transport,
            fetcher.location(),
            key_views(archives@),
            per_index_max as nat,
            i as int,
            m,
            n,
            k,
            out,
        ) by {}
        i += 1;
    }
    assert(load_from(
        fetcher.transport,
        fetcher.location(),
        key_views(archives@),
        per_index_max as nat,
        i as int,
        merged@,
        total_bytes as nat,
        total_entries as nat,
        Ok(merged@),
    ));
    Ok(merged)
}

// ---------------------------------------------------------------------
// Opening

/// Where a `cdns` response puts a product's files for a region.
pub open spec fn located(data: Seq<u8>, product: Seq<char>, region: Seq<char>) -> Result<
    Location,
    ErrorView,
> {
    match tact::cdns(text::utf8_lossy(data)) {
        Err(e) => Err(e),
        Ok(rows) => match tact::cdn_of(rows, region) {
            None => Err(
                ErrorView::NotFound("region "@ + region + " in "@ + product + " cdns"@),
            ),
            Some(row) => match tact::location_status(row.hosts, row.path) {
                Err(e) => Err(e),
                Ok(_) => Ok(Location { hosts: row.hosts, path: row.path }),
            },
        },
    }
}

/// The row of a `versions` response for a region.
pub open spec fn current_version(data: Seq<u8>, product: Seq<char>, region: Seq<char>) -> Result<
    VersionView,
    ErrorView,
> {
    match tact::versions(text::utf8_lossy(data)) {
        Err(e) => Err(e),
        Ok(rows) => match tact::version_of(rows, region) {
            None => Err(
                ErrorView::NotFound("region "@ + region + " in "@ + product + " versions"@),
            ),
            Some(row) => Ok(row),
        },
    }
}

/// The keys that the words of a CDN config's archive list give.
pub open spec fn archive_keys(words: Seq<Seq<char>>) -> Result<Seq<Seq<u8>>, ErrorView>
    decreases words.len(),
{
    if words.len() == 0 {
        Ok(seq![])
    } else {
        match archive_keys(words.drop_last()) {
            Err(e) => Err(e),
            Ok(list) => if list.len() >= MAX_CDN_ARCHIVES {
                Err(error::limit_view("CDN archive count"@, MAX_CDN_ARCHIVES as nat))
            } else {
                match keys::key_from_hex(words.last(), 16, "encoding key"@) {
                    Err(_) => Err(
                        error::malformed_view("CDN config"@, "invalid archive content address"@),
                    ),
                    Ok(key) => Ok(list.push(key)),
                }
            },
        }
    }
}

/// The archives that a CDN config lists.
pub open spec fn config_archives(m: Map<Seq<char>, Seq<char>>) -> Result<
    Seq<Seq<u8>>,
    ErrorView,
> {
    match config::config_value(m, "archives"@) {
        None => Err(error::malformed_view("CDN config"@, "missing 'archives'"@)),
        Some(value) => archive_keys(text::words(value)),
    }
}

/// What a fetched config file gives.
pub open spec fn parsed_config(data: Result<Seq<u8>, ErrorView>) -> Result<
    Map<Seq<char>, Seq<char>>,
    ErrorView,
> {
    match data {
        Err(e) => Err(e),
        Ok(bytes) => config::build_config(text::utf8_lossy(bytes)),
    }
}

/// `out` is what the config of `key` can be: one that does not parse is
/// dropped on every host.
pub open spec fn config_outcome<T: CdnTransport>(
    t: T,
    at: Location,
    key: Seq<u8>,
    max: nat,
    what: Seq<char>,
    out: Result<Map<Seq<char>, Seq<char>>, ErrorView>,
) -> bool {
    exists|a: Result<Seq<u8>, ErrorView>| #[trigger]
        config_from(t, at, key, max, what, 0, None, a) && out == parsed_config(a) && (a is Ok
            && out is Err ==> all_dropped(t, whole_list(at, CdnPathKind::Config, key, false)))
}

/// `out` is what the catalog can be, where the encoding table has been read.
pub open spec fn catalog_outcome<T: CdnTransport>(
    t: T,
    f: FetchView,
    found: Result<(Seq<EncodingView>, EncodingView), ErrorView>,
    out: Result<(Seq<EncodingView>, Seq<RootView>), ErrorView>,
) -> bool {
    match found {
        Err(e) => out == Err::<(Seq<EncodingView>, Seq<RootView>), ErrorView>(e),
        Ok((table, entry)) => exists|b: Result<Seq<u8>, ErrorView>| #[trigger]
            fetch_outcome(
                t,
                f,
                entry.ekey,
                ExpectedView { ckey: Some(entry.ckey), size: Some(entry.size) },
                0,
                b,
            ) && out == storage::root_verdict(table, b),
    }
}

/// `out` is what the encoding table and the catalog can be.
pub open spec fn tables_outcome<T: CdnTransport>(
    t: T,
    f: FetchView,
    m: Map<Seq<char>, Seq<char>>,
    out: Result<(Seq<EncodingView>, Seq<RootView>), ErrorView>,
) -> bool {
    match config::config_encoding(m) {
        Err(e) => out == Err::<(Seq<EncodingView>, Seq<RootView>), ErrorView>(e),
        Ok((ckey, ekey)) => exists|a: Result<Seq<u8>, ErrorView>| #[trigger]
            fetch_outcome(t, f, ekey, storage::encoding_expected(m, ckey), 0, a)
                && catalog_outcome(t, f, storage::encoding_verdict(m, a), out),
    }
}

/// The build to open: the keys of its configs and its name.
pub struct Pinned {
    pub build: Seq<u8>,
    pub cdn: Seq<u8>,
    pub name: Option<Seq<char>>,
}

/// What an opened CDN storage holds.
pub struct CdnStorageView {
    pub fetch: FetchView,
    pub config: Map<Seq<char>, Seq<char>>,
    pub encoding: Seq<EncodingView>,
    pub root: Seq<RootView>,
    pub version_name: Option<Seq<char>>,
}

/// What a storage holds once its tables have been read.
pub open spec fn opened(
    f: FetchView,
    options: OptionsView,
    m: Map<Seq<char>, Seq<char>>,
    name: Option<Seq<char>>,
    tables: Result<(Seq<EncodingView>, Seq<RootView>), ErrorView>,
) -> Result<CdnStorageView, ErrorView> {
    match tables {
        Err(e) => Err(e),
        Ok((table, rows)) => Ok(
            CdnStorageView {
                fetch: FetchView { limits: options.read_limits, ..f },
                config: m,
                encoding: table,
                root: rows,
                version_name: name,
            },
        ),
    }
}

/// `out` is what opening can give, where the indices have been loaded.
pub open spec fn open_with_index<T: CdnTransport>(
    t: T,
    at: Location,
    options: OptionsView,
    m: Map<Seq<char>, Seq<char>>,
    archives: Seq<Seq<u8>>,
    index: Result<Map<Seq<u8>, CdnIndexEntry>, ErrorView>,
    name: Option<Seq<char>>,
    out: Result<CdnStorageView, ErrorView>,
) -> bool {
    match index {
        Err(e) => out == Err::<CdnStorageView, ErrorView>(e),
        Ok(index) => {
            let f = FetchView { at, archives, index, limits: storage::metadata_limits(options) };
            exists|b: Result<(Seq<EncodingView>, Seq<RootView>), ErrorView>| #[trigger]
                tables_outcome(t, f, m, b) && out == opened(f, options, m, name, b)
        },
    }
}

/// `out` is what opening can give, where both configs have been read.
pub open spec fn open_with_configs<T: CdnTransport>(
    t: T,
    at: Location,
    options: OptionsView,
    m: Map<Seq<char>, Seq<char>>,
    cdn: Result<Map<Seq<char>, Seq<char>>, ErrorView>,
    name: Option<Seq<char>>,
    out: Result<CdnStorageView, ErrorView>,
) -> bool {
    match cdn {
        Err(e) => out == Err::<CdnStorageView, ErrorView>(e),
        Ok(c) => match config_archives(c) {
            Err(e) => out == Err::<CdnStorageView, ErrorView>(e),
            Ok(archives) => exists|i: Result<Map<Seq<u8>, CdnIndexEntry>, ErrorView>| #[trigger]
                load_outcome(t, at, archives, options.max_metadata_bytes, i) && open_with_index(
                    t,
                    at,
                    options,
                    m,
                    archives,
                    i,
                    name,
                    out,
                ),
        },
    }
}

/// `out` is what opening can give, where the build config has been read.
pub open spec fn open_with_build<T: CdnTransport>(
    t: T,
    at: Location,
    options: OptionsView,
    build: Result<Map<Seq<char>, Seq<char>>, ErrorView>,
    pinned: Pinned,
    out: Result<CdnStorageView, ErrorView>,
) -> bool {
    match build {
        Err(e) => out == Err::<CdnStorageView, ErrorView>(e),
        Ok(m) => exists|c: Result<Map<Seq<char>, Seq<char>>, ErrorView>| #[trigger]
            config_outcome(t, at, pinned.cdn, options.max_metadata_bytes, "CDN config"@, c)
                && open_with_configs(t, at, options, m, c, pinned.name, out),
    }
}

/// `out` is what opening can give, where the CDN has been located.
pub open spec fn open_at<T: CdnTransport>(
    t: T,
    at: Result<Location, ErrorView>,
    options: OptionsView,
    pinned: Pinned,
    out: Result<CdnStorageView, ErrorView>,
) -> bool {
    match at {
        Err(e) => out == Err::<CdnStorageView, ErrorView>(e),
        Ok(at) => exists|b: Result<Map<Seq<char>, Seq<char>>, ErrorView>| #[trigger]
            config_outcome(t, at, pinned.build, options.max_metadata_bytes, "build config"@, b)
                && open_with_build(t, at, options, b, pinned, out),
    }
}

/// The location that a fetched `cdns` response gives.
pub open spec fn location_in(
    data: Result<Seq<u8>, ErrorView>,
    product: Seq<char>,
    region: Seq<char>,
) -> Result<Location, ErrorView> {
    match data {
        Err(e) => Err(e),
        Ok(bytes) => located(bytes, product, region),
    }
}

/// `out` is what opening the given build can give, its CDN being discovered.
pub open spec fn open_build<T: CdnTransport>(
    t: T,
    product: Seq<char>,
    region: Seq<char>,
    options: OptionsView,
    pinned: Pinned,
    out: Result<CdnStorageView, ErrorView>,
) -> bool {
    exists|a: Result<Seq<u8>, ErrorView>| #[trigger]
        t.answers(tact::cdns_address(region, product), options.max_metadata_bytes, a) && open_at(
            t,
            location_in(a, product, region),
            options,
            pinned,
            out,
        )
}

/// What checking the names of a product and a region gives.
pub open spec fn names_status(product: Seq<char>, region: Seq<char>) -> Result<(), ErrorView> {
    match tact::identifier_status(product, "product"@) {
        Err(e) => Err(e),
        Ok(_) => tact::identifier_status(region, "region"@),
    }
}

/// `out` is what opening the given build can give.
pub open spec fn pinned_outcome<T: CdnTransport>(
    t: T,
    product: Seq<char>,
    region: Seq<char>,
    options: OptionsView,
    pinned: Pinned,
    out: Result<CdnStorageView, ErrorView>,
) -> bool {
    match names_status(product, region) {
        Err(e) => out == Err::<CdnStorageView, ErrorView>(e),
        Ok(_) => open_build(t, product, region, options, pinned, out),
    }
}

/// `out` is what opening the current build can give, where `data` is what
/// fetching the `versions` response gave.
pub open spec fn open_current<T: CdnTransport>(
    t: T,
    product: Seq<char>,
    region: Seq<char>,
    options: OptionsView,
    data: Result<Seq<u8>, ErrorView>,
    out: Result<CdnStorageView, ErrorView>,
) -> bool {
    match data {
        Err(e) => out == Err::<CdnStorageView, ErrorView>(e),
        Ok(bytes) => match current_version(bytes, product, region) {
            Err(e) => out == Err::<CdnStorageView, ErrorView>(e),
            Ok(row) => open_build(
                t,
                product,
                region,
                options,
                Pinned { build: row.build_config, cdn: row.cdn_config, name: row.versions_name },
                out,
            ),
        },
    }
}

/// `out` is what opening the current build of a product can give.
pub open spec fn open_outcome<T: CdnTransport>(
    t: T,
    product: Seq<char>,
    region: Seq<char>,
    options: OptionsView,
    out: Result<CdnStorageView, ErrorView>,
) -> bool {
    match names_status(product, region) {
        Err(e) => out == Err::<CdnStorageView, ErrorView>(e),
        Ok(_) => exists|a: Result<Seq<u8>, ErrorView>| #[trigger]
            t.answers(tact::versions_address(region, product), options.max_metadata_bytes, a)
                && open_current(t, product, region, options, a, out),
    }
}

/// Finds a product's CDN in a `cdns` response.
pub fn locate(data: &[u8], product: &str, region: &str) -> (r: Result<
    (Vec<String>, String),
    CascError,
>)
    ensures
        match r {
            Ok((hosts, path)) => located(data@, product@, region@) == Ok::<Location, ErrorView>(
                Location { hosts: text::texts(hosts@), path: path@ },
            ),
            Err(e) => located(data@, product@, region@) == Err::<Location, ErrorView>(e@),
        },
{
    let input = text::lossy_text(data);
    let cdns = match Cdns::parse(input.as_str()) {
        Ok(c) => c,
        Err(e) => {
            return Err(e);
        },
    };
    match cdns.region(region) {
        Some(cdn) => match tact::validate_cdn_location(&cdn.hosts, cdn.path.as_str()) {
            Ok(_) => Ok((text::copy_texts(&cdn.hosts), cdn.path.as_str().to_owned())),
            Err(e) => Err(e),
        },
        None => {
            let mut s = text::cat4("region ", region, " in ", product);
            s.append(" cdns");
            Err(CascError::NotFound(s))
        },
    }
}

/// Finds the current build of a product in a `versions` response: the keys
/// of its configs and its name.
pub fn find_version(data: &[u8], product: &str, region: &str) -> (r: Result<
    (ContentKey, ContentKey, Option<String>),
    CascError,
>)
    ensures
        match r {
            Ok((build, cdn, name)) => current_version(data@, product@, region@) matches Ok(row) && {
                &&& row.build_config == build@
                &&& row.cdn_config == cdn@
                &&& row.versions_name == config::optional_text(name)
            },
            Err(e) => current_version(data@, product@, region@) == Err::<VersionView, ErrorView>(
                e@,
            ),
        },
{
    let input = text::lossy_text(data);
    let versions = match Versions::parse(input.as_str()) {
        Ok(v) => v,
        Err(e) => {
            return Err(e);
        },
    };
    match versions.region(region) {
        Some(version) => {
            let name = match &version.versions_name {
                Some(s) => Some(s.as_str().to_owned()),
                None => None,
            };
            Ok((version.build_config, version.cdn_config, name))
        },
        None => {
            let mut s = text::cat4("region ", region, " in ", product);
            s.append(" versions");
            Err(CascError::NotFound(s))
        },
    }
}

/// The archives that a CDN config lists: its `archives` line names the
/// archive files that the build's data spans.
pub fn parse_archives(cdn_config: &BuildConfig) -> (r: Result<Vec<EncodingKey>, CascError>)
    requires
        cdn_config.wf(),
    ensures
        match r {
            Ok(v) => config_archives(cdn_config@) == Ok::<Seq<Seq<u8>>, ErrorView>(key_views(v@)),
            Err(e) => config_archives(cdn_config@) == Err::<Seq<Seq<u8>>, ErrorView>(e@),
        },
{
    let value = match cdn_config.get("archives") {
        Some(v) => v,
        None => {
            return Err(CascError::malformed("CDN config", "missing 'archives'"));
        },
    };
    let tokens = tact::word_strings(value);
    let ghost all = text::words(value@);
    let mut archives: Vec<EncodingKey> = Vec::new();
    let mut i: usize = 0;
    assert(all.subrange(0, 0) =~= seq![]);
    assert(key_views(archives@) =~= seq![]);
    while i < tokens.len()
        invariant
            0 <= i <= tokens@.len(),
            all == text::texts(tokens@),
            all == text::words(value@),
            config_archives(cdn_config@) == archive_keys(all),
            archive_keys(all.subrange(0, i as int)) == Ok::<Seq<Seq<u8>>, ErrorView>(
                key_views(archives@),
            ),
        decreases tokens@.len() - i,
    {
        let ghost seen = all.subrange(0, i + 1);
        let ghost list = key_views(archives@);
        proof {
            assert(seen.drop_last() =~= all.subrange(0, i as int));
            assert(seen.last() == tokens@[i as int]@);
        }
        if archives.len() >= MAX_CDN_ARCHIVES {
            proof {
                lemma_archives_fail(all, i + 1);
            }
            return Err(CascError::limit("CDN archive count", MAX_CDN_ARCHIVES));
        }
        match EncodingKey::from_hex(tokens[i].as_str()) {
            Ok(k) => {
                archives.push(k);
                assert(key_views(archives@) =~= list.push(k@));
            },
            Err(_) => {
                proof {
                    lemma_archives_fail(all, i + 1);
                }
                return Err(CascError::malformed("CDN config", "invalid archive content address"));
            },
        }
        i += 1;
    }
    assert(all.subrange(0, i as int) =~= all);
    Ok(archives)
}

proof fn lemma_archives_fail(words: Seq<Seq<char>>, i: int)
    requires
        0 <= i <= words.len(),
        archive_keys(words.subrange(0, i)) is Err,
    ensures
        archive_keys(words) == archive_keys(words.subrange(0, i)),
    decreases words.len() - i,
{
    if i < words.len() {
        assert(words.subrange(0, i + 1).drop_last() =~= words.subrange(0, i));
        lemma_archives_fail(words, i + 1);
    } else {
        assert(words.subrange(0, i) =~= words);
    }
}

proof fn lemma_catalog<T: CdnTransport>(
    t: T,
    f: FetchView,
    table: Seq<EncodingView>,
    entry: EncodingView,
    b: Result<Seq<u8>, ErrorView>,
)
    requires
        fetch_outcome(
            t,
            f,
            entry.ekey,
            ExpectedView { ckey: Some(entry.ckey), size: Some(entry.size) },
            0,
            b,
        ),
    ensures
        catalog_outcome(t, f, Ok((table, entry)), storage::root_verdict(table, b)),
{
}

proof fn lemma_tables<T: CdnTransport>(
    t: T,
    f: FetchView,
    m: Map<Seq<char>, Seq<char>>,
    ckey: Seq<u8>,
    ekey: Seq<u8>,
    a: Result<Seq<u8>, ErrorView>,
    out: Result<(Seq<EncodingView>, Seq<RootView>), ErrorView>,
)
    requires
        config::config_encoding(m) == Ok::<(Seq<u8>, Seq<u8>), ErrorView>((ckey, ekey)),
        fetch_outcome(t, f, ekey, storage::encoding_expected(m, ckey), 0, a),
        catalog_outcome(t, f, storage::encoding_verdict(m, a), out),
    ensures
        tables_outcome(t, f, m, out),
{
    match config::config_encoding(m) {
        Ok((c, e)) => {
            assert(c == ckey && e == ekey);
            assert(exists|a: Result<Seq<u8>, ErrorView>| #[trigger]
                fetch_outcome(t, f, e, storage::encoding_expected(m, c), 0, a)
                    && catalog_outcome(t, f, storage::encoding_verdict(m, a), out));
        },
        Err(_) => {},
    }
}

proof fn lemma_with_configs<T: CdnTransport>(
    t: T,
    at: Location,
    options: OptionsView,
    m: Map<Seq<char>, Seq<char>>,
    c: Map<Seq<char>, Seq<char>>,
    archives: Seq<Seq<u8>>,
    i: Result<Map<Seq<u8>, CdnIndexEntry>, ErrorView>,
    name: Option<Seq<char>>,
    out: Result<CdnStorageView, ErrorView>,
)
    requires
        config_archives(c) == Ok::<Seq<Seq<u8>>, ErrorView>(archives),
        load_outcome(t, at, archives, options.max_metadata_bytes, i),
        open_with_index(t, at, options, m, archives, i, name, out),
    ensures
        open_with_configs(t, at, options, m, Ok(c), name, out),
{
    match config_archives(c) {
        Ok(listed) => assert(listed == archives),
        Err(_) => {},
    }
    assert(exists|i: Result<Map<Seq<u8>, CdnIndexEntry>, ErrorView>| #[trigger]
        load_outcome(t, at, archives, options.max_metadata_bytes, i) && open_with_index(
            t,
            at,
            options,
            m,
            archives,
            i,
            name,
            out,
        ));
}

proof fn lemma_open_at<T: CdnTransport>(
    t: T,
    at: Location,
    options: OptionsView,
    pinned: Pinned,
    b: Result<Map<Seq<char>, Seq<char>>, ErrorView>,
    out: Result<CdnStorageView, ErrorView>,
)
    requires
        config_outcome(t, at, pinned.build, options.max_metadata_bytes, "build config"@, b),
        open_with_build(t, at, options, b, pinned, out),
    ensures
        open_at(t, Ok(at), options, pinned, out),
{
    match Ok::<Location, ErrorView>(at) {
        Ok(l) => assert(l == at),
        Err(_) => {},
    }
    assert(exists|b: Result<Map<Seq<char>, Seq<char>>, ErrorView>| #[trigger]
        config_outcome(t, at, pinned.build, options.max_metadata_bytes, "build config"@, b)
            && open_with_build(t, at, options, b, pinned, out));
}

impl<T: CdnTransport> CdnFetcher<T> {
    /// Fetches and parses the config file of `key`.
    fn load_config(&self, key: &ContentKey, max_bytes: usize, what: &'static str) -> (r: Result<
        BuildConfig,
        CascError,
    >)
        ensures
            config_outcome(
                self.transport,
                self.location(),
                key@,
                max_bytes as nat,
                what@,
                error::outcome(r),
            ),
            r matches Ok(c) ==> c.wf(),
    {
        let fetched = self.get_config(key, max_bytes, what);
        let ghost a = error::outcome(fetched);
        assert(config_from(
            self.transport,
            self.location(),
            key@,
            max_bytes as nat,
            what@,
            0,
            None,
            a,
        ));
        let r = match fetched {
            Ok(bytes) => {
                let input = text::lossy_text(bytes.as_slice());
                match BuildConfig::parse(input.as_str()) {
                    Ok(c) => Ok(c),
                    Err(e) => {
                        self.invalidate_config(key);
                        Err(e)
                    },
                }
            },
            Err(e) => Err(e),
        };
        assert(error::outcome(r) == parsed_config(a));
        r
    }

    /// Reads the catalog, whose root file has the given keys and size.
    fn load_root(&self, table: EncodingTable, ckey: ContentKey, ekey: EncodingKey, size: u64) -> (r:
        Result<(EncodingTable, RootFile), CascError>)
        requires
            self.index.wf(),
            table.wf(),
        ensures
            catalog_outcome(
                self.transport,
                self.known(),
                Ok((table@, EncodingView { ckey: ckey@, ekey: ekey@, size: size as nat })),
                error::outcome(r),
            ),
            r matches Ok((t, f)) ==> t.wf() && f.wf(),
    {
        let read = self.read_by_ekey(&ekey, Some(&ckey), Some(size));
        let ghost b = error::outcome(read);
        proof {
            let entry = EncodingView { ckey: ckey@, ekey: ekey@, size: size as nat };
            assert((ExpectedObject { ckey: Some(&ckey), decoded_size: Some(size) })@ == (
            ExpectedView { ckey: Some(entry.ckey), size: Some(entry.size) }));
            lemma_catalog(self.transport, self.known(), table@, entry, b);
        }
        match read {
            Ok(data) => match RootFile::parse(data.as_slice()) {
                Ok(f) => Ok((table, f)),
                Err(e) => Err(e),
            },
            Err(e) => Err(e),
        }
    }

    /// Reads the encoding table and the catalog. The encoding table's EKey
    /// comes straight from the build config: the one fetch that can't go
    /// through the encoding table itself.
    fn load_tables(&self, config: &BuildConfig) -> (r: Result<
        (EncodingTable, RootFile),
        CascError,
    >)
        requires
            self.index.wf(),
            config.wf(),
        ensures
            tables_outcome(self.transport, self.known(), config@, error::outcome(r)),
            r matches Ok((t, f)) ==> t.wf() && f.wf(),
    {
        let (ckey, ekey) = match config.encoding() {
            Ok(p) => p,
            Err(e) => {
                return Err(e);
            },
        };
        let size: Option<u64> = match config.encoding_size() {
            Some((decoded, _)) => Some(decoded),
            None => None,
        };
        let read = self.read_by_ekey(&ekey, Some(&ckey), size);
        let ghost a = error::outcome(read);
        assert((ExpectedObject { ckey: Some(&ckey), decoded_size: size })@
            == storage::encoding_expected(config@, ckey@));
        let r = match read {
            Ok(data) => match storage::find_root(data.as_slice(), config) {
                Ok((table, root_ckey, root_ekey, root_size)) => self.load_root(
                    table,
                    root_ckey,
                    root_ekey,
                    root_size,
                ),
                Err(e) => Err(e),
            },
            Err(e) => Err(e),
        };
        proof {
            lemma_tables(
                self.transport,
                self.known(),
                config@,
                ckey@,
                ekey@,
                a,
                error::outcome(r),
            );
        }
        r
    }

    /// Completes the opening of a storage whose configs have been read.
    fn open_tables(
        self,
        options: StorageOptions,
        build_config: BuildConfig,
        cdn_config: BuildConfig,
        version_name: Option<String>,
    ) -> (r: Result<CdnStorage<T>, CascError>)
        requires
            build_config.wf(),
            cdn_config.wf(),
            self.limits == storage::metadata_limits(options@),
        ensures
            open_with_configs(
                self.transport,
                self.location(),
                options@,
                build_config@,
                Ok(cdn_config@),
                config::optional_text(version_name),
                open_view(r),
            ),
            r matches Ok(s) ==> s.wf() && s.source() == self.transport,
    {
        let archives = match parse_archives(&cdn_config) {
            Ok(v) => v,
            Err(e) => {
                return Err(e);
            },
        };
        let ghost listed = key_views(archives@);
        let ghost name = config::optional_text(version_name);
        let loaded = load_archive_indexes(&self, archives.as_slice(), options.max_metadata_bytes());
        let ghost i = error::outcome(loaded);
        assert(load_outcome(
            self.transport,
            self.location(),
            listed,
            options@.max_metadata_bytes,
            i,
        ));
        let index = match loaded {
            Ok(i) => i,
            Err(e) => {
                proof {
                    lemma_with_configs(
                        self.transport,
                        self.location(),
                        options@,
                        build_config@,
                        cdn_config@,
                        listed,
                        i,
                        name,
                        Err::<CdnStorageView, ErrorView>(e@),
                    );
                }
                return Err(e);
            },
        };
        let fetcher = CdnFetcher {
            transport: self.transport,
            limits: self.limits,
            hosts: self.hosts,
            cdn_path: self.cdn_path,
            archives,
            index,
        };
        let ghost known = fetcher.known();
        let tables = fetcher.load_tables(&build_config);
        let ghost b = error::outcome(tables);
        assert(tables_outcome(fetcher.transport, known, build_config@, b));
        let r = match tables {
            Ok((encoding, root)) => {
                let fetcher = CdnFetcher {
                    transport: fetcher.transport,
                    limits: options.read_limits(),
                    hosts: fetcher.hosts,
                    cdn_path: fetcher.cdn_path,
                    archives: fetcher.archives,
                    index: fetcher.index,
                };
                Ok(CdnStorage { fetcher, build_config, encoding, root, version_name })
            },
            Err(e) => Err(e),
        };
        proof {
            assert(open_view(r) == opened(known, options@, build_config@, name, b));
            lemma_with_configs(
                self.transport,
                self.location(),
                options@,
                build_config@,
                cdn_config@,
                listed,
                i,
                name,
                open_view(r),
            );
        }
        r
    }

    /// Completes the opening of a storage whose CDN has been located.
    fn open_configs(
        self,
        options: StorageOptions,
        build_config_key: ContentKey,
        cdn_config_key: ContentKey,
        version_name: Option<String>,
    ) -> (r: Result<CdnStorage<T>, CascError>)
        requires
            self.limits == storage::metadata_limits(options@),
        ensures
            open_at(
                self.transport,
                Ok(self.location()),
                options@,
                pinned_view(build_config_key, cdn_config_key, version_name),
                open_view(r),
            ),
            r matches Ok(s) ==> s.wf() && s.source() == self.transport,
    {
        let ghost pinned = pinned_view(build_config_key, cdn_config_key, version_name);
        let max: usize = options.max_metadata_bytes();
        let loaded = self.load_config(&build_config_key, max, "build config");
        let ghost b = error::outcome(loaded);
        assert(config_outcome(
            self.transport,
            self.location(),
            pinned.build,
            options@.max_metadata_bytes,
            "build config"@,
            b,
        ));
        let build_config = match loaded {
            Ok(c) => c,
            Err(e) => {
                proof {
                    lemma_open_at(
                        self.transport,
                        self.location(),
                        options@,
                        pinned,
                        b,
                        Err::<CdnStorageView, ErrorView>(e@),
                    );
                }
                return Err(e);
            },
        };
        let loaded_cdn = self.load_config(&cdn_config_key, max, "CDN config");
        let ghost c = error::outcome(loaded_cdn);
        assert(config_outcome(
            self.transport,
            self.location(),
            pinned.cdn,
            options@.max_metadata_bytes,
            "CDN config"@,
            c,
        ));
        let ghost t = self.transport;
        let ghost at = self.location();
        let r = match loaded_cdn {
            Ok(cdn_config) => self.open_tables(options, build_config, cdn_config, version_name),
            Err(e) => Err(e),
        };
        proof {
            assert(open_with_configs(t, at, options@, build_config@, c, pinned.name, open_view(r)));
            lemma_open_at(t, at, options@, pinned, b, open_view(r));
        }
        r
    }
}

/// The build that is to be opened.
pub open spec fn pinned_view(build: ContentKey, cdn: ContentKey, name: Option<String>) -> Pinned {
    Pinned { build: build@, cdn: cdn@, name: config::optional_text(name) }
}

/// An opened CDN storage, ready to read files. The read API mirrors
/// [`crate::storage::Storage`].
pub struct CdnStorage<T: CdnTransport> {
    fetcher: CdnFetcher<T>,
    build_config: BuildConfig,
    encoding: EncodingTable,
    root: RootFile,
    version_name: Option<String>,
}

impl<T: CdnTransport> View for CdnStorage<T> {
    type V = CdnStorageView;

    closed spec fn view(&self) -> CdnStorageView {
        CdnStorageView {
            fetch: self.fetcher.known(),
            config: self.build_config@,
            encoding: self.encoding@,
            root: self.root@,
            version_name: config::optional_text(self.version_name),
        }
    }
}

/// The outcome of opening a storage, by the storage's view.
pub open spec fn open_view<T: CdnTransport>(r: Result<CdnStorage<T>, CascError>) -> Result<
    CdnStorageView,
    ErrorView,
> {
    match r {
        Ok(s) => Ok(s@),
        Err(e) => Err(e@),
    }
}

/// `out` is what downloading the content of a content key can give.
pub open spec fn ckey_outcome<T: CdnTransport>(
    t: T,
    s: CdnStorageView,
    ckey: Seq<u8>,
    out: Result<Seq<u8>, ErrorView>,
) -> bool {
    match encoding::found(s.encoding, ckey) {
        None => out == Err::<Seq<u8>, ErrorView>(ErrorView::NotFound(keys::key_hex(ckey))),
        Some(entry) => fetch_outcome(
            t,
            s.fetch,
            entry.ekey,
            ExpectedView { ckey: Some(ckey), size: Some(entry.size) },
            0,
            out,
        ),
    }
}

/// The outcome of downloading a cataloged file: content that is not found is
/// reported by the file's path.
pub open spec fn named_view(path: Seq<char>, r: Result<Seq<u8>, ErrorView>) -> Result<
    Seq<u8>,
    ErrorView,
> {
    match r {
        Err(ErrorView::NotFound(_)) => Err(ErrorView::NotFound(path)),
        _ => r,
    }
}

/// `out` is what downloading a file by its path can give.
pub open spec fn file_outcome<T: CdnTransport>(
    t: T,
    s: CdnStorageView,
    path: Seq<char>,
    out: Result<Seq<u8>, ErrorView>,
) -> bool {
    match root::cataloged(s.root, path) {
        None => out == Err::<Seq<u8>, ErrorView>(ErrorView::NotFound(path)),
        Some(row) => exists|a: Result<Seq<u8>, ErrorView>| #[trigger]
            ckey_outcome(t, s, row.ckey, a) && out == named_view(path, a),
    }
}

impl<T: CdnTransport> CdnStorage<T> {
    /// The parts of the storage are well-formed.
    pub closed spec fn wf(&self) -> bool {
        &&& self.fetcher.index.wf()
        &&& self.build_config.wf()
        &&& self.encoding.wf()
        &&& self.root.wf()
    }

    /// The transport that the storage fetches through.
    pub closed spec fn source(&self) -> T {
        self.fetcher.transport
    }

    /// Opens the current live build of `product` (e.g. `"s1"`) for `region`
    /// (e.g. `"us"`), discovering the version and CDN via
    /// `patch.battle.net`.
    ///
    /// This performs a substantial amount of up-front fetching (build/CDN
    /// configs, every archive's `.index`, the encoding table, the root
    /// catalog: tens of MB); use a transport with a persistent cache to make
    /// reopening cheap.
    pub fn open(product: &str, region: &str, transport: T) -> (r: Result<CdnStorage<T>, CascError>)
        ensures
            open_outcome(
                transport,
                product@,
                region@,
                storage::default_options(),
                open_view(r),
            ),
            r matches Ok(s) ==> s.wf() && s.source() == transport,
    {
        CdnStorage::open_with_options(product, region, transport, StorageOptions::default())
    }

    /// Opens the current live build with an explicit resource policy.
    pub fn open_with_options(
        product: &str,
        region: &str,
        transport: T,
        options: StorageOptions,
    ) -> (r: Result<CdnStorage<T>, CascError>)
        ensures
            open_outcome(transport, product@, region@, options@, open_view(r)),
            r matches Ok(s) ==> s.wf() && s.source() == transport,
    {
        match validate_names(product, region) {
            Ok(_) => {},
            Err(e) => {
                return Err(e);
            },
        }
        let url = tact::versions_url(region, product);
        let answer = transport.get(url.as_str(), options.max_metadata_bytes());
        let ghost a = error::outcome(answer);
        assert(transport.answers(
            tact::versions_address(region@, product@),
            options@.max_metadata_bytes,
            a,
        ));
        let ghost t = transport;
        let r = match answer {
            Ok(bytes) => match find_version(bytes.as_slice(), product, region) {
                Ok((build_config, cdn_config, version_name)) => {
                    let ghost row = current_version(bytes@, product@, region@)->Ok_0;
                    assert(pinned_view(build_config, cdn_config, version_name) == (Pinned {
                        build: row.build_config,
                        cdn: row.cdn_config,
                        name: row.versions_name,
                    }));
                    CdnStorage::open_inner(
                        product,
                        region,
                        build_config,
                        cdn_config,
                        version_name,
                        transport,
                        options,
                    )
                },
                Err(e) => Err(e),
            },
            Err(e) => Err(e),
        };
        assert(open_current(t, product@, region@, options@, a, open_view(r)));
        r
    }

    /// Opens a specific pinned build instead of whatever `versions`
    /// currently advertises: `build_config` and `cdn_config` are the hashes
    /// a `versions` response (current or historical) listed for it. CDN
    /// hosts and path are still discovered via `cdns`. Useful for pinning a
    /// known build regardless of live updates; note Blizzard's CDN only
    /// retains builds for a limited time.
    pub fn open_pinned(
        product: &str,
        region: &str,
        build_config: ContentKey,
        cdn_config: ContentKey,
        transport: T,
    ) -> (r: Result<CdnStorage<T>, CascError>)
        ensures
            pinned_outcome(
                transport,
                product@,
                region@,
                storage::default_options(),
                pinned_view(build_config, cdn_config, None),
                open_view(r),
            ),
            r matches Ok(s) ==> s.wf() && s.source() == transport,
    {
        CdnStorage::open_pinned_with_options(
            product,
            region,
            build_config,
            cdn_config,
            transport,
            StorageOptions::default(),
        )
    }

    /// Opens a pinned CDN build with an explicit resource policy.
    pub fn open_pinned_with_options(
        product: &str,
        region: &str,
        build_config: ContentKey,
        cdn_config: ContentKey,
        transport: T,
        options: StorageOptions,
    ) -> (r: Result<CdnStorage<T>, CascError>)
        ensures
            pinned_outcome(
                transport,
                product@,
                region@,
                options@,
                pinned_view(build_config, cdn_config, None),
                open_view(r),
            ),
            r matches Ok(s) ==> s.wf() && s.source() == transport,
    {
        match validate_names(product, region) {
            Ok(_) => {},
            Err(e) => {
                return Err(e);
            },
        }
        CdnStorage::open_inner(
            product,
            region,
            build_config,
            cdn_config,
            None,
            transport,
            options,
        )
    }

    fn open_inner(
        product: &str,
        region: &str,
        build_config_key: ContentKey,
        cdn_config_key: ContentKey,
        version_name: Option<String>,
        transport: T,
        options: StorageOptions,
    ) -> (r: Result<CdnStorage<T>, CascError>)
        ensures
            open_build(
                transport,
                product@,
                region@,
                options@,
                pinned_view(build_config_key, cdn_config_key, version_name),
                open_view(r),
            ),
            r matches Ok(s) ==> s.wf() && s.source() == transport,
    {
        let ghost pinned = pinned_view(build_config_key, cdn_config_key, version_name);
        let ghost t = transport;
        let url = tact::cdns_url(region, product);
        let answer = transport.get(url.as_str(), options.max_metadata_bytes());
        let ghost a = error::outcome(answer);
        assert(transport.answers(
            tact::cdns_address(region@, product@),
            options@.max_metadata_bytes,
            a,
        ));
        let r = match answer {
            Ok(bytes) => match locate(bytes.as_slice(), product, region) {
                Ok((hosts, cdn_path)) => {
                    let fetcher = CdnFetcher {
                        transport,
                        limits: options.metadata_read_limits(),
                        hosts,
                        cdn_path,
                        archives: Vec::new(),
                        index: CdnIndex::new(),
                    };
                    fetcher.open_configs(options, build_config_key, cdn_config_key, version_name)
                },
                Err(e) => Err(e),
            },
            Err(e) => Err(e),
        };
        assert(open_at(t, location_in(a, product@, region@), options@, pinned, open_view(r)));
        r
    }

    /// Downloads a file by its root-catalog path (case-insensitive, `/` or
    /// `\` separators). Returns [`CascError::NotFound`] for unknown paths.
    pub fn read_file(&self, path: &str) -> (r: Result<Vec<u8>, CascError>)
        requires
            self.wf(),
        ensures
            file_outcome(self.source(), self@, path@, error::outcome(r)),
    {
        let ckey = match self.root.lookup(path) {
            Some(entry) => entry.ckey,
            None => {
                return Err(CascError::NotFound(path.to_owned()));
            },
        };
        let read = self.read_by_ckey(&ckey);
        let ghost a = error::outcome(read);
        let r = match read {
            Ok(v) => Ok(v),
            Err(CascError::NotFound(_)) => Err(CascError::NotFound(path.to_owned())),
            Err(e) => Err(e),
        };
        proof {
            let row = root::cataloged(self@.root, path@)->0;
            assert(row.ckey == ckey@);
            assert(error::outcome(r) == named_view(path@, a));
            assert(ckey_outcome(self.source(), self@, row.ckey, a));
        }
        r
    }

    /// The decoded size of a file, without downloading it.
    pub fn file_size(&self, path: &str) -> (r: Result<u64, CascError>)
        requires
            self.wf(),
        ensures
            match r {
                Ok(n) => storage::size_of(self@.encoding, self@.root, path@) == Ok::<
                    nat,
                    ErrorView,
                >(n as nat),
                Err(e) => storage::size_of(self@.encoding, self@.root, path@) == Err::<
                    nat,
                    ErrorView,
                >(e@),
            },
    {
        storage::size_in(&self.encoding, &self.root, path)
    }

    /// Whether `path` exists in the root catalog.
    pub fn contains(&self, path: &str) -> (b: bool)
        requires
            self.wf(),
        ensures
            b == (root::cataloged(self@.root, path@) is Some),
    {
        self.root.lookup(path).is_some()
    }

    /// All file paths in the root catalog, in catalog order.
    pub fn file_names(&self) -> (v: Vec<&str>)
        ensures
            storage::str_views(v@) == storage::catalog_paths(self@.root),
    {
        storage::paths_of(&self.root)
    }

    /// Downloads and decodes content by CKey, verifying the result's MD5.
    pub fn read_by_ckey(&self, ckey: &ContentKey) -> (r: Result<Vec<u8>, CascError>)
        requires
            self.wf(),
        ensures
            ckey_outcome(self.source(), self@, ckey@, error::outcome(r)),
    {
        match self.encoding.lookup(ckey) {
            Some(enc) => {
                assert((ExpectedObject { ckey: Some(ckey), decoded_size: Some(enc.size) })@ == (
                ExpectedView { ckey: Some(ckey@), size: Some(enc@.size) }));
                self.fetcher.read_by_ekey(&enc.ekey, Some(ckey), Some(enc.size))
            },
            None => Err(CascError::NotFound(ckey.to_string())),
        }
    }

    /// Downloads and decodes content selected by EKey. When `expected_ckey`
    /// is given, the decoded bytes' MD5 is verified against it. Without a
    /// CKey, archive/range addressing and BLTE chunk corruption checks still
    /// apply, but decoded content identity cannot be established.
    pub fn read_by_ekey(&self, ekey: &EncodingKey, expected_ckey: Option<&ContentKey>) -> (r: Result<
        Vec<u8>,
        CascError,
    >)
        requires
            self.wf(),
        ensures
            fetch_outcome(
                self.source(),
                self@.fetch,
                ekey@,
                (ExpectedObject { ckey: expected_ckey, decoded_size: None })@,
                0,
                error::outcome(r),
            ),
    {
        self.fetcher.read_by_ekey(ekey, expected_ckey, None)
    }

    /// The parsed root catalog.
    pub fn root(&self) -> (r: &RootFile)
        requires
            self.wf(),
        ensures
            r@ == self@.root,
            r.wf(),
    {
        &self.root
    }

    /// The parsed encoding (CKey → EKey) table.
    pub fn encoding(&self) -> (r: &EncodingTable)
        requires
            self.wf(),
        ensures
            r@ == self@.encoding,
            r.wf(),
    {
        &self.encoding
    }

    /// The build config this storage was opened from.
    pub fn build_config(&self) -> (r: &BuildConfig)
        requires
            self.wf(),
        ensures
            r@ == self@.config,
            r.wf(),
    {
        &self.build_config
    }

    /// The version name from discovery (e.g. `"1.23.10.13515"`), when the
    /// storage was opened via [`CdnStorage::open`].
    pub fn version_name(&self) -> (r: Option<&str>)
        ensures
            match r {
                Some(s) => self@.version_name == Some(s@),
                None => self@.version_name is None,
            },
    {
        match &self.version_name {
            Some(s) => Some(s.as_str()),
            None => None,
        }
    }
}

fn validate_names(product: &str, region: &str) -> (r: Result<(), CascError>)
    ensures
        error::status(r) == names_status(product@, region@),
{
    match tact::validate_discovery_identifier(product, "product") {
        Ok(_) => tact::validate_discovery_identifier(region, "region"),
        Err(e) => Err(e),
    }
}

// ---------------------------------------------------------------------
// Laws

/// A config file is accepted from no host unless its bytes have the digest
/// that names it.
pub proof fn law_config_is_verified<T: CdnTransport>(
    t: T,
    at: Location,
    key: Seq<u8>,
    max: nat,
    what: Seq<char>,
    i: int,
    last: Option<ErrorView>,
    content: Seq<u8>,
)
    requires
        0 <= i,
        config_from(t, at, key, max, what, i, last, Ok(content)),
    ensures
        digest::digest(content) == key,
    decreases at.hosts.len() - i,
{
    let out = Ok::<Seq<u8>, ErrorView>(content);
    if i < at.hosts.len() {
        let a = choose|a: Result<Seq<u8>, ErrorView>| #[trigger]
            t.answers(address(at, i, CdnPathKind::Config, key, false), max, a) && (match a {
                Ok(body) => match digest::raw_ckey_status(body, key, what) {
                    Ok(_) => out == a,
                    Err(e) => dropped(
                        t,
                        address(at, i, CdnPathKind::Config, key, false),
                        None,
                    ) && config_from(t, at, key, max, what, i + 1, Some(e), out),
                },
                Err(ErrorView::NotFound(_)) => out == a,
                Err(e) => config_from(t, at, key, max, what, i + 1, Some(e), out),
            });
        match a {
            Ok(body) => match digest::raw_ckey_status(body, key, what) {
                Ok(_) => {},
                Err(e) => {
                    law_config_is_verified(t, at, key, max, what, i + 1, Some(e), content);
                },
            },
            Err(ErrorView::NotFound(_)) => {},
            Err(e) => {
                law_config_is_verified(t, at, key, max, what, i + 1, Some(e), content);
            },
        }
    }
}

/// Whichever host served it, what fetching an object gives has the expected
/// content key and size, and no more bytes than the limits allow.
pub proof fn law_fetch_is_verified<T: CdnTransport>(
    t: T,
    f: FetchView,
    ekey: Seq<u8>,
    expected: ExpectedView,
    start: int,
    content: Seq<u8>,
)
    requires
        fetch_outcome(t, f, ekey, expected, start, Ok(content)),
    ensures
        expected.ckey is Some ==> digest::digest(content) == expected.ckey->0,
        expected.size is Some ==> content.len() == expected.size->0,
        content.len() <= f.limits.max_decoded_bytes,
    decreases f.at.hosts.len() - start,
{
    let out = Ok::<Seq<u8>, ErrorView>(content);
    let a = choose|a: Result<(Seq<u8>, nat), ErrorView>| #[trigger]
        acquire_outcome(t, f, ekey, f.limits.max_encoded_bytes as nat, start, a) && (match a {
            Err(e) => out == Err::<Seq<u8>, ErrorView>(e),
            Ok((body, next)) => {
                let v = object::verified(body, expected, f.limits, 0);
                &&& is_corrupt(v) ==> all_dropped(t, suspect_list(f, ekey, next - 1))
                &&& if is_corrupt(v) && start < next < f.at.hosts.len() {
                    fetch_outcome(t, f, ekey, expected, next as int, out)
                } else {
                    out == v
                }
            },
        });
    match a {
        Ok((body, next)) => {
            let v = object::verified(body, expected, f.limits, 0);
            if is_corrupt(v) && start < next < f.at.hosts.len() {
                law_fetch_is_verified(t, f, ekey, expected, next as int, content);
            } else {
                object::law_verified(body, expected, f.limits, 0);
            }
        },
        Err(_) => {},
    }
}

/// What downloading a file gives has the MD5 that the catalog states of it
/// and the size that `file_size` gives.
pub proof fn law_file_read_is_verified<T: CdnTransport>(
    t: T,
    s: CdnStorageView,
    path: Seq<char>,
    content: Seq<u8>,
)
    requires
        file_outcome(t, s, path, Ok(content)),
    ensures
        root::cataloged(s.root, path) matches Some(row) && digest::digest(content) == row.ckey,
        storage::size_of(s.encoding, s.root, path) == Ok::<nat, ErrorView>(content.len()),
        content.len() <= s.fetch.limits.max_decoded_bytes,
{
    let row = root::cataloged(s.root, path)->0;
    let a = choose|a: Result<Seq<u8>, ErrorView>| #[trigger]
        ckey_outcome(t, s, row.ckey, a) && Ok::<Seq<u8>, ErrorView>(content) == named_view(path, a);
    assert(a == Ok::<Seq<u8>, ErrorView>(content));
    let entry = encoding::found(s.encoding, row.ckey)->0;
    law_fetch_is_verified(
        t,
        s.fetch,
        entry.ekey,
        ExpectedView { ckey: Some(row.ckey), size: Some(entry.size) },
        0,
        content,
    );
}

/// The `k`-th host always serves bytes for `ekey` that pass verification, and
/// no host from `start` up to it denies that it has them: what those serve
/// passes or is corrupt, or they fail otherwise.
pub open spec fn healthy<T: CdnTransport>(
    t: T,
    f: FetchView,
    ekey: Seq<u8>,
    expected: ExpectedView,
    start: int,
    k: int,
) -> bool {
    let (key, range, _) = sought(f, ekey);
    let limit = f.limits.max_encoded_bytes as nat;
    &&& start <= k < f.at.hosts.len()
    &&& forall|i: int, a: Result<Seq<u8>, ErrorView>|
        start <= i <= k && #[trigger] host_answers(t, f.at, key, limit, range, i, a) ==> match a {
            Ok(body) => {
                let v = object::verified(body, expected, f.limits, 0);
                v is Ok || (i < k && is_corrupt(v))
            },
            Err(ErrorView::NotFound(_)) => false,
            Err(_) => i < k,
        }
}

proof fn lemma_healthy_bytes<T: CdnTransport>(
    t: T,
    f: FetchView,
    ekey: Seq<u8>,
    expected: ExpectedView,
    k: int,
    i: int,
    last: Option<ErrorView>,
    out: Result<(Seq<u8>, nat), ErrorView>,
)
    requires
        0 <= i,
        healthy(t, f, ekey, expected, i, k),
        bytes_from(
            t,
            f.at,
            sought(f, ekey).0,
            f.limits.max_encoded_bytes as nat,
            sought(f, ekey).1,
            i,
            last,
            out,
        ),
    ensures
        out matches Ok((body, next)) && i < next <= k + 1 && host_answers(
            t,
            f.at,
            sought(f, ekey).0,
            f.limits.max_encoded_bytes as nat,
            sought(f, ekey).1,
            next - 1,
            Ok(body),
        ),
    decreases k - i,
{
    let (key, range, _) = sought(f, ekey);
    let limit = f.limits.max_encoded_bytes as nat;
    let a = choose|a: Result<Seq<u8>, ErrorView>| #[trigger]
        host_answers(t, f.at, key, limit, range, i, a) && (match a {
            Ok(body) => out == Ok::<(Seq<u8>, nat), ErrorView>((body, (i + 1) as nat)),
            Err(ErrorView::NotFound(s)) => out == Err::<(Seq<u8>, nat), ErrorView>(
                ErrorView::NotFound(s),
            ),
            Err(e) => bytes_from(t, f.at, key, limit, range, i + 1, Some(e), out),
        });
    match a {
        Ok(body) => {
            assert(out->Ok_0.1 - 1 == i);
        },
        Err(e) => {
            lemma_healthy_bytes(t, f, ekey, expected, k, i + 1, Some(e), out);
        },
    }
}

/// One healthy host is enough: where a host always serves bytes that pass
/// verification, hosts before it that are down or serve corrupt bytes do not
/// keep the content from being read.
pub proof fn law_healthy_host_serves<T: CdnTransport>(
    t: T,
    f: FetchView,
    ekey: Seq<u8>,
    expected: ExpectedView,
    start: int,
    k: int,
    out: Result<Seq<u8>, ErrorView>,
)
    requires
        0 <= start,
        fetch_outcome(t, f, ekey, expected, start, out),
        healthy(t, f, ekey, expected, start, k),
        object::size_status(expected, f.limits) is Ok,
        f.index.contains_key(ekey) ==> f.index[ekey].archive < f.archives.len()
            && f.index[ekey].encoded_size <= f.limits.max_encoded_bytes,
    ensures
        out is Ok,
    decreases k - start,
{
    let limit = f.limits.max_encoded_bytes as nat;
    let a = choose|a: Result<(Seq<u8>, nat), ErrorView>| #[trigger]
        acquire_outcome(t, f, ekey, limit, start, a) && (match a {
            Err(e) => out == Err::<Seq<u8>, ErrorView>(e),
            Ok((body, next)) => {
                let v = object::verified(body, expected, f.limits, 0);
                &&& is_corrupt(v) ==> all_dropped(t, suspect_list(f, ekey, next - 1))
                &&& if is_corrupt(v) && start < next < f.at.hosts.len() {
                    fetch_outcome(t, f, ekey, expected, next as int, out)
                } else {
                    out == v
                }
            },
        });
    let (key, range, _) = sought(f, ekey);
    let b = if f.index.contains_key(ekey) {
        a
    } else {
        choose|b: Result<(Seq<u8>, nat), ErrorView>| #[trigger]
            bytes_from(t, f.at, ekey, limit, None, start, None, b) && a == loose_view(ekey, b)
    };
    assert(bytes_from(t, f.at, key, limit, range, start, None, b));
    lemma_healthy_bytes(t, f, ekey, expected, k, start, None, b);
    assert(a == b);
    let (body, next) = a->Ok_0;
    if next <= k && is_corrupt(object::verified(body, expected, f.limits, 0)) {
        assert(healthy(t, f, ekey, expected, next as int, k));
        law_healthy_host_serves(t, f, ekey, expected, next as int, k, out);
    }
}

/// A path that is not in the catalog fails with `NotFound`, whatever the
/// transport answers.
pub proof fn law_unknown_path<T: CdnTransport>(
    t: T,
    s: CdnStorageView,
    path: Seq<char>,
    out: Result<Seq<u8>, ErrorView>,
)
    requires
        file_outcome(t, s, path, out),
        root::cataloged(s.root, path) is None,
    ensures
        out == Err::<Seq<u8>, ErrorView>(ErrorView::NotFound(path)),
{
}

/// The build config of a pinned storage is authentic: its bytes had the
/// digest that the caller pinned.
pub proof fn law_pinned_config_is_verified<T: CdnTransport>(
    t: T,
    product: Seq<char>,
    region: Seq<char>,
    options: OptionsView,
    pinned: Pinned,
    s: CdnStorageView,
)
    requires
        pinned_outcome(t, product, region, options, pinned, Ok(s)),
    ensures
        exists|data: Seq<u8>| #[trigger]
            digest::digest(data) == pinned.build && config::build_config(text::utf8_lossy(data))
                == Ok::<Map<Seq<char>, Seq<char>>, ErrorView>(s.config),
{
    let out = Ok::<CdnStorageView, ErrorView>(s);
    let max = options.max_metadata_bytes;
    let a = choose|a: Result<Seq<u8>, ErrorView>| #[trigger]
        t.answers(tact::cdns_address(region, product), max, a) && open_at(
            t,
            location_in(a, product, region),
            options,
            pinned,
            out,
        );
    let at = location_in(a, product, region)->Ok_0;
    let b = choose|b: Result<Map<Seq<char>, Seq<char>>, ErrorView>| #[trigger]
        config_outcome(t, at, pinned.build, max, "build config"@, b) && open_with_build(
            t,
            at,
            options,
            b,
            pinned,
            out,
        );
    let m = b->Ok_0;
    let c = choose|c: Result<Map<Seq<char>, Seq<char>>, ErrorView>| #[trigger]
        config_outcome(t, at, pinned.cdn, max, "CDN config"@, c) && open_with_configs(
            t,
            at,
            options,
            m,
            c,
            pinned.name,
            out,
        );
    let archives = config_archives(c->Ok_0)->Ok_0;
    let i = choose|i: Result<Map<Seq<u8>, CdnIndexEntry>, ErrorView>| #[trigger]
        load_outcome(t, at, archives, max, i) && open_with_index(
            t,
            at,
            options,
            m,
            archives,
            i,
            pinned.name,
            out,
        );
    let f = FetchView {
        at,
        archives,
        index: i->Ok_0,
        limits: storage::metadata_limits(options),
    };
    let tables = choose|b: Result<(Seq<EncodingView>, Seq<RootView>), ErrorView>| #[trigger]
        tables_outcome(t, f, m, b) && out == opened(f, options, m, pinned.name, b);
    assert(s.config == m);
    let d = choose|d: Result<Seq<u8>, ErrorView>| #[trigger]
        config_from(t, at, pinned.build, max, "build config"@, 0, None, d) && b == parsed_config(d);
    let data = d->Ok_0;
    law_config_is_verified(t, at, pinned.build, max, "build config"@, 0, None, data);
    assert(digest::digest(data) == pinned.build);
}

/// Whenever the transport is asked for the whole of `url`, it gives `data`.
pub open spec fn says<T: CdnTransport>(t: T, url: Seq<char>, max: nat, data: Seq<u8>) -> bool {
    forall|r: Result<Seq<u8>, ErrorView>| #[trigger]
        t.answers(url, max, r) ==> r == Ok::<Seq<u8>, ErrorView>(data)
}

/// Whenever the transport is asked for a part of `url`, it gives `data`.
pub open spec fn says_part<T: CdnTransport>(
    t: T,
    url: Seq<char>,
    offset: nat,
    len: nat,
    data: Seq<u8>,
) -> bool {
    forall|r: Result<Seq<u8>, ErrorView>| #[trigger]
        t.answers_range(url, offset, len, r) ==> r == Ok::<Seq<u8>, ErrorView>(data)
}

/// The place of a file below a CDN's path prefix: the subtree, the first two
/// and the next two digits of the key, and the key.
pub open spec fn place(subtree: Seq<char>, key: Seq<u8>) -> Seq<char> {
    let hex = keys::key_hex(key);
    subtree + seq!['/', hex[0], hex[1], '/', hex[2], hex[3], '/'] + hex
}

/// The URL of something on the first host.
pub open spec fn first_url(at: Location, what: Seq<char>) -> Seq<char> {
    "http://"@ + at.hosts[0] + "/"@ + at.path + what
}

proof fn lemma_first_addresses(at: Location, key: Seq<u8>)
    requires
        key.len() == 16,
    ensures
        address(at, 0, CdnPathKind::Config, key, false) == first_url(at, place("/config"@, key)),
        address(at, 0, CdnPathKind::Data, key, false) == first_url(at, place("/data"@, key)),
        address(at, 0, CdnPathKind::Data, key, true) == first_url(
            at,
            place("/data"@, key) + ".index"@,
        ),
{
    keys::law_hex_form(key);
    let hex = keys::key_hex(key);
    tact::law_file_urls(at.hosts[0], at.path, hex);
    assert(first_url(at, place("/config"@, key)) =~= address(
        at,
        0,
        CdnPathKind::Config,
        key,
        false,
    ));
    assert(first_url(at, place("/data"@, key)) =~= address(at, 0, CdnPathKind::Data, key, false));
    assert(first_url(at, place("/data"@, key) + ".index"@) =~= address(
        at,
        0,
        CdnPathKind::Data,
        key,
        true,
    ));
}

/// A config file is fetched from below `config/` of the first host, where that
/// gives bytes with the digest that names the file.
pub proof fn law_config_is_fetched<T: CdnTransport>(
    t: T,
    at: Location,
    key: Seq<u8>,
    max: nat,
    what: Seq<char>,
    data: Seq<u8>,
    out: Result<Seq<u8>, ErrorView>,
)
    requires
        key.len() == 16,
        at.hosts.len() > 0,
        says(t, first_url(at, place("/config"@, key)), max, data),
        digest::digest(data) == key,
        config_from(t, at, key, max, what, 0, None, out),
    ensures
        out == Ok::<Seq<u8>, ErrorView>(data),
{
    lemma_first_addresses(at, key);
}

/// The index of an archive is fetched from below `data/` of the first host,
/// with `.index` behind the archive's URL, where that gives bytes that parse.
pub proof fn law_index_is_fetched<T: CdnTransport>(
    t: T,
    at: Location,
    key: Seq<u8>,
    max: nat,
    data: Seq<u8>,
    out: Result<(nat, Seq<ArchiveEntryView>), ErrorView>,
)
    requires
        key.len() == 16,
        at.hosts.len() > 0,
        says(t, first_url(at, place("/data"@, key) + ".index"@), max, data),
        cdnindex::archive_index(data) is Ok,
        index_from(t, at, key, max, 0, None, out),
    ensures
        out == Ok::<(nat, Seq<ArchiveEntryView>), ErrorView>(
            (data.len(), cdnindex::archive_index(data)->Ok_0),
        ),
{
    lemma_first_addresses(at, key);
}

/// An object that no archive holds is fetched as a whole file below `data/`,
/// under its encoding key; an object that the index places in an archive is
/// fetched as that part of the archive. Where the first host gives bytes that
/// decode to the expected content, that content is what is read.
pub proof fn law_object_is_fetched<T: CdnTransport>(
    t: T,
    f: FetchView,
    ekey: Seq<u8>,
    expected: ExpectedView,
    data: Seq<u8>,
    content: Seq<u8>,
    out: Result<Seq<u8>, ErrorView>,
)
    requires
        ekey.len() == 16,
        f.at.hosts.len() > 0,
        !f.index.contains_key(ekey) ==> says(
            t,
            first_url(f.at, place("/data"@, ekey)),
            f.limits.max_encoded_bytes as nat,
            data,
        ),
        f.index.contains_key(ekey) ==> {
            let e = f.index[ekey];
            &&& e.archive < f.archives.len()
            &&& f.archives[e.archive as int].len() == 16
            &&& e.encoded_size <= f.limits.max_encoded_bytes
            &&& says_part(
                t,
                first_url(f.at, place("/data"@, f.archives[e.archive as int])),
                e.offset as nat,
                e.encoded_size as nat,
                data,
            )
        },
        data.len() <= f.limits.max_encoded_bytes,
        crate::blte::decoded(data, 0, f.limits, f.limits.max_decoded_bytes as nat) == Ok::<
            Seq<u8>,
            ErrorView,
        >(content),
        expected.ckey is Some ==> expected.ckey->0 == digest::digest(content),
        expected.size is Some ==> expected.size->0 == content.len(),
        fetch_outcome(t, f, ekey, expected, 0, out),
    ensures
        out == Ok::<Seq<u8>, ErrorView>(content),
{
    let limit = f.limits.max_encoded_bytes as nat;
    crate::blte::law_output_within_limit(data, 0, f.limits, f.limits.max_decoded_bytes as nat);
    assert(object::size_status(expected, f.limits) is Ok);
    assert(data.subrange(0, data.len() as int) =~= data);
    assert(object::verified(data, expected, f.limits, 0) == Ok::<Seq<u8>, ErrorView>(content));
    let a = choose|a: Result<(Seq<u8>, nat), ErrorView>| #[trigger]
        acquire_outcome(t, f, ekey, limit, 0, a) && (match a {
            Err(e) => out == Err::<Seq<u8>, ErrorView>(e),
            Ok((body, next)) => {
                let v = object::verified(body, expected, f.limits, 0);
                &&& is_corrupt(v) ==> all_dropped(t, suspect_list(f, ekey, next - 1))
                &&& if is_corrupt(v) && 0 < next < f.at.hosts.len() {
                    fetch_outcome(t, f, ekey, expected, next as int, out)
                } else {
                    out == v
                }
            },
        });
    if f.index.contains_key(ekey) {
        let e = f.index[ekey];
        lemma_first_addresses(f.at, f.archives[e.archive as int]);
        lemma_first_bytes(
            t,
            f.at,
            f.archives[e.archive as int],
            limit,
            Some((e.offset as nat, e.encoded_size as nat)),
            data,
            a,
        );
    } else {
        lemma_first_addresses(f.at, ekey);
        let b = choose|b: Result<(Seq<u8>, nat), ErrorView>| #[trigger]
            bytes_from(t, f.at, ekey, limit, None, 0, None, b) && a == loose_view(ekey, b);
        lemma_first_bytes(t, f.at, ekey, limit, None, data, b);
    }
}

proof fn lemma_first_bytes<T: CdnTransport>(
    t: T,
    at: Location,
    key: Seq<u8>,
    max: nat,
    range: Option<(nat, nat)>,
    data: Seq<u8>,
    out: Result<(Seq<u8>, nat), ErrorView>,
)
    requires
        at.hosts.len() > 0,
        match range {
            Some((offset, len)) => says_part(
                t,
                address(at, 0, CdnPathKind::Data, key, false),
                offset,
                len,
                data,
            ),
            None => says(t, address(at, 0, CdnPathKind::Data, key, false), max, data),
        },
        bytes_from(t, at, key, max, range, 0, None, out),
    ensures
        out == Ok::<(Seq<u8>, nat), ErrorView>((data, 1)),
{
    let a = choose|a: Result<Seq<u8>, ErrorView>| #[trigger]
        host_answers(t, at, key, max, range, 0, a) && (match a {
            Ok(body) => out == Ok::<(Seq<u8>, nat), ErrorView>((body, 1)),
            Err(ErrorView::NotFound(s)) => out == Err::<(Seq<u8>, nat), ErrorView>(
                ErrorView::NotFound(s),
            ),
            Err(e) => bytes_from(t, at, key, max, range, 1, Some(e), out),
        });
    assert(a == Ok::<Seq<u8>, ErrorView>(data));
}

/// The words of an archive list are its keys, in their order, up to 256 of
/// them.
pub proof fn law_archive_keys(words: Seq<Seq<char>>, list: Seq<Seq<u8>>)
    requires
        words.len() == list.len() <= 256,
        forall|i: int|
            0 <= i < words.len() ==> keys::key_from_hex(
                #[trigger] words[i],
                16,
                "encoding key"@,
            ) == Ok::<Seq<u8>, ErrorView>(list[i]),
    ensures
        archive_keys(words) == Ok::<Seq<Seq<u8>>, ErrorView>(list),
    decreases words.len(),
{
    if words.len() > 0 {
        let n = words.len() - 1;
        let a = words.drop_last();
        let b = list.drop_last();
        assert forall|i: int| 0 <= i < a.len() implies keys::key_from_hex(
            #[trigger] a[i],
            16,
            "encoding key"@,
        ) == Ok::<Seq<u8>, ErrorView>(b[i]) by {
            assert(a[i] == words[i]);
        }
        law_archive_keys(a, b);
        assert(words[n] == words.last());
        assert(b.push(list[n]) =~= list);
    } else {
        assert(list =~= seq![]);
    }
}

/// What the first `n` of the given indices map, later ones over earlier ones,
/// each entry in the archive of its index's place.
pub open spec fn merged_indices(indices: Seq<Seq<ArchiveEntryView>>, n: int) -> Map<
    Seq<u8>,
    CdnIndexEntry,
>
    decreases n,
{
    if n <= 0 {
        Map::empty()
    } else {
        cdnindex::added(merged_indices(indices, n - 1), (n - 1) as u32, indices[n - 1])
    }
}

/// The archive indices that the first host gives are merged in the order of
/// the archives, where together they are within the limits.
pub proof fn law_indices_are_loaded<T: CdnTransport>(
    t: T,
    at: Location,
    archives: Seq<Seq<u8>>,
    max: nat,
    files: Seq<Seq<u8>>,
    indices: Seq<Seq<ArchiveEntryView>>,
    out: Result<Map<Seq<u8>, CdnIndexEntry>, ErrorView>,
)
    requires
        at.hosts.len() > 0,
        archives.len() == files.len() == indices.len() <= 256,
        forall|i: int|
            0 <= i < archives.len() ==> {
                &&& (#[trigger] archives[i]).len() == 16
                &&& says(
                    t,
                    first_url(at, place("/data"@, archives[i]) + ".index"@),
                    if max <= 0x200_0000 {
                        max
                    } else {
                        0x200_0000
                    },
                    files[i],
                )
                &&& cdnindex::archive_index(files[i]) == Ok::<Seq<ArchiveEntryView>, ErrorView>(
                    indices[i],
                )
                &&& 256 * files[i].len() <= 0x800_0000
                &&& 256 * indices[i].len() <= 1_000_000
            },
        load_outcome(t, at, archives, max, out),
    ensures
        out == Ok::<Map<Seq<u8>, CdnIndexEntry>, ErrorView>(
            merged_indices(indices, indices.len() as int),
        ),
{
    let per = if max <= 0x200_0000 {
        max
    } else {
        0x200_0000
    };
    lemma_loaded(t, at, archives, per, files, indices, 0, 0, 0, out);
}

proof fn lemma_loaded<T: CdnTransport>(
    t: T,
    at: Location,
    archives: Seq<Seq<u8>>,
    max: nat,
    files: Seq<Seq<u8>>,
    indices: Seq<Seq<ArchiveEntryView>>,
    i: int,
    total_bytes: nat,
    total_entries: nat,
    out: Result<Map<Seq<u8>, CdnIndexEntry>, ErrorView>,
)
    requires
        at.hosts.len() > 0,
        archives.len() == files.len() == indices.len() <= 256,
        0 <= i <= archives.len(),
        256 * total_bytes <= i * 0x800_0000,
        256 * total_entries <= i * 1_000_000,
        forall|i: int|
            0 <= i < archives.len() ==> {
                &&& (#[trigger] archives[i]).len() == 16
                &&& says(t, first_url(at, place("/data"@, archives[i]) + ".index"@), max, files[i])
                &&& cdnindex::archive_index(files[i]) == Ok::<Seq<ArchiveEntryView>, ErrorView>(
                    indices[i],
                )
                &&& 256 * files[i].len() <= 0x800_0000
                &&& 256 * indices[i].len() <= 1_000_000
            },
        load_from(
            t,
            at,
            archives,
            max,
            i,
            merged_indices(indices, i),
            total_bytes,
            total_entries,
            out,
        ),
    ensures
        out == Ok::<Map<Seq<u8>, CdnIndexEntry>, ErrorView>(
            merged_indices(indices, indices.len() as int),
        ),
    decreases archives.len() - i,
{
    if i < archives.len() {
        assert(archives[i].len() == 16);
        let a = choose|a: Result<(nat, Seq<ArchiveEntryView>), ErrorView>| #[trigger]
            index_from(t, at, archives[i], max, 0, None, a) && (match a {
                Err(e) => out == Err::<Map<Seq<u8>, CdnIndexEntry>, ErrorView>(e),
                Ok((n, entries)) => match merge_status(
                    total_bytes,
                    total_entries,
                    n,
                    entries.len(),
                    i as nat,
                ) {
                    Err(e) => out == Err::<Map<Seq<u8>, CdnIndexEntry>, ErrorView>(e),
                    Ok(_) => load_from(
                        t,
                        at,
                        archives,
                        max,
                        i + 1,
                        cdnindex::added(merged_indices(indices, i), i as u32, entries),
                        total_bytes + n,
                        total_entries + entries.len(),
                        out,
                    ),
                },
            });
        law_index_is_fetched(t, at, archives[i], max, files[i], a);
        lemma_loaded(
            t,
            at,
            archives,
            max,
            files,
            indices,
            i + 1,
            total_bytes + files[i].len(),
            total_entries + indices[i].len(),
            out,
        );
    }
}

/// The first host has the object of `ekey`, where the index places it or as a
/// file of its own, in bytes that decode to `content`.
pub open spec fn has_object<T: CdnTransport>(
    t: T,
    f: FetchView,
    ekey: Seq<u8>,
    data: Seq<u8>,
    content: Seq<u8>,
) -> bool {
    &&& ekey.len() == 16
    &&& !f.index.contains_key(ekey) ==> says(
        t,
        first_url(f.at, place("/data"@, ekey)),
        f.limits.max_encoded_bytes as nat,
        data,
    )
    &&& f.index.contains_key(ekey) ==> {
        let e = f.index[ekey];
        &&& e.archive < f.archives.len()
        &&& f.archives[e.archive as int].len() == 16
        &&& e.encoded_size <= f.limits.max_encoded_bytes
        &&& says_part(
            t,
            first_url(f.at, place("/data"@, f.archives[e.archive as int])),
            e.offset as nat,
            e.encoded_size as nat,
            data,
        )
    }
    &&& data.len() <= f.limits.max_encoded_bytes
    &&& crate::blte::decoded(data, 0, f.limits, f.limits.max_decoded_bytes as nat) == Ok::<
        Seq<u8>,
        ErrorView,
    >(content)
}

/// A CDN storage opens where the first host has everything and everything is
/// right: two config files with the digests that name them, the indices of
/// the archives that the CDN config lists, and the encoding table and the root
/// file that the build config names. It then holds exactly what those say, and
/// the caller's limits.
pub proof fn law_healthy_cdn_opens<T: CdnTransport>(
    t: T,
    at: Location,
    options: OptionsView,
    pinned: Pinned,
    build_data: Seq<u8>,
    m: Map<Seq<char>, Seq<char>>,
    cdn_data: Seq<u8>,
    c: Map<Seq<char>, Seq<char>>,
    archives: Seq<Seq<u8>>,
    files: Seq<Seq<u8>>,
    indices: Seq<Seq<ArchiveEntryView>>,
    encoding_keys: (Seq<u8>, Seq<u8>),
    encoding_bytes: Seq<u8>,
    encoding_data: Seq<u8>,
    table: Seq<EncodingView>,
    root_key: Seq<u8>,
    root_bytes: Seq<u8>,
    root_data: Seq<u8>,
    rows: Seq<RootView>,
    out: Result<CdnStorageView, ErrorView>,
)
    requires
        at.hosts.len() > 0,
        pinned.build.len() == 16,
        pinned.cdn.len() == 16,
        says(
            t,
            first_url(at, place("/config"@, pinned.build)),
            options.max_metadata_bytes,
            build_data,
        ),
        digest::digest(build_data) == pinned.build,
        config::build_config(text::utf8_lossy(build_data)) == Ok::<
            Map<Seq<char>, Seq<char>>,
            ErrorView,
        >(m),
        says(t, first_url(at, place("/config"@, pinned.cdn)), options.max_metadata_bytes, cdn_data),
        digest::digest(cdn_data) == pinned.cdn,
        config::build_config(text::utf8_lossy(cdn_data)) == Ok::<
            Map<Seq<char>, Seq<char>>,
            ErrorView,
        >(c),
        c.contains_key("archives"@),
        archive_keys(text::words(c["archives"@])) == Ok::<Seq<Seq<u8>>, ErrorView>(archives),
        archives.len() == files.len() == indices.len() <= 256,
        forall|i: int|
            0 <= i < archives.len() ==> {
                &&& (#[trigger] archives[i]).len() == 16
                &&& says(
                    t,
                    first_url(at, place("/data"@, archives[i]) + ".index"@),
                    if options.max_metadata_bytes <= 0x200_0000 {
                        options.max_metadata_bytes
                    } else {
                        0x200_0000
                    },
                    files[i],
                )
                &&& cdnindex::archive_index(files[i]) == Ok::<Seq<ArchiveEntryView>, ErrorView>(
                    indices[i],
                )
                &&& 256 * files[i].len() <= 0x800_0000
                &&& 256 * indices[i].len() <= 1_000_000
            },
        config::config_encoding(m) == Ok::<(Seq<u8>, Seq<u8>), ErrorView>(encoding_keys),
        config::config_encoding_size(m) matches Some((n, _)) ==> n == encoding_data.len(),
        config::config_root(m) == Ok::<Seq<u8>, ErrorView>(root_key),
        ({
            let f = FetchView {
                at,
                archives,
                index: merged_indices(indices, indices.len() as int),
                limits: storage::metadata_limits(options),
            };
            &&& has_object(t, f, encoding_keys.1, encoding_bytes, encoding_data)
            &&& encoding::found(table, root_key) is Some
            &&& has_object(
                t,
                f,
                (encoding::found(table, root_key)->0).ekey,
                root_bytes,
                root_data,
            )
        }),
        digest::digest(encoding_data) == encoding_keys.0,
        encoding::table(encoding_data) == Ok::<Seq<EncodingView>, ErrorView>(table),
        digest::digest(root_data) == root_key,
        root_data.len() == (encoding::found(table, root_key)->0).size,
        root::root_file(root_data) == Ok::<Seq<RootView>, ErrorView>(rows),
        open_at(t, Ok(at), options, pinned, out),
    ensures
        out == Ok::<CdnStorageView, ErrorView>(
            CdnStorageView {
                fetch: FetchView {
                    at,
                    archives,
                    index: merged_indices(indices, indices.len() as int),
                    limits: options.read_limits,
                },
                config: m,
                encoding: table,
                root: rows,
                version_name: pinned.name,
            },
        ),
{
    let max = options.max_metadata_bytes;
    let b = choose|b: Result<Map<Seq<char>, Seq<char>>, ErrorView>| #[trigger]
        config_outcome(t, at, pinned.build, max, "build config"@, b) && open_with_build(
            t,
            at,
            options,
            b,
            pinned,
            out,
        );
    lemma_healthy_config(t, at, pinned.build, max, "build config"@, build_data, b);
    let d = choose|d: Result<Map<Seq<char>, Seq<char>>, ErrorView>| #[trigger]
        config_outcome(t, at, pinned.cdn, max, "CDN config"@, d) && open_with_configs(
            t,
            at,
            options,
            m,
            d,
            pinned.name,
            out,
        );
    lemma_healthy_config(t, at, pinned.cdn, max, "CDN config"@, cdn_data, d);
    let index = merged_indices(indices, indices.len() as int);
    let i = choose|i: Result<Map<Seq<u8>, CdnIndexEntry>, ErrorView>| #[trigger]
        load_outcome(t, at, archives, max, i) && open_with_index(
            t,
            at,
            options,
            m,
            archives,
            i,
            pinned.name,
            out,
        );
    law_indices_are_loaded(t, at, archives, max, files, indices, i);
    let f = FetchView { at, archives, index, limits: storage::metadata_limits(options) };
    let tables = choose|b: Result<(Seq<EncodingView>, Seq<RootView>), ErrorView>| #[trigger]
        tables_outcome(t, f, m, b) && out == opened(f, options, m, pinned.name, b);
    lemma_healthy_tables(
        t,
        f,
        m,
        encoding_keys,
        encoding_bytes,
        encoding_data,
        table,
        root_key,
        root_bytes,
        root_data,
        rows,
        tables,
    );
}

proof fn lemma_healthy_config<T: CdnTransport>(
    t: T,
    at: Location,
    key: Seq<u8>,
    max: nat,
    what: Seq<char>,
    data: Seq<u8>,
    out: Result<Map<Seq<char>, Seq<char>>, ErrorView>,
)
    requires
        key.len() == 16,
        at.hosts.len() > 0,
        says(t, first_url(at, place("/config"@, key)), max, data),
        digest::digest(data) == key,
        config_outcome(t, at, key, max, what, out),
    ensures
        out == config::build_config(text::utf8_lossy(data)),
{
    let a = choose|a: Result<Seq<u8>, ErrorView>| #[trigger]
        config_from(t, at, key, max, what, 0, None, a) && out == parsed_config(a);
    law_config_is_fetched(t, at, key, max, what, data, a);
}

proof fn lemma_healthy_tables<T: CdnTransport>(
    t: T,
    f: FetchView,
    m: Map<Seq<char>, Seq<char>>,
    encoding_keys: (Seq<u8>, Seq<u8>),
    encoding_bytes: Seq<u8>,
    encoding_data: Seq<u8>,
    table: Seq<EncodingView>,
    root_key: Seq<u8>,
    root_bytes: Seq<u8>,
    root_data: Seq<u8>,
    rows: Seq<RootView>,
    out: Result<(Seq<EncodingView>, Seq<RootView>), ErrorView>,
)
    requires
        f.at.hosts.len() > 0,
        config::config_encoding(m) == Ok::<(Seq<u8>, Seq<u8>), ErrorView>(encoding_keys),
        config::config_encoding_size(m) matches Some((n, _)) ==> n == encoding_data.len(),
        config::config_root(m) == Ok::<Seq<u8>, ErrorView>(root_key),
        has_object(t, f, encoding_keys.1, encoding_bytes, encoding_data),
        encoding::found(table, root_key) is Some,
        has_object(t, f, (encoding::found(table, root_key)->0).ekey, root_bytes, root_data),
        digest::digest(encoding_data) == encoding_keys.0,
        encoding::table(encoding_data) == Ok::<Seq<EncodingView>, ErrorView>(table),
        digest::digest(root_data) == root_key,
        root_data.len() == (encoding::found(table, root_key)->0).size,
        root::root_file(root_data) == Ok::<Seq<RootView>, ErrorView>(rows),
        tables_outcome(t, f, m, out),
    ensures
        out == Ok::<(Seq<EncodingView>, Seq<RootView>), ErrorView>((table, rows)),
{
    let expected = storage::encoding_expected(m, encoding_keys.0);
    let a = choose|a: Result<Seq<u8>, ErrorView>| #[trigger]
        fetch_outcome(t, f, encoding_keys.1, expected, 0, a) && catalog_outcome(
            t,
            f,
            storage::encoding_verdict(m, a),
            out,
        );
    law_object_is_fetched(t, f, encoding_keys.1, expected, encoding_bytes, encoding_data, a);
    let entry = encoding::found(table, root_key)->0;
    let wanted = ExpectedView { ckey: Some(entry.ckey), size: Some(entry.size) };
    let b = choose|b: Result<Seq<u8>, ErrorView>| #[trigger]
        fetch_outcome(t, f, entry.ekey, wanted, 0, b) && out == storage::root_verdict(table, b);
    law_object_is_fetched(t, f, entry.ekey, wanted, root_bytes, root_data, b);
}

/// Opening a product's current build asks for its versions and then for its
/// CDNs, and opens the build of the region's version at the region's
/// location.
pub proof fn law_current_build_is_opened<T: CdnTransport>(
    t: T,
    product: Seq<char>,
    region: Seq<char>,
    options: OptionsView,
    versions_data: Seq<u8>,
    row: VersionView,
    cdns_data: Seq<u8>,
    at: Location,
    out: Result<CdnStorageView, ErrorView>,
)
    requires
        current_version(versions_data, product, region) == Ok::<VersionView, ErrorView>(row),
        says(
            t,
            "http://"@ + region + ".patch.battle.net:1119/"@ + product + "/cdns"@,
            options.max_metadata_bytes,
            cdns_data,
        ),
        located(cdns_data, product, region) == Ok::<Location, ErrorView>(at),
        open_current(t, product, region, options, Ok(versions_data), out),
    ensures
        open_at(
            t,
            Ok(at),
            options,
            Pinned { build: row.build_config, cdn: row.cdn_config, name: row.versions_name },
            out,
        ),
{
    tact::law_discovery_urls(region, product);
}

/// A host that says that a file does not exist is believed: no other host is
/// asked, and the file is not found. An object that is a file of its own is
/// then reported under its key.
pub proof fn law_missing_file<T: CdnTransport>(
    t: T,
    f: FetchView,
    key: Seq<u8>,
    max: nat,
    what: Seq<char>,
    named: Seq<char>,
    config_out: Result<Seq<u8>, ErrorView>,
    index_out: Result<(nat, Seq<ArchiveEntryView>), ErrorView>,
    bytes_out: Result<(Seq<u8>, nat), ErrorView>,
)
    requires
        key.len() == 16,
        f.at.hosts.len() > 0,
        forall|url: Seq<char>, r: Result<Seq<u8>, ErrorView>| #[trigger]
            t.answers(url, max, r) ==> r == Err::<Seq<u8>, ErrorView>(ErrorView::NotFound(named)),
        config_from(t, f.at, key, max, what, 0, None, config_out),
        index_from(t, f.at, key, max, 0, None, index_out),
        !f.index.contains_key(key),
        acquire_outcome(t, f, key, max, 0, bytes_out),
    ensures
        config_out == Err::<Seq<u8>, ErrorView>(ErrorView::NotFound(named)),
        index_out == Err::<(nat, Seq<ArchiveEntryView>), ErrorView>(ErrorView::NotFound(named)),
        bytes_out == Err::<(Seq<u8>, nat), ErrorView>(ErrorView::NotFound(keys::key_hex(key))),
{
    let b = choose|b: Result<(Seq<u8>, nat), ErrorView>| #[trigger]
        bytes_from(t, f.at, key, max, None, 0, None, b) && bytes_out == loose_view(key, b);
    let a = choose|a: Result<Seq<u8>, ErrorView>| #[trigger]
        host_answers(t, f.at, key, max, None, 0, a) && (match a {
            Ok(body) => b == Ok::<(Seq<u8>, nat), ErrorView>((body, 1)),
            Err(ErrorView::NotFound(s)) => b == Err::<(Seq<u8>, nat), ErrorView>(
                ErrorView::NotFound(s),
            ),
            Err(e) => bytes_from(t, f.at, key, max, None, 1, Some(e), b),
        });
    assert(a == Err::<Seq<u8>, ErrorView>(ErrorView::NotFound(named)));
}

/// Bytes of the only host that fail verification are the error, and are
/// dropped where they were served: the part of the archive together with its
/// index, or the file.
pub proof fn law_corrupt_bytes_are_dropped<T: CdnTransport>(
    t: T,
    f: FetchView,
    ekey: Seq<u8>,
    expected: ExpectedView,
    data: Seq<u8>,
    out: Result<Seq<u8>, ErrorView>,
)
    requires
        ekey.len() == 16,
        f.at.hosts.len() == 1,
        object::size_status(expected, f.limits) is Ok,
        !f.index.contains_key(ekey) ==> says(
            t,
            first_url(f.at, place("/data"@, ekey)),
            f.limits.max_encoded_bytes as nat,
            data,
        ),
        f.index.contains_key(ekey) ==> {
            let e = f.index[ekey];
            &&& e.archive < f.archives.len()
            &&& f.archives[e.archive as int].len() == 16
            &&& e.encoded_size <= f.limits.max_encoded_bytes
            &&& says_part(
                t,
                first_url(f.at, place("/data"@, f.archives[e.archive as int])),
                e.offset as nat,
                e.encoded_size as nat,
                data,
            )
        },
        object::verified(data, expected, f.limits, 0) matches Err(e) && (e is Malformed
            || e is ChecksumMismatch),
        fetch_outcome(t, f, ekey, expected, 0, out),
    ensures
        out == object::verified(data, expected, f.limits, 0),
        !f.index.contains_key(ekey) ==> dropped(t, first_url(f.at, place("/data"@, ekey)), None),
        f.index.contains_key(ekey) ==> {
            let e = f.index[ekey];
            let url = first_url(f.at, place("/data"@, f.archives[e.archive as int]));
            &&& dropped(t, url, Some((e.offset as nat, e.encoded_size as nat)))
            &&& dropped(t, url + ".index"@, None)
        },
{
    let limit = f.limits.max_encoded_bytes as nat;
    let a = choose|a: Result<(Seq<u8>, nat), ErrorView>| #[trigger]
        acquire_outcome(t, f, ekey, limit, 0, a) && (match a {
            Err(e) => out == Err::<Seq<u8>, ErrorView>(e),
            Ok((body, next)) => {
                let v = object::verified(body, expected, f.limits, 0);
                &&& is_corrupt(v) ==> all_dropped(t, suspect_list(f, ekey, next - 1))
                &&& if is_corrupt(v) && 0 < next < f.at.hosts.len() {
                    fetch_outcome(t, f, ekey, expected, next as int, out)
                } else {
                    out == v
                }
            },
        });
    let list = suspect_list(f, ekey, 0);
    if f.index.contains_key(ekey) {
        let e = f.index[ekey];
        let archive = f.archives[e.archive as int];
        lemma_first_addresses(f.at, archive);
        lemma_first_bytes(
            t,
            f.at,
            archive,
            limit,
            Some((e.offset as nat, e.encoded_size as nat)),
            data,
            a,
        );
        assert(first_url(f.at, place("/data"@, archive) + ".index"@) =~= first_url(
            f.at,
            place("/data"@, archive),
        ) + ".index"@);
        let whole = whole_list(f.at, CdnPathKind::Data, archive, true);
        assert(list[0].0 == address(f.at, 0, CdnPathKind::Data, archive, false));
        assert(list[1] == whole[0]);
        assert(list[1].0 == address(f.at, 0, CdnPathKind::Data, archive, true));
    } else {
        lemma_first_addresses(f.at, ekey);
        let b = choose|b: Result<(Seq<u8>, nat), ErrorView>| #[trigger]
            bytes_from(t, f.at, ekey, limit, None, 0, None, b) && a == loose_view(ekey, b);
        lemma_first_bytes(t, f.at, ekey, limit, None, data, b);
        assert(list[0].0 == address(f.at, 0, CdnPathKind::Data, ekey, false));
    }
}

/// A region's row gives the location, where its hosts and its path are
/// accepted; a region without a row is not found, and neither is its version.
pub proof fn law_region(
    data: Seq<u8>,
    product: Seq<char>,
    region: Seq<char>,
    cdn_rows: Seq<tact::CdnView>,
    version_rows: Seq<VersionView>,
)
    requires
        tact::cdns(text::utf8_lossy(data)) == Ok::<Seq<tact::CdnView>, ErrorView>(cdn_rows),
        tact::versions(text::utf8_lossy(data)) == Ok::<Seq<VersionView>, ErrorView>(version_rows),
    ensures
        tact::cdn_of(cdn_rows, region) matches Some(row) ==> match tact::location_status(
            row.hosts,
            row.path,
        ) {
            Ok(_) => located(data, product, region) == Ok::<Location, ErrorView>(
                Location { hosts: row.hosts, path: row.path },
            ),
            Err(e) => located(data, product, region) == Err::<Location, ErrorView>(e),
        },
        tact::cdn_of(cdn_rows, region) is None ==> (located(data, product, region) matches Err(e)
            && e is NotFound),
        tact::version_of(version_rows, region) matches Some(row) ==> current_version(
            data,
            product,
            region,
        ) == Ok::<VersionView, ErrorView>(row),
        tact::version_of(version_rows, region) is None ==> (current_version(data, product, region)
            matches Err(e) && e is NotFound),
{
}

/// The archive indices may hold 1,000,000 entries in 128 MiB together, and no
/// more.
pub proof fn law_index_limits(bytes: nat, entries: nat, n: nat, m: nat, archive: nat)
    requires
        archive < 256,
    ensures
        merge_status(bytes, entries, n, m, archive) is Ok <==> bytes + n <= 134_217_728 && entries
            + m <= 1_000_000,
        merge_status(bytes, entries, n, m, archive) matches Err(e) ==> e is LimitExceeded,
{
}

/// A cataloged file whose object the first host has is read: where the object
/// has the key and the size that the tables state, reading the path gives its
/// content and nothing else.
pub proof fn law_held_file_is_read<T: CdnTransport>(
    t: T,
    s: CdnStorageView,
    path: Seq<char>,
    data: Seq<u8>,
    content: Seq<u8>,
    i: int,
    k: int,
    out: Result<Seq<u8>, ErrorView>,
)
    requires
        s.fetch.at.hosts.len() > 0,
        encoding::sorted(s.encoding),
        0 <= i < s.root.len(),
        root::paths_alike(s.root[i].path, path),
        forall|j: int|
            i < j < s.root.len() ==> !root::paths_alike((#[trigger] s.root[j]).path, path),
        0 <= k < s.encoding.len(),
        s.encoding[k].ckey == s.root[i].ckey,
        has_object(t, s.fetch, s.encoding[k].ekey, data, content),
        digest::digest(content) == s.root[i].ckey,
        content.len() == s.encoding[k].size,
        file_outcome(t, s, path, out),
    ensures
        out == Ok::<Seq<u8>, ErrorView>(content),
{
    root::law_lookup_is_last_alike(s.root, path, i);
    encoding::law_found(s.encoding, s.root[i].ckey, k);
    let entry = s.encoding[k];
    let wanted = ExpectedView { ckey: Some(s.root[i].ckey), size: Some(entry.size) };
    let a = choose|a: Result<Seq<u8>, ErrorView>| #[trigger]
        ckey_outcome(t, s, s.root[i].ckey, a) && out == named_view(path, a);
    law_object_is_fetched(t, s.fetch, entry.ekey, wanted, data, content, a);
}

/// Every host is asked under its own name: the `i`-th for a config file below
/// `config/`, for a data file below `data/`, and for an index behind the URL
/// of the archive.
pub proof fn law_addresses(at: Location, i: int, key: Seq<u8>)
    requires
        key.len() == 16,
        0 <= i < at.hosts.len(),
    ensures
        ({
            let root = "http://"@ + at.hosts[i] + "/"@ + at.path;
            &&& address(at, i, CdnPathKind::Config, key, false) == root + place("/config"@, key)
            &&& address(at, i, CdnPathKind::Data, key, false) == root + place("/data"@, key)
            &&& address(at, i, CdnPathKind::Data, key, true) == root + place("/data"@, key)
                + ".index"@
        }),
{
    let one = Location { hosts: seq![at.hosts[i]], path: at.path };
    lemma_first_addresses(one, key);
    let root = "http://"@ + at.hosts[i] + "/"@ + at.path;
    assert(first_url(one, place("/data"@, key) + ".index"@) =~= root + place("/data"@, key)
        + ".index"@);
}

/// Where every host fails in the same way, other than by saying that the file
/// does not exist, that failure is the outcome; where there is no host, it is
/// one of the transport.
pub proof fn law_every_host_fails<T: CdnTransport>(
    t: T,
    at: Location,
    key: Seq<u8>,
    max: nat,
    what: Seq<char>,
    e: ErrorView,
    config_out: Result<Seq<u8>, ErrorView>,
    index_out: Result<(nat, Seq<ArchiveEntryView>), ErrorView>,
    bytes_out: Result<(Seq<u8>, nat), ErrorView>,
)
    requires
        forall|url: Seq<char>, r: Result<Seq<u8>, ErrorView>| #[trigger]
            t.answers(url, max, r) ==> r == Err::<Seq<u8>, ErrorView>(e),
        !(e is NotFound),
        config_from(t, at, key, max, what, 0, None, config_out),
        index_from(t, at, key, max, 0, None, index_out),
        bytes_from(t, at, key, max, None, 0, None, bytes_out),
    ensures
        at.hosts.len() > 0 ==> {
            &&& config_out == Err::<Seq<u8>, ErrorView>(e)
            &&& index_out == Err::<(nat, Seq<ArchiveEntryView>), ErrorView>(e)
            &&& bytes_out == Err::<(Seq<u8>, nat), ErrorView>(e)
        },
        at.hosts.len() == 0 ==> {
            &&& config_out matches Err(x) && x is Transport
            &&& index_out matches Err(x) && x is Transport
            &&& bytes_out matches Err(x) && x is Transport
        },
{
    lemma_config_fails(t, at, key, max, what, e, 0, None, config_out);
    lemma_index_fails(t, at, key, max, e, 0, None, index_out);
    lemma_bytes_fail(t, at, key, max, e, 0, None, bytes_out);
}

proof fn lemma_config_fails<T: CdnTransport>(
    t: T,
    at: Location,
    key: Seq<u8>,
    max: nat,
    what: Seq<char>,
    e: ErrorView,
    i: int,
    last: Option<ErrorView>,
    out: Result<Seq<u8>, ErrorView>,
)
    requires
        forall|url: Seq<char>, r: Result<Seq<u8>, ErrorView>| #[trigger]
            t.answers(url, max, r) ==> r == Err::<Seq<u8>, ErrorView>(e),
        !(e is NotFound),
        0 <= i,
        i > 0 ==> last == Some(e),
        config_from(t, at, key, max, what, i, last, out),
    ensures
        i < at.hosts.len() ==> out == Err::<Seq<u8>, ErrorView>(e),
        i >= at.hosts.len() ==> out == Err::<Seq<u8>, ErrorView>(exhausted(last)),
    decreases at.hosts.len() - i,
{
    if i < at.hosts.len() {
        lemma_config_fails(t, at, key, max, what, e, i + 1, Some(e), out);
    }
}

proof fn lemma_index_fails<T: CdnTransport>(
    t: T,
    at: Location,
    key: Seq<u8>,
    max: nat,
    e: ErrorView,
    i: int,
    last: Option<ErrorView>,
    out: Result<(nat, Seq<ArchiveEntryView>), ErrorView>,
)
    requires
        forall|url: Seq<char>, r: Result<Seq<u8>, ErrorView>| #[trigger]
            t.answers(url, max, r) ==> r == Err::<Seq<u8>, ErrorView>(e),
        !(e is NotFound),
        0 <= i,
        i > 0 ==> last == Some(e),
        index_from(t, at, key, max, i, last, out),
    ensures
        i < at.hosts.len() ==> out == Err::<(nat, Seq<ArchiveEntryView>), ErrorView>(e),
        i >= at.hosts.len() ==> out == Err::<(nat, Seq<ArchiveEntryView>), ErrorView>(
            exhausted(last),
        ),
    decreases at.hosts.len() - i,
{
    if i < at.hosts.len() {
        lemma_index_fails(t, at, key, max, e, i + 1, Some(e), out);
    }
}

proof fn lemma_bytes_fail<T: CdnTransport>(
    t: T,
    at: Location,
    key: Seq<u8>,
    max: nat,
    e: ErrorView,
    i: int,
    last: Option<ErrorView>,
    out: Result<(Seq<u8>, nat), ErrorView>,
)
    requires
        forall|url: Seq<char>, r: Result<Seq<u8>, ErrorView>| #[trigger]
            t.answers(url, max, r) ==> r == Err::<Seq<u8>, ErrorView>(e),
        !(e is NotFound),
        0 <= i,
        i > 0 ==> last == Some(e),
        bytes_from(t, at, key, max, None, i, last, out),
    ensures
        i < at.hosts.len() ==> out == Err::<(Seq<u8>, nat), ErrorView>(e),
        i >= at.hosts.len() ==> out == Err::<(Seq<u8>, nat), ErrorView>(exhausted(last)),
    decreases at.hosts.len() - i,
{
    if i < at.hosts.len() {
        let a = choose|a: Result<Seq<u8>, ErrorView>| #[trigger]
            host_answers(t, at, key, max, None, i, a) && (match a {
                Ok(body) => out == Ok::<(Seq<u8>, nat), ErrorView>((body, (i + 1) as nat)),
                Err(ErrorView::NotFound(s)) => out == Err::<(Seq<u8>, nat), ErrorView>(
                    ErrorView::NotFound(s),
                ),
                Err(x) => bytes_from(t, at, key, max, None, i + 1, Some(x), out),
            });
        assert(a == Err::<Seq<u8>, ErrorView>(e));
        lemma_bytes_fail(t, at, key, max, e, i + 1, Some(e), out);
    }
}

/// Both names must be able to stand in a URL before anything is asked for.
pub proof fn law_names(product: Seq<char>, region: Seq<char>)
    ensures
        names_status(product, region) is Ok <==> tact::identifier_status(product, "product"@) is Ok
            && tact::identifier_status(region, "region"@) is Ok,
{
}

/// An archive list with a word that is no key, or with more than 256 keys, is
/// refused, and so is a config without one.
pub proof fn law_refused_archives(words: Seq<Seq<char>>, i: int, m: Map<Seq<char>, Seq<char>>)
    ensures
        0 <= i < words.len() && keys::key_from_hex(words[i], 16, "encoding key"@) is Err
            ==> archive_keys(words) is Err,
        words.len() > 256 ==> archive_keys(words) is Err,
        archive_keys(words) matches Ok(list) ==> list.len() == words.len(),
        !m.contains_key("archives"@) ==> (config_archives(m) matches Err(e) && e is Malformed),
        m.contains_key("archives"@) ==> config_archives(m) == archive_keys(
            text::words(m["archives"@]),
        ),
    decreases words.len(),
{
    if words.len() > 0 {
        let init = words.drop_last();
        law_refused_archives(init, i, m);
        if 0 <= i < init.len() {
            assert(init[i] == words[i]);
        }
    }
}

/// Content whose key the encoding table does not have is not found, under the
/// key.
pub proof fn law_unknown_key<T: CdnTransport>(
    t: T,
    s: CdnStorageView,
    ckey: Seq<u8>,
    out: Result<Seq<u8>, ErrorView>,
)
    requires
        forall|i: int| 0 <= i < s.encoding.len() ==> (#[trigger] s.encoding[i]).ckey != ckey,
        ckey_outcome(t, s, ckey, out),
    ensures
        out == Err::<Seq<u8>, ErrorView>(ErrorView::NotFound(keys::key_hex(ckey))),
{
}

} // verus!
