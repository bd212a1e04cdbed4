//! NGDP/TACT discovery: the HTTP endpoints a client queries to find out
//! which build is current and which CDN hosts serve its files.
//!
//! Before a client can read anything from a CDN it makes two requests to
//! Blizzard's version server:
//!
//! - `versions_url(region, product)` — which build config/CDN config are
//!   current for each region, e.g. `us`, `eu`, `cn`.
//! - `cdns_url(region, product)` — which hosts and path prefix serve that
//!   product's files for each region.
//!
//! Both responses are pipe-delimited tables in exactly the same
//! `Name!TYPE:size` header format as `.build.info` (see [`crate::config`]),
//! so parsing here builds on [`crate::config::BuildInfo`] rather than
//! reimplementing the table format. The one wrinkle NGDP responses add that
//! `.build.info` never has is `## seqn = <n>` comment lines, which
//! `BuildInfo::parse` skips.
//!
//! Once a CDN host and path are known, [`cdn_file_url`] builds the URL for
//! an individual file. Two addressing schemes are in play: files under
//! `config/` are addressed by the *config file's own hash* (as returned by
//! the `versions` response), while files under `data/` — archives and loose
//! files alike — are addressed by EKey. See [`CdnPathKind`].
//!
//! One important difference from local storage: files served under `data/`
//! on a CDN are **bare BLTE** — just the `BLTE` container, with no 30-byte
//! span header in front of it. Local `Data/data/data.NNN` archives prefix
//! each entry with that span header; CDN archives and loose files do not.
//! Anything that reads CDN-served bytes needs to hand them to the BLTE
//! decoder directly, not to whatever strips the local span header.

use vstd::prelude::*;
use vstd::string::*;

use crate::compose;
use crate::config;
use crate::config::BuildInfo;
use crate::config::BuildInfoRecord;
use crate::config::RecordView;
use crate::error;
use crate::error::CascError;
use crate::error::ErrorView;
use crate::keys;
use crate::keys::ContentKey;
use crate::text;

verus! {

/// One row of an NGDP `versions` response: the current build for one
/// region.
#[derive(Debug, Clone, PartialEq, Eq)]
pub struct VersionEntry {
    /// The region this row applies to, e.g. `"us"`.
    pub region: String,
    /// Hash of the build config file on the CDN, found under
    /// `config/<xx>/<yy>/<hex>` (see [`cdn_file_url`]). Not an
    /// [`crate::keys::EncodingKey`] despite living under `config/`.
    pub build_config: ContentKey,
    /// Hash of the CDN config file, addressed the same way as
    /// `build_config`.
    pub cdn_config: ContentKey,
    /// The `BuildId` column, e.g. `13515`.
    pub build_id: Option<u32>,
    /// The `VersionsName` column, e.g. `"1.23.10.13515"`.
    pub versions_name: Option<String>,
}

/// A parsed NGDP `versions` response: one row per region.
///
/// See [`Versions::parse`] for the format.
#[derive(Debug, Clone)]
pub struct Versions {
    entries: Vec<VersionEntry>,
}

// ---------------------------------------------------------------------
// What a versions response says

/// The content of a [`VersionEntry`].
pub struct VersionView {
    pub region: Seq<char>,
    pub build_config: Seq<u8>,
    pub cdn_config: Seq<u8>,
    pub build_id: Option<nat>,
    pub versions_name: Option<Seq<char>>,
}

impl View for VersionEntry {
    type V = VersionView;

    open spec fn view(&self) -> VersionView {
        VersionView {
            region: self.region@,
            build_config: self.build_config@,
            cdn_config: self.cdn_config@,
            build_id: match self.build_id {
                Some(n) => Some(n as nat),
                None => None,
            },
            versions_name: config::optional_text(self.versions_name),
        }
    }
}

/// Rows, taken by their views.
pub open spec fn version_views(s: Seq<VersionEntry>) -> Seq<VersionView> {
    Seq::new(s.len(), |i: int| s[i]@)
}

impl View for Versions {
    type V = Seq<VersionView>;

    closed spec fn view(&self) -> Seq<VersionView> {
        version_views(self.entries@)
    }
}

/// The hash that a record has in the named column.
pub open spec fn record_hash(r: RecordView, column: Seq<char>) -> Result<Seq<u8>, ErrorView> {
    match config::record_value(r, column) {
        None => Err(
            error::malformed_view("versions"@, "record missing '"@ + column + "'"@),
        ),
        Some(s) => keys::key_from_hex(s, 16, "content key"@),
    }
}

/// What one record of a versions response gives.
pub open spec fn version_row(r: RecordView) -> Result<VersionView, ErrorView> {
    match config::record_value(r, "Region"@) {
        None => Err(error::malformed_view("versions"@, "record missing 'Region'"@)),
        Some(region) => match record_hash(r, "BuildConfig"@) {
            Err(e) => Err(e),
            Ok(build) => match record_hash(r, "CDNConfig"@) {
                Err(e) => Err(e),
                Ok(cdn) => Ok(
                    VersionView {
                        region,
                        build_config: build,
                        cdn_config: cdn,
                        build_id: match config::record_value(r, "BuildId"@) {
                            Some(s) => text::number(s, u32::MAX as nat),
                            None => None,
                        },
                        versions_name: config::record_value(r, "VersionsName"@),
                    },
                ),
            },
        },
    }
}

/// What the records of a versions response give: one bad record fails the
/// whole.
pub open spec fn version_rows(records: Seq<RecordView>) -> Result<Seq<VersionView>, ErrorView>
    decreases records.len(),
{
    if records.len() == 0 {
        Ok(seq![])
    } else {
        match version_rows(records.drop_last()) {
            Err(e) => Err(e),
            Ok(rows) => match version_row(records.last()) {
                Err(e) => Err(e),
                Ok(row) => Ok(rows.push(row)),
            },
        }
    }
}

/// What parsing a versions response gives.
pub open spec fn versions(s: Seq<char>) -> Result<Seq<VersionView>, ErrorView> {
    match config::build_info(s) {
        Err(e) => Err(e),
        Ok(records) => version_rows(records),
    }
}

/// The first row of the named region.
pub open spec fn version_of(rows: Seq<VersionView>, region: Seq<char>) -> Option<VersionView>
    decreases rows.len(),
{
    if rows.len() == 0 {
        None
    } else if rows[0].region == region {
        Some(rows[0])
    } else {
        version_of(rows.drop_first(), region)
    }
}

proof fn lemma_version_rows_fail(records: Seq<RecordView>, i: int)
    requires
        0 <= i <= records.len(),
        version_rows(records.subrange(0, i)) is Err,
    ensures
        version_rows(records) == version_rows(records.subrange(0, i)),
    decreases records.len() - i,
{
    if i < records.len() {
        assert(records.subrange(0, i + 1).drop_last() =~= records.subrange(0, i));
        lemma_version_rows_fail(records, i + 1);
    } else {
        assert(records.subrange(0, i) =~= records);
    }
}

fn parse_hash(record: &BuildInfoRecord, column: &'static str) -> (r: Result<ContentKey, CascError>)
    ensures
        error::outcome(r) == record_hash(record@, column@),
{
    match record.get(column) {
        Some(hex) => ContentKey::from_hex(hex),
        None => {
            let reason = text::cat3("record missing '", column, "'");
            Err(CascError::malformed("versions", reason.as_str()))
        },
    }
}

fn parse_version_row(record: &BuildInfoRecord) -> (r: Result<VersionEntry, CascError>)
    ensures
        error::outcome(r) == version_row(record@),
{
    let region = match record.get("Region") {
        Some(s) => s.to_owned(),
        None => {
            return Err(CascError::malformed("versions", "record missing 'Region'"));
        },
    };
    let build_config = match parse_hash(record, "BuildConfig") {
        Ok(k) => k,
        Err(e) => {
            return Err(e);
        },
    };
    let cdn_config = match parse_hash(record, "CDNConfig") {
        Ok(k) => k,
        Err(e) => {
            return Err(e);
        },
    };
    let build_id: Option<u32> = match record.get("BuildId") {
        Some(s) => {
            let chars = text::chars_of(s);
            match text::parse_number(chars.as_slice(), 0xffff_ffff) {
                Some(n) => Some(n as u32),
                None => None,
            }
        },
        None => None,
    };
    let versions_name = match record.get("VersionsName") {
        Some(s) => Some(s.to_owned()),
        None => None,
    };
    Ok(VersionEntry { region, build_config, cdn_config, build_id, versions_name })
}

impl Versions {
    /// Parses a `versions` response (the body of a GET to [`versions_url`]).
    ///
    /// This is a [`BuildInfo`] table under the hood; see
    /// [`BuildInfo::parse`] for the shared pipe-delimited format and how
    /// `## seqn = <n>` comment lines are skipped.
    ///
    /// Every row must have a non-empty `Region`, `BuildConfig`, and
    /// `CDNConfig` column with a valid 16-byte hex hash — a row failing any
    /// of these is an error (not skipped), since those three are required
    /// for the row to be usable at all. `BuildId` and `VersionsName` are
    /// optional. `KeyRing` and `ProductConfig` columns are ignored.
    pub fn parse(input: &str) -> (r: Result<Versions, CascError>)
        ensures
            error::outcome(r) == versions(input@),
    {
        let info = match BuildInfo::parse(input) {
            Ok(i) => i,
            Err(e) => {
                return Err(e);
            },
        };
        let records = info.records();
        let ghost all = config::record_views(records@);
        let mut entries: Vec<VersionEntry> = Vec::new();
        let mut i: usize = 0;
        assert(all.subrange(0, 0) =~= seq![]);
        assert(version_views(entries@) =~= seq![]);
        while i < records.len()
            invariant
                0 <= i <= records@.len(),
                all == config::record_views(records@),
                versions(input@) == version_rows(all),
                version_rows(all.subrange(0, i as int)) == Ok::<Seq<VersionView>, ErrorView>(
                    version_views(entries@),
                ),
            decreases records@.len() - i,
        {
            let ghost before = version_views(entries@);
            proof {
                assert(all.subrange(0, i + 1).drop_last() =~= all.subrange(0, i as int));
                assert(all.subrange(0, i + 1).last() == records@[i as int]@);
            }
            match parse_version_row(&records[i]) {
                Ok(row) => {
                    entries.push(row);
                    assert(version_views(entries@) =~= before.push(row@));
                },
                Err(e) => {
                    proof {
                        lemma_version_rows_fail(all, i + 1);
                    }
                    return Err(e);
                },
            }
            i += 1;
        }
        assert(all.subrange(0, i as int) =~= all);
        Ok(Versions { entries })
    }

    /// The row for `region` (e.g. `"us"`), if present.
    pub fn region(&self, region: &str) -> (r: Option<&VersionEntry>)
        ensures
            match r {
                Some(e) => version_of(self@, region@) == Some(e@),
                None => version_of(self@, region@) is None,
            },
    {
        let ghost all = self@;
        let mut i: usize = 0;
        assert(all.subrange(0, all.len() as int) =~= all);
        while i < self.entries.len()
            invariant
                0 <= i <= self.entries@.len(),
                all == version_views(self.entries@),
                all == self@,
                version_of(all.subrange(i as int, all.len() as int), region@) == version_of(
                    all,
                    region@,
                ),
            decreases self.entries@.len() - i,
        {
            let entry = &self.entries[i];
            proof {
                let rest = all.subrange(i as int, all.len() as int);
                assert(rest[0] == entry@);
                assert(rest.drop_first() =~= all.subrange(i + 1, all.len() as int));
            }
            if text::same_text(entry.region.as_str(), region) {
                return Some(entry);
            }
            i += 1;
        }
        None
    }

    /// All parsed rows, in file order.
    pub fn entries(&self) -> (s: &[VersionEntry])
        ensures
            version_views(s@) == self@,
    {
        self.entries.as_slice()
    }
}

// ---------------------------------------------------------------------
// What a cdns response says

/// One row of an NGDP `cdns` response: the CDN hosts and path prefix
/// serving a product for one region.
#[derive(Debug, Clone, PartialEq, Eq)]
pub struct CdnEntry {
    /// The region this row applies to, e.g. `"us"`.
    pub name: String,
    /// The path prefix under each host, e.g. `"tpr/sc1live"`. Combined with
    /// a host and a file hash by [`cdn_file_url`].
    pub path: String,
    /// Candidate hosts, in preference order (as listed in the response's
    /// space-separated `Hosts` column), e.g. `["level3.blizzard.com",
    /// "us.cdn.blizzard.com"]`.
    pub hosts: Vec<String>,
}

/// A parsed NGDP `cdns` response: one row per region.
///
/// See [`Cdns::parse`] for the format.
#[derive(Debug, Clone)]
pub struct Cdns {
    entries: Vec<CdnEntry>,
}

/// The content of a [`CdnEntry`].
pub struct CdnView {
    pub name: Seq<char>,
    pub path: Seq<char>,
    pub hosts: Seq<Seq<char>>,
}

impl View for CdnEntry {
    type V = CdnView;

    open spec fn view(&self) -> CdnView {
        CdnView { name: self.name@, path: self.path@, hosts: text::texts(self.hosts@) }
    }
}

/// Rows, taken by their views.
pub open spec fn cdn_views(s: Seq<CdnEntry>) -> Seq<CdnView> {
    Seq::new(s.len(), |i: int| s[i]@)
}

impl View for Cdns {
    type V = Seq<CdnView>;

    closed spec fn view(&self) -> Seq<CdnView> {
        cdn_views(self.entries@)
    }
}

/// The row that a record gives, where it has a name, a path and a host.
pub open spec fn cdn_row(r: RecordView) -> Option<CdnView> {
    match (
        config::record_value(r, "Name"@),
        config::record_value(r, "Path"@),
        config::record_value(r, "Hosts"@),
    ) {
        (Some(name), Some(path), Some(hosts)) => if text::words(hosts).len() > 0 {
            Some(CdnView { name, path, hosts: text::words(hosts) })
        } else {
            None
        },
        _ => None,
    }
}

/// The usable rows of records, in their order.
pub open spec fn cdn_rows(records: Seq<RecordView>) -> Seq<CdnView>
    decreases records.len(),
{
    if records.len() == 0 {
        seq![]
    } else {
        match cdn_row(records.last()) {
            Some(row) => cdn_rows(records.drop_last()).push(row),
            None => cdn_rows(records.drop_last()),
        }
    }
}

/// What parsing a cdns response gives.
pub open spec fn cdns(s: Seq<char>) -> Result<Seq<CdnView>, ErrorView> {
    match config::build_info(s) {
        Err(e) => Err(e),
        Ok(records) => if cdn_rows(records).len() == 0 {
            Err(error::malformed_view("cdns"@, "no usable rows"@))
        } else {
            Ok(cdn_rows(records))
        },
    }
}

/// The first row of the given name.
pub open spec fn cdn_of(rows: Seq<CdnView>, name: Seq<char>) -> Option<CdnView>
    decreases rows.len(),
{
    if rows.len() == 0 {
        None
    } else if rows[0].name == name {
        Some(rows[0])
    } else {
        cdn_of(rows.drop_first(), name)
    }
}

/// The words of a text as strings.
pub fn word_strings(s: &str) -> (v: Vec<String>)
    ensures
        text::texts(v@) == text::words(s@),
{
    let chars = text::chars_of(s);
    let parts = text::split_words(chars.as_slice());
    let ghost all = text::views(parts@);
    let mut v: Vec<String> = Vec::new();
    let mut i: usize = 0;
    assert(text::texts(v@) =~= all.subrange(0, 0));
    while i < parts.len()
        invariant
            0 <= i <= parts@.len(),
            all == text::views(parts@),
            text::texts(v@) == all.subrange(0, i as int),
        decreases parts@.len() - i,
    {
        let ghost before = text::texts(v@);
        v.push(text::string_of(parts[i]));
        assert(text::texts(v@) =~= before.push(all[i as int]));
        i += 1;
        assert(text::texts(v@) =~= all.subrange(0, i as int));
    }
    assert(all.subrange(0, i as int) =~= all);
    v
}

fn parse_cdn_row(record: &BuildInfoRecord) -> (r: Option<CdnEntry>)
    ensures
        match r {
            Some(e) => cdn_row(record@) == Some(e@),
            None => cdn_row(record@) is None,
        },
{
    match (record.get("Name"), record.get("Path"), record.get("Hosts")) {
        (Some(name), Some(path), Some(hosts)) => {
            let hosts = word_strings(hosts);
            assert(text::texts(hosts@).len() == hosts@.len());
            if hosts.len() == 0 {
                return None;
            }
            Some(CdnEntry { name: name.to_owned(), path: path.to_owned(), hosts })
        },
        _ => None,
    }
}

impl Cdns {
    /// Parses a `cdns` response (the body of a GET to [`cdns_url`]).
    ///
    /// This is a [`BuildInfo`] table under the hood; see
    /// [`BuildInfo::parse`] for the shared pipe-delimited format and how
    /// `## seqn = <n>` comment lines are skipped.
    ///
    /// Unlike [`Versions::parse`], individual bad rows aren't fatal: a row
    /// with a missing/empty `Name`, missing/empty `Path`, or an empty
    /// (or absent) `Hosts` column is silently skipped, since a response can
    /// legitimately list regions this product isn't distributed to. It's
    /// only an error if *every* row gets skipped, leaving nothing usable.
    /// `Servers` and `ConfigPath` columns are ignored.
    pub fn parse(input: &str) -> (r: Result<Cdns, CascError>)
        ensures
            error::outcome(r) == cdns(input@),
    {
        let info = match BuildInfo::parse(input) {
            Ok(i) => i,
            Err(e) => {
                return Err(e);
            },
        };
        let records = info.records();
        let ghost all = config::record_views(records@);
        let mut entries: Vec<CdnEntry> = Vec::new();
        let mut i: usize = 0;
        assert(all.subrange(0, 0) =~= seq![]);
        assert(cdn_views(entries@) =~= seq![]);
        while i < records.len()
            invariant
                0 <= i <= records@.len(),
                all == config::record_views(records@),
                cdn_views(entries@) == cdn_rows(all.subrange(0, i as int)),
            decreases records@.len() - i,
        {
            let ghost before = cdn_views(entries@);
            proof {
                assert(all.subrange(0, i + 1).drop_last() =~= all.subrange(0, i as int));
                assert(all.subrange(0, i + 1).last() == records@[i as int]@);
            }
            if let Some(row) = parse_cdn_row(&records[i]) {
                entries.push(row);
                assert(cdn_views(entries@) =~= before.push(row@));
            }
            i += 1;
        }
        assert(all.subrange(0, i as int) =~= all);
        assert(cdn_views(entries@).len() == entries@.len());
        if entries.len() == 0 {
            return Err(CascError::malformed("cdns", "no usable rows"));
        }
        Ok(Cdns { entries })
    }

    /// The row for `name` (e.g. `"us"`), if present.
    pub fn region(&self, name: &str) -> (r: Option<&CdnEntry>)
        ensures
            match r {
                Some(e) => cdn_of(self@, name@) == Some(e@),
                None => cdn_of(self@, name@) is None,
            },
    {
        let ghost all = self@;
        let mut i: usize = 0;
        assert(all.subrange(0, all.len() as int) =~= all);
        while i < self.entries.len()
            invariant
                0 <= i <= self.entries@.len(),
                all == cdn_views(self.entries@),
                all == self@,
                cdn_of(all.subrange(i as int, all.len() as int), name@) == cdn_of(all, name@),
            decreases self.entries@.len() - i,
        {
            let entry = &self.entries[i];
            proof {
                let rest = all.subrange(i as int, all.len() as int);
                assert(rest[0] == entry@);
                assert(rest.drop_first() =~= all.subrange(i + 1, all.len() as int));
            }
            if text::same_text(entry.name.as_str(), name) {
                return Some(entry);
            }
            i += 1;
        }
        None
    }

    /// All parsed rows, in file order.
    pub fn entries(&self) -> (s: &[CdnEntry])
        ensures
            cdn_views(s@) == self@,
    {
        self.entries.as_slice()
    }
}

// ---------------------------------------------------------------------
// URLs

/// The URL of a region's `versions` document.
pub open spec fn versions_address(region: Seq<char>, product: Seq<char>) -> Seq<char> {
    "http://"@ + region + ".patch.battle.net:1119/"@ + product + "/versions"@
}

/// The URL of a region's `cdns` document.
pub open spec fn cdns_address(region: Seq<char>, product: Seq<char>) -> Seq<char> {
    "http://"@ + region + ".patch.battle.net:1119/"@ + product + "/cdns"@
}

/// Builds the URL for a region's `versions` document:
/// `http://<region>.patch.battle.net:1119/<product>/versions`.
pub fn versions_url(region: &str, product: &str) -> (s: String)
    ensures
        s@ == versions_address(region@, product@),
{
    let mut s = "http://".to_owned();
    s.append(region);
    s.append(".patch.battle.net:1119/");
    s.append(product);
    s.append("/versions");
    s
}

/// Builds the URL for a region's `cdns` document:
/// `http://<region>.patch.battle.net:1119/<product>/cdns`.
pub fn cdns_url(region: &str, product: &str) -> (s: String)
    ensures
        s@ == cdns_address(region@, product@),
{
    let mut s = "http://".to_owned();
    s.append(region);
    s.append(".patch.battle.net:1119/");
    s.append(product);
    s.append("/cdns");
    s
}

/// Which subtree of a CDN a file hash addresses, per [`cdn_file_url`].
///
/// - `Config`: the file lives under `<cdn_path>/config/` and is addressed
///   by the config file's own hash — the `BuildConfig`/`CDNConfig` hashes
///   from a [`Versions`] row, or a hash found inside a config file (e.g.
///   `encoding`, `root`, `install`).
/// - `Data`: the file lives under `<cdn_path>/data/` and is addressed by
///   EKey, whether it's a loose file or an archive (`.index` requests the
///   archive's index rather than its data — see `index`).
#[derive(Debug, Clone, Copy, PartialEq, Eq, Structural)]
pub enum CdnPathKind {
    /// `<cdn_path>/config/<xx>/<yy>/<hash_hex>` — addressed by the config
    /// file's own hash.
    Config,
    /// `<cdn_path>/data/<xx>/<yy>/<hash_hex>` — addressed by EKey.
    Data,
}

/// The URL of a file on a CDN.
pub open spec fn file_address(
    host: Seq<char>,
    cdn_path: Seq<char>,
    kind: CdnPathKind,
    hash_hex: Seq<char>,
    index: bool,
) -> Seq<char> {
    "http://"@ + host + "/"@ + cdn_path + "/"@ + (match kind {
        CdnPathKind::Config => "config"@,
        CdnPathKind::Data => "data"@,
    }) + "/"@ + hash_hex.subrange(0, 2) + "/"@ + hash_hex.subrange(2, 4) + "/"@ + hash_hex
        + (if index {
        ".index"@
    } else {
        ""@
    })
}

/// Builds the URL for a single file on a CDN:
/// `http://<host>/<cdn_path>/<kind>/<xx>/<yy>/<hash_hex>`, with a `.index`
/// suffix appended when `index` is set.
///
/// `xx`/`yy` are the first two byte-pairs (four hex chars) of `hash_hex`,
/// matching the local `config/`/`data/` sharding scheme (see
/// [`crate::config::BuildInfoRecord::build_key`]). `hash_hex` must be a
/// lowercase hex string at least 4 characters long — this function does no
/// validation of it beyond slicing, since callers already hold a typed key
/// ([`ContentKey`] or [`crate::keys::EncodingKey`]) and are expected to
/// format it themselves.
pub fn cdn_file_url(
    host: &str,
    cdn_path: &str,
    kind: CdnPathKind,
    hash_hex: &str,
    index: bool,
) -> (s: String)
    requires
        hash_hex.is_ascii(),
        hash_hex@.len() >= 4,
    ensures
        s@ == file_address(host@, cdn_path@, kind, hash_hex@, index),
{
    let kind_str = match kind {
        CdnPathKind::Config => "config",
        CdnPathKind::Data => "data",
    };
    let suffix = if index {
        ".index"
    } else {
        ""
    };
    let mut s = "http://".to_owned();
    s.append(host);
    s.append("/");
    s.append(cdn_path);
    s.append("/");
    s.append(kind_str);
    s.append("/");
    s.append(hash_hex.substring_ascii(0, 2));
    s.append("/");
    s.append(hash_hex.substring_ascii(2, 4));
    s.append("/");
    s.append(hash_hex);
    s.append(suffix);
    s
}

// ---------------------------------------------------------------------
// Validation of discovery data

/// An ASCII letter or digit.
pub open spec fn is_alphanumeric(c: char) -> bool {
    'a' <= c <= 'z' || 'A' <= c <= 'Z' || '0' <= c <= '9'
}

/// `s` is a name that can stand in a discovery URL: letters, digits, hyphens
/// and underscores.
pub open spec fn is_identifier(s: Seq<char>) -> bool {
    s.len() > 0 && forall|i: int|
        0 <= i < s.len() ==> (is_alphanumeric(#[trigger] s[i]) || s[i] == '-' || s[i] == '_')
}

/// `s` ends with `tail`.
pub open spec fn ends_with(s: Seq<char>, tail: Seq<char>) -> bool {
    s.len() >= tail.len() && s.subrange(s.len() - tail.len(), s.len() as int) == tail
}

/// `s` is the name of a Blizzard host: letters, digits, hyphens and dots,
/// under one of Blizzard's domains.
pub open spec fn is_blizzard_host(s: Seq<char>) -> bool {
    &&& forall|i: int|
        0 <= i < s.len() ==> (is_alphanumeric(#[trigger] s[i]) || s[i] == '-' || s[i] == '.')
    &&& (ends_with(s, ".blizzard.com"@) || ends_with(s, ".battle.net"@))
}

/// `s` is a path prefix made of plain segments: letters, digits, hyphens,
/// underscores and dots, with none that is empty, `.` or `..`.
pub open spec fn is_plain_path(s: Seq<char>) -> bool {
    forall|i: int| 0 <= i < text::fields(s, '/').len() ==> is_plain_segment(
        #[trigger] text::fields(s, '/')[i],
    )
}

/// One segment of a plain path.
pub open spec fn is_plain_segment(s: Seq<char>) -> bool {
    &&& s.len() > 0
    &&& s != seq!['.']
    &&& s != seq!['.', '.']
    &&& forall|i: int|
        0 <= i < s.len() ==> (is_alphanumeric(#[trigger] s[i]) || s[i] == '-' || s[i] == '_'
            || s[i] == '.')
}

/// What checking a discovery identifier gives.
pub open spec fn identifier_status(s: Seq<char>, what: Seq<char>) -> Result<(), ErrorView> {
    if is_identifier(s) {
        Ok(())
    } else {
        Err(error::malformed_view("discovery identifier"@, "invalid "@ + what))
    }
}

/// What checking the hosts and the path of a CDN gives.
pub open spec fn location_status(hosts: Seq<Seq<char>>, path: Seq<char>) -> Result<
    (),
    ErrorView,
> {
    if hosts.len() == 0 || exists|i: int|
        0 <= i < hosts.len() && !is_blizzard_host(#[trigger] hosts[i]) {
        Err(error::malformed_view("CDN location"@, "host is not a Blizzard host"@))
    } else if !is_plain_path(path) {
        Err(error::malformed_view("CDN location"@, "invalid path"@))
    } else {
        Ok(())
    }
}

fn alphanumeric(c: char) -> (b: bool)
    ensures
        b == is_alphanumeric(c),
{
    ('a' <= c && c <= 'z') || ('A' <= c && c <= 'Z') || ('0' <= c && c <= '9')
}

/// Checks that a product or region name can stand in a discovery URL.
pub fn validate_discovery_identifier(s: &str, what: &'static str) -> (r: Result<(), CascError>)
    ensures
        error::status(r) == identifier_status(s@, what@),
{
    let chars = text::chars_of(s);
    let mut ok = chars.len() > 0;
    let mut i: usize = 0;
    while i < chars.len() && ok
        invariant
            0 <= i <= chars@.len(),
            chars@ == s@,
            ok ==> s@.len() > 0,
            ok ==> forall|j: int|
                0 <= j < i ==> (is_alphanumeric(#[trigger] s@[j]) || s@[j] == '-' || s@[j] == '_'),
            !ok ==> !is_identifier(s@),
        decreases chars@.len() - i,
    {
        let c = chars[i];
        if !(alphanumeric(c) || c == '-' || c == '_') {
            assert(c == s@[i as int]);
            ok = false;
        }
        i += 1;
    }
    if ok {
        Ok(())
    } else {
        let reason = text::cat2("invalid ", what);
        Err(CascError::malformed("discovery identifier", reason.as_str()))
    }
}

fn has_suffix(s: &[char], tail: &str) -> (b: bool)
    ensures
        b == ends_with(s@, tail@),
{
    let t = text::chars_of(tail);
    if s.len() < t.len() {
        return false;
    }
    text::same_chars(text::cut(s, s.len() - t.len(), s.len()), t.as_slice())
}

fn blizzard_host(s: &str) -> (b: bool)
    ensures
        b == is_blizzard_host(s@),
{
    let chars = text::chars_of(s);
    let mut i: usize = 0;
    while i < chars.len()
        invariant
            0 <= i <= chars@.len(),
            chars@ == s@,
            forall|j: int|
                0 <= j < i ==> (is_alphanumeric(#[trigger] s@[j]) || s@[j] == '-' || s@[j] == '.'),
        decreases chars@.len() - i,
    {
        let c = chars[i];
        assert(c == s@[i as int]);
        if !(alphanumeric(c) || c == '-' || c == '.') {
            return false;
        }
        i += 1;
    }
    has_suffix(chars.as_slice(), ".blizzard.com") || has_suffix(chars.as_slice(), ".battle.net")
}

fn plain_segment(s: &[char]) -> (b: bool)
    ensures
        b == is_plain_segment(s@),
{
    if s.len() == 0 {
        return false;
    }
    if s.len() == 1 && s[0] == '.' {
        assert(s@ =~= seq!['.']);
        return false;
    }
    if s.len() == 2 && s[0] == '.' && s[1] == '.' {
        assert(s@ =~= seq!['.', '.']);
        return false;
    }
    let mut i: usize = 0;
    while i < s.len()
        invariant
            0 <= i <= s@.len(),
            forall|j: int|
                0 <= j < i ==> (is_alphanumeric(#[trigger] s@[j]) || s@[j] == '-' || s@[j] == '_'
                    || s@[j] == '.'),
        decreases s@.len() - i,
    {
        let c = s[i];
        if !(alphanumeric(c) || c == '-' || c == '_' || c == '.') {
            assert(!is_plain_segment(s@));
            return false;
        }
        i += 1;
    }
    true
}

fn plain_path(s: &str) -> (b: bool)
    ensures
        b == is_plain_path(s@),
{
    let chars = text::chars_of(s);
    let parts = text::split_fields(chars.as_slice(), '/');
    let ghost all = text::views(parts@);
    let mut i: usize = 0;
    while i < parts.len()
        invariant
            0 <= i <= parts@.len(),
            all == text::views(parts@),
            all == text::fields(s@, '/'),
            forall|j: int| 0 <= j < i ==> is_plain_segment(#[trigger] all[j]),
        decreases parts@.len() - i,
    {
        assert(all[i as int] == parts@[i as int]@);
        if !plain_segment(parts[i]) {
            return false;
        }
        i += 1;
    }
    true
}

/// Checks that a CDN's hosts are Blizzard's and that its path prefix is
/// plain, before any URL is built from them.
pub fn validate_cdn_location(hosts: &Vec<String>, path: &str) -> (r: Result<(), CascError>)
    ensures
        error::status(r) == location_status(text::texts(hosts@), path@),
{
    let ghost all = text::texts(hosts@);
    if hosts.len() == 0 {
        return Err(CascError::malformed("CDN location", "host is not a Blizzard host"));
    }
    let mut i: usize = 0;
    while i < hosts.len()
        invariant
            0 <= i <= hosts@.len(),
            all == text::texts(hosts@),
            forall|j: int| 0 <= j < i ==> is_blizzard_host(#[trigger] all[j]),
        decreases hosts@.len() - i,
    {
        assert(all[i as int] == hosts@[i as int]@);
        if !blizzard_host(hosts[i].as_str()) {
            return Err(CascError::malformed("CDN location", "host is not a Blizzard host"));
        }
        i += 1;
    }
    if !plain_path(path) {
        return Err(CascError::malformed("CDN location", "invalid path"));
    }
    Ok(())
}

// ---------------------------------------------------------------------
// Laws

/// The URL of a file on a CDN names the host, the path prefix, the subtree,
/// the first two and the next two digits of the hash, and the hash: a data
/// file is below `data/` whether or not its index is asked for, a config file
/// is below `config/`, and an index has `.index` behind the URL of what it
/// indexes. So no data file has the URL of a config file.
pub proof fn law_file_urls(host: Seq<char>, path: Seq<char>, hash: Seq<char>)
    requires
        hash.len() >= 4,
    ensures
        ({
            let root = "http://"@ + host + "/"@ + path;
            let place = seq!['/', hash[0], hash[1], '/', hash[2], hash[3], '/'] + hash;
            let data = file_address(host, path, CdnPathKind::Data, hash, false);
            let config = file_address(host, path, CdnPathKind::Config, hash, false);
            &&& data == root + "/data"@ + place
            &&& config == root + "/config"@ + place
            &&& file_address(host, path, CdnPathKind::Data, hash, true) == data + ".index"@
            &&& file_address(host, path, CdnPathKind::Config, hash, true) == config + ".index"@
            &&& data != config
        }),
{
    reveal_strlit("/");
    reveal_strlit("");
    reveal_strlit("data");
    reveal_strlit("config");
    reveal_strlit("/data");
    reveal_strlit("/config");
    let root = "http://"@ + host + "/"@ + path;
    let place = seq!['/', hash[0], hash[1], '/', hash[2], hash[3], '/'] + hash;
    let data = file_address(host, path, CdnPathKind::Data, hash, false);
    let config = file_address(host, path, CdnPathKind::Config, hash, false);
    assert(data =~= root + "/data"@ + place);
    assert(config =~= root + "/config"@ + place);
    assert(file_address(host, path, CdnPathKind::Data, hash, true) =~= data + ".index"@);
    assert(file_address(host, path, CdnPathKind::Config, hash, true) =~= config + ".index"@);
    assert(data.len() != config.len());
}

/// Files of different hashes, of hashes of one length, have different URLs,
/// and so have a file and the index of another: what a CDN serves at a URL is
/// asked for under one name only.
pub proof fn law_file_urls_differ(
    host: Seq<char>,
    path: Seq<char>,
    kind: CdnPathKind,
    a: Seq<char>,
    b: Seq<char>,
    index: bool,
)
    requires
        a.len() == b.len() >= 4,
        a != b,
    ensures
        file_address(host, path, kind, a, index) != file_address(host, path, kind, b, index),
        file_address(host, path, kind, a, true) != file_address(host, path, kind, b, false),
{
    law_file_urls(host, path, a);
    law_file_urls(host, path, b);
    reveal_strlit(".index");
    let u = file_address(host, path, kind, a, false);
    let v = file_address(host, path, kind, b, false);
    assert(u.len() == v.len());
    assert(u.subrange(u.len() - a.len(), u.len() as int) =~= a);
    assert(v.subrange(v.len() - b.len(), v.len() as int) =~= b);
    let x = file_address(host, path, kind, a, true);
    let y = file_address(host, path, kind, b, true);
    assert(x.subrange(0, u.len() as int) =~= u);
    assert(y.subrange(0, v.len() as int) =~= v);
    assert(x.len() != v.len());
}

/// Both discovery documents of a product stand on the region's version
/// server, under the product's name: they differ in their last segment alone.
pub proof fn law_discovery_urls(region: Seq<char>, product: Seq<char>)
    ensures
        ({
            let server = "http://"@ + region + ".patch.battle.net:1119/"@;
            &&& versions_address(region, product) == server + product + "/versions"@
            &&& cdns_address(region, product) == server + product + "/cdns"@
            &&& versions_address(region, product) != cdns_address(region, product)
        }),
{
    reveal_strlit("/versions");
    reveal_strlit("/cdns");
    assert(versions_address(region, product).len() != cdns_address(region, product).len());
}

/// A region gets the first row that names it, and none where no row does.
pub proof fn law_version_of(rows: Seq<VersionView>, region: Seq<char>, i: int)
    requires
        0 <= i <= rows.len(),
        i < rows.len() ==> rows[i].region == region,
        forall|j: int| 0 <= j < i ==> (#[trigger] rows[j]).region != region,
    ensures
        version_of(rows, region) == (if i < rows.len() {
            Some(rows[i])
        } else {
            None
        }),
    decreases rows.len(),
{
    if i > 0 {
        assert(rows[0].region != region);
        let rest = rows.drop_first();
        assert forall|j: int| 0 <= j < i - 1 implies (#[trigger] rest[j]).region != region by {
            assert(rest[j] == rows[j + 1]);
        }
        law_version_of(rest, region, i - 1);
    }
}

/// A region gets the first row of its name, and none where no row has it.
pub proof fn law_cdn_of(rows: Seq<CdnView>, name: Seq<char>, i: int)
    requires
        0 <= i <= rows.len(),
        i < rows.len() ==> rows[i].name == name,
        forall|j: int| 0 <= j < i ==> (#[trigger] rows[j]).name != name,
    ensures
        cdn_of(rows, name) == (if i < rows.len() {
            Some(rows[i])
        } else {
            None
        }),
    decreases rows.len(),
{
    if i > 0 {
        assert(rows[0].name != name);
        let rest = rows.drop_first();
        assert forall|j: int| 0 <= j < i - 1 implies (#[trigger] rest[j]).name != name by {
            assert(rest[j] == rows[j + 1]);
        }
        law_cdn_of(rest, name, i - 1);
    }
}

/// A row of a versions response is the columns `Region`, `BuildConfig`,
/// `CDNConfig`, `BuildId` and `VersionsName`: the first three must be there,
/// and two of those must be the hexadecimal form of a hash; a `BuildId` that
/// is no 32-bit number counts as absent.
pub proof fn law_version_row(r: RecordView)
    ensures
        ({
            let region = config::record_value(r, "Region"@);
            let build = config::record_value(r, "BuildConfig"@);
            let cdn = config::record_value(r, "CDNConfig"@);
            let build_key = keys::key_from_hex(build->0, 16, "content key"@);
            let cdn_key = keys::key_from_hex(cdn->0, 16, "content key"@);
            let good = region is Some && build is Some && cdn is Some && build_key is Ok && cdn_key
                is Ok;
            match version_row(r) {
                Ok(v) => {
                    &&& good
                    &&& v.region == region->0
                    &&& v.build_config == build_key->Ok_0
                    &&& v.cdn_config == cdn_key->Ok_0
                    &&& v.versions_name == config::record_value(r, "VersionsName"@)
                    &&& v.build_id == (match config::record_value(r, "BuildId"@) {
                        Some(s) => text::number(s, 0xffff_ffff),
                        None => None,
                    })
                },
                Err(_) => !good,
            }
        }),
{
}

/// Every record of a versions response gives a row, in their order, and one
/// that gives none spoils the response.
pub proof fn law_version_rows(records: Seq<RecordView>)
    ensures
        match version_rows(records) {
            Ok(rows) => {
                &&& rows.len() == records.len()
                &&& forall|i: int|
                    0 <= i < records.len() ==> version_row(#[trigger] records[i]) == Ok::<
                        VersionView,
                        ErrorView,
                    >(rows[i])
            },
            Err(_) => exists|i: int|
                0 <= i < records.len() && version_row(#[trigger] records[i]) is Err,
        },
    decreases records.len(),
{
    if records.len() > 0 {
        let n = records.len() - 1;
        let init = records.drop_last();
        law_version_rows(init);
        assert(records[n] == records.last());
        match version_rows(init) {
            Ok(rows) => {
                if version_rows(records) is Ok {
                    let all = version_rows(records)->Ok_0;
                    assert forall|i: int| 0 <= i < records.len() implies version_row(
                        #[trigger] records[i],
                    ) == Ok::<VersionView, ErrorView>(all[i]) by {
                        if i < n {
                            assert(init[i] == records[i]);
                            assert(version_row(init[i]) == Ok::<VersionView, ErrorView>(rows[i]));
                        }
                    }
                } else {
                    assert(version_row(records[n]) is Err);
                }
            },
            Err(_) => {
                let i = choose|i: int| 0 <= i < init.len() && version_row(#[trigger] init[i]) is Err;
                assert(records[i] == init[i]);
            },
        }
    }
}

/// A row of a cdns response is the columns `Name`, `Path` and `Hosts`, the
/// hosts being the words of the last; a record that lacks one of them, or
/// names no host, gives no row.
pub proof fn law_cdn_row(r: RecordView)
    ensures
        ({
            let name = config::record_value(r, "Name"@);
            let path = config::record_value(r, "Path"@);
            let hosts = config::record_value(r, "Hosts"@);
            match cdn_row(r) {
                Some(row) => {
                    &&& name == Some(row.name)
                    &&& path == Some(row.path)
                    &&& hosts is Some
                    &&& row.hosts == text::words(hosts->0)
                    &&& row.hosts.len() > 0
                },
                None => name is None || path is None || hosts is None || text::words(
                    hosts->0,
                ).len() == 0,
            }
        }),
{
}

/// The rows of a cdns response are those that its records give, in their
/// order, the others left out.
pub proof fn law_cdn_rows(records: Seq<RecordView>)
    ensures
        cdn_rows(records) == records.filter_map(|r: RecordView| cdn_row(r)),
    decreases records.len(),
{
    reveal(Seq::filter_map);
    if records.len() > 0 {
        law_cdn_rows(records.drop_last());
    }
    assert(cdn_rows(records) =~= records.filter_map(|r: RecordView| cdn_row(r)));
}

/// A product or region can stand in a URL exactly where it is not empty and
/// holds nothing but ASCII letters and digits, hyphens and underscores.
pub proof fn law_identifiers(s: Seq<char>, what: Seq<char>)
    ensures
        identifier_status(s, what) is Ok <==> s.len() > 0 && forall|i: int|
            0 <= i < s.len() ==> {
                let c = #[trigger] s[i] as int;
                0x30 <= c <= 0x39 || 0x41 <= c <= 0x5a || 0x61 <= c <= 0x7a || c == 0x2d || c
                    == 0x5f
            },
        identifier_status(s, what) matches Err(e) ==> e is Malformed,
{
    if is_identifier(s) {
        assert forall|i: int| 0 <= i < s.len() implies {
            let c = #[trigger] s[i] as int;
            0x30 <= c <= 0x39 || 0x41 <= c <= 0x5a || 0x61 <= c <= 0x7a || c == 0x2d || c == 0x5f
        } by {
            assert(is_alphanumeric(s[i]) || s[i] == '-' || s[i] == '_');
        }
    }
    if s.len() > 0 && forall|i: int|
        0 <= i < s.len() ==> {
            let c = #[trigger] s[i] as int;
            0x30 <= c <= 0x39 || 0x41 <= c <= 0x5a || 0x61 <= c <= 0x7a || c == 0x2d || c == 0x5f
        } {
        assert forall|i: int| 0 <= i < s.len() implies (is_alphanumeric(#[trigger] s[i]) || s[i]
            == '-' || s[i] == '_') by {
            assert(s[i] as int == s[i] as int);
        }
    }
}

/// Hosts below `blizzard.com` and `battle.net` are accepted, and no others;
/// neither is a host that holds anything but ASCII letters and digits,
/// hyphens and dots.
pub proof fn law_hosts(name: Seq<char>, other: Seq<char>, i: int)
    requires
        forall|i: int|
            0 <= i < name.len() ==> {
                let c = #[trigger] name[i] as int;
                0x30 <= c <= 0x39 || 0x41 <= c <= 0x5a || 0x61 <= c <= 0x7a || c == 0x2d || c
                    == 0x2e
            },
        ({
            ||| (other.len() < 13 || other.skip(other.len() - 13) != ".blizzard.com"@) && (
            other.len() < 11 || other.skip(other.len() - 11) != ".battle.net"@)
            ||| 0 <= i < other.len() && {
                let c = other[i] as int;
                !(0x30 <= c <= 0x39 || 0x41 <= c <= 0x5a || 0x61 <= c <= 0x7a || c == 0x2d || c
                    == 0x2e)
            }
        }),
    ensures
        is_blizzard_host(name + ".blizzard.com"@),
        is_blizzard_host(name + ".battle.net"@),
        !is_blizzard_host(other),
{
    reveal_strlit(".blizzard.com");
    reveal_strlit(".battle.net");
    let a = name + ".blizzard.com"@;
    let b = name + ".battle.net"@;
    assert(a.subrange(a.len() - 13, a.len() as int) =~= ".blizzard.com"@);
    assert(b.subrange(b.len() - 11, b.len() as int) =~= ".battle.net"@);
    assert forall|i: int| 0 <= i < a.len() implies (is_alphanumeric(#[trigger] a[i]) || a[i] == '-'
        || a[i] == '.') by {
        if i < name.len() {
            assert(a[i] as int == name[i] as int);
        } else {
            assert(a[i] == ".blizzard.com"@[i - name.len()]);
        }
    }
    assert forall|i: int| 0 <= i < b.len() implies (is_alphanumeric(#[trigger] b[i]) || b[i] == '-'
        || b[i] == '.') by {
        if i < name.len() {
            assert(b[i] as int == name[i] as int);
        } else {
            assert(b[i] == ".battle.net"@[i - name.len()]);
        }
    }
    if is_blizzard_host(other) {
        if 0 <= i < other.len() {
            assert(is_alphanumeric(other[i]) || other[i] == '-' || other[i] == '.');
        }
        if other.len() >= 13 {
            assert(other.skip(other.len() - 13) =~= other.subrange(
                other.len() - 13,
                other.len() as int,
            ));
        }
        if other.len() >= 11 {
            assert(other.skip(other.len() - 11) =~= other.subrange(
                other.len() - 11,
                other.len() as int,
            ));
        }
    }
}

/// A segment that may stand in the path of a CDN: ASCII letters and digits,
/// hyphens, underscores and dots, and neither empty nor a directory that dots
/// spell.
pub open spec fn may_stand(s: Seq<char>) -> bool {
    &&& s.len() > 0
    &&& !(s.len() == 1 && s[0] == '.')
    &&& !(s.len() == 2 && s[0] == '.' && s[1] == '.')
    &&& forall|i: int|
        0 <= i < s.len() ==> {
            let c = #[trigger] s[i] as int;
            0x30 <= c <= 0x39 || 0x41 <= c <= 0x5a || 0x61 <= c <= 0x7a || c == 0x2d || c == 0x2e
                || c == 0x5f
        }
}

/// A location is accepted exactly where it has a host, every host is one of
/// Blizzard's, and every segment between the slashes of its path may stand
/// there.
pub proof fn law_locations(hosts: Seq<Seq<char>>, segments: Seq<Seq<char>>)
    requires
        segments.len() > 0,
        forall|i: int| 0 <= i < segments.len() ==> !(#[trigger] segments[i]).contains('/'),
    ensures
        location_status(hosts, compose::joined(segments, seq!['/'])) is Ok <==> hosts.len() > 0 && (
        forall|i: int| 0 <= i < hosts.len() ==> is_blizzard_host(#[trigger] hosts[i])) && (forall|
            i: int,
        |
            0 <= i < segments.len() ==> may_stand(#[trigger] segments[i])),
{
    assert forall|i: int| 0 <= i < segments.len() implies !crate::sanitize::holds(
        #[trigger] segments[i],
        '/',
    ) by {
        let s = segments[i];
        if crate::sanitize::holds(s, '/') {
            let k = choose|k: int| 0 <= k < s.len() && #[trigger] s[k] == '/';
            assert(s.contains(s[k]));
        }
    }
    compose::law_fields_joined(segments, '/');
    assert forall|i: int| 0 <= i < segments.len() implies is_plain_segment(#[trigger] segments[i])
        == may_stand(segments[i]) by {
        lemma_may_stand(segments[i]);
    }
    if forall|i: int| 0 <= i < segments.len() ==> may_stand(#[trigger] segments[i]) {
        assert forall|i: int| 0 <= i < segments.len() implies is_plain_segment(
            #[trigger] segments[i],
        ) by {
            assert(may_stand(segments[i]));
        }
    }
    if is_plain_path(compose::joined(segments, seq!['/'])) {
        assert forall|i: int| 0 <= i < segments.len() implies may_stand(#[trigger] segments[i]) by {
            assert(is_plain_segment(segments[i]));
        }
    }
}

proof fn lemma_may_stand(s: Seq<char>)
    ensures
        is_plain_segment(s) == may_stand(s),
{
    if s.len() == 1 && s[0] == '.' {
        assert(s =~= seq!['.']);
    }
    if s.len() == 2 && s[0] == '.' && s[1] == '.' {
        assert(s =~= seq!['.', '.']);
    }
    if is_plain_segment(s) {
        assert forall|i: int| 0 <= i < s.len() implies {
            let c = #[trigger] s[i] as int;
            0x30 <= c <= 0x39 || 0x41 <= c <= 0x5a || 0x61 <= c <= 0x7a || c == 0x2d || c == 0x2e
                || c == 0x5f
        } by {
            assert(is_alphanumeric(s[i]) || s[i] == '-' || s[i] == '_' || s[i] == '.');
        }
    }
    if may_stand(s) {
        assert forall|i: int| 0 <= i < s.len() implies (is_alphanumeric(#[trigger] s[i]) || s[i]
            == '-' || s[i] == '_' || s[i] == '.') by {
            assert(s[i] as int == s[i] as int);
        }
    }
}

/// A versions response has the rows of its records, and a cdns response those
/// of its records that give one, of which there must be some; a response that
/// is no table is refused.
pub proof fn law_responses(s: Seq<char>, records: Seq<RecordView>)
    ensures
        config::build_info(s) == Ok::<Seq<RecordView>, ErrorView>(records) ==> {
            let rows = records.filter_map(|r: RecordView| cdn_row(r));
            &&& versions(s) == version_rows(records)
            &&& rows.len() > 0 ==> cdns(s) == Ok::<Seq<CdnView>, ErrorView>(rows)
            &&& rows.len() == 0 ==> (cdns(s) matches Err(e) && e is Malformed)
        },
        config::build_info(s) is Err ==> versions(s) is Err && cdns(s) is Err,
{
    law_cdn_rows(records);
}

} // verus!
