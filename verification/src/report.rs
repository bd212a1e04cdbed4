//! The lines that a listing and a summary of a storage print, and the names
//! by which a storage is shown to a user.

use vstd::prelude::*;
use vstd::string::*;

use crate::error;
use crate::error::CascError;
use crate::error::ErrorView;
use crate::io::StorageProvider;
use crate::keys;
use crate::keys::ContentKey;
use crate::storage;
use crate::storage::Storage;
use crate::storage::StorageView;
use crate::text;

verus! {

// ---------------------------------------------------------------------
// Listing

/// What a listing shows of a file's size.
pub enum ShownSize {
    /// Sizes are not shown.
    Hidden,
    /// The size could not be resolved.
    Unknown,
    Known(u64),
}

/// The line of one file in a listing.
pub open spec fn listed(path: Seq<char>, size: ShownSize) -> Seq<char> {
    match size {
        ShownSize::Hidden => path,
        ShownSize::Unknown => path + "\t?"@,
        ShownSize::Known(n) => path + "\t"@ + text::dec(n as nat),
    }
}

/// The line of one file in a listing.
pub fn list_line(path: &str, size: ShownSize) -> (s: String)
    ensures
        s@ == listed(path@, size),
{
    match size {
        ShownSize::Hidden => path.to_owned(),
        ShownSize::Unknown => text::cat2(path, "\t?"),
        ShownSize::Known(n) => {
            let digits = text::dec_text(n);
            text::cat3(path, "\t", digits.as_str())
        },
    }
}

// ---------------------------------------------------------------------
// Summary

/// The number of the given paths whose content is present locally.
pub open spec fn installed_count(s: StorageView, paths: Seq<Seq<char>>) -> nat
    decreases paths.len(),
{
    if paths.len() == 0 {
        0
    } else {
        installed_count(s, paths.drop_last()) + if storage::installed(s, paths.last()) {
            1nat
        } else {
            0nat
        }
    }
}

/// Counts the installed files of a storage, and all of its files.
pub fn count_installed<P: StorageProvider>(s: &Storage<P>) -> (r: (usize, usize))
    requires
        s.wf(),
    ensures
        r.0 == installed_count(s@, storage::catalog_paths(s@.root)),
        r.1 == s@.root.len(),
{
    let names = s.file_names();
    let ghost all = storage::str_views(names@);
    let total: usize = names.len();
    assert(all.len() == total);
    let mut installed: usize = 0;
    let mut i: usize = 0;
    assert(all.subrange(0, 0) =~= seq![]);
    while i < total
        invariant
            s.wf(),
            0 <= i <= total,
            total == names@.len(),
            all == storage::str_views(names@),
            installed == installed_count(s@, all.subrange(0, i as int)),
            installed <= i,
        decreases total - i,
    {
        proof {
            assert(all.subrange(0, i + 1).drop_last() =~= all.subrange(0, i as int));
            assert(all.subrange(0, i + 1).last() == names@[i as int]@);
        }
        if s.is_installed(names[i]) {
            installed += 1;
        }
        i += 1;
    }
    assert(all.subrange(0, i as int) =~= all);
    (installed, total)
}

/// A text that may be absent.
pub open spec fn optional(v: Option<&str>) -> Option<Seq<char>> {
    match v {
        Some(s) => Some(s@),
        None => None,
    }
}

/// The lines of a summary.
pub open spec fn summary(
    label: Seq<char>,
    version: Option<Seq<char>>,
    files: nat,
    installed: Option<(usize, usize)>,
) -> Seq<Seq<char>> {
    let head = seq!["source:  "@ + label];
    let named = match version {
        Some(v) => head.push("version: "@ + v),
        None => head,
    };
    let counted = named.push("files:   "@ + text::dec(files));
    match installed {
        Some((have, all)) => counted.push(
            "installed: "@ + text::dec(have as nat) + "/"@ + text::dec(all as nat),
        ),
        None => counted,
    }
}

/// The lines of a summary of a storage.
pub fn info_lines(
    label: &str,
    version: Option<&str>,
    files: usize,
    installed: Option<(usize, usize)>,
) -> (v: Vec<String>)
    ensures
        text::texts(v@) == summary(label@, optional(version), files as nat, installed),
{
    let mut v: Vec<String> = Vec::new();
    v.push(text::cat2("source:  ", label));
    assert(text::texts(v@) =~= seq!["source:  "@ + label@]);
    let ghost head = text::texts(v@);
    match version {
        Some(name) => {
            v.push(text::cat2("version: ", name));
            assert(text::texts(v@) =~= head.push("version: "@ + name@));
        },
        None => {},
    }
    let ghost named = text::texts(v@);
    let digits = text::dec_text(files as u64);
    v.push(text::cat2("files:   ", digits.as_str()));
    assert(text::texts(v@) =~= named.push("files:   "@ + text::dec(files as nat)));
    let ghost counted = text::texts(v@);
    match installed {
        Some((have, all)) => {
            let a = text::dec_text(have as u64);
            let b = text::dec_text(all as u64);
            let line = text::cat4("installed: ", a.as_str(), "/", b.as_str());
            v.push(line);
            assert(text::texts(v@) =~= counted.push(line@));
        },
        None => {},
    }
    v
}

/// The last line of an extraction.
pub fn extracted_line(extracted: usize, skipped: usize) -> (s: String)
    ensures
        s@ == "extracted "@ + text::dec(extracted as nat) + " file(s), skipped "@ + text::dec(
            skipped as nat,
        ),
{
    let a = text::dec_text(extracted as u64);
    let b = text::dec_text(skipped as u64);
    text::cat4("extracted ", a.as_str(), " file(s), skipped ", b.as_str())
}

// ---------------------------------------------------------------------
// Names

/// How a local install is shown.
pub fn local_label(dir: &str) -> (s: String)
    ensures
        s@ == "local install at "@ + dir@,
{
    text::cat2("local install at ", dir)
}

/// How a CDN storage is shown.
pub fn cdn_label(product: &str, region: &str) -> (s: String)
    ensures
        s@ == "CDN ("@ + product@ + ", region "@ + region@ + ")"@,
{
    let mut s = text::cat4("CDN (", product, ", region ", region);
    s.append(")");
    s
}

/// The build's name to show: the live version name where discovery provided
/// one, else the build config's `build-name`.
pub fn version_label<'a>(version_name: Option<&'a str>, build_name: Option<&'a str>) -> (r: Option<
    &'a str,
>)
    ensures
        r == match version_name {
            Some(_) => version_name,
            None => build_name,
        },
{
    match version_name {
        Some(_) => version_name,
        None => build_name,
    }
}

// ---------------------------------------------------------------------
// Pinned builds

/// A hash given for a pinned build that is not one.
#[derive(Debug)]
pub struct PinError {
    /// The option that the hash was given by.
    pub option: &'static str,
    pub hash: String,
    pub cause: CascError,
}

/// The content of a [`PinError`].
pub struct PinErrorView {
    pub option: Seq<char>,
    pub hash: Seq<char>,
    pub cause: ErrorView,
}

impl View for PinError {
    type V = PinErrorView;

    open spec fn view(&self) -> PinErrorView {
        PinErrorView { option: self.option@, hash: self.hash@, cause: self.cause@ }
    }
}

impl PinError {
    /// The text that describes this error to a user.
    pub fn message(&self) -> (s: String)
        ensures
            s@ == "invalid "@ + self.option@ + " hash: "@ + text::quoted(self.hash@) + ": "@
                + error::message_of(self.cause@),
    {
        let hash = text::quoted_text(self.hash.as_str());
        let cause = self.cause.message();
        let mut s = text::cat4("invalid ", self.option, " hash: ", hash.as_str());
        s.append(": ");
        s.append(cause.as_str());
        s
    }
}

/// The keys that the hashes of a pinned build spell.
pub open spec fn pinned_hashes(build: Seq<char>, cdn: Seq<char>) -> Result<
    (Seq<u8>, Seq<u8>),
    PinErrorView,
> {
    match keys::key_from_hex(build, 16, "content key"@) {
        Err(cause) => Err(PinErrorView { option: "--build-config"@, hash: build, cause }),
        Ok(b) => match keys::key_from_hex(cdn, 16, "content key"@) {
            Err(cause) => Err(PinErrorView { option: "--cdn-config"@, hash: cdn, cause }),
            Ok(c) => Ok((b, c)),
        },
    }
}

/// Parses the hashes of a pinned build.
pub fn pinned_keys(build: &str, cdn: &str) -> (r: Result<(ContentKey, ContentKey), PinError>)
    ensures
        match r {
            Ok((b, c)) => pinned_hashes(build@, cdn@) == Ok::<(Seq<u8>, Seq<u8>), PinErrorView>(
                (b@, c@),
            ),
            Err(e) => pinned_hashes(build@, cdn@) == Err::<(Seq<u8>, Seq<u8>), PinErrorView>(e@),
        },
{
    let b = match ContentKey::from_hex(build) {
        Ok(k) => k,
        Err(cause) => {
            return Err(PinError { option: "--build-config", hash: build.to_owned(), cause });
        },
    };
    let c = match ContentKey::from_hex(cdn) {
        Ok(k) => k,
        Err(cause) => {
            return Err(PinError { option: "--cdn-config", hash: cdn.to_owned(), cause });
        },
    };
    Ok((b, c))
}

// ---------------------------------------------------------------------
// Laws

/// No more files are installed than there are.
pub proof fn law_installed_count(s: StorageView, paths: Seq<Seq<char>>)
    ensures
        installed_count(s, paths) <= paths.len(),
    decreases paths.len(),
{
    if paths.len() > 0 {
        law_installed_count(s, paths.drop_last());
    }
}

/// The installed files are counted one by one: as many as there are paths
/// whose content is present.
pub proof fn law_installed_are_counted(s: StorageView, paths: Seq<Seq<char>>)
    ensures
        installed_count(s, paths) == paths.filter(
            |p: Seq<char>| storage::installed(s, p),
        ).len(),
    decreases paths.len(),
{
    reveal(Seq::filter);
    if paths.len() > 0 {
        law_installed_are_counted(s, paths.drop_last());
    }
}

/// A listing shows the path, and behind a tab the size in decimal, or a
/// question mark for a size that is not known.
pub proof fn law_listing(path: Seq<char>, n: u64)
    ensures
        listed(path, ShownSize::Hidden) == path,
        listed(path, ShownSize::Unknown) == path + seq!['\t', '?'],
        listed(path, ShownSize::Known(n)) == path + seq!['\t'] + text::dec(n as nat),
{
    reveal_strlit("\t?");
    reveal_strlit("\t");
    assert("\t?"@ =~= seq!['\t', '?']);
    assert("\t"@ =~= seq!['\t']);
}

/// A summary states the source, then the version where there is one, then the
/// number of files, and last how many of them are installed where that was
/// counted.
pub proof fn law_summary(
    label: Seq<char>,
    version: Option<Seq<char>>,
    files: nat,
    installed: Option<(usize, usize)>,
)
    ensures
        ({
            let lines = summary(label, version, files, installed);
            let at = if version is Some {
                2
            } else {
                1int
            };
            &&& lines.len() == at + 1 + if installed is Some {
                1int
            } else {
                0
            }
            &&& lines[0] == "source:  "@ + label
            &&& version matches Some(v) ==> lines[1] == "version: "@ + v
            &&& lines[at] == "files:   "@ + text::dec(files)
            &&& installed matches Some((have, all)) ==> lines[at + 1] == "installed: "@ + text::dec(
                have as nat,
            ) + seq!['/'] + text::dec(all as nat)
        }),
{
    reveal_strlit("/");
    assert("/"@ =~= seq!['/']);
}

/// A pinned build is named by two keys of sixteen bytes in hexadecimal; the
/// first text that is none is the one that is refused, under its option.
pub proof fn law_pinned(build: Seq<u8>, cdn: Seq<u8>, other: Seq<char>)
    requires
        build.len() == 16,
        cdn.len() == 16,
        keys::key_from_hex(other, 16, "content key"@) is Err,
    ensures
        pinned_hashes(keys::key_hex(build), keys::key_hex(cdn)) == Ok::<
            (Seq<u8>, Seq<u8>),
            PinErrorView,
        >((build, cdn)),
        pinned_hashes(other, keys::key_hex(cdn)) matches Err(e) && e.option == "--build-config"@
            && e.hash == other,
        pinned_hashes(other, other) matches Err(e) && e.option == "--build-config"@,
        pinned_hashes(keys::key_hex(build), other) matches Err(e) && e.option == "--cdn-config"@
            && e.hash == other,
{
    keys::law_hex_round_trip(build, "content key"@);
    keys::law_hex_round_trip(cdn, "content key"@);
}

} // verus!
