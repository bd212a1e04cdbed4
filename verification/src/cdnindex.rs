//! CDN archive-index (`.index`) parser.
//!
//! Every CDN archive Blizzard serves is accompanied by a `.index` file that
//! maps the full 16-byte EKeys stored in that archive to their `(offset,
//! size)` within it. Locally, the same files live at `Data\indices\*.index`
//! — they aren't needed to read an existing local install (that's what
//! `.idx`, see [`crate::idx`], is for), but they are what a CDN-backed reader
//! needs to locate content in an archive.
//!
//! Layout of one `.index` file:
//!
//! ```text
//! entry pages   fixed-size (`page_size_kb` KiB) pages of packed 24-byte
//!               entries, sorted ascending by EKey across the whole file;
//!               a page's unused tail is zero-padded
//! TOC           last EKey of each page + per-page checksums -- skipped
//! footer        36 bytes, at the very end of the file (see below)
//! ```
//!
//! Entry layout (24 bytes):
//!
//! ```text
//! +0x00  16  EKey
//! +0x10  4   EncodedSize   u32 BE
//! +0x14  4   Offset        u32 BE
//! ```
//!
//! An entry whose EKey is all-zero marks the start of a page's padding; the
//! rest of that page carries no data and reading resumes at the next page
//! boundary.
//!
//! Footer layout (36 bytes; fields are single bytes unless noted):
//!
//! ```text
//! +0x00  16  TocHash          not verified by this reader
//! +0x10  1   Version          must be 1
//! +0x11  1   Reserved         (=0, not checked)
//! +0x12  1   Reserved         (=0, not checked)
//! +0x13  1   PageSizeKB       page size in KiB; must be nonzero
//! +0x14  1   OffsetBytes      must be 4
//! +0x15  1   SizeBytes        must be 4
//! +0x16  1   EKeyLength       must be 16
//! +0x17  1   FooterHashBytes  must be 8
//! +0x18  4   ElementCount     u32 LE
//! +0x1C  8   FooterHash       not verified by this reader
//! ```
//!
//! `PageSizeKB`, `OffsetBytes`, `SizeBytes` and `EKeyLength` vary across
//! Blizzard products in general; SC:R's CDN indices always use 4/4/4/16, and
//! this reader only supports that combination (other widths are rejected as
//! [`CascError::Unsupported`] rather than misparsed).

use vstd::prelude::*;
use vstd::string::StringExecFns;

use crate::bytes;
use crate::error;
use crate::error::CascError;
use crate::error::ErrorView;
use crate::keymap::KeyMap;
use crate::keys;
use crate::keys::EncodingKey;
use crate::text;

verus! {

/// Size of one entry.
pub const ENTRY_LEN: usize = 24;

/// Size of the footer.
pub const FOOTER_LEN: usize = 36;

/// Location of one EKey's data within a single CDN archive.
#[derive(Debug, Clone, Copy, PartialEq, Eq)]
pub struct ArchiveIndexEntry {
    /// The full 16-byte encoding key.
    pub ekey: EncodingKey,
    /// Byte offset of the entry's data within the archive.
    pub offset: u32,
    /// Size in bytes of the entry's data within the archive.
    pub encoded_size: u32,
}

/// One parsed `.index` file: all EKey entries for a single CDN archive,
/// sorted ascending by EKey.
#[derive(Debug, Clone)]
pub struct ArchiveIndex {
    entries: Vec<ArchiveIndexEntry>,
}

// ---------------------------------------------------------------------
// What an archive index says

/// The content of an [`ArchiveIndexEntry`].
pub struct ArchiveEntryView {
    pub ekey: Seq<u8>,
    pub offset: nat,
    pub encoded_size: nat,
}

impl View for ArchiveIndexEntry {
    type V = ArchiveEntryView;

    open spec fn view(&self) -> ArchiveEntryView {
        ArchiveEntryView {
            ekey: self.ekey@,
            offset: self.offset as nat,
            encoded_size: self.encoded_size as nat,
        }
    }
}

/// Entries, taken by their views.
pub open spec fn entry_views(s: Seq<ArchiveIndexEntry>) -> Seq<ArchiveEntryView> {
    Seq::new(s.len(), |i: int| s[i]@)
}

impl View for ArchiveIndex {
    type V = Seq<ArchiveEntryView>;

    closed spec fn view(&self) -> Seq<ArchiveEntryView> {
        entry_views(self.entries@)
    }
}

/// Keys strictly ascend, in the order of the numbers that they spell.
pub open spec fn sorted(s: Seq<ArchiveEntryView>) -> bool {
    forall|i: int, j: int|
        0 <= i < j < s.len() ==> bytes::be((#[trigger] s[i]).ekey) < bytes::be(
            (#[trigger] s[j]).ekey,
        )
}

/// The entry in the 24 bytes at `at`.
pub open spec fn entry_at(data: Seq<u8>, at: int) -> ArchiveEntryView {
    ArchiveEntryView {
        ekey: data.subrange(at, at + 16),
        offset: bytes::be_at(data, at + 20, 4),
        encoded_size: bytes::be_at(data, at + 16, 4),
    }
}

/// The key that marks the start of a page's padding.
pub open spec fn zero_key() -> Seq<u8> {
    Seq::new(16, |i: int| 0u8)
}

/// Where the page after the one of `cursor` starts.
pub open spec fn next_page(cursor: int, page: int) -> int {
    (cursor / page + 1) * page
}

/// `r` with `head` put in front of its entries.
pub open spec fn joined(
    head: Seq<ArchiveEntryView>,
    r: Result<Seq<ArchiveEntryView>, ErrorView>,
) -> Result<Seq<ArchiveEntryView>, ErrorView> {
    match r {
        Ok(tail) => Ok(head + tail),
        Err(e) => Err(e),
    }
}

/// What collecting entries from `cursor` on gives, where `have` of `count`
/// entries have been collected before and the footer starts at `limit`.
pub open spec fn scan(
    data: Seq<u8>,
    limit: int,
    page: int,
    cursor: int,
    count: nat,
    have: nat,
) -> Result<Seq<ArchiveEntryView>, ErrorView>
    decreases (if cursor <= limit { limit - cursor } else { 0 }),
    when 0 < page && 0 <= cursor
{
    proof {
        lemma_next_page(cursor, page);
    }
    let what = "CDN archive index"@;
    if have >= count {
        Ok(seq![])
    } else if cursor + 24 > usize::MAX {
        Err(error::malformed_view(what, "entry cursor overflowed while scanning pages"@))
    } else if cursor + 24 > limit {
        Err(
            error::malformed_view(
                what,
                "element count "@ + text::dec(count)
                    + " claims more entries than fit before the footer ("@ + text::dec(have)
                    + " collected)"@,
            ),
        )
    } else if data.subrange(cursor, cursor + 16) == zero_key() {
        if next_page(cursor, page) > usize::MAX {
            Err(error::malformed_view(what, "page boundary computation overflowed"@))
        } else {
            scan(data, limit, page, next_page(cursor, page), count, have)
        }
    } else {
        joined(
            seq![entry_at(data, cursor)],
            scan(data, limit, page, cursor + 24, count, have + 1),
        )
    }
}

/// What parsing an archive index gives.
pub open spec fn archive_index(data: Seq<u8>) -> Result<Seq<ArchiveEntryView>, ErrorView> {
    let what = "CDN archive index"@;
    let limit = data.len() - 36;
    let version = data[limit + 16];
    let page_kb = data[limit + 19];
    let w0 = data[limit + 20];
    let w1 = data[limit + 21];
    let w2 = data[limit + 22];
    let w3 = data[limit + 23];
    let count = bytes::le_at(data, limit + 24, 4);
    if data.len() < 36 {
        Err(
            error::malformed_view(
                what,
                "file too short ("@ + text::dec(data.len())
                    + " bytes, need at least 36 for the footer)"@,
            ),
        )
    } else if version != 1 {
        Err(
            error::unsupported_view(
                what,
                "footer version "@ + text::dec(version as nat)
                    + " (only version 1 is supported)"@,
            ),
        )
    } else if w0 != 4 || w1 != 4 || w2 != 16 || w3 != 8 {
        Err(
            error::unsupported_view(
                what,
                "field widths offset="@ + text::dec(w0 as nat) + " size="@ + text::dec(w1 as nat)
                    + " ekey="@ + text::dec(w2 as nat) + " footer_hash="@ + text::dec(w3 as nat)
                    + " (only 4/4/16/8 are supported)"@,
            ),
        )
    } else if page_kb == 0 {
        Err(error::malformed_view(what, "page size is zero"@))
    } else {
        match scan(data, limit, page_kb * 1024, 0, count, 0) {
            Err(e) => Err(e),
            Ok(entries) => if sorted(entries) {
                Ok(entries)
            } else {
                Err(error::malformed_view(what, "entries are not sorted ascending by EKey"@))
            },
        }
    }
}

pub proof fn lemma_next_page(cursor: int, page: int)
    requires
        0 < page,
        0 <= cursor,
    ensures
        cursor < next_page(cursor, page) <= cursor + page,
{
    vstd::arithmetic::div_mod::lemma_fundamental_div_mod(cursor, page);
    vstd::arithmetic::mul::lemma_mul_is_distributive_add(page, cursor / page, 1);
    vstd::arithmetic::mul::lemma_mul_is_commutative(page, cursor / page);
    vstd::arithmetic::mul::lemma_mul_is_commutative(page, cursor / page + 1);
    vstd::arithmetic::div_mod::lemma_mod_bound(cursor, page);
}

proof fn lemma_joined_twice(
    a: Seq<ArchiveEntryView>,
    b: Seq<ArchiveEntryView>,
    r: Result<Seq<ArchiveEntryView>, ErrorView>,
)
    ensures
        joined(a, joined(b, r)) == joined(a + b, r),
{
    if r is Ok {
        assert(a + (b + r->Ok_0) =~= (a + b) + r->Ok_0);
    }
}

/// Collects `count` entries from the pages before `limit`.
fn collect_entries(data: &[u8], limit: usize, page_size: usize, count: u32) -> (r: Result<
    Vec<ArchiveIndexEntry>,
    CascError,
>)
    requires
        limit <= data@.len(),
        0 < page_size,
    ensures
        match r {
            Ok(v) => scan(data@, limit as int, page_size as int, 0, count as nat, 0) == Ok::<
                Seq<ArchiveEntryView>,
                ErrorView,
            >(entry_views(v@)),
            Err(e) => scan(data@, limit as int, page_size as int, 0, count as nat, 0) == Err::<
                Seq<ArchiveEntryView>,
                ErrorView,
            >(e@),
        },
{
    let what = "CDN archive index";
    let zero: [u8; 16] = [0, 0, 0, 0, 0, 0, 0, 0, 0, 0, 0, 0, 0, 0, 0, 0];
    assert(zero@ =~= zero_key());
    let mut entries: Vec<ArchiveIndexEntry> = Vec::new();
    let mut cursor: usize = 0;
    let ghost target = scan(data@, limit as int, page_size as int, 0, count as nat, 0);
    proof {
        assert(entry_views(entries@) =~= seq![]);
        if target is Ok {
            assert(seq![] + target->Ok_0 =~= target->Ok_0);
        }
    }
    while entries.len() < count as usize
        invariant
            limit <= data@.len(),
            0 < page_size,
            zero@ == zero_key(),
            what@ == "CDN archive index"@,
            entries@.len() <= count,
            target == scan(data@, limit as int, page_size as int, 0, count as nat, 0),
            target == joined(
                entry_views(entries@),
                scan(
                    data@,
                    limit as int,
                    page_size as int,
                    cursor as int,
                    count as nat,
                    entries@.len(),
                ),
            ),
        decreases (if cursor <= limit { limit - cursor } else { 0 }),
    {
        let record_end: usize = match cursor.checked_add(ENTRY_LEN) {
            Some(n) => n,
            None => {
                return Err(
                    CascError::malformed(what, "entry cursor overflowed while scanning pages"),
                );
            },
        };
        if record_end > limit {
            let mut reason = "element count ".to_owned();
            reason.append(text::dec_text(count as u64).as_str());
            reason.append(" claims more entries than fit before the footer (");
            reason.append(text::dec_text(entries.len() as u64).as_str());
            reason.append(" collected)");
            return Err(CascError::malformed(what, reason.as_str()));
        }
        let key_bytes = bytes::cut(data, cursor, cursor + 16);
        proof {
            lemma_next_page(cursor as int, page_size as int);
        }
        if text::same_bytes(key_bytes, zero.as_slice()) {
            // Page padding: skip straight to the next page boundary.
            let page_index: usize = cursor / page_size;
            let next: usize = match page_index.checked_add(1) {
                Some(p) => match p.checked_mul(page_size) {
                    Some(n) => n,
                    None => {
                        return Err(
                            CascError::malformed(what, "page boundary computation overflowed"),
                        );
                    },
                },
                None => {
                    proof {
                        assert(page_index <= cursor) by (nonlinear_arith)
                            requires
                                page_index == cursor / page_size,
                                0 < page_size,
                        ;
                        assert(false);
                    }
                    return Err(
                        CascError::malformed(what, "page boundary computation overflowed"),
                    );
                },
            };
            cursor = next;
        } else {
            let ghost before = entries@;
            let encoded_size = bytes::be32(data, cursor + 16);
            let offset = bytes::be32(data, cursor + 20);
            entries.push(
                ArchiveIndexEntry {
                    ekey: EncodingKey(keys::array16(key_bytes)),
                    offset,
                    encoded_size,
                },
            );
            proof {
                let e = entry_at(data@, cursor as int);
                assert(entries@.last()@ == e);
                assert(entry_views(entries@) =~= entry_views(before) + seq![e]);
                lemma_joined_twice(
                    entry_views(before),
                    seq![e],
                    scan(
                        data@,
                        limit as int,
                        page_size as int,
                        cursor + 24,
                        count as nat,
                        entries@.len(),
                    ),
                );
            }
            cursor = record_end;
        }
    }
    assert(entry_views(entries@) + seq![] =~= entry_views(entries@));
    Ok(entries)
}

/// Whether the keys of `entries` strictly ascend.
fn is_sorted(entries: &Vec<ArchiveIndexEntry>) -> (b: bool)
    ensures
        b == sorted(entry_views(entries@)),
{
    if entries.len() == 0 {
        return true;
    }
    let ghost all = entry_views(entries@);
    let mut i: usize = 1;
    let mut last = bytes::key_number(entries[0].ekey.0.as_slice());
    while i < entries.len()
        invariant
            1 <= i <= entries@.len(),
            all == entry_views(entries@),
            last == bytes::be(all[i - 1].ekey),
            sorted(all.subrange(0, i as int)),
        decreases entries@.len() - i,
    {
        let number = bytes::key_number(entries[i].ekey.0.as_slice());
        assert(number == bytes::be(all[i as int].ekey));
        if last >= number {
            assert(!sorted(all));
            return false;
        }
        proof {
            let head = all.subrange(0, i as int);
            let next = all.subrange(0, i + 1);
            assert forall|a: int, b: int| 0 <= a < b < next.len() implies bytes::be(
                (#[trigger] next[a]).ekey,
            ) < bytes::be((#[trigger] next[b]).ekey) by {
                if b < i {
                    assert(head[a] == next[a] && head[b] == next[b]);
                } else if a < i - 1 {
                    assert(head[a] == next[a] && head[i - 1] == next[i - 1]);
                }
            }
        }
        last = number;
        i += 1;
    }
    assert(all.subrange(0, i as int) =~= all);
    true
}

impl ArchiveIndex {
    /// The entries are sorted, which lookups rely on.
    pub open spec fn wf(&self) -> bool {
        sorted(self@)
    }

    /// An index without entries.
    pub fn empty() -> (r: ArchiveIndex)
        ensures
            r.wf(),
            r@ == Seq::<ArchiveEntryView>::empty(),
    {
        let r = ArchiveIndex { entries: Vec::new() };
        assert(r@ =~= Seq::<ArchiveEntryView>::empty());
        r
    }

    /// Parses one `.index` file's raw bytes.
    ///
    /// Reads the 36-byte footer first (see the module docs), validates it,
    /// then walks the entry pages from offset 0 collecting `ElementCount`
    /// real entries, skipping zero-EKey page padding by jumping to the next
    /// page boundary. Errors with [`CascError::Unsupported`] if the footer
    /// declares field widths other than the SC:R-verified 4/4/16/8, and with
    /// [`CascError::Malformed`] for anything else incoherent: a truncated
    /// file, an element count whose entries don't fit before the footer, or
    /// entries that aren't sorted ascending by EKey (lookups rely on that).
    pub fn parse(data: &[u8]) -> (r: Result<ArchiveIndex, CascError>)
        ensures
            error::outcome(r) == archive_index(data@),
            r matches Ok(index) ==> index.wf(),
    {
        let what = "CDN archive index";
        if data.len() < FOOTER_LEN {
            let mut reason = "file too short (".to_owned();
            reason.append(text::dec_text(data.len() as u64).as_str());
            reason.append(" bytes, need at least 36 for the footer)");
            return Err(CascError::malformed(what, reason.as_str()));
        }
        let limit: usize = data.len() - FOOTER_LEN;
        let version = data[limit + 16];
        if version != 1 {
            let mut reason = "footer version ".to_owned();
            reason.append(text::dec_text(version as u64).as_str());
            reason.append(" (only version 1 is supported)");
            return Err(CascError::unsupported(what, reason.as_str()));
        }
        let page_size_kb = data[limit + 19];
        let offset_bytes = data[limit + 20];
        let size_bytes = data[limit + 21];
        let ekey_length = data[limit + 22];
        let footer_hash_bytes = data[limit + 23];
        if offset_bytes != 4 || size_bytes != 4 || ekey_length != 16 || footer_hash_bytes != 8 {
            let mut reason = "field widths offset=".to_owned();
            reason.append(text::dec_text(offset_bytes as u64).as_str());
            reason.append(" size=");
            reason.append(text::dec_text(size_bytes as u64).as_str());
            reason.append(" ekey=");
            reason.append(text::dec_text(ekey_length as u64).as_str());
            reason.append(" footer_hash=");
            reason.append(text::dec_text(footer_hash_bytes as u64).as_str());
            reason.append(" (only 4/4/16/8 are supported)");
            return Err(CascError::unsupported(what, reason.as_str()));
        }
        if page_size_kb == 0 {
            return Err(CascError::malformed(what, "page size is zero"));
        }
        let element_count = bytes::le32(data, limit + 24);
        let page_size: usize = page_size_kb as usize * 1024;
        let entries = match collect_entries(data, limit, page_size, element_count) {
            Ok(v) => v,
            Err(e) => {
                return Err(e);
            },
        };
        if !is_sorted(&entries) {
            return Err(CascError::malformed(what, "entries are not sorted ascending by EKey"));
        }
        Ok(ArchiveIndex { entries })
    }

    /// All entries, sorted ascending by EKey.
    pub fn entries(&self) -> (s: &[ArchiveIndexEntry])
        ensures
            entry_views(s@) == self@,
    {
        self.entries.as_slice()
    }

    /// Number of entries.
    pub fn len(&self) -> (n: usize)
        ensures
            n == self@.len(),
    {
        self.entries.len()
    }

    /// Whether this index has no entries.
    pub fn is_empty(&self) -> (b: bool)
        ensures
            b == (self@.len() == 0),
    {
        self.entries.len() == 0
    }

    /// Binary-searches for `ekey`.
    pub fn lookup(&self, ekey: &EncodingKey) -> (r: Option<&ArchiveIndexEntry>)
        requires
            self.wf(),
        ensures
            match r {
                Some(e) => self@.contains(e@) && e@.ekey == ekey@,
                None => forall|i: int| 0 <= i < self@.len() ==> (#[trigger] self@[i]).ekey != ekey@,
            },
    {
        let number = bytes::key_number(ekey.0.as_slice());
        let mut lo: usize = 0;
        let mut hi: usize = self.entries.len();
        while lo < hi
            invariant
                0 <= lo <= hi <= self.entries@.len(),
                sorted(self@),
                number == bytes::be(ekey@),
                forall|i: int|
                    0 <= i < lo ==> bytes::be((#[trigger] self@[i]).ekey) < number,
                forall|i: int|
                    hi <= i < self@.len() ==> bytes::be((#[trigger] self@[i]).ekey) > number,
            decreases hi - lo,
        {
            let mid: usize = lo + (hi - lo) / 2;
            let here = bytes::key_number(self.entries[mid].ekey.0.as_slice());
            assert(self@[mid as int] == self.entries@[mid as int]@);
            assert(here == bytes::be(self@[mid as int].ekey));
            if here == number {
                proof {
                    bytes::lemma_be_injective(self@[mid as int].ekey, ekey@);
                }
                return Some(&self.entries[mid]);
            }
            if here < number {
                lo = mid + 1;
            } else {
                hi = mid;
            }
        }
        None
    }
}

impl Default for ArchiveIndex {
    fn default() -> (r: ArchiveIndex)
        ensures
            r.wf(),
            r@ == Seq::<ArchiveEntryView>::empty(),
    {
        ArchiveIndex::empty()
    }
}

// ---------------------------------------------------------------------
// The merged index

/// Where one EKey's data lives among a CDN config's archives.
#[derive(Debug, Clone, Copy, PartialEq, Eq, Structural)]
pub struct CdnIndexEntry {
    /// Position of the archive in the CDN config's `archives` list. The
    /// caller maps this back to the archive's hash/URL.
    pub archive: u32,
    /// Byte offset of the entry's data within that archive.
    pub offset: u32,
    /// Size in bytes of the entry's data within that archive.
    pub encoded_size: u32,
}

/// Merged EKey lookup across all archives of a CDN config, built by calling
/// [`CdnIndex::add_archive`] once per parsed `.index` file.
///
/// If the same EKey is added under more than one archive (or more than once
/// under the same archive), the most recently added entry wins -- the same
/// "later wins" policy [`crate::idx::LocalIndex`] uses when merging local
/// index files.
#[derive(Debug, Clone)]
pub struct CdnIndex {
    entries: KeyMap<CdnIndexEntry, 16>,
}

impl View for CdnIndex {
    type V = Map<Seq<u8>, CdnIndexEntry>;

    closed spec fn view(&self) -> Map<Seq<u8>, CdnIndexEntry> {
        self.entries@
    }
}

/// `m` with the entries of archive number `archive` put into it, later ones
/// over earlier ones.
pub open spec fn added(
    m: Map<Seq<u8>, CdnIndexEntry>,
    archive: u32,
    entries: Seq<ArchiveEntryView>,
) -> Map<Seq<u8>, CdnIndexEntry>
    decreases entries.len(),
{
    if entries.len() == 0 {
        m
    } else {
        added(m, archive, entries.drop_last()).insert(
            entries.last().ekey,
            CdnIndexEntry {
                archive,
                offset: entries.last().offset as u32,
                encoded_size: entries.last().encoded_size as u32,
            },
        )
    }
}

impl CdnIndex {
    /// The merged table is well-formed.
    pub closed spec fn wf(&self) -> bool {
        self.entries.wf()
    }

    /// Creates an empty merged index.
    pub fn new() -> (r: CdnIndex)
        ensures
            r.wf(),
            r@ == Map::<Seq<u8>, CdnIndexEntry>::empty(),
    {
        CdnIndex { entries: KeyMap::new() }
    }

    /// Adds one parsed archive's entries under archive number `archive`.
    pub fn add_archive(&mut self, archive: u32, index: &ArchiveIndex)
        requires
            old(self).wf(),
        ensures
            final(self).wf(),
            final(self)@ == added(old(self)@, archive, index@),
    {
        let ghost start = self@;
        let ghost all = index@;
        let mut i: usize = 0;
        assert(all.subrange(0, 0) =~= seq![]);
        while i < index.entries.len()
            invariant
                0 <= i <= index.entries@.len(),
                self.wf(),
                all == entry_views(index.entries@),
                self@ == added(start, archive, all.subrange(0, i as int)),
            decreases index.entries@.len() - i,
        {
            let entry = index.entries[i];
            assert(all[i as int] == entry@);
            assert(all.subrange(0, i + 1).drop_last() =~= all.subrange(0, i as int));
            self.entries.insert(
                entry.ekey.0,
                CdnIndexEntry { archive, offset: entry.offset, encoded_size: entry.encoded_size },
            );
            i += 1;
        }
        assert(all.subrange(0, i as int) =~= all);
    }

    /// Looks up an EKey across all archives added so far.
    pub fn lookup(&self, ekey: &EncodingKey) -> (r: Option<&CdnIndexEntry>)
        requires
            self.wf(),
        ensures
            match r {
                Some(e) => self@.contains_key(ekey@) && *e == self@[ekey@],
                None => !self@.contains_key(ekey@),
            },
    {
        self.entries.get(&ekey.0)
    }

    /// Number of distinct EKeys in the merged index.
    pub fn len(&self) -> (n: usize)
        requires
            self.wf(),
        ensures
            n == self@.dom().len(),
    {
        self.entries.len()
    }

    /// Whether the merged index has no entries.
    pub fn is_empty(&self) -> (b: bool)
        requires
            self.wf(),
        ensures
            b == (self@.dom().len() == 0),
    {
        self.entries.len() == 0
    }
}

impl Default for CdnIndex {
    fn default() -> (r: CdnIndex)
        ensures
            r.wf(),
            r@ == Map::<Seq<u8>, CdnIndexEntry>::empty(),
    {
        CdnIndex::new()
    }
}

// ---------------------------------------------------------------------
// Laws

/// What merging an archive maps a key to: the last of the archive's entries
/// with that key, and where there is none, what it was mapped to before.
pub proof fn law_later_archive_wins(
    m: Map<Seq<u8>, CdnIndexEntry>,
    archive: u32,
    entries: Seq<ArchiveEntryView>,
    key: Seq<u8>,
)
    ensures
        (forall|i: int| 0 <= i < entries.len() ==> (#[trigger] entries[i]).ekey != key) ==> (added(
            m,
            archive,
            entries,
        ).contains_key(key) == m.contains_key(key) && added(m, archive, entries)[key] == m[key]),
        forall|i: int|
            0 <= i < entries.len() && (#[trigger] entries[i]).ekey == key && (forall|j: int|
                i < j < entries.len() ==> (#[trigger] entries[j]).ekey != key) ==> added(
                m,
                archive,
                entries,
            ).contains_key(key) && added(m, archive, entries)[key] == (CdnIndexEntry {
                archive,
                offset: entries[i].offset as u32,
                encoded_size: entries[i].encoded_size as u32,
            }),
    decreases entries.len(),
{
    if entries.len() > 0 {
        let init = entries.drop_last();
        law_later_archive_wins(m, archive, init, key);
        let n = entries.len() - 1;
        assert(entries[n] == entries.last());
        if forall|i: int| 0 <= i < entries.len() ==> (#[trigger] entries[i]).ekey != key {
            assert forall|i: int| 0 <= i < init.len() implies (#[trigger] init[i]).ekey != key by {
                assert(init[i] == entries[i]);
            }
        }
        assert forall|i: int|
            0 <= i < entries.len() && (#[trigger] entries[i]).ekey == key && (forall|j: int|
                i < j < entries.len() ==> (#[trigger] entries[j]).ekey
                    != key) implies added(m, archive, entries).contains_key(key) && added(
            m,
            archive,
            entries,
        )[key] == (CdnIndexEntry {
            archive,
            offset: entries[i].offset as u32,
            encoded_size: entries[i].encoded_size as u32,
        }) by {
            if i < n {
                assert(init[i] == entries[i]);
                assert forall|j: int| i < j < init.len() implies (#[trigger] init[j]).ekey
                    != key by {
                    assert(init[j] == entries[j]);
                }
            }
        }
    }
}

/// The entries of pages, in order, from the `p`-th page on.
pub open spec fn entries_from(pages: Seq<Seq<ArchiveEntryView>>, p: int) -> Seq<ArchiveEntryView>
    decreases pages.len() - p,
{
    if 0 <= p < pages.len() {
        pages[p] + entries_from(pages, p + 1)
    } else {
        seq![]
    }
}

/// `data` starts with pages of `page` bytes that hold the given entries. An
/// entry's key is not the one that marks padding, and where the entries of a
/// page leave room before another page, the key that marks padding follows
/// them.
pub open spec fn paged(data: Seq<u8>, page: int, pages: Seq<Seq<ArchiveEntryView>>) -> bool {
    &&& forall|p: int|
        0 <= p < pages.len() ==> (#[trigger] pages[p]).len() * 24 <= page
            && p * page + page <= data.len() - 36
    &&& forall|p: int, i: int|
        0 <= p < pages.len() && 0 <= i < pages[p].len() ==> entry_at(data, p * page + 24 * i)
            == #[trigger] pages[p][i] && pages[p][i].ekey != zero_key()
    &&& forall|p: int|
        0 <= p < pages.len() - 1 && (#[trigger] pages[p]).len() * 24 < page ==> data.subrange(
            p * page + 24 * pages[p].len(),
            p * page + 24 * pages[p].len() + 16,
        ) == zero_key()
}

proof fn lemma_page_of(cursor: int, page: int, p: int)
    requires
        0 < page,
        p * page <= cursor < p * page + page,
    ensures
        next_page(cursor, page) == p * page + page,
{
    vstd::arithmetic::div_mod::lemma_fundamental_div_mod_converse(
        cursor,
        page,
        p,
        cursor - p * page,
    );
    vstd::arithmetic::mul::lemma_mul_is_distributive_add_other_way(page, p, 1);
}

/// Scanning from the `i`-th entry of the `p`-th page on gives the entries
/// that are left.
proof fn lemma_scan_pages(
    data: Seq<u8>,
    page: int,
    pages: Seq<Seq<ArchiveEntryView>>,
    count: nat,
    have: nat,
    p: int,
    i: int,
)
    requires
        paged(data, page, pages),
        24 <= page,
        data.len() <= usize::MAX,
        0 <= p < pages.len(),
        0 <= i <= pages[p].len(),
        have + (pages[p].len() - i) + entries_from(pages, p + 1).len() == count,
    ensures
        scan(data, data.len() - 36, page, p * page + 24 * i, count, have) == Ok::<
            Seq<ArchiveEntryView>,
            ErrorView,
        >(pages[p].subrange(i, pages[p].len() as int) + entries_from(pages, p + 1)),
    decreases pages.len() - p, pages[p].len() - i,
{
    let cursor = p * page + 24 * i;
    let rest = pages[p].subrange(i, pages[p].len() as int) + entries_from(pages, p + 1);
    vstd::arithmetic::mul::lemma_mul_nonnegative(p, page);
    if have >= count {
        assert(rest =~= seq![]);
    } else if i < pages[p].len() {
        lemma_scan_pages(data, page, pages, count, have + 1, p, i + 1);
        assert(entry_at(data, p * page + 24 * i) == pages[p][i]);
        assert(data.subrange(cursor, cursor + 16) == pages[p][i].ekey);
        assert(p * page + 24 * (i + 1) == cursor + 24);
        assert(rest =~= seq![pages[p][i]] + (pages[p].subrange(i + 1, pages[p].len() as int)
            + entries_from(pages, p + 1)));
    } else {
        assert(p + 1 < pages.len());
        assert(pages[p + 1].len() * 24 <= page);
        assert((p + 1) * page == p * page + page) by (nonlinear_arith);
        lemma_scan_pages(data, page, pages, count, have, p + 1, 0);
        assert(pages[p + 1].subrange(0, pages[p + 1].len() as int) =~= pages[p + 1]);
        assert(rest =~= entries_from(pages, p + 1));
        if pages[p].len() * 24 < page {
            lemma_page_of(cursor, page, p);
        }
    }
}

/// An archive index whose pages hold the given entries, strictly ascending
/// by key over the whole file, and whose footer counts them, reads back as
/// exactly those entries, whatever stands between the pages and the footer.
pub proof fn law_pages_round_trip(
    data: Seq<u8>,
    page_kb: u8,
    pages: Seq<Seq<ArchiveEntryView>>,
)
    requires
        36 <= data.len() <= usize::MAX,
        page_kb > 0,
        paged(data, page_kb * 1024, pages),
        sorted(entries_from(pages, 0)),
        data[data.len() - 20] == 1,
        data[data.len() - 17] == page_kb,
        data[data.len() - 16] == 4,
        data[data.len() - 15] == 4,
        data[data.len() - 14] == 16,
        data[data.len() - 13] == 8,
        bytes::le_at(data, data.len() - 12, 4) == entries_from(pages, 0).len(),
    ensures
        archive_index(data) == Ok::<Seq<ArchiveEntryView>, ErrorView>(entries_from(pages, 0)),
{
    let all = entries_from(pages, 0);
    if pages.len() > 0 {
        lemma_scan_pages(data, page_kb * 1024, pages, all.len(), 0, 0, 0);
        assert(pages[0].subrange(0, pages[0].len() as int) + entries_from(pages, 1) =~= all);
    } else {
        assert(all =~= seq![]);
    }
}

/// The fields of an entry, byte by byte: the key, the size and then the
/// offset, both with the most significant byte first.
pub proof fn law_entry_fields(data: Seq<u8>, at: int)
    requires
        0 <= at,
        at + 24 <= data.len(),
    ensures
        ({
            let e = entry_at(data, at);
            &&& e.ekey == Seq::new(16, |k: int| data[at + k])
            &&& e.encoded_size == data[at + 16] * 0x100_0000 + data[at + 17] * 0x1_0000 + data[at
                + 18] * 0x100 + data[at + 19]
            &&& e.offset == data[at + 20] * 0x100_0000 + data[at + 21] * 0x1_0000 + data[at + 22]
                * 0x100 + data[at + 23]
        }),
{
    bytes::law_big_endian(data, at + 16);
    bytes::law_big_endian(data, at + 20);
    assert(entry_at(data, at).ekey =~= Seq::new(16, |k: int| data[at + k]));
}

/// The entry stands somewhere in the data before `limit`.
pub open spec fn stands_before(data: Seq<u8>, limit: int, e: ArchiveEntryView) -> bool {
    exists|at: int| 0 <= at <= limit - 24 && #[trigger] entry_at(data, at) == e
}

/// An archive index that is accepted has a footer of version 1 with the field
/// widths 4, 4, 16 and 8 and pages of some size, gives as many entries as the
/// footer counts, each of which stands before the footer, and their keys
/// strictly ascend.
pub proof fn law_accepted_index(data: Seq<u8>)
    requires
        archive_index(data) is Ok,
    ensures
        ({
            let entries = archive_index(data)->Ok_0;
            let n = data.len() as int;
            &&& n >= 36
            &&& data[n - 20] == 1 && data[n - 17] > 0
            &&& data[n - 16] == 4 && data[n - 15] == 4 && data[n - 14] == 16 && data[n - 13] == 8
            &&& entries.len() == data[n - 12] + data[n - 11] * 0x100 + data[n - 10] * 0x1_0000
                + data[n - 9] * 0x100_0000
            &&& forall|i: int, j: int|
                0 <= i < j < entries.len() ==> bytes::before(
                    (#[trigger] entries[i]).ekey,
                    (#[trigger] entries[j]).ekey,
                )
            &&& forall|i: int|
                0 <= i < entries.len() ==> stands_before(data, n - 36, #[trigger] entries[i])
        }),
{
    let n = data.len() as int;
    let entries = archive_index(data)->Ok_0;
    bytes::law_little_endian(data, n - 12);
    let count = bytes::le_at(data, n - 12, 4);
    lemma_scan_len(data, n - 36, data[n - 17] * 1024, 0, count, 0);
    assert forall|i: int, j: int| 0 <= i < j < entries.len() implies bytes::before(
        (#[trigger] entries[i]).ekey,
        (#[trigger] entries[j]).ekey,
    ) by {
        assert(stands_before(data, n - 36, entries[i]));
        assert(stands_before(data, n - 36, entries[j]));
        assert(entries[i].ekey.len() == 16 && entries[j].ekey.len() == 16);
        bytes::law_number_order(entries[i].ekey, entries[j].ekey);
    }
}

proof fn lemma_scan_len(data: Seq<u8>, limit: int, page: int, cursor: int, count: nat, have: nat)
    requires
        limit <= data.len(),
        0 < page,
        0 <= cursor,
        have <= count,
        scan(data, limit, page, cursor, count, have) is Ok,
    ensures
        (scan(data, limit, page, cursor, count, have)->Ok_0).len() == count - have,
        forall|i: int|
            0 <= i < count - have ==> stands_before(
                data,
                limit,
                #[trigger] (scan(data, limit, page, cursor, count, have)->Ok_0)[i],
            ),
    decreases
            (if cursor <= limit {
                limit - cursor
            } else {
                0
            }),
{
    lemma_next_page(cursor, page);
    if have >= count {
    } else if data.subrange(cursor, cursor + 16) == zero_key() {
        lemma_scan_len(data, limit, page, next_page(cursor, page), count, have);
    } else {
        let rest = scan(data, limit, page, cursor + 24, count, have + 1);
        lemma_scan_len(data, limit, page, cursor + 24, count, have + 1);
        let all = scan(data, limit, page, cursor, count, have)->Ok_0;
        assert(all == seq![entry_at(data, cursor)] + rest->Ok_0);
        assert forall|i: int| 0 <= i < all.len() implies stands_before(
            data,
            limit,
            #[trigger] all[i],
        ) by {
            if i == 0 {
                assert(entry_at(data, cursor) == all[0]);
            } else {
                assert(all[i] == (rest->Ok_0)[i - 1]);
            }
        }
    }
}

/// What marks padding is a key of sixteen zeros, and nothing else.
pub proof fn law_padding_key(key: Seq<u8>)
    ensures
        key == zero_key() <==> key.len() == 16 && forall|i: int| 0 <= i < 16 ==> key[i] == 0,
{
    if key.len() == 16 && forall|i: int| 0 <= i < 16 ==> key[i] == 0 {
        assert(key =~= zero_key());
    }
}

/// Padding runs to the next multiple of the page size.
pub proof fn law_next_page(cursor: int, page: int)
    requires
        0 <= cursor,
        0 < page,
    ensures
        next_page(cursor, page) % page == 0,
        cursor < next_page(cursor, page) <= cursor + page,
{
    vstd::arithmetic::div_mod::lemma_fundamental_div_mod(cursor, page);
    vstd::arithmetic::div_mod::lemma_mod_bound(cursor, page);
    vstd::arithmetic::div_mod::lemma_mod_multiples_basic(cursor / page + 1, page);
    assert((cursor / page + 1) * page == page * (cursor / page) + page) by (nonlinear_arith);
}

} // verus!
