//! Encoding-table parser.
//!
//! The "encoding" file maps content keys (CKey, MD5 of a file's decoded
//! contents) to encoding keys (EKey, MD5 of the file's BLTE-encoded
//! representation) plus the decoded file size. It is itself delivered as a
//! BLTE-encoded file; this module parses the already-decoded bytes.
//!
//! Layout (all multi-byte integers are big-endian):
//!
//! ```text
//! 0x00  magic            b"EN"
//! 0x02  version          u8   (expect 1)
//! 0x03  ckey_length      u8   (expect 16)
//! 0x04  ekey_length      u8   (expect 16)
//! 0x05  ckey_page_size   u16  (in KB, e.g. 4 => 4096-byte pages)
//! 0x07  ekey_page_size   u16  (in KB)
//! 0x09  ckey_page_count  u32
//! 0x0d  ekey_page_count  u32
//! 0x11  flags            u8   (expect 0)
//! 0x12  espec_block_size u32
//! 0x16
//! ```
//!
//! Followed by, in order:
//!
//! 1. An ESpec string block of `espec_block_size` bytes (null-terminated
//!    encoding-spec strings); this is skipped over, not parsed.
//! 2. A CKey page index: `ckey_page_count` entries of
//!    `{ first_ckey: [u8; 16], page_md5: [u8; 16] }`, where `first_ckey` is
//!    the first CKey in the corresponding page and `page_md5` is the MD5 of
//!    that page's full (padded) bytes.
//! 3. `ckey_page_count` CKey pages, each exactly `ckey_page_size` KB. Each
//!    page holds a sequence of entries:
//!
//!    ```text
//!    ekey_count  u8
//!    file_size   u40  (5 bytes, decoded size)
//!    ckey        [u8; 16]
//!    ekeys       ekey_count * [u8; 16]
//!    ```
//!
//!    The entry list ends when the next byte would be `ekey_count == 0`
//!    (the page's remainder is zero-padded). Entries within a page are
//!    sorted by CKey, and pages are sorted by their first CKey, so the whole
//!    table is CKey-sorted.
//! 4. An EKey→ESpec page index and pages, mapping EKey to encoding-spec
//!    index. This implementation has no need to read EKeys back to specs,
//!    so it is skipped entirely; trailing data after the CKey pages is
//!    ignored.

use vstd::prelude::*;

use crate::bytes;
use crate::digest;
use crate::error;
use crate::error::CascError;
use crate::error::ErrorView;
use crate::keys;
use crate::keys::ContentKey;
use crate::keys::EncodingKey;
use crate::text;

verus! {

/// Size of the file header.
pub const HEADER_SIZE: usize = 0x16;

/// The only key length this implementation understands.
pub const KEY_SIZE: usize = 16;

/// Size of one CKey page-index entry: first_ckey(16) + page_md5(16).
pub const PAGE_INDEX_ENTRY_SIZE: usize = 32;

/// Size of the fixed part of a CKey page entry: ekey_count(1) + file_size(5) + ckey(16).
pub const ENTRY_FIXED_SIZE: usize = 22;

/// One CKey's entry in the encoding table.
#[derive(Debug, Clone, PartialEq, Eq)]
pub struct EncodingEntry {
    pub ckey: ContentKey,
    /// EKey of the (first/primary) encoded representation — the one local
    /// storage indexes. A CKey can map to multiple EKeys (alternate
    /// encodings of the same content, e.g. encrypted vs. unencrypted); only
    /// the first is kept, since any of them decode to the same content.
    pub ekey: EncodingKey,
    /// Decoded file size in bytes.
    pub size: u64,
}

/// A parsed encoding table: CKey → (EKey, decoded size), sorted by CKey for
/// binary-search lookup.
#[derive(Debug, Clone)]
pub struct EncodingTable {
    entries: Vec<EncodingEntry>,
}

// ---------------------------------------------------------------------
// What an encoding table says

/// The content of an [`EncodingEntry`].
pub struct EncodingView {
    pub ckey: Seq<u8>,
    pub ekey: Seq<u8>,
    pub size: nat,
}

impl View for EncodingEntry {
    type V = EncodingView;

    open spec fn view(&self) -> EncodingView {
        EncodingView { ckey: self.ckey@, ekey: self.ekey@, size: self.size as nat }
    }
}

/// Entries, taken by their views.
pub open spec fn entry_views(s: Seq<EncodingEntry>) -> Seq<EncodingView> {
    Seq::new(s.len(), |i: int| s[i]@)
}

impl View for EncodingTable {
    type V = Seq<EncodingView>;

    closed spec fn view(&self) -> Seq<EncodingView> {
        entry_views(self.entries@)
    }
}

/// CKeys strictly ascend, in the order of the numbers that they spell.
pub open spec fn sorted(s: Seq<EncodingView>) -> bool {
    forall|i: int, j: int|
        0 <= i < j < s.len() ==> bytes::be((#[trigger] s[i]).ckey) < bytes::be(
            (#[trigger] s[j]).ckey,
        )
}

/// The entry of `ckey` in a table.
pub open spec fn found(s: Seq<EncodingView>, ckey: Seq<u8>) -> Option<EncodingView> {
    if exists|i: int| 0 <= i < s.len() && (#[trigger] s[i]).ckey == ckey {
        Some(s[choose|i: int| 0 <= i < s.len() && (#[trigger] s[i]).ckey == ckey])
    } else {
        None
    }
}

/// In a sorted table, an entry with the key is what is found for the key.
pub proof fn lemma_found(s: Seq<EncodingView>, i: int)
    requires
        sorted(s),
        0 <= i < s.len(),
    ensures
        found(s, s[i].ckey) == Some(s[i]),
{
    let k = choose|k: int| 0 <= k < s.len() && (#[trigger] s[k]).ckey == s[i].ckey;
    assert(s[i].ckey == s[i].ckey);
    if k < i {
        assert(bytes::be(s[k].ckey) < bytes::be(s[i].ckey));
    } else if i < k {
        assert(bytes::be(s[i].ckey) < bytes::be(s[k].ckey));
    }
}

/// What the header of an encoding table says.
pub struct HeaderView {
    pub page_size: nat,
    pub page_count: nat,
    pub espec_size: nat,
}

/// What parsing the header gives.
pub open spec fn header(data: Seq<u8>) -> Result<HeaderView, ErrorView> {
    let what = "encoding header"@;
    let page_kb = bytes::be_at(data, 5, 2);
    if data.len() < 22 {
        Err(error::malformed_view(what, "input shorter than 22 bytes"@))
    } else if data[0] != 0x45 || data[1] != 0x4e {
        Err(error::malformed_view(what, "bad magic"@))
    } else if data[2] != 1 {
        Err(error::malformed_view(what, "unsupported version "@ + text::dec(data[2] as nat)))
    } else if data[3] != 16 {
        Err(error::malformed_view(what, "unexpected ckey_length "@ + text::dec(data[3] as nat)))
    } else if data[4] != 16 {
        Err(error::malformed_view(what, "unexpected ekey_length "@ + text::dec(data[4] as nat)))
    } else if page_kb == 0 {
        Err(error::malformed_view(what, "ckey_page_size is zero"@))
    } else if data[17] != 0 {
        Err(error::malformed_view(what, "unexpected flags 0x"@ + text::hex2(data[17])))
    } else {
        Ok(
            HeaderView {
                page_size: page_kb * 1024,
                page_count: bytes::be_at(data, 9, 4),
                espec_size: bytes::be_at(data, 18, 4),
            },
        )
    }
}

/// The entry at `at` in a page.
pub open spec fn entry_at(page: Seq<u8>, at: int) -> EncodingView {
    EncodingView {
        ckey: page.subrange(at + 6, at + 22),
        ekey: page.subrange(at + 22, at + 38),
        size: bytes::be_at(page, at + 1, 5),
    }
}

/// What reading the entries of a page from `cursor` on gives, in addition to
/// the entries before them. `first` is the CKey that the next entry must
/// have, where it is the first of its page.
pub open spec fn page_entries(
    page: Seq<u8>,
    cursor: int,
    first: Option<Seq<u8>>,
    before: Seq<EncodingView>,
) -> Result<Seq<EncodingView>, ErrorView>
    decreases page.len() - cursor,
{
    let e = entry_at(page, cursor);
    if cursor < 0 || cursor >= page.len() || page[cursor] == 0 {
        Ok(before)
    } else if cursor + 22 + 16 * page[cursor] > page.len() {
        Err(error::malformed_view("encoding page entry"@, "entry extends past end of page"@))
    } else if first is Some && e.ckey != first->0 {
        Err(
            error::malformed_view(
                "encoding page"@,
                "first entry's CKey does not match page index"@,
            ),
        )
    } else if before.len() > 0 && bytes::be(before.last().ckey) >= bytes::be(e.ckey) {
        Err(error::malformed_view("encoding table"@, "CKeys are not strictly increasing"@))
    } else {
        page_entries(page, cursor + 22 + 16 * page[cursor], None, before.push(e))
    }
}

/// What reading the last `left` pages gives, in addition to the entries
/// before them. The index entry of the next page is at `index`, the page
/// itself at `start`.
pub open spec fn pages(
    data: Seq<u8>,
    index: int,
    start: int,
    page_size: int,
    left: int,
    before: Seq<EncodingView>,
) -> Result<Seq<EncodingView>, ErrorView>
    decreases left,
{
    let page = data.subrange(start, start + page_size);
    if left <= 0 {
        Ok(before)
    } else if start + page_size > data.len() {
        Err(error::malformed_view("encoding table"@, "CKey page extends past end of input"@))
    } else if digest::digest(page) != data.subrange(index + 16, index + 32) {
        Err(ErrorView::ChecksumMismatch("encoding page"@))
    } else {
        match page_entries(page, 0, Some(data.subrange(index, index + 16)), before) {
            Err(e) => Err(e),
            Ok(entries) => pages(
                data,
                index + 32,
                start + page_size,
                page_size,
                left - 1,
                entries,
            ),
        }
    }
}

/// What parsing an encoding table gives.
pub open spec fn table(data: Seq<u8>) -> Result<Seq<EncodingView>, ErrorView> {
    let what = "encoding table"@;
    match header(data) {
        Err(e) => Err(e),
        Ok(h) => {
            let index = 22 + h.espec_size;
            let start = index + 32 * h.page_count;
            if index > data.len() {
                Err(error::malformed_view(what, "ESpec block extends past end of input"@))
            } else if 32 * h.page_count > usize::MAX {
                Err(error::malformed_view(what, "CKey page count overflow"@))
            } else if start > data.len() {
                Err(error::malformed_view(what, "CKey page index extends past end of input"@))
            } else {
                pages(
                    data,
                    index as int,
                    start as int,
                    h.page_size as int,
                    h.page_count as int,
                    seq![],
                )
            }
        },
    }
}

/// Parsed and validated encoding-file header.
struct Header {
    ckey_page_size: usize,
    ckey_page_count: usize,
    espec_block_size: usize,
}

impl View for Header {
    type V = HeaderView;

    closed spec fn view(&self) -> HeaderView {
        HeaderView {
            page_size: self.ckey_page_size as nat,
            page_count: self.ckey_page_count as nat,
            espec_size: self.espec_block_size as nat,
        }
    }
}

impl Header {
    fn parse(data: &[u8]) -> (r: Result<Header, CascError>)
        ensures
            error::outcome(r) == header(data@),
            r matches Ok(h) ==> 0 < h.ckey_page_size,
    {
        let what = "encoding header";
        if data.len() < HEADER_SIZE {
            return Err(CascError::malformed(what, "input shorter than 22 bytes"));
        }
        if data[0] != 0x45 || data[1] != 0x4e {
            return Err(CascError::malformed(what, "bad magic"));
        }
        let version = data[2];
        if version != 1 {
            let digits = text::dec_text(version as u64);
            let reason = text::cat2("unsupported version ", digits.as_str());
            return Err(CascError::malformed(what, reason.as_str()));
        }
        let ckey_length = data[3];
        if ckey_length as usize != KEY_SIZE {
            let digits = text::dec_text(ckey_length as u64);
            let reason = text::cat2("unexpected ckey_length ", digits.as_str());
            return Err(CascError::malformed(what, reason.as_str()));
        }
        let ekey_length = data[4];
        if ekey_length as usize != KEY_SIZE {
            let digits = text::dec_text(ekey_length as u64);
            let reason = text::cat2("unexpected ekey_length ", digits.as_str());
            return Err(CascError::malformed(what, reason.as_str()));
        }
        proof {
            bytes::lemma_pow256();
        }
        let ckey_page_size_kb = bytes::read_be(data, 5, 2);
        if ckey_page_size_kb == 0 {
            return Err(CascError::malformed(what, "ckey_page_size is zero"));
        }
        // ekey_page_size and ekey_page_count are only relevant to the
        // EKey→ESpec table, which this implementation skips entirely.
        let flags = data[17];
        if flags != 0 {
            let digits = text::hex2_text(flags);
            let reason = text::cat2("unexpected flags 0x", digits.as_str());
            return Err(CascError::malformed(what, reason.as_str()));
        }
        Ok(
            Header {
                ckey_page_size: ckey_page_size_kb as usize * 1024,
                ckey_page_count: bytes::be32(data, 9) as usize,
                espec_block_size: bytes::be32(data, 18) as usize,
            },
        )
    }
}

/// Parses one CKey page's entries, appending them to `entries` and
/// validating that CKeys keep increasing (both within the page and relative
/// to whatever was already pushed from earlier pages).
fn parse_page(page: &[u8], expected_first_ckey: &[u8], entries: &mut Vec<EncodingEntry>) -> (r:
    Result<(), CascError>)
    requires
        sorted(entry_views(old(entries)@)),
    ensures
        match r {
            Ok(_) => page_entries(
                page@,
                0,
                Some(expected_first_ckey@),
                entry_views(old(entries)@),
            ) == Ok::<Seq<EncodingView>, ErrorView>(entry_views(final(entries)@)) && sorted(
                entry_views(final(entries)@),
            ),
            Err(e) => page_entries(
                page@,
                0,
                Some(expected_first_ckey@),
                entry_views(old(entries)@),
            ) == Err::<Seq<EncodingView>, ErrorView>(e@),
        },
{
    let ghost target = page_entries(
        page@,
        0,
        Some(expected_first_ckey@),
        entry_views(entries@),
    );
    let mut cursor: usize = 0;
    let mut first = true;
    let total: usize = page.len();
    while cursor < page.len() && page[cursor] != 0
        invariant
            cursor <= page@.len() == total,
            target == page_entries(
                page@,
                0,
                Some(expected_first_ckey@),
                entry_views(old(entries)@),
            ),
            sorted(entry_views(entries@)),
            target == page_entries(
                page@,
                cursor as int,
                if first {
                    Some(expected_first_ckey@)
                } else {
                    None
                },
                entry_views(entries@),
            ),
        decreases page@.len() - cursor,
    {
        let ekey_count = page[cursor];
        let entry_len: usize = ENTRY_FIXED_SIZE + ekey_count as usize * KEY_SIZE;
        if entry_len > total - cursor {
            return Err(
                CascError::malformed("encoding page entry", "entry extends past end of page"),
            );
        }
        let size = bytes::read_be(page, cursor + 1, 5);
        let ckey_bytes = bytes::cut(page, cursor + 6, cursor + 22);
        if first {
            if !text::same_bytes(ckey_bytes, expected_first_ckey) {
                return Err(
                    CascError::malformed(
                        "encoding page",
                        "first entry's CKey does not match page index",
                    ),
                );
            }
            first = false;
        }
        let ckey = ContentKey(keys::array16(ckey_bytes));
        if entries.len() > 0 {
            let last = bytes::key_number(entries[entries.len() - 1].ckey.0.as_slice());
            let here = bytes::key_number(ckey.0.as_slice());
            assert(entry_views(entries@).last() == entries@.last()@);
            if last >= here {
                return Err(
                    CascError::malformed("encoding table", "CKeys are not strictly increasing"),
                );
            }
        }
        // Only the first EKey is kept; the rest (alternate encodings of the
        // same content) are skipped over.
        let ekey = EncodingKey(keys::array16(bytes::cut(page, cursor + 22, cursor + 38)));
        let ghost before = entry_views(entries@);
        entries.push(EncodingEntry { ckey, ekey, size });
        proof {
            let e = entry_at(page@, cursor as int);
            let after = entry_views(entries@);
            assert(entries@.last()@ == e);
            assert(after =~= before.push(e));
            assert forall|i: int, j: int| 0 <= i < j < after.len() implies bytes::be(
                (#[trigger] after[i]).ckey,
            ) < bytes::be((#[trigger] after[j]).ckey) by {
                assert(after[i] == before[i]);
                if j < before.len() {
                    assert(after[j] == before[j]);
                } else if i < before.len() - 1 {
                    assert(bytes::be(before[i].ckey) < bytes::be(
                        before[before.len() - 1].ckey,
                    ));
                }
            }
        }
        cursor += entry_len;
    }
    Ok(())
}

impl EncodingTable {
    /// The entries are sorted, which lookups rely on.
    pub open spec fn wf(&self) -> bool {
        sorted(self@)
    }

    /// A table without entries.
    pub fn empty() -> (r: EncodingTable)
        ensures
            r.wf(),
            r@ == Seq::<EncodingView>::empty(),
    {
        let r = EncodingTable { entries: Vec::new() };
        assert(r@ =~= Seq::<EncodingView>::empty());
        r
    }

    /// Parses a decoded (post-BLTE) encoding file.
    pub fn parse(data: &[u8]) -> (r: Result<EncodingTable, CascError>)
        ensures
            error::outcome(r) == table(data@),
            r matches Ok(t) ==> t.wf(),
    {
        let what = "encoding table";
        let header = match Header::parse(data) {
            Ok(h) => h,
            Err(e) => {
                return Err(e);
            },
        };
        if header.espec_block_size > data.len() - HEADER_SIZE {
            return Err(CascError::malformed(what, "ESpec block extends past end of input"));
        }
        let espec_end: usize = HEADER_SIZE + header.espec_block_size;
        let page_index_size: usize = match header.ckey_page_count.checked_mul(
            PAGE_INDEX_ENTRY_SIZE,
        ) {
            Some(n) => n,
            None => {
                return Err(CascError::malformed(what, "CKey page count overflow"));
            },
        };
        if page_index_size > data.len() - espec_end {
            return Err(CascError::malformed(what, "CKey page index extends past end of input"));
        }
        let pages_start: usize = espec_end + page_index_size;
        let mut entries: Vec<EncodingEntry> = Vec::new();
        let mut index: usize = espec_end;
        let mut start: usize = pages_start;
        let mut left: usize = header.ckey_page_count;
        let total: usize = data.len();
        let ghost target = table(data@);
        assert(entry_views(entries@) =~= seq![]);
        while left > 0
            invariant
                0 < header.ckey_page_size,
                what@ == "encoding table"@,
                index + 32 * left == pages_start,
                pages_start <= start <= data@.len() == total,
                target == table(data@),
                sorted(entry_views(entries@)),
                target == pages(
                    data@,
                    index as int,
                    start as int,
                    header.ckey_page_size as int,
                    left as int,
                    entry_views(entries@),
                ),
            decreases left,
        {
            if header.ckey_page_size > total - start {
                return Err(CascError::malformed(what, "CKey page extends past end of input"));
            }
            let page_end: usize = start + header.ckey_page_size;
            let page = bytes::cut(data, start, page_end);
            let expected_first_ckey = bytes::cut(data, index, index + 16);
            let expected_md5 = bytes::cut(data, index + 16, index + 32);
            let actual_md5 = digest::md5_of(page);
            if !text::same_bytes(actual_md5.as_slice(), expected_md5) {
                return Err(CascError::ChecksumMismatch("encoding page"));
            }
            match parse_page(page, expected_first_ckey, &mut entries) {
                Ok(_) => {},
                Err(e) => {
                    return Err(e);
                },
            }
            index += PAGE_INDEX_ENTRY_SIZE;
            start = page_end;
            left -= 1;
        }
        Ok(EncodingTable { entries })
    }

    /// Looks up an entry by CKey via binary search.
    pub fn lookup(&self, ckey: &ContentKey) -> (r: Option<&EncodingEntry>)
        requires
            self.wf(),
        ensures
            match r {
                Some(e) => found(self@, ckey@) == Some(e@) && e@.ckey == ckey@,
                None => found(self@, ckey@) is None,
            },
    {
        let number = bytes::key_number(ckey.0.as_slice());
        let mut lo: usize = 0;
        let mut hi: usize = self.entries.len();
        while lo < hi
            invariant
                0 <= lo <= hi <= self.entries@.len(),
                sorted(self@),
                number == bytes::be(ckey@),
                forall|i: int|
                    0 <= i < lo ==> bytes::be((#[trigger] self@[i]).ckey) < number,
                forall|i: int|
                    hi <= i < self@.len() ==> bytes::be((#[trigger] self@[i]).ckey) > number,
            decreases hi - lo,
        {
            let mid: usize = lo + (hi - lo) / 2;
            let here = bytes::key_number(self.entries[mid].ckey.0.as_slice());
            assert(self@[mid as int] == self.entries@[mid as int]@);
            assert(here == bytes::be(self@[mid as int].ckey));
            if here == number {
                proof {
                    bytes::lemma_be_injective(self@[mid as int].ckey, ckey@);
                    lemma_found(self@, mid as int);
                }
                return Some(&self.entries[mid]);
            }
            if here < number {
                lo = mid + 1;
            } else {
                hi = mid;
            }
        }
        None
    }

    /// All entries, sorted by CKey.
    pub fn entries(&self) -> (s: &[EncodingEntry])
        ensures
            entry_views(s@) == self@,
    {
        self.entries.as_slice()
    }

    /// Number of entries.
    pub fn len(&self) -> (n: usize)
        ensures
            n == self@.len(),
    {
        self.entries.len()
    }

    /// Whether the table has no entries.
    pub fn is_empty(&self) -> (b: bool)
        ensures
            b == (self@.len() == 0),
    {
        self.entries.len() == 0
    }
}

impl Default for EncodingTable {
    fn default() -> (r: EncodingTable)
        ensures
            r.wf(),
            r@ == Seq::<EncodingView>::empty(),
    {
        EncodingTable::empty()
    }
}

// ---------------------------------------------------------------------
// Laws

/// The ESpec block has no bearing on what a table says: a table with a block
/// of any bytes, whose size the header states, is parsed as the table without
/// a block is.
pub proof fn law_espec_is_skipped(head: Seq<u8>, size: Seq<u8>, block: Seq<u8>, rest: Seq<u8>)
    requires
        head.len() == 18,
        size.len() == 4,
        size[0] * 0x100_0000 + size[1] * 0x1_0000 + size[2] * 0x100 + size[3] == block.len(),
    ensures
        table(head + size + block + rest) == table(head + seq![0u8, 0u8, 0u8, 0u8] + rest),
{
    let a = head + size + block + rest;
    let b = head + seq![0u8, 0u8, 0u8, 0u8] + rest;
    bytes::law_big_endian(a, 5);
    bytes::law_big_endian(b, 5);
    bytes::law_big_endian(a, 9);
    bytes::law_big_endian(b, 9);
    bytes::law_big_endian(a, 18);
    bytes::law_big_endian(b, 18);
    assert forall|i: int| 0 <= i < 18 implies #[trigger] a[i] == b[i] by {
        assert(a[i] == head[i]);
    }
    assert(a[18] == size[0] && a[19] == size[1] && a[20] == size[2] && a[21] == size[3]);
    assert(b[18] == 0 && b[19] == 0 && b[20] == 0 && b[21] == 0);
    if header(a) is Ok {
        let h = header(a)->Ok_0;
        let start = 22 + 32 * h.page_count;
        lemma_shifted_pages(
            a,
            b,
            block.len() as int,
            22,
            start as int,
            h.page_size as int,
            h.page_count as int,
            seq![],
        );
    }
}

/// Pages are read alike where the data from byte 22 on is the same.
proof fn lemma_shifted_pages(
    a: Seq<u8>,
    b: Seq<u8>,
    shift: int,
    index: int,
    start: int,
    page_size: int,
    left: int,
    before: Seq<EncodingView>,
)
    requires
        0 <= shift,
        22 <= index,
        22 <= start,
        0 < page_size,
        index + 32 * left <= start || left <= 0,
        a.len() == b.len() + shift,
        forall|i: int| 22 <= i < b.len() ==> #[trigger] b[i] == a[i + shift],
    ensures
        pages(a, index + shift, start + shift, page_size, left, before) == pages(
            b,
            index,
            start,
            page_size,
            left,
            before,
        ),
    decreases left,
{
    if left > 0 && start + page_size <= b.len() {
        let x = a.subrange(start + shift, start + shift + page_size);
        let y = b.subrange(start, start + page_size);
        assert(x =~= y);
        assert(a.subrange(index + shift, index + shift + 16) =~= b.subrange(index, index + 16));
        assert(a.subrange(index + shift + 16, index + shift + 32) =~= b.subrange(
            index + 16,
            index + 32,
        ));
        match page_entries(y, 0, Some(b.subrange(index, index + 16)), before) {
            Ok(entries) => {
                lemma_shifted_pages(
                    a,
                    b,
                    shift,
                    index + 32,
                    start + page_size,
                    page_size,
                    left - 1,
                    entries,
                );
            },
            Err(_) => {},
        }
    }
}

/// The entry `e` lies in a page at `at`, byte by byte: how many EKeys there
/// are, five bytes of the size with the most significant first, the CKey, and
/// the EKeys, of which the first is the one stated.
pub open spec fn lies_at(page: Seq<u8>, at: int, e: EncodingView) -> bool {
    &&& 0 <= at
    &&& at + 38 <= at + 22 + 16 * page[at] <= page.len()
    &&& e.size == page[at + 1] * 0x1_0000_0000 + page[at + 2] * 0x100_0000 + page[at + 3]
        * 0x1_0000 + page[at + 4] * 0x100 + page[at + 5]
    &&& e.ckey == Seq::new(16, |k: int| page[at + 6 + k])
    &&& e.ekey == Seq::new(16, |k: int| page[at + 22 + k])
}

/// The entries lie in a page one behind the other, from its start on, at the
/// given places, and a zero or the end of the page is behind the last.
pub open spec fn fill(page: Seq<u8>, at: Seq<int>, entries: Seq<EncodingView>) -> bool {
    &&& at.len() == entries.len() + 1
    &&& at[0] == 0
    &&& forall|j: int|
        0 <= j < entries.len() ==> lies_at(page, #[trigger] at[j], entries[j]) && at[j + 1] == at[j]
            + 22 + 16 * page[at[j]]
    &&& at.last() == page.len() || (at.last() < page.len() && page[at.last()] == 0)
}

/// CKeys ascend in lexicographic order.
pub open spec fn ckeys_ascend(s: Seq<EncodingView>) -> bool {
    forall|i: int, j: int|
        0 <= i < j < s.len() ==> bytes::before((#[trigger] s[i]).ckey, (#[trigger] s[j]).ckey)
}

proof fn lemma_filled_page(
    page: Seq<u8>,
    at: Seq<int>,
    entries: Seq<EncodingView>,
    j: int,
    first: Option<Seq<u8>>,
    earlier: Seq<EncodingView>,
)
    requires
        fill(page, at, entries),
        0 <= j <= entries.len(),
        ckeys_ascend(earlier + entries),
        forall|i: int| 0 <= i < earlier.len() ==> (#[trigger] earlier[i]).ckey.len() == 16,
        first is Some ==> j == 0 && entries.len() > 0 && first->0 == entries[0].ckey,
    ensures
        page_entries(page, at[j], first, earlier + entries.subrange(0, j)) == Ok::<
            Seq<EncodingView>,
            ErrorView,
        >(earlier + entries),
    decreases entries.len() - j,
{
    let n = entries.len() as int;
    let before = earlier + entries.subrange(0, j);
    if j < n {
        let e = entries[j];
        let c = at[j];
        assert(lies_at(page, c, e));
        bytes::law_big_endian(page, c + 1);
        assert(page.subrange(c + 6, c + 22) =~= e.ckey);
        assert(page.subrange(c + 22, c + 38) =~= e.ekey);
        assert(entry_at(page, c) == e);
        let all = earlier + entries;
        if before.len() > 0 {
            let k = before.len() - 1;
            assert(before.last() == all[k]);
            assert(all[k + 1] == e);
            assert(bytes::before(all[k].ckey, all[k + 1].ckey));
            if j > 0 {
                assert(lies_at(page, at[j - 1], entries[j - 1]));
            } else {
                assert(earlier[k].ckey.len() == 16);
            }
            bytes::law_number_order(all[k].ckey, e.ckey);
        }
        assert(before.push(e) =~= earlier + entries.subrange(0, j + 1));
        lemma_filled_page(page, at, entries, j + 1, None, earlier);
    } else {
        assert(entries.subrange(0, j) =~= entries);
        assert(at[j] == at.last());
    }
}

/// What the header of a table states, byte by byte: pages of so many KiB, so
/// many pages, and an ESpec block of so many bytes.
pub open spec fn states(data: Seq<u8>, page_kb: int, count: int, espec: int) -> bool {
    &&& data.len() >= 22
    &&& data[0] == 0x45 && data[1] == 0x4e && data[2] == 1 && data[3] == 16 && data[4] == 16
    &&& page_kb == data[5] * 0x100 + data[6]
    &&& page_kb > 0
    &&& count == data[9] * 0x100_0000 + data[10] * 0x1_0000 + data[11] * 0x100 + data[12]
    &&& data[17] == 0
    &&& espec == data[18] * 0x100_0000 + data[19] * 0x1_0000 + data[20] * 0x100 + data[21]
}

/// The bytes of `data` from one position up to another.
pub open spec fn part(data: Seq<u8>, from: int, to: int) -> Seq<u8> {
    Seq::new((to - from) as nat, |k: int| data[from + k])
}

/// The `i`-th of `count` pages is filled with the given entries, and its entry
/// in the page index states its first CKey and its MD5.
pub open spec fn is_page(
    data: Seq<u8>,
    page_kb: int,
    espec: int,
    count: int,
    i: int,
    at: Seq<int>,
    entries: Seq<EncodingView>,
) -> bool {
    let index = 22 + espec + 32 * i;
    let start = 22 + espec + 32 * count + 1024 * page_kb * i;
    let page = part(data, start, start + 1024 * page_kb);
    &&& entries.len() > 0
    &&& fill(page, at, entries)
    &&& part(data, index, index + 16) == entries[0].ckey
    &&& part(data, index + 16, index + 32) == digest::digest(page)
}

/// A table is the entries of its pages, page after page: behind the header
/// and the ESpec block stand one index entry of 32 bytes for each page, with
/// the page's first CKey and its MD5, and then the pages. Where every page is
/// filled with entries, every index entry fits its page, and the CKeys ascend
/// from the first entry to the last, exactly those entries are parsed.
pub proof fn law_table_layout(
    data: Seq<u8>,
    page_kb: int,
    espec: int,
    at: Seq<Seq<int>>,
    groups: Seq<Seq<EncodingView>>,
)
    requires
        states(data, page_kb, groups.len() as int, espec),
        32 * groups.len() <= usize::MAX,
        at.len() == groups.len(),
        22 + espec + 32 * groups.len() + 1024 * page_kb * groups.len() <= data.len(),
        forall|i: int|
            0 <= i < groups.len() ==> is_page(
                data,
                page_kb,
                espec,
                groups.len() as int,
                i,
                at[i],
                #[trigger] groups[i],
            ),
        ckeys_ascend(groups.flatten()),
    ensures
        table(data) == Ok::<Seq<EncodingView>, ErrorView>(groups.flatten()),
{
    let n = groups.len() as int;
    assert(1024 * page_kb * n >= 0) by (nonlinear_arith)
        requires
            page_kb > 0,
            n >= 0,
    ;
    lemma_stated_table(data, page_kb, n, espec);
    assert(groups.subrange(0, n) =~= groups);
    assert(seq![] + groups.flatten() =~= groups.flatten());
    lemma_layout_pages(data, page_kb, espec, at, groups, 0, seq![]);
    assert(1024 * page_kb * 0 == 0) by (nonlinear_arith);
}

proof fn lemma_stated_table(data: Seq<u8>, page_kb: int, count: int, espec: int)
    requires
        states(data, page_kb, count, espec),
        32 * count <= usize::MAX,
        22 + espec + 32 * count <= data.len(),
    ensures
        table(data) == pages(
            data,
            22 + espec,
            22 + espec + 32 * count,
            1024 * page_kb,
            count,
            seq![],
        ),
{
    bytes::law_big_endian(data, 5);
    bytes::law_big_endian(data, 9);
    bytes::law_big_endian(data, 18);
}

proof fn lemma_layout_pages(
    data: Seq<u8>,
    page_kb: int,
    espec: int,
    at: Seq<Seq<int>>,
    groups: Seq<Seq<EncodingView>>,
    i: int,
    before: Seq<EncodingView>,
)
    requires
        0 <= i <= groups.len(),
        0 < page_kb,
        0 <= espec,
        at.len() == groups.len(),
        22 + espec + 32 * groups.len() + 1024 * page_kb * groups.len() <= data.len(),
        forall|i: int|
            0 <= i < groups.len() ==> is_page(
                data,
                page_kb,
                espec,
                groups.len() as int,
                i,
                at[i],
                #[trigger] groups[i],
            ),
        forall|k: int| 0 <= k < before.len() ==> (#[trigger] before[k]).ckey.len() == 16,
        ckeys_ascend(before + groups.subrange(i, groups.len() as int).flatten()),
    ensures
        pages(
            data,
            22 + espec + 32 * i,
            22 + espec + 32 * groups.len() + 1024 * page_kb * i,
            1024 * page_kb,
            groups.len() - i,
            before,
        ) == Ok::<Seq<EncodingView>, ErrorView>(
            before + groups.subrange(i, groups.len() as int).flatten(),
        ),
    decreases groups.len() - i,
{
    let n = groups.len() as int;
    let rest = groups.subrange(i, n);
    let size = 1024 * page_kb;
    let start = 22 + espec + 32 * n + size * i;
    let index = 22 + espec + 32 * i;
    if i < n {
        let group = groups[i];
        assert(is_page(data, page_kb, espec, n, i, at[i], group));
        let page = part(data, start, start + size);
        let tail = groups.subrange(i + 1, n);
        assert(rest.drop_first() =~= tail);
        assert(rest.first() == group);
        let all = before + rest.flatten();
        assert(all =~= before + group + tail.flatten());
        assert(size * i + size == size * (i + 1)) by (nonlinear_arith);
        assert(size * (i + 1) <= size * n) by (nonlinear_arith)
            requires
                i + 1 <= n,
                size > 0,
        ;
        assert(size * i >= 0) by (nonlinear_arith)
            requires
                i >= 0,
                size > 0,
        ;
        assert(data.subrange(start, start + size) =~= page);
        assert(data.subrange(index, index + 16) =~= part(data, index, index + 16));
        assert(data.subrange(index + 16, index + 32) =~= part(data, index + 16, index + 32));
        assert forall|a: int, b: int| 0 <= a < b < (before + group).len() implies bytes::before(
            (#[trigger] (before + group)[a]).ckey,
            (#[trigger] (before + group)[b]).ckey,
        ) by {
            assert((before + group)[a] == all[a]);
            assert((before + group)[b] == all[b]);
        }
        lemma_filled_page(page, at[i], group, 0, Some(group[0].ckey), before);
        assert(before + group.subrange(0, 0) =~= before);
        let next = before + group;
        assert forall|k: int| 0 <= k < next.len() implies (#[trigger] next[k]).ckey.len() == 16 by {
            if k >= before.len() {
                let j = k - before.len();
                assert(lies_at(page, at[i][j], group[j]));
            } else {
                assert(next[k] == before[k]);
            }
        }
        lemma_layout_pages(data, page_kb, espec, at, groups, i + 1, next);
    } else {
        assert(rest =~= seq![]);
        assert(before + rest.flatten() =~= before);
    }
}

/// A table that parses is verified page by page: each page lies in the data,
/// behind the header, the ESpec block and the page index, and has the MD5
/// that the page index states for it.
pub proof fn law_pages_are_verified(data: Seq<u8>, page_kb: int, count: int, espec: int, i: int)
    requires
        table(data) is Ok,
        states(data, page_kb, count, espec),
        0 <= i < count,
    ensures
        ({
            let index = 22 + espec + 32 * i;
            let start = 22 + espec + 32 * count + 1024 * page_kb * i;
            &&& start + 1024 * page_kb <= data.len()
            &&& digest::digest(part(data, start, start + 1024 * page_kb)) == part(
                data,
                index + 16,
                index + 32,
            )
        }),
{
    bytes::law_big_endian(data, 5);
    bytes::law_big_endian(data, 9);
    bytes::law_big_endian(data, 18);
    assert(1024 * page_kb * 0 == 0) by (nonlinear_arith);
    lemma_verified_pages(data, page_kb, count, espec, 0, seq![], i);
}

proof fn lemma_verified_pages(
    data: Seq<u8>,
    page_kb: int,
    count: int,
    espec: int,
    from: int,
    before: Seq<EncodingView>,
    i: int,
)
    requires
        0 < page_kb,
        0 <= espec,
        0 <= from <= i < count,
        22 + espec + 32 * count <= data.len(),
        pages(
            data,
            22 + espec + 32 * from,
            22 + espec + 32 * count + 1024 * page_kb * from,
            1024 * page_kb,
            count - from,
            before,
        ) is Ok,
    ensures
        ({
            let index = 22 + espec + 32 * i;
            let start = 22 + espec + 32 * count + 1024 * page_kb * i;
            &&& start + 1024 * page_kb <= data.len()
            &&& digest::digest(part(data, start, start + 1024 * page_kb)) == part(
                data,
                index + 16,
                index + 32,
            )
        }),
    decreases i - from,
{
    let size = 1024 * page_kb;
    let start = 22 + espec + 32 * count + size * from;
    let index = 22 + espec + 32 * from;
    let page = data.subrange(start, start + size);
    assert(size * from >= 0) by (nonlinear_arith)
        requires
            from >= 0,
            size > 0,
    ;
    assert(size * from + size == size * (from + 1)) by (nonlinear_arith);
    if from < i {
        let entries = page_entries(page, 0, Some(data.subrange(index, index + 16)), before);
        lemma_verified_pages(data, page_kb, count, espec, from + 1, entries->Ok_0, i);
    } else {
        assert(page =~= part(data, start, start + size));
        assert(data.subrange(index + 16, index + 32) =~= part(data, index + 16, index + 32));
    }
}

/// Looking a CKey up in a table with ascending CKeys finds the entry with
/// that CKey, wherever it stands, and nothing where there is none.
pub proof fn law_found(s: Seq<EncodingView>, ckey: Seq<u8>, i: int)
    requires
        sorted(s),
    ensures
        0 <= i < s.len() && s[i].ckey == ckey ==> found(s, ckey) == Some(s[i]),
        (forall|j: int| 0 <= j < s.len() ==> (#[trigger] s[j]).ckey != ckey) ==> found(s, ckey)
            is None,
{
    if 0 <= i < s.len() && s[i].ckey == ckey {
        lemma_found(s, i);
    }
}

/// A header is accepted exactly where it has the magic, the version, the key
/// lengths and the flags that are known, and pages of some size.
pub proof fn law_header_accepted(data: Seq<u8>)
    ensures
        header(data) is Ok <==> {
            &&& data.len() >= 22
            &&& data[0] == 0x45 && data[1] == 0x4e && data[2] == 1 && data[3] == 16 && data[4] == 16
            &&& data[5] != 0 || data[6] != 0
            &&& data[17] == 0
        },
        header(data) matches Err(e) ==> e is Malformed,
{
    bytes::law_big_endian(data, 5);
}

/// The CKeys of a table that parses have sixteen bytes and strictly ascend,
/// from the first entry of its first page to the last of its last.
pub proof fn law_table_ascends(data: Seq<u8>)
    requires
        table(data) is Ok,
    ensures
        ckeys_ascend(table(data)->Ok_0),
        forall|i: int|
            0 <= i < (table(data)->Ok_0).len() ==> (#[trigger] (table(data)->Ok_0)[i]).ckey.len()
                == 16,
{
    let h = header(data)->Ok_0;
    let index = 22 + h.espec_size;
    lemma_pages_ascend(
        data,
        index as int,
        (index + 32 * h.page_count) as int,
        h.page_size as int,
        h.page_count as int,
        seq![],
    );
}

spec fn ascends(s: Seq<EncodingView>) -> bool {
    ckeys_ascend(s) && forall|i: int| 0 <= i < s.len() ==> (#[trigger] s[i]).ckey.len() == 16
}

proof fn lemma_page_ascends(
    page: Seq<u8>,
    cursor: int,
    first: Option<Seq<u8>>,
    earlier: Seq<EncodingView>,
)
    requires
        page_entries(page, cursor, first, earlier) is Ok,
        ascends(earlier),
    ensures
        ascends(page_entries(page, cursor, first, earlier)->Ok_0),
    decreases page.len() - cursor,
{
    if 0 <= cursor < page.len() && page[cursor] != 0 {
        let e = entry_at(page, cursor);
        let all = earlier.push(e);
        assert(e.ckey.len() == 16);
        assert forall|i: int, j: int| 0 <= i < j < all.len() implies bytes::before(
            (#[trigger] all[i]).ckey,
            (#[trigger] all[j]).ckey,
        ) by {
            if j < earlier.len() {
                assert(bytes::before(earlier[i].ckey, earlier[j].ckey));
            } else {
                let last = earlier.len() - 1;
                bytes::law_number_order(earlier[last].ckey, e.ckey);
                bytes::law_number_order(earlier[i].ckey, e.ckey);
                if i < last {
                    assert(bytes::before(earlier[i].ckey, earlier[last].ckey));
                    bytes::law_number_order(earlier[i].ckey, earlier[last].ckey);
                }
            }
        }
        lemma_page_ascends(page, cursor + 22 + 16 * page[cursor], None, all);
    }
}

proof fn lemma_pages_ascend(
    data: Seq<u8>,
    index: int,
    start: int,
    page_size: int,
    left: int,
    earlier: Seq<EncodingView>,
)
    requires
        pages(data, index, start, page_size, left, earlier) is Ok,
        ascends(earlier),
    ensures
        ascends(pages(data, index, start, page_size, left, earlier)->Ok_0),
    decreases left,
{
    if left > 0 {
        let page = data.subrange(start, start + page_size);
        let first = Some(data.subrange(index, index + 16));
        lemma_page_ascends(page, 0, first, earlier);
        lemma_pages_ascend(
            data,
            index + 32,
            start + page_size,
            page_size,
            left - 1,
            page_entries(page, 0, first, earlier)->Ok_0,
        );
    }
}

/// A page whose first entry has another CKey than the page index states is
/// refused, and so is one with an entry that runs past its end.
pub proof fn law_page_refused(page: Seq<u8>, first: Seq<u8>, earlier: Seq<EncodingView>)
    requires
        page.len() > 0,
        page[0] > 0,
        page.len() < 22 + 16 * page[0] || Seq::new(16, |k: int| page[6 + k]) != first,
    ensures
        page_entries(page, 0, Some(first), earlier) matches Err(e) && e is Malformed,
{
    if page.len() >= 22 + 16 * page[0] {
        assert(page.subrange(6, 22) =~= Seq::new(16, |k: int| page[6 + k]));
    }
}

} // verus!
