//! Local index (`.idx`) parser.
//!
//! Each CASC storage keeps 16 local index files (one per "bucket",
//! `00`..`0f`), each a fixed-size, mostly-zero-padded file mapping truncated
//! (9-byte) encoding keys to where their data lives in the `data.###`
//! archives. `LocalIndex` merges all 16 into a single lookup table, since a
//! handful of entries are stored under the "wrong" bucket (see the
//! placeholder-span note below) and the merged map is what real storages
//! guarantee has no key collisions.
//!
//! Layout (version 7; all header integers little-endian unless noted):
//!
//! ```text
//! 0x00  guarded-block header for the file header (8 bytes)
//!         +0x00  BlockSize   u32 LE   (must be 0x10)
//!         +0x04  BlockHash   u32 LE   (Jenkins `hashlittle` of the file header)
//! 0x08  file header (16 bytes)
//!         +0x00  Revision         u16 LE   (must be 7)
//!         +0x02  BucketIndex      u8       (unused here)
//!         +0x03  Flags            u8       (must be 0)
//!         +0x04  SpanSizeBytes    u8       (must be 4)
//!         +0x05  SpanOffsetBytes  u8       (must be 5)
//!         +0x06  KeyBytes         u8       (must be 9)
//!         +0x07  SegmentBits      u8       (16..=39; typically 30)
//!         +0x08  MaxFileOffset    u64 LE   (unused here)
//! 0x18  8 bytes of zero padding
//! 0x20  guarded-block header for the entry array (8 bytes, same shape as above)
//!         +0x00  BlockSize   u32 LE   (total bytes of the entry array)
//!         +0x04  BlockHash   u32 LE   (chained Jenkins `hashlittle2`)
//! 0x28  entry array: BlockSize / 18 entries of 18 bytes each
//! ```
//!
//! Entry layout (18 bytes):
//!
//! ```text
//! +0x00  9   EKey[9]          first 9 bytes of the 16-byte encoding key
//! +0x09  5   StorageOffset    u40 BE = (archive << SegmentBits) | offset
//! +0x0E  4   EncodedSize      u32 LE  (includes the 30-byte span header)
//! ```
//!
//! Entries with `EncodedSize <= 30` are synthetic placeholder/free-space
//! stubs written at the head of each `data.###` archive; they carry no real
//! span and are skipped rather than inserted.

use vstd::arithmetic::power2::pow2;
use vstd::prelude::*;
use vstd::string::StringExecFns;

use crate::bytes;
use crate::error;
use crate::error::CascError;
use crate::error::ErrorView;
use crate::jenkins;
use crate::keymap;
use crate::keymap::KeyMap;
use crate::keys;
use crate::keys::EncodingKey;
use crate::keys::TruncatedKey;
use crate::text;

verus! {

/// Where the entry array of an index file starts.
pub const ENTRIES_OFFSET: usize = 0x28;

/// Size of one entry of an index file.
pub const ENTRY_LEN: usize = 18;

/// SC:R has only tens of thousands of local entries. A much larger table is
/// not a supported storage and would otherwise amplify a bounded `.idx`
/// buffer into an unbounded hash-table allocation.
pub const MAX_INDEX_ENTRIES: usize = 1_000_000;

/// Where an encoded file span lives in the data archives.
#[derive(Debug, Clone, Copy, PartialEq, Eq, Structural)]
pub struct IdxEntry {
    /// `data.###` archive number.
    pub archive: u16,
    /// Byte offset of the 30-byte span header within that archive.
    pub offset: u64,
    /// Total span size including the 30-byte span header.
    pub encoded_size: u32,
}

/// Merged lookup table over all bucket `.idx` files.
///
/// Built from raw file contents via [`LocalIndex::from_files`]; use
/// [`LocalIndex::select_files`] first to decide which files to read off disk.
#[derive(Debug, Clone)]
pub struct LocalIndex {
    entries: KeyMap<IdxEntry, 9>,
}

impl View for LocalIndex {
    type V = Map<Seq<u8>, IdxEntry>;

    closed spec fn view(&self) -> Map<Seq<u8>, IdxEntry> {
        self.entries@
    }
}

// ---------------------------------------------------------------------
// What an index file says

/// The chained hash of the first `n` entries of an entry array.
pub open spec fn chained_hash(entries: Seq<u8>, n: int) -> (u32, u32)
    decreases n,
{
    if n <= 0 {
        (0, 0)
    } else {
        let (hi, lo) = chained_hash(entries, n - 1);
        jenkins::hash2(entries.subrange(18 * (n - 1), 18 * n), hi, lo)
    }
}

/// The hash that guards an entry array.
pub open spec fn block_hash(entries: Seq<u8>) -> u32 {
    chained_hash(entries, entries.len() as int / 18).0
}

/// What the validated headers of an index file say.
pub struct Layout {
    /// How many low bits of a storage offset are the offset in an archive.
    pub segment_bits: nat,
    /// How many entries the entry array has.
    pub count: nat,
}

/// What validating the headers and the hashes of an index file gives.
pub open spec fn layout(data: Seq<u8>) -> Result<Layout, ErrorView> {
    let what = "local index file"@;
    let guard = bytes::le_at(data, 0, 4);
    let file_header = data.subrange(8, 24);
    let revision = bytes::le_at(data, 8, 2);
    let bits = data[15];
    let size = bytes::le_at(data, 0x20, 4);
    if data.len() < 0x28 {
        Err(
            error::malformed_view(
                what,
                "file too short ("@ + text::dec(data.len()) + " bytes, need at least 0x28)"@,
            ),
        )
    } else if guard != 0x10 {
        Err(
            error::malformed_view(
                what,
                "file header guarded-block size 0x"@ + text::hex(guard) + " != 0x10"@,
            ),
        )
    } else if jenkins::hash(file_header, 0) != bytes::le_at(data, 4, 4) {
        Err(ErrorView::ChecksumMismatch("local index file header"@))
    } else if revision != 7 {
        Err(
            error::unsupported_view(
                what,
                "revision "@ + text::dec(revision) + " (only revision 7 is supported)"@,
            ),
        )
    } else if data[11] != 0 {
        Err(
            error::unsupported_view(
                what,
                "flags 0x"@ + text::hex(data[11] as nat) + " (only 0 is supported)"@,
            ),
        )
    } else if data[12] != 4 || data[13] != 5 || data[14] != 9 {
        Err(
            error::unsupported_view(
                what,
                "field widths span_size="@ + text::dec(data[12] as nat) + " span_offset="@
                    + text::dec(data[13] as nat) + " key="@ + text::dec(data[14] as nat)
                    + " (only 4/5/9 are supported)"@,
            ),
        )
    } else if bits < 16 || bits > 39 {
        Err(
            error::malformed_view(
                what,
                "segment_bits "@ + text::dec(bits as nat) + " outside supported range 16..=39"@,
            ),
        )
    } else if size % 18 != 0 {
        Err(
            error::malformed_view(
                what,
                "entry block size "@ + text::dec(size) + " is not a multiple of 18"@,
            ),
        )
    } else if 0x28 + size > usize::MAX {
        Err(error::malformed_view(what, "entry block size overflows file offset"@))
    } else if data.len() < 0x28 + size {
        Err(
            error::malformed_view(
                what,
                "entry block ("@ + text::dec(size)
                    + " bytes at 0x28) overruns file (length "@ + text::dec(data.len()) + ")"@,
            ),
        )
    } else if block_hash(data.subrange(0x28, (0x28 + size) as int)) != bytes::le_at(data, 0x24, 4) {
        Err(ErrorView::ChecksumMismatch("local index entry array"@))
    } else {
        Ok(Layout { segment_bits: bits as nat, count: size / 18 })
    }
}

/// The key of the `i`-th entry.
pub open spec fn entry_key(data: Seq<u8>, i: int) -> Seq<u8> {
    data.subrange(0x28 + 18 * i, 0x28 + 18 * i + 9)
}

/// The storage offset of the `i`-th entry.
pub open spec fn entry_storage(data: Seq<u8>, i: int) -> nat {
    bytes::be_at(data, 0x28 + 18 * i + 9, 5)
}

/// The encoded size of the `i`-th entry.
pub open spec fn entry_size(data: Seq<u8>, i: int) -> nat {
    bytes::le_at(data, 0x28 + 18 * i + 14, 4)
}

/// The `i`-th entry is a placeholder without a span.
pub open spec fn is_placeholder(data: Seq<u8>, i: int) -> bool {
    entry_size(data, i) <= 30
}

/// The archive number of the `i`-th entry.
pub open spec fn entry_archive(data: Seq<u8>, i: int, bits: nat) -> nat {
    entry_storage(data, i) / pow2(bits)
}

/// The `i`-th entry names an archive whose number is too large.
pub open spec fn is_bad(data: Seq<u8>, i: int, bits: nat) -> bool {
    !is_placeholder(data, i) && entry_archive(data, i, bits) > 0xffff
}

/// What the `i`-th entry maps its key to.
pub open spec fn entry_at(data: Seq<u8>, i: int, bits: nat) -> IdxEntry {
    IdxEntry {
        archive: entry_archive(data, i, bits) as u16,
        offset: (entry_storage(data, i) % pow2(bits)) as u64,
        encoded_size: entry_size(data, i) as u32,
    }
}

/// The index of the first bad entry of the first `n`, or `n`.
pub open spec fn first_bad(data: Seq<u8>, bits: nat, n: int) -> int
    decreases n,
{
    if n <= 0 {
        0
    } else if first_bad(data, bits, n - 1) < n - 1 {
        first_bad(data, bits, n - 1)
    } else if is_bad(data, n - 1, bits) {
        n - 1
    } else {
        n
    }
}

/// `m` with the first `n` entries put into it, later ones over earlier ones.
pub open spec fn inserted(
    data: Seq<u8>,
    bits: nat,
    n: int,
    m: Map<Seq<u8>, IdxEntry>,
) -> Map<Seq<u8>, IdxEntry>
    decreases n,
{
    if n <= 0 {
        m
    } else if is_placeholder(data, n - 1) {
        inserted(data, bits, n - 1, m)
    } else {
        inserted(data, bits, n - 1, m).insert(entry_key(data, n - 1), entry_at(data, n - 1, bits))
    }
}

/// What merging an index file into an index of `have` entries returns.
pub open spec fn file_status(data: Seq<u8>, have: nat) -> Result<(), ErrorView> {
    match layout(data) {
        Err(e) => Err(e),
        Ok(l) => {
            let bad = first_bad(data, l.segment_bits, l.count as int);
            if have + l.count > MAX_INDEX_ENTRIES {
                Err(error::limit_view("local index entries"@, MAX_INDEX_ENTRIES as nat))
            } else if bad < l.count {
                Err(
                    error::malformed_view(
                        "local index entry"@,
                        "archive index "@ + text::dec(entry_archive(data, bad, l.segment_bits))
                            + " does not fit in u16"@,
                    ),
                )
            } else {
                Ok(())
            }
        },
    }
}

/// The index after an index file has been merged into `m`: unchanged where
/// the headers or the limit refuse the file, and otherwise with the entries
/// before the first bad one put into it.
pub open spec fn file_merged(data: Seq<u8>, m: Map<Seq<u8>, IdxEntry>) -> Map<
    Seq<u8>,
    IdxEntry,
> {
    match layout(data) {
        Err(_) => m,
        Ok(l) => if m.dom().len() + l.count > MAX_INDEX_ENTRIES {
            m
        } else {
            inserted(
                data,
                l.segment_bits,
                first_bad(data, l.segment_bits, l.count as int),
                m,
            )
        },
    }
}

/// What merging index files, one after the other, gives.
pub open spec fn files_merged(files: Seq<Seq<u8>>) -> Result<Map<Seq<u8>, IdxEntry>, ErrorView>
    decreases files.len(),
{
    if files.len() == 0 {
        Ok(Map::empty())
    } else {
        match files_merged(files.drop_last()) {
            Err(e) => Err(e),
            Ok(m) => match file_status(files.last(), m.dom().len()) {
                Err(e) => Err(e),
                Ok(_) => Ok(file_merged(files.last(), m)),
            },
        }
    }
}

/// Buffers, taken by their views.
pub open spec fn buffers(files: Seq<&[u8]>) -> Seq<Seq<u8>> {
    Seq::new(files.len(), |i: int| files[i]@)
}

/// The hash that guards an entry array. Bytes after the last whole entry are
/// not hashed.
pub fn entry_block_hash(entries: &[u8]) -> (h: u32)
    ensures
        h == block_hash(entries@),
{
    let total: usize = entries.len();
    let count: usize = total / ENTRY_LEN;
    let mut hi: u32 = 0;
    let mut lo: u32 = 0;
    let mut i: usize = 0;
    while i < count
        invariant
            0 <= i <= count,
            18 * count <= total == entries@.len(),
            count == entries@.len() / 18,
            (hi, lo) == chained_hash(entries@, i as int),
        decreases count - i,
    {
        assert(18 * i + 18 <= 18 * count);
        let (h, l) = jenkins::hashlittle2(
            bytes::cut(entries, ENTRY_LEN * i, ENTRY_LEN * i + ENTRY_LEN),
            hi,
            lo,
        );
        hi = h;
        lo = l;
        i += 1;
    }
    hi
}

/// Validates the headers and the hashes of an index file.
fn check_file(data: &[u8]) -> (r: Result<(u8, usize), CascError>)
    ensures
        match r {
            Ok((bits, count)) => layout(data@) == Ok::<Layout, ErrorView>(
                Layout { segment_bits: bits as nat, count: count as nat },
            ) && 16 <= bits <= 39 && 0x28 + 18 * count <= data@.len(),
            Err(e) => layout(data@) == Err::<Layout, ErrorView>(e@),
        },
{
    let what = "local index file";
    if data.len() < ENTRIES_OFFSET {
        let mut reason = "file too short (".to_owned();
        reason.append(text::dec_text(data.len() as u64).as_str());
        reason.append(" bytes, need at least 0x28)");
        return Err(CascError::malformed(what, reason.as_str()));
    }
    let header_block_size = bytes::le32(data, 0);
    if header_block_size != 0x10 {
        let mut reason = "file header guarded-block size 0x".to_owned();
        reason.append(text::hex_text(header_block_size as u64).as_str());
        reason.append(" != 0x10");
        return Err(CascError::malformed(what, reason.as_str()));
    }
    let header = bytes::cut(data, 8, 24);
    if jenkins::hashlittle(header, 0) != bytes::le32(data, 4) {
        return Err(CascError::ChecksumMismatch("local index file header"));
    }
    let revision = bytes::read_le(data, 8, 2);
    if revision != 7 {
        let mut reason = "revision ".to_owned();
        reason.append(text::dec_text(revision).as_str());
        reason.append(" (only revision 7 is supported)");
        return Err(CascError::unsupported(what, reason.as_str()));
    }
    let flags = data[11];
    if flags != 0 {
        let mut reason = "flags 0x".to_owned();
        reason.append(text::hex_text(flags as u64).as_str());
        reason.append(" (only 0 is supported)");
        return Err(CascError::unsupported(what, reason.as_str()));
    }
    let span_size_bytes = data[12];
    let span_offset_bytes = data[13];
    let key_bytes = data[14];
    if span_size_bytes != 4 || span_offset_bytes != 5 || key_bytes != 9 {
        let mut reason = "field widths span_size=".to_owned();
        reason.append(text::dec_text(span_size_bytes as u64).as_str());
        reason.append(" span_offset=");
        reason.append(text::dec_text(span_offset_bytes as u64).as_str());
        reason.append(" key=");
        reason.append(text::dec_text(key_bytes as u64).as_str());
        reason.append(" (only 4/5/9 are supported)");
        return Err(CascError::unsupported(what, reason.as_str()));
    }
    let segment_bits = data[15];
    if segment_bits < 16 || segment_bits > 39 {
        let mut reason = "segment_bits ".to_owned();
        reason.append(text::dec_text(segment_bits as u64).as_str());
        reason.append(" outside supported range 16..=39");
        return Err(CascError::malformed(what, reason.as_str()));
    }
    let entry_block_size = bytes::le32(data, 0x20) as usize;
    if entry_block_size % ENTRY_LEN != 0 {
        let mut reason = "entry block size ".to_owned();
        reason.append(text::dec_text(entry_block_size as u64).as_str());
        reason.append(" is not a multiple of 18");
        return Err(CascError::malformed(what, reason.as_str()));
    }
    let entries_end: usize = match ENTRIES_OFFSET.checked_add(entry_block_size) {
        Some(n) => n,
        None => {
            return Err(CascError::malformed(what, "entry block size overflows file offset"));
        },
    };
    if data.len() < entries_end {
        let mut reason = "entry block (".to_owned();
        reason.append(text::dec_text(entry_block_size as u64).as_str());
        reason.append(" bytes at 0x28) overruns file (length ");
        reason.append(text::dec_text(data.len() as u64).as_str());
        reason.append(")");
        return Err(CascError::malformed(what, reason.as_str()));
    }
    let entry_bytes = bytes::cut(data, ENTRIES_OFFSET, entries_end);
    if entry_block_hash(entry_bytes) != bytes::le32(data, 0x24) {
        return Err(CascError::ChecksumMismatch("local index entry array"));
    }
    Ok((segment_bits, entry_block_size / ENTRY_LEN))
}

proof fn lemma_first_bad(data: Seq<u8>, bits: nat, n: int)
    requires
        0 <= n,
    ensures
        0 <= first_bad(data, bits, n) <= n,
        forall|i: int| 0 <= i < first_bad(data, bits, n) ==> !is_bad(data, i, bits),
        first_bad(data, bits, n) < n ==> is_bad(data, first_bad(data, bits, n), bits),
    decreases n,
{
    if n > 0 {
        lemma_first_bad(data, bits, n - 1);
    }
}

/// Splits a storage offset into an archive number and an offset in it.
fn split_storage(storage: u64, bits: u8) -> (r: (u64, u64))
    requires
        bits < 64,
    ensures
        r.0 == storage as nat / pow2(bits as nat),
        r.1 == storage as nat % pow2(bits as nat),
{
    proof {
        assert(1u64 << (bits as u64) >= 1) by (bit_vector)
            requires
                bits < 64,
        ;
        vstd::arithmetic::power2::lemma_pow2_strictly_increases(bits as nat, 64);
        vstd::arithmetic::power2::lemma2_to64_rest();
        vstd::arithmetic::power2::lemma_pow2_pos(bits as nat);
        vstd::bits::lemma_u64_shl_is_mul(1, bits as u64);
    }
    let unit: u64 = 1u64 << (bits as u64);
    (storage / unit, storage % unit)
}

/// Parses one `.idx` file's entries into `out`, skipping placeholder spans
/// (`EncodedSize <= 30`). On a key collision within or across calls, the
/// later entry wins.
fn parse_file(data: &[u8], out: &mut KeyMap<IdxEntry, 9>) -> (r: Result<(), CascError>)
    requires
        old(out).wf(),
    ensures
        final(out).wf(),
        error::status(r) == file_status(data@, old(out)@.dom().len()),
        final(out)@ == file_merged(data@, old(out)@),
{
    let ghost start = out@;
    let (segment_bits, count) = match check_file(data) {
        Ok(l) => l,
        Err(e) => {
            return Err(e);
        },
    };
    let have: usize = out.len();
    if have.saturating_add(count) > MAX_INDEX_ENTRIES {
        return Err(CascError::limit("local index entries", MAX_INDEX_ENTRIES));
    }
    let ghost bits = segment_bits as nat;
    let total: usize = data.len();
    let mut i: usize = 0;
    while i < count
        invariant
            0 <= i <= count,
            start == old(out)@,
            out.wf(),
            16 <= segment_bits <= 39,
            bits == segment_bits,
            0x28 + 18 * count <= data@.len() == total,
            layout(data@) == Ok::<Layout, ErrorView>(
                Layout { segment_bits: bits, count: count as nat },
            ),
            start.dom().len() + count <= MAX_INDEX_ENTRIES,
            forall|j: int| 0 <= j < i ==> !is_bad(data@, j, bits),
            out@ == inserted(data@, bits, i as int, start),
        decreases count - i,
    {
        let p: usize = ENTRIES_OFFSET + ENTRY_LEN * i;
        let key9 = keys::array9(bytes::cut(data, p, p + 9));
        let storage_offset = bytes::read_be(data, p + 9, 5);
        let encoded_size = bytes::le32(data, p + 14);
        if encoded_size > 30 {
            let (archive, offset) = split_storage(storage_offset, segment_bits);
            if archive > 0xffff {
                proof {
                    assert(is_bad(data@, i as int, bits));
                    lemma_first_bad(data@, bits, count as int);
                }
                let mut reason = "archive index ".to_owned();
                reason.append(text::dec_text(archive).as_str());
                reason.append(" does not fit in u16");
                return Err(CascError::malformed("local index entry", reason.as_str()));
            }
            out.insert(key9, IdxEntry { archive: archive as u16, offset, encoded_size });
        }
        i += 1;
    }
    proof {
        lemma_first_bad(data@, bits, count as int);
    }
    Ok(())
}

// ---------------------------------------------------------------------
// Choosing files

/// A hexadecimal digit of either case.
pub open spec fn is_hex_char(c: char) -> bool {
    '0' <= c <= '9' || 'a' <= c <= 'f' || 'A' <= c <= 'F'
}

/// The value of a hexadecimal digit.
pub open spec fn hex_char_value(c: char) -> int {
    if '0' <= c <= '9' {
        c as u32 - '0' as u32
    } else if 'a' <= c <= 'f' {
        c as u32 - 'a' as u32 + 10
    } else {
        c as u32 - 'A' as u32 + 10
    }
}

/// The number that a run of hexadecimal digits denotes.
pub open spec fn hex_number(s: Seq<char>) -> int
    decreases s.len(),
{
    if s.len() == 0 {
        0
    } else {
        hex_number(s.drop_last()) * 16 + hex_char_value(s.last())
    }
}

/// The bucket and the version that an index file's name gives, where `name`
/// is one: ten hexadecimal digits of which the first two spell a bucket up
/// to `0f`, and the extension `idx` in any case.
pub open spec fn index_name(name: Seq<char>) -> Option<(int, int)> {
    let dot = text::last_index(name, '.');
    let stem = name.subrange(0, dot);
    let ext = name.subrange(dot + 1, name.len() as int);
    if dot < 0 || text::ascii_lowered(ext) != seq!['i', 'd', 'x'] || stem.len() != 10 || exists|
        i: int,
    |
        0 <= i < stem.len() && !is_hex_char(#[trigger] stem[i]) {
        None
    } else if hex_number(stem.subrange(0, 2)) > 0xf {
        None
    } else {
        Some((hex_number(stem.subrange(0, 2)), hex_number(stem.subrange(2, 10))))
    }
}

/// The version and the position of the name that wins `bucket`: the first
/// of those with the highest version.
pub open spec fn winner(names: Seq<Seq<char>>, bucket: int) -> Option<(int, int)>
    decreases names.len(),
{
    if names.len() == 0 {
        None
    } else {
        let before = winner(names.drop_last(), bucket);
        match index_name(names.last()) {
            Some((b, version)) => match before {
                Some((best, _)) if b != bucket || version <= best => before,
                None if b != bucket => before,
                _ => Some((version, names.len() - 1)),
            },
            None => before,
        }
    }
}

/// The winning names of the buckets below `n`, in bucket order.
pub open spec fn winners(names: Seq<Seq<char>>, n: int) -> Seq<Seq<char>>
    decreases n,
{
    if n <= 0 {
        seq![]
    } else {
        match winner(names, n - 1) {
            Some((_, i)) => winners(names, n - 1).push(names[i]),
            None => winners(names, n - 1),
        }
    }
}

fn hex_char(c: char) -> (v: Option<u32>)
    ensures
        match v {
            Some(d) => is_hex_char(c) && d == hex_char_value(c) && d < 16,
            None => !is_hex_char(c),
        },
{
    if '0' <= c && c <= '9' {
        Some(c as u32 - '0' as u32)
    } else if 'a' <= c && c <= 'f' {
        Some(c as u32 - 'a' as u32 + 10)
    } else if 'A' <= c && c <= 'F' {
        Some(c as u32 - 'A' as u32 + 10)
    } else {
        None
    }
}

/// The number that up to eight hexadecimal digits denote.
fn parse_hex_number(s: &[char]) -> (v: Option<u64>)
    requires
        s@.len() <= 8,
    ensures
        match v {
            Some(n) => n == hex_number(s@) && forall|i: int|
                0 <= i < s@.len() ==> is_hex_char(#[trigger] s@[i]),
            None => exists|i: int| 0 <= i < s@.len() && !is_hex_char(#[trigger] s@[i]),
        },
{
    let mut n: u64 = 0;
    let mut limit: u64 = 1;
    let mut i: usize = 0;
    assert(s@.subrange(0, 0) =~= seq![]);
    while i < s.len()
        invariant
            0 <= i <= s@.len() <= 8,
            n == hex_number(s@.subrange(0, i as int)),
            n < limit,
            limit == (if i == 0 { 1u64 } else if i == 1 { 0x10 } else if i == 2 { 0x100 }
                else if i == 3 { 0x1000 } else if i == 4 { 0x1_0000 } else if i == 5 { 0x10_0000 }
                else if i == 6 { 0x100_0000 } else if i == 7 { 0x1000_0000 } else { 0x1_0000_0000 }),
            forall|j: int| 0 <= j < i ==> is_hex_char(#[trigger] s@[j]),
        decreases s@.len() - i,
    {
        match hex_char(s[i]) {
            Some(d) => {
                assert(s@.subrange(0, i + 1).drop_last() =~= s@.subrange(0, i as int));
                n = n * 16 + d as u64;
                limit = limit * 16;
            },
            None => {
                return None;
            },
        }
        i += 1;
    }
    assert(s@.subrange(0, i as int) =~= s@);
    Some(n)
}

/// Reads the bucket and the version off a file's name.
fn parse_name(name: &str) -> (r: Option<(usize, u64)>)
    ensures
        match r {
            Some((b, v)) => index_name(name@) == Some((b as int, v as int)) && b <= 0xf,
            None => index_name(name@) is None,
        },
{
    let chars = text::chars_of(name);
    let dot = match text::rfind_char(chars.as_slice(), '.') {
        Some(i) => i,
        None => {
            return None;
        },
    };
    proof {
        text::lemma_last_index(name@, '.');
    }
    let count: usize = chars.len();
    let stem = text::cut(chars.as_slice(), 0, dot);
    let ext = text::cut(chars.as_slice(), dot + 1, count);
    if ext.len() != 3 || text::ascii_lower_char(ext[0]) != 'i' || text::ascii_lower_char(ext[1])
        != 'd' || text::ascii_lower_char(ext[2]) != 'x' {
        proof {
            let low = text::ascii_lowered(ext@);
            if low == seq!['i', 'd', 'x'] {
                assert(low.len() == 3);
                assert(low[0] == 'i' && low[1] == 'd' && low[2] == 'x');
            }
        }
        return None;
    }
    assert(text::ascii_lowered(ext@) =~= seq!['i', 'd', 'x']);
    if stem.len() != 10 {
        return None;
    }
    let head = text::cut(stem, 0, 2);
    let tail = text::cut(stem, 2, 10);
    let bucket = match parse_hex_number(head) {
        Some(n) => n,
        None => {
            proof {
                let i = choose|i: int| 0 <= i < head@.len() && !is_hex_char(#[trigger] head@[i]);
                assert(!is_hex_char(stem@[i]));
            }
            return None;
        },
    };
    let version = match parse_hex_number(tail) {
        Some(n) => n,
        None => {
            proof {
                let i = choose|i: int| 0 <= i < tail@.len() && !is_hex_char(#[trigger] tail@[i]);
                assert(!is_hex_char(stem@[i + 2]));
            }
            return None;
        },
    };
    assert forall|i: int| 0 <= i < stem@.len() implies is_hex_char(#[trigger] stem@[i]) by {
        if i < 2 {
            assert(head@[i] == stem@[i]);
        } else {
            assert(tail@[i - 2] == stem@[i]);
        }
    }
    if bucket > 0xf {
        return None;
    }
    Some((bucket as usize, version))
}

proof fn lemma_winner(names: Seq<Seq<char>>, bucket: int)
    ensures
        winner(names, bucket) matches Some((v, i)) ==> 0 <= i < names.len() && index_name(names[i])
            == Some((bucket, v)),
    decreases names.len(),
{
    if names.len() > 0 {
        lemma_winner(names.drop_last(), bucket);
    }
}

impl LocalIndex {
    /// The merged table is well-formed.
    pub closed spec fn wf(&self) -> bool {
        self.entries.wf()
    }

    /// Selects which `.idx` files to load from a directory listing.
    ///
    /// Groups names by bucket (the first 2 hex characters of the stem) and
    /// keeps only the highest version (the following 8 hex characters) per
    /// bucket, discarding the rest. Names that aren't a `.idx` file (case
    /// insensitive extension) or whose stem isn't exactly 10 hex characters
    /// with a bucket in `00`..=`0f` are ignored. Returns the winning file
    /// names in bucket order (`00`..`0f`); missing buckets are simply absent
    /// from the result.
    pub fn select_files(names: &[String]) -> (r: Vec<String>)
        ensures
            text::texts(r@) == winners(text::texts(names@), 16),
    {
        let ghost all = text::texts(names@);
        let mut best: Vec<Option<(u64, usize)>> = Vec::new();
        let mut k: usize = 0;
        assert(all.subrange(0, 0) =~= seq![]);
        while k < 16
            invariant
                0 <= k <= 16,
                best@.len() == k,
                forall|b: int| 0 <= b < k ==> #[trigger] best@[b] is None,
            decreases 16 - k,
        {
            best.push(None);
            k += 1;
        }
        let mut i: usize = 0;
        while i < names.len()
            invariant
                0 <= i <= names@.len(),
                all == text::texts(names@),
                best@.len() == 16,
                forall|b: int|
                    0 <= b < 16 ==> (match #[trigger] best@[b] {
                        Some((v, p)) => winner(all.subrange(0, i as int), b) == Some(
                            (v as int, p as int),
                        ),
                        None => winner(all.subrange(0, i as int), b) is None,
                    }),
            decreases names@.len() - i,
        {
            let ghost seen = all.subrange(0, i + 1);
            let ghost before = best@;
            assert(seen.drop_last() =~= all.subrange(0, i as int));
            assert(seen.last() == names@[i as int]@);
            if let Some((bucket, version)) = parse_name(names[i].as_str()) {
                let is_better = match best[bucket] {
                    Some((current, _)) => version > current,
                    None => true,
                };
                assert(before[bucket as int] == best@[bucket as int]);
                if is_better {
                    best.set(bucket, Some((version, i)));
                }
            }
            assert forall|b: int| 0 <= b < 16 implies (match #[trigger] best@[b] {
                Some((v, p)) => winner(seen, b) == Some((v as int, p as int)),
                None => winner(seen, b) is None,
            }) by {
                assert(match before[b] {
                    Some((v, p)) => winner(seen.drop_last(), b) == Some((v as int, p as int)),
                    None => winner(seen.drop_last(), b) is None,
                });
            }
            i += 1;
        }
        assert(all.subrange(0, i as int) =~= all);
        let mut out: Vec<String> = Vec::new();
        let mut b: usize = 0;
        assert(text::texts(out@) =~= winners(all, 0));
        while b < 16
            invariant
                0 <= b <= 16,
                all == text::texts(names@),
                best@.len() == 16,
                forall|b: int|
                    0 <= b < 16 ==> (match #[trigger] best@[b] {
                        Some((v, p)) => winner(all, b) == Some((v as int, p as int)),
                        None => winner(all, b) is None,
                    }),
                text::texts(out@) == winners(all, b as int),
            decreases 16 - b,
        {
            proof {
                lemma_winner(all, b as int);
            }
            let ghost before = out@;
            assert(match best@[b as int] {
                Some((v, p)) => winner(all, b as int) == Some((v as int, p as int)),
                None => winner(all, b as int) is None,
            });
            if let Some((_, p)) = best[b] {
                out.push(names[p].clone());
                assert(text::texts(out@) =~= text::texts(before).push(all[p as int]));
            }
            b += 1;
        }
        out
    }

    /// An index without entries.
    pub fn new() -> (r: LocalIndex)
        ensures
            r.wf(),
            r@ == Map::<Seq<u8>, IdxEntry>::empty(),
    {
        LocalIndex { entries: KeyMap::new() }
    }

    /// Builds the merged index from the raw contents of one or more `.idx`
    /// files (as read from disk, e.g. via [`LocalIndex::select_files`]).
    ///
    /// If the same truncated key appears in more than one file, the entry
    /// from the later file wins. Real storages never have duplicate keys
    /// across buckets, so this only matters for malformed input.
    pub fn from_files(files: &[&[u8]]) -> (r: Result<LocalIndex, CascError>)
        ensures
            error::outcome(r) == files_merged(buffers(files@)),
            r matches Ok(index) ==> index.wf(),
    {
        let mut index = LocalIndex::new();
        let ghost all = buffers(files@);
        let mut i: usize = 0;
        assert(all.subrange(0, 0) =~= seq![]);
        while i < files.len()
            invariant
                0 <= i <= files@.len(),
                all == buffers(files@),
                index.wf(),
                files_merged(all.subrange(0, i as int)) == Ok::<
                    Map<Seq<u8>, IdxEntry>,
                    ErrorView,
                >(index@),
            decreases files@.len() - i,
        {
            let ghost seen = all.subrange(0, i + 1);
            assert(seen.drop_last() =~= all.subrange(0, i as int));
            match index.add_file(files[i]) {
                Ok(_) => {},
                Err(e) => {
                    proof {
                        lemma_merge_fails(all, i + 1);
                    }
                    return Err(e);
                },
            }
            i += 1;
        }
        assert(all.subrange(0, i as int) =~= all);
        Ok(index)
    }

    /// Parses one additional selected bucket file. Storage bootstrap uses
    /// this to release each raw `.idx` buffer before reading the next one.
    pub fn add_file(&mut self, data: &[u8]) -> (r: Result<(), CascError>)
        requires
            old(self).wf(),
        ensures
            final(self).wf(),
            error::status(r) == file_status(data@, old(self)@.dom().len()),
            final(self)@ == file_merged(data@, old(self)@),
    {
        parse_file(data, &mut self.entries)
    }

    /// Looks up a full encoding key, truncating it to 9 bytes internally (as
    /// local indices only ever store the truncated form).
    pub fn lookup(&self, key: &EncodingKey) -> (r: Option<&IdxEntry>)
        requires
            self.wf(),
        ensures
            match r {
                Some(e) => self@.contains_key(key@.subrange(0, 9)) && *e
                    == self@[key@.subrange(0, 9)],
                None => !self@.contains_key(key@.subrange(0, 9)),
            },
    {
        self.lookup_truncated(&key.truncated())
    }

    /// Looks up an already-truncated (9-byte) key.
    pub fn lookup_truncated(&self, key: &TruncatedKey) -> (r: Option<&IdxEntry>)
        requires
            self.wf(),
        ensures
            match r {
                Some(e) => self@.contains_key(key@) && *e == self@[key@],
                None => !self@.contains_key(key@),
            },
    {
        self.entries.get(&key.0)
    }

    /// Number of entries in the merged index.
    pub fn len(&self) -> (n: usize)
        requires
            self.wf(),
        ensures
            n == self@.dom().len(),
    {
        self.entries.len()
    }

    /// Whether the merged index has no entries.
    pub fn is_empty(&self) -> (b: bool)
        requires
            self.wf(),
        ensures
            b == (self@.dom().len() == 0),
    {
        self.entries.len() == 0
    }

    /// All entries in the merged index, each key once, in no particular
    /// order.
    pub fn entries(&self) -> (r: Vec<(TruncatedKey, IdxEntry)>)
        requires
            self.wf(),
        ensures
            lists_entries(r@, self@),
            r@.len() == self@.dom().len(),
    {
        let rows = self.entries.rows();
        let mut r: Vec<(TruncatedKey, IdxEntry)> = Vec::new();
        let mut i: usize = 0;
        while i < rows.len()
            invariant
                0 <= i <= rows@.len(),
                r@.len() == i,
                forall|j: int|
                    0 <= j < i ==> (#[trigger] r@[j]).0@ == rows@[j].0@ && r@[j].1 == rows@[j].1,
            decreases rows@.len() - i,
        {
            r.push((TruncatedKey(rows[i].0), rows[i].1));
            i += 1;
        }
        assert(entry_keys(r@) =~= keymap::row_keys(rows@));
        r
    }
}

/// The keys of entries, in their order.
pub open spec fn entry_keys(entries: Seq<(TruncatedKey, IdxEntry)>) -> Seq<Seq<u8>> {
    Seq::new(entries.len(), |i: int| entries[i].0@)
}

/// `entries` lists every entry of `m` once.
pub open spec fn lists_entries(
    entries: Seq<(TruncatedKey, IdxEntry)>,
    m: Map<Seq<u8>, IdxEntry>,
) -> bool {
    &&& entry_keys(entries).no_duplicates()
    &&& entry_keys(entries).to_set() == m.dom()
    &&& forall|i: int| 0 <= i < entries.len() ==> m[(#[trigger] entries[i]).0@] == entries[i].1
}

impl Default for LocalIndex {
    fn default() -> (r: LocalIndex)
        ensures
            r.wf(),
            r@ == Map::<Seq<u8>, IdxEntry>::empty(),
    {
        LocalIndex::new()
    }
}

proof fn lemma_merge_fails(files: Seq<Seq<u8>>, i: int)
    requires
        0 <= i <= files.len(),
        files_merged(files.subrange(0, i)) is Err,
    ensures
        files_merged(files) == files_merged(files.subrange(0, i)),
    decreases files.len() - i,
{
    if i < files.len() {
        assert(files.subrange(0, i + 1).drop_last() =~= files.subrange(0, i));
        lemma_merge_fails(files, i + 1);
    } else {
        assert(files.subrange(0, i) =~= files);
    }
}

// ---------------------------------------------------------------------
// Laws

/// What merging the entries of an index file maps a key to: the last entry
/// with that key that is no placeholder, and where there is none, what it was
/// mapped to before.
pub proof fn law_later_entry_wins(
    data: Seq<u8>,
    bits: nat,
    n: int,
    m: Map<Seq<u8>, IdxEntry>,
    key: Seq<u8>,
)
    requires
        0 <= n,
    ensures
        (forall|i: int|
            0 <= i < n ==> #[trigger] entry_key(data, i) != key || is_placeholder(data, i)) ==> (
        inserted(data, bits, n, m).contains_key(key) == m.contains_key(key) && inserted(
            data,
            bits,
            n,
            m,
        )[key] == m[key]),
        forall|i: int|
            0 <= i < n && #[trigger] entry_key(data, i) == key && !is_placeholder(data, i) && (
            forall|j: int|
                i < j < n ==> #[trigger] entry_key(data, j) != key || is_placeholder(data, j))
                ==> inserted(data, bits, n, m).contains_key(key) && inserted(data, bits, n, m)[key]
                == entry_at(data, i, bits),
    decreases n,
{
    if n > 0 {
        law_later_entry_wins(data, bits, n - 1, m, key);
        let last = entry_key(data, n - 1);
        assert(inserted(data, bits, n, m) == if is_placeholder(data, n - 1) {
            inserted(data, bits, n - 1, m)
        } else {
            inserted(data, bits, n - 1, m).insert(last, entry_at(data, n - 1, bits))
        });
        assert forall|i: int|
            0 <= i < n && #[trigger] entry_key(data, i) == key && !is_placeholder(data, i) && (
            forall|j: int|
                i < j < n ==> #[trigger] entry_key(data, j) != key || is_placeholder(
                    data,
                    j,
                )) implies inserted(data, bits, n, m).contains_key(key) && inserted(
            data,
            bits,
            n,
            m,
        )[key] == entry_at(data, i, bits) by {}
    }
}

/// The entries of an entry array, one by one; bytes after the last whole one
/// belong to none.
pub open spec fn whole_entries(array: Seq<u8>) -> Seq<Seq<u8>> {
    Seq::new(
        (array.len() / 18) as nat,
        |i: int| Seq::new(18, |k: int| array[18 * i + k]),
    )
}

/// The hash that guards an entry array goes through the entries in their
/// order: each is hashed with the first word of the hash before it as the
/// first seed and the second word as the second, from zeros on, and the first
/// word of the last hash is the guard.
pub proof fn law_block_hash_goes_through_the_entries(array: Seq<u8>)
    ensures
        block_hash(array) == whole_entries(array).fold_left(
            (0u32, 0u32),
            |h: (u32, u32), e: Seq<u8>| jenkins::hash2(e, h.0, h.1),
        ).0,
{
    let n = array.len() as int / 18;
    lemma_chained(array, n);
    let all = whole_entries(array);
    assert(all.subrange(0, n) =~= all);
}

proof fn lemma_chained(array: Seq<u8>, n: int)
    requires
        0 <= n <= array.len() / 18,
    ensures
        chained_hash(array, n) == whole_entries(array).subrange(0, n).fold_left(
            (0u32, 0u32),
            |h: (u32, u32), e: Seq<u8>| jenkins::hash2(e, h.0, h.1),
        ),
    decreases n,
{
    let part = whole_entries(array).subrange(0, n);
    if n > 0 {
        lemma_chained(array, n - 1);
        assert(part.drop_last() =~= whole_entries(array).subrange(0, n - 1));
        assert(part.last() =~= array.subrange(18 * (n - 1), 18 * n));
    }
}

/// The guard of two entries, and of any number: a further entry is hashed
/// with both words of what came before.
pub proof fn law_block_hash_of_two(a: Seq<u8>, b: Seq<u8>)
    requires
        a.len() == 18,
        b.len() == 18,
    ensures
        block_hash(seq![]) == 0,
        block_hash(a) == jenkins::hash2(a, 0, 0).0,
        block_hash(a + b) == jenkins::hash2(
            b,
            jenkins::hash2(a, 0, 0).0,
            jenkins::hash2(a, 0, 0).1,
        ).0,
{
    reveal_with_fuel(chained_hash, 3);
    assert(a.subrange(0, 18) =~= a);
    let both = a + b;
    assert(both.subrange(0, 18) =~= a);
    assert(both.subrange(18, 36) =~= b);
    assert(chained_hash(both, 1) == jenkins::hash2(a, 0, 0));
}

/// The fields of the `i`-th entry, byte by byte: nine bytes of the key, five
/// of the storage offset with the most significant first, four of the size
/// with the least significant first. The storage offset is the archive number
/// above the offset in the archive.
pub proof fn law_entry_fields(data: Seq<u8>, i: int, bits: nat)
    requires
        0 <= i,
        0x28 + 18 * i + 18 <= data.len(),
    ensures
        ({
            let p = 0x28 + 18 * i;
            let storage = data[p + 9] * 0x1_0000_0000 + data[p + 10] * 0x100_0000 + data[p + 11]
                * 0x1_0000 + data[p + 12] * 0x100 + data[p + 13];
            let size = data[p + 14] + data[p + 15] * 0x100 + data[p + 16] * 0x1_0000 + data[p + 17]
                * 0x100_0000;
            let e = entry_at(data, i, bits);
            &&& entry_key(data, i) == Seq::new(9, |k: int| data[p + k])
            &&& e.encoded_size == size
            &&& is_placeholder(data, i) == (size <= 30)
            &&& !is_bad(data, i, bits) && !is_placeholder(data, i) && bits < 64 ==> {
                &&& e.archive * pow2(bits) + e.offset == storage
                &&& e.offset < pow2(bits)
            }
            &&& !is_placeholder(data, i) ==> is_bad(data, i, bits) == (storage >= 0x1_0000 * pow2(
                bits,
            ))
        }),
{
    let p = 0x28 + 18 * i;
    bytes::law_big_endian(data, p + 9);
    bytes::law_little_endian(data, p + 14);
    assert(entry_key(data, i) =~= Seq::new(9, |k: int| data[p + k]));
    vstd::arithmetic::power2::lemma_pow2_pos(bits);
    let s = entry_storage(data, i) as int;
    let u = pow2(bits) as int;
    vstd::arithmetic::div_mod::lemma_fundamental_div_mod(s, u);
    vstd::arithmetic::div_mod::lemma_mod_bound(s, u);
    assert(s % u <= s) by {
        vstd::arithmetic::div_mod::lemma_mod_decreases(s as nat, u as nat);
    }
    assert(u * (s / u) == (s / u) * u) by (nonlinear_arith);
    assert(s / u >= 0x1_0000 <==> s >= 0x1_0000 * u) by {
        if s / u >= 0x1_0000 {
            assert((s / u) * u >= 0x1_0000 * u) by (nonlinear_arith)
                requires
                    s / u >= 0x1_0000,
                    u > 0,
            ;
        } else {
            assert((s / u) * u + u <= 0x1_0000 * u) by (nonlinear_arith)
                requires
                    s / u + 1 <= 0x1_0000,
                    u > 0,
            ;
        }
    }
}

/// A hexadecimal digit with its value.
pub open spec fn is_digit_of(c: char, v: int) -> bool {
    ||| 0 <= v <= 9 && c as int == 0x30 + v
    ||| 10 <= v <= 15 && (c as int == 0x61 + v - 10 || c as int == 0x41 + v - 10)
}

/// An index file's name is ten hexadecimal digits, a dot and `idx` in any
/// case; the first digit is zero, the second is the bucket, and the other
/// eight are the version. Any other name is none.
pub proof fn law_index_name(name: Seq<char>, d: Seq<int>)
    requires
        d.len() == 10,
    ensures
        name.len() == 14 && name[10] == '.' && (name[11] == 'i' || name[11] == 'I') && (name[12]
            == 'd' || name[12] == 'D') && (name[13] == 'x' || name[13] == 'X') && d[0] == 0 && (
        forall|k: int| 0 <= k < 10 ==> is_digit_of(#[trigger] name[k], d[k])) ==> index_name(name)
            == Some(
            (
                d[1],
                d[2] * 0x1000_0000 + d[3] * 0x100_0000 + d[4] * 0x10_0000 + d[5] * 0x1_0000 + d[6]
                    * 0x1000 + d[7] * 0x100 + d[8] * 0x10 + d[9],
            ),
        ),
        index_name(name) is Some ==> {
            &&& name.len() == 14
            &&& name[10] == '.'
            &&& name[0] == '0'
            &&& name[11] == 'i' || name[11] == 'I'
            &&& name[12] == 'd' || name[12] == 'D'
            &&& name[13] == 'x' || name[13] == 'X'
            &&& forall|k: int|
                0 <= k < 10 ==> is_digit_of(#[trigger] name[k], hex_char_value(name[k]))
        },
{
    let dot = text::last_index(name, '.');
    text::lemma_last_index(name, '.');
    let stem = name.subrange(0, dot);
    let ext = name.subrange(dot + 1, name.len() as int);
    if index_name(name) is Some {
        assert(text::ascii_lowered(ext) == seq!['i', 'd', 'x']);
        assert(text::ascii_lowered(ext).len() == 3);
        assert(text::ascii_lowered(ext)[0] == 'i' && text::ascii_lowered(ext)[1] == 'd'
            && text::ascii_lowered(ext)[2] == 'x');
        assert(ext[0] == name[11] && ext[1] == name[12] && ext[2] == name[13]);
        assert forall|k: int| 0 <= k < 10 implies is_digit_of(
            #[trigger] name[k],
            hex_char_value(name[k]),
        ) by {
            assert(stem[k] == name[k]);
            assert(is_hex_char(stem[k]));
            lemma_hex_value(name[k]);
        }
        let two = stem.subrange(0, 2);
        reveal_with_fuel(hex_number, 3);
        assert(two.drop_last().drop_last() =~= seq![]);
        assert(two.drop_last().last() == name[0]);
        assert(two.last() == name[1]);
        assert(is_digit_of(name[0], hex_char_value(name[0])));
        assert(is_digit_of(name[1], hex_char_value(name[1])));
    }
    if name.len() == 14 && name[10] == '.' && (name[11] == 'i' || name[11] == 'I') && (name[12]
        == 'd' || name[12] == 'D') && (name[13] == 'x' || name[13] == 'X') && d[0] == 0 && (forall|
        k: int,
    |
        0 <= k < 10 ==> is_digit_of(#[trigger] name[k], d[k])) {
        assert(dot == 10);
        assert(text::ascii_lowered(ext) =~= seq!['i', 'd', 'x']);
        assert forall|k: int| 0 <= k < stem.len() implies is_hex_char(#[trigger] stem[k])
            && hex_char_value(stem[k]) == d[k] by {
            assert(stem[k] == name[k]);
            assert(is_digit_of(name[k], d[k]));
            lemma_digit_value(name[k], d[k]);
        }
        let two = stem.subrange(0, 2);
        let rest = stem.subrange(2, 10);
        lemma_hex_number(rest, d.subrange(2, 10), 8);
        lemma_hex_number(two, d.subrange(0, 2), 2);
        assert(rest.subrange(0, 8) =~= rest);
        assert(two.subrange(0, 2) =~= two);
    }
}

proof fn lemma_hex_value(c: char)
    requires
        is_hex_char(c),
    ensures
        is_digit_of(c, hex_char_value(c)),
{
}

proof fn lemma_digit_value(c: char, v: int)
    requires
        is_digit_of(c, v),
    ensures
        is_hex_char(c),
        hex_char_value(c) == v,
{
}

proof fn lemma_hex_number(s: Seq<char>, d: Seq<int>, n: int)
    requires
        0 <= n <= 8,
        s.len() == d.len() >= n,
        forall|k: int| 0 <= k < s.len() ==> hex_char_value(#[trigger] s[k]) == d[k],
    ensures
        n == 2 ==> hex_number(s.subrange(0, 2)) == d[0] * 0x10 + d[1],
        n == 8 ==> hex_number(s.subrange(0, 8)) == d[0] * 0x1000_0000 + d[1] * 0x100_0000 + d[2]
            * 0x10_0000 + d[3] * 0x1_0000 + d[4] * 0x1000 + d[5] * 0x100 + d[6] * 0x10 + d[7],
{
    assert(s.subrange(0, 0) =~= seq![]);
    assert forall|k: int| 0 < k <= s.len() implies hex_number(#[trigger] s.subrange(0, k))
        == hex_number(s.subrange(0, k - 1)) * 16 + d[k - 1] by {
        assert(s.subrange(0, k).drop_last() =~= s.subrange(0, k - 1));
        assert(s.subrange(0, k).last() == s[k - 1]);
    }
    if n == 2 {
        assert(hex_number(s.subrange(0, 1)) == d[0]);
        assert(hex_number(s.subrange(0, 2)) == d[0] * 16 + d[1]);
    }
    if n == 8 {
        assert(hex_number(s.subrange(0, 1)) == d[0]);
        assert(hex_number(s.subrange(0, 2)) == d[0] * 16 + d[1]);
        assert(hex_number(s.subrange(0, 3)) == hex_number(s.subrange(0, 2)) * 16 + d[2]);
        assert(hex_number(s.subrange(0, 4)) == hex_number(s.subrange(0, 3)) * 16 + d[3]);
        assert(hex_number(s.subrange(0, 5)) == hex_number(s.subrange(0, 4)) * 16 + d[4]);
        assert(hex_number(s.subrange(0, 6)) == hex_number(s.subrange(0, 5)) * 16 + d[5]);
        assert(hex_number(s.subrange(0, 7)) == hex_number(s.subrange(0, 6)) * 16 + d[6]);
        assert(hex_number(s.subrange(0, 8)) == hex_number(s.subrange(0, 7)) * 16 + d[7]);
    }
}

/// Of the names of a bucket, the first of those with the highest version
/// wins: `i` is the winner exactly where its name is of the bucket, no name
/// of the bucket has a higher version, and none before it has the same.
pub proof fn law_highest_version_wins(names: Seq<Seq<char>>, bucket: int)
    ensures
        match winner(names, bucket) {
            Some((version, i)) => {
                &&& 0 <= i < names.len()
                &&& index_name(names[i]) == Some((bucket, version))
                &&& forall|j: int|
                    0 <= j < names.len() ==> (#[trigger] index_name(names[j]) matches Some((b, v))
                        ==> b == bucket ==> v < version || (v == version && i <= j))
            },
            None => forall|j: int|
                0 <= j < names.len() ==> (#[trigger] index_name(names[j]) matches Some((b, _))
                    ==> b != bucket),
        },
    decreases names.len(),
{
    if names.len() > 0 {
        let init = names.drop_last();
        law_highest_version_wins(init, bucket);
        assert(names[names.len() - 1] == names.last());
        match winner(init, bucket) {
            Some((version, i)) => {
                assert(init[i] == names[i]);
                assert forall|j: int| 0 <= j < init.len() implies (
                #[trigger] index_name(names[j]) matches Some((b, v)) ==> b == bucket ==> v < version
                    || (v == version && i <= j)) by {
                    assert(names[j] == init[j]);
                    assert(index_name(init[j]) == index_name(names[j]));
                }
            },
            None => {
                assert forall|j: int| 0 <= j < init.len() implies (
                #[trigger] index_name(names[j]) matches Some((b, _)) ==> b != bucket) by {
                    assert(names[j] == init[j]);
                    assert(index_name(init[j]) == index_name(names[j]));
                }
            },
        }
    }
}

/// The chosen names are the winners of the sixteen buckets, in bucket order,
/// and nothing else.
pub proof fn law_chosen_names(names: Seq<Seq<char>>)
    ensures
        winners(names, 16) == Seq::new(16, |b: int| winner(names, b)).filter(
            |w: Option<(int, int)>| w is Some,
        ).map_values(|w: Option<(int, int)>| names[(w->0).1]),
{
    lemma_winners(names, 16);
}

proof fn lemma_winners(names: Seq<Seq<char>>, n: int)
    requires
        0 <= n,
    ensures
        winners(names, n) == Seq::new(n as nat, |b: int| winner(names, b)).filter(
            |w: Option<(int, int)>| w is Some,
        ).map_values(|w: Option<(int, int)>| names[(w->0).1]),
    decreases n,
{
    reveal(Seq::filter);
    let all = Seq::new(n as nat, |b: int| winner(names, b));
    let some = |w: Option<(int, int)>| w is Some;
    let name = |w: Option<(int, int)>| names[(w->0).1];
    if n > 0 {
        lemma_winners(names, n - 1);
        assert(all.drop_last() =~= Seq::new((n - 1) as nat, |b: int| winner(names, b)));
        assert(winners(names, n) =~= all.filter(some).map_values(name));
    } else {
        assert(winners(names, n) =~= all.filter(some).map_values(name));
    }
}

/// The guard of an entry array that holds the sample entry twice.
pub proof fn law_sample_guard()
    ensures
        block_hash(jenkins::sample_entry() + jenkins::sample_entry()) == 0x7d85241b,
{
    jenkins::law_sample_hashes();
    law_block_hash_of_two(jenkins::sample_entry(), jenkins::sample_entry());
}

/// A file is accepted exactly where its bytes are those of a revision-7 index
/// file: the guarded header with its hash, the field widths, a segment size
/// from 16 to 39 bits, and an array of whole entries with its hash.
pub proof fn law_file_layout(data: Seq<u8>)
    requires
        data.len() >= 0x28,
    ensures
        ({
            let size = data[0x20] + data[0x21] * 0x100 + data[0x22] * 0x1_0000 + data[0x23]
                * 0x100_0000;
            let header_hash = data[4] + data[5] * 0x100 + data[6] * 0x1_0000 + data[7]
                * 0x100_0000;
            let array_hash = data[0x24] + data[0x25] * 0x100 + data[0x26] * 0x1_0000 + data[0x27]
                * 0x100_0000;
            let good = {
                &&& data[0] == 0x10 && data[1] == 0 && data[2] == 0 && data[3] == 0
                &&& jenkins::hash2(Seq::new(16, |k: int| data[8 + k]), 0, 0).0 == header_hash
                &&& data[8] == 7 && data[9] == 0 && data[11] == 0
                &&& data[12] == 4 && data[13] == 5 && data[14] == 9
                &&& 16 <= data[15] <= 39
                &&& size % 18 == 0
                &&& 0x28 + size <= usize::MAX
                &&& 0x28 + size <= data.len()
                &&& block_hash(Seq::new(size as nat, |k: int| data[0x28 + k])) == array_hash
            };
            match layout(data) {
                Ok(l) => good && l.segment_bits == data[15] && l.count == size / 18,
                Err(_) => !good,
            }
        }),
{
    bytes::law_little_endian(data, 0);
    bytes::law_little_endian(data, 4);
    bytes::law_little_endian(data, 8);
    bytes::law_little_endian(data, 0x20);
    bytes::law_little_endian(data, 0x24);
    let size = bytes::le_at(data, 0x20, 4) as int;
    assert(data.subrange(8, 24) =~= Seq::new(16, |k: int| data[8 + k]));
    if 0x28 + size <= data.len() {
        assert(data.subrange(0x28, 0x28 + size) =~= Seq::new(
            size as nat,
            |k: int| data[0x28 + k],
        ));
    }
}

/// The `i`-th entry of an accepted file maps the key to something.
pub open spec fn maps_key(file: Seq<u8>, i: int, key: Seq<u8>) -> bool {
    &&& layout(file) is Ok
    &&& 0 <= i < (layout(file)->Ok_0).count
    &&& entry_key(file, i) == key
    &&& !is_placeholder(file, i)
}

/// The index of several files has the keys that their entries map, and no
/// other, and maps each to the last of those entries: the last in its file,
/// in the last of the files.
#[verifier::spinoff_prover]
#[verifier::rlimit(40)]
pub proof fn law_merged_index(files: Seq<Seq<u8>>, key: Seq<u8>)
    requires
        files_merged(files) is Ok,
    ensures
        ({
            let m = files_merged(files)->Ok_0;
            &&& (forall|f: int, i: int| 0 <= f < files.len() ==> !#[trigger] maps_key(files[f], i, key))
                ==> !m.contains_key(key)
            &&& forall|f: int, i: int|
                0 <= f < files.len() && #[trigger] maps_key(files[f], i, key) && (forall|j: int|
                    i < j ==> !#[trigger] maps_key(files[f], j, key)) && (forall|g: int, j: int|
                    f < g < files.len() ==> !#[trigger] maps_key(files[g], j, key)) ==> {
                    &&& m.contains_key(key)
                    &&& m[key] == entry_at(files[f], i, (layout(files[f])->Ok_0).segment_bits)
                }
        }),
    decreases files.len(),
{
    if files.len() > 0 {
        let n = files.len() - 1;
        let init = files.drop_last();
        let file = files.last();
        assert(files[n] == file);
        law_merged_index(init, key);
        let before = files_merged(init)->Ok_0;
        let l = layout(file)->Ok_0;
        let count = l.count as int;
        lemma_first_bad(file, l.segment_bits, count);
        let after = inserted(file, l.segment_bits, count, before);
        assert(files_merged(files) == Ok::<Map<Seq<u8>, IdxEntry>, ErrorView>(after));
        law_later_entry_wins(file, l.segment_bits, count, before, key);
        assert forall|f: int| 0 <= f < n implies #[trigger] init[f] == files[f] by {}
        if forall|f: int, i: int|
            0 <= f < files.len() ==> !#[trigger] maps_key(files[f], i, key) {
            assert forall|f: int, i: int| 0 <= f < init.len() implies !#[trigger] maps_key(
                init[f],
                i,
                key,
            ) by {
                assert(!maps_key(files[f], i, key));
            }
            assert forall|i: int| 0 <= i < count implies #[trigger] entry_key(file, i) != key
                || is_placeholder(file, i) by {
                assert(!maps_key(files[n], i, key));
            }
        }
        assert forall|f: int, i: int|
            0 <= f < files.len() && #[trigger] maps_key(files[f], i, key) && (forall|j: int|
                i < j ==> !#[trigger] maps_key(files[f], j, key)) && (forall|g: int, j: int|
                f < g < files.len() ==> !#[trigger] maps_key(files[g], j, key)) implies {
            &&& after.contains_key(key)
            &&& after[key] == entry_at(files[f], i, (layout(files[f])->Ok_0).segment_bits)
        } by {
            if f == n {
                assert forall|j: int| i < j < count implies #[trigger] entry_key(file, j) != key
                    || is_placeholder(file, j) by {
                    assert(!maps_key(files[f], j, key));
                }
            } else {
                assert(init[f] == files[f]);
                assert(maps_key(init[f], i, key));
                assert forall|j: int| i < j implies !#[trigger] maps_key(init[f], j, key) by {
                    assert(!maps_key(files[f], j, key));
                }
                assert forall|g: int, j: int| f < g < init.len() implies !#[trigger] maps_key(
                    init[g],
                    j,
                    key,
                ) by {
                    assert(!maps_key(files[g], j, key));
                }
                assert forall|j: int| 0 <= j < count implies #[trigger] entry_key(file, j) != key
                    || is_placeholder(file, j) by {
                    assert(!maps_key(files[n], j, key));
                }
            }
        }
    }
}

/// The number of entries that the files hold together, placeholders included.
pub open spec fn entry_total(files: Seq<Seq<u8>>) -> nat
    decreases files.len(),
{
    if files.len() == 0 {
        0
    } else {
        entry_total(files.drop_last()) + (match layout(files.last()) {
            Ok(l) => l.count,
            Err(_) => 0,
        })
    }
}

/// A file is accepted, and each of its entries names an archive that has a
/// number of 16 bits.
pub open spec fn is_good_file(file: Seq<u8>) -> bool {
    &&& layout(file) is Ok
    &&& forall|i: int|
        0 <= i < (layout(file)->Ok_0).count ==> !#[trigger] is_bad(
            file,
            i,
            (layout(file)->Ok_0).segment_bits,
        )
}

/// Files that are all good, and that hold a million entries at most together,
/// are merged. Where one of them is not, or holds more than a million entries
/// alone, nothing is.
pub proof fn law_files_accepted(files: Seq<Seq<u8>>)
    ensures
        entry_total(files) <= 1_000_000 && (forall|f: int|
            0 <= f < files.len() ==> is_good_file(#[trigger] files[f])) ==> files_merged(
            files,
        ) is Ok,
        files_merged(files) is Ok ==> forall|f: int|
            0 <= f < files.len() ==> is_good_file(#[trigger] files[f]) && (layout(
                files[f],
            )->Ok_0).count <= 1_000_000,
        files_merged(files) matches Ok(m) ==> m.dom().finite() && m.dom().len() <= entry_total(
            files,
        ),
    decreases files.len(),
{
    if files.len() > 0 {
        let n = files.len() - 1;
        let init = files.drop_last();
        assert(files[n] == files.last());
        law_files_accepted(init);
        assert forall|f: int| 0 <= f < n implies #[trigger] init[f] == files[f] by {}
        if files_merged(init) is Ok {
            lemma_file_accepted(files.last(), files_merged(init)->Ok_0);
        }
        if files_merged(files) is Ok {
            assert forall|f: int| 0 <= f < files.len() implies is_good_file(#[trigger] files[f])
                && (layout(files[f])->Ok_0).count <= 1_000_000 by {
                if f < n {
                    assert(is_good_file(init[f]));
                }
            }
        }
    }
}

proof fn lemma_file_accepted(file: Seq<u8>, m: Map<Seq<u8>, IdxEntry>)
    requires
        m.dom().finite(),
    ensures
        file_status(file, m.dom().len()) is Ok <==> is_good_file(file) && m.dom().len() + (layout(
            file,
        )->Ok_0).count <= 1_000_000,
        layout(file) is Ok ==> {
            let after = file_merged(file, m);
            after.dom().finite() && after.dom().len() <= m.dom().len() + (layout(file)->Ok_0).count
        },
{
    if layout(file) is Ok {
        let l = layout(file)->Ok_0;
        let bad = first_bad(file, l.segment_bits, l.count as int);
        lemma_first_bad(file, l.segment_bits, l.count as int);
        lemma_inserted_len(file, l.segment_bits, bad, m);
    }
}

proof fn lemma_inserted_len(data: Seq<u8>, bits: nat, n: int, m: Map<Seq<u8>, IdxEntry>)
    requires
        0 <= n,
        m.dom().finite(),
    ensures
        inserted(data, bits, n, m).dom().finite(),
        inserted(data, bits, n, m).dom().len() <= m.dom().len() + n,
    decreases n,
{
    if n > 0 {
        lemma_inserted_len(data, bits, n - 1, m);
        let before = inserted(data, bits, n - 1, m);
        let k = entry_key(data, n - 1);
        assert(before.insert(k, entry_at(data, n - 1, bits)).dom() =~= before.dom().insert(k));
    }
}

} // verus!
