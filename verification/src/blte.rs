//! BLTE decoder.
//!
//! BLTE ("Block Table Encoded") is the container format every file stored in
//! a CASC data archive is wrapped in. A BLTE buffer has an optional chunk
//! table header followed by one or more chunks, each independently encoded
//! (raw, zlib-compressed, or a nested BLTE stream) and individually
//! checksummed.
//!
//! Layout (all multi-byte integers are big-endian):
//!
//! ```text
//! 0x00  magic            b"BLTE"
//! 0x04  header_size      u32
//! ```
//!
//! If `header_size == 0`, there is no chunk table: the rest of the input is a
//! single chunk (mode byte + payload) of unknown decompressed size.
//!
//! If `header_size > 0`, it is followed by a chunk table:
//!
//! ```text
//! 0x08  flags            u8      (must be 0x0F)
//! 0x09  chunk_count      u24
//! 0x0c  chunk_count entries of:
//!         compressed_size    u32  (includes the 1-byte mode)
//!         decompressed_size  u32
//!         md5                [u8; 16]  (of the compressed chunk data)
//! ```
//!
//! `header_size` must equal `8 + 4 + 24 * chunk_count`. Chunk data follows
//! immediately after the header, chunks back-to-back.
//!
//! Each chunk is a 1-byte mode followed by a payload:
//! - `N`: raw data, copied through.
//! - `Z`: a zlib stream.
//! - `F`: a nested BLTE stream (recursed into).
//! - `E`: Salsa20/ARC4-encrypted data (unsupported here).

use miniz_oxide::deflate::compress_to_vec_zlib;
use miniz_oxide::inflate::decompress_to_vec_zlib_with_limit;
use vstd::prelude::*;
use vstd::string::StringExecFns;

use crate::bytes;
use crate::digest;
use crate::error;
use crate::error::CascError;
use crate::error::ErrorView;
use crate::keys;
use crate::text;

verus! {

/// Size of one chunk table entry: compressed_size(4) + decompressed_size(4) + md5(16).
pub const CHUNK_ENTRY_SIZE: usize = 24;

/// Mode byte of a raw chunk, `N`.
pub const MODE_RAW: u8 = 0x4e;

/// Mode byte of a zlib chunk, `Z`.
pub const MODE_ZLIB: u8 = 0x5a;

/// Mode byte of a nested chunk, `F`.
pub const MODE_NESTED: u8 = 0x46;

/// Mode byte of an encrypted chunk, `E`.
pub const MODE_ENCRYPTED: u8 = 0x45;

/// Resource limits for a complete encoded CASC object.
///
/// These limits apply before allocating from attacker-controlled metadata and
/// while expanding compressed data. [`Default`] is deliberately conservative
/// for StarCraft: Remastered; callers that need different limits can use
/// [`decode_with_limits`].
#[derive(Debug, Clone, Copy, PartialEq, Eq)]
pub struct ReadLimits {
    /// Largest accepted encoded BLTE object.
    pub max_encoded_bytes: usize,
    /// Largest final decoded object, including nested `F` chunks.
    pub max_decoded_bytes: usize,
    /// Largest decoded output of a single BLTE chunk.
    pub max_chunk_decoded_bytes: usize,
    /// Largest number of entries in one BLTE chunk table.
    pub max_chunk_count: usize,
    /// Largest nesting depth of `F` chunks.
    pub max_nesting: u32,
    /// Largest up-front output reservation. Actual growth remains bounded by
    /// `max_decoded_bytes`.
    pub initial_reserve_bytes: usize,
}

/// The limits that apply where a caller gives none.
pub open spec fn default_limits() -> ReadLimits {
    ReadLimits {
        max_encoded_bytes: 0x1000_0000,
        max_decoded_bytes: 0x2000_0000,
        max_chunk_decoded_bytes: 0x400_0000,
        max_chunk_count: 16_384,
        max_nesting: 4,
        initial_reserve_bytes: 0x80_0000,
    }
}

impl Default for ReadLimits {
    fn default() -> (l: ReadLimits)
        ensures
            l == default_limits(),
    {
        ReadLimits {
            max_encoded_bytes: 256 * 1024 * 1024,
            max_decoded_bytes: 512 * 1024 * 1024,
            max_chunk_decoded_bytes: 64 * 1024 * 1024,
            max_chunk_count: 16_384,
            max_nesting: 4,
            initial_reserve_bytes: 8 * 1024 * 1024,
        }
    }
}

/// Metadata for a single chunk from a BLTE chunk table.
#[derive(Debug, Clone, Copy, PartialEq, Eq)]
pub struct ChunkInfo {
    /// Size in bytes of the chunk's encoded data (mode byte included).
    pub compressed_size: u32,
    /// Size in bytes of the chunk's decoded data.
    pub decompressed_size: u32,
    /// MD5 of the chunk's encoded data (mode byte included).
    pub md5: [u8; 16],
    /// Absolute offset of this chunk's encoded data within the original
    /// input buffer.
    pub offset: usize,
}

/// A parsed BLTE header: where each chunk lives in the input and how big it
/// decodes to.
#[derive(Debug, Clone, PartialEq, Eq)]
pub struct BlteHeader {
    chunks: Vec<ChunkInfo>,
    /// Offset of the start of chunk data (end of the header). Equal to the
    /// start of the single implicit chunk when there is no chunk table.
    data_start: usize,
}

// ---------------------------------------------------------------------
// What a header says

/// One entry of a chunk table.
pub struct ChunkView {
    pub compressed_size: nat,
    pub decompressed_size: nat,
    pub md5: Seq<u8>,
    pub offset: nat,
}

/// The content of a header.
pub struct HeaderView {
    pub chunks: Seq<ChunkView>,
    pub data_start: nat,
}

impl View for ChunkInfo {
    type V = ChunkView;

    open spec fn view(&self) -> ChunkView {
        ChunkView {
            compressed_size: self.compressed_size as nat,
            decompressed_size: self.decompressed_size as nat,
            md5: self.md5@,
            offset: self.offset as nat,
        }
    }
}

/// Chunk table entries, taken by their views.
pub open spec fn chunk_views(s: Seq<ChunkInfo>) -> Seq<ChunkView> {
    Seq::new(s.len(), |i: int| s[i]@)
}

impl View for BlteHeader {
    type V = HeaderView;

    closed spec fn view(&self) -> HeaderView {
        HeaderView { chunks: chunk_views(self.chunks@), data_start: self.data_start as nat }
    }
}

/// The magic bytes that every BLTE buffer starts with.
pub open spec fn magic() -> Seq<u8> {
    seq![0x42u8, 0x4cu8, 0x54u8, 0x45u8]
}

/// The encoded bytes of the first `i` chunks of the table in `data`.
pub open spec fn encoded_before(data: Seq<u8>, i: int) -> nat
    decreases i,
{
    if i <= 0 {
        0
    } else {
        encoded_before(data, i - 1) + bytes::be_at(data, 12 + 24 * (i - 1), 4)
    }
}

/// The `i`-th entry of the chunk table in `data`.
pub open spec fn chunk_at(data: Seq<u8>, i: int) -> ChunkView {
    let p = 12 + 24 * i;
    ChunkView {
        compressed_size: bytes::be_at(data, p, 4),
        decompressed_size: bytes::be_at(data, p + 4, 4),
        md5: data.subrange(p + 8, p + 24),
        offset: bytes::be_at(data, 4, 4) + encoded_before(data, i),
    }
}

/// What parsing the header of `data` gives.
pub open spec fn header(data: Seq<u8>, limits: ReadLimits) -> Result<HeaderView, ErrorView> {
    let what = "BLTE header"@;
    let size = bytes::be_at(data, 4, 4);
    let count = bytes::be_at(data, 9, 3);
    let expected = (12 + 24 * count) as nat;
    if data.len() > limits.max_encoded_bytes {
        Err(error::limit_view("BLTE encoded input"@, limits.max_encoded_bytes as nat))
    } else if data.len() < 8 {
        Err(error::malformed_view(what, "input shorter than 8 bytes"@))
    } else if data.subrange(0, 4) != magic() {
        Err(error::malformed_view(what, "bad magic"@))
    } else if size == 0 {
        Ok(HeaderView { chunks: seq![], data_start: 8 })
    } else if data.len() < size {
        Err(error::malformed_view(what, "input shorter than declared header_size"@))
    } else if data.len() < 12 {
        Err(error::malformed_view(what, "input too short for chunk count"@))
    } else if data[8] != 0x0f {
        Err(
            error::malformed_view(
                what,
                "unexpected chunk table flags 0x"@ + text::hex2(data[8]),
            ),
        )
    } else if count == 0 {
        Err(error::malformed_view(what, "chunk_count is zero"@))
    } else if count > limits.max_chunk_count {
        Err(error::limit_view("BLTE chunk count"@, limits.max_chunk_count as nat))
    } else if size != expected {
        Err(
            error::malformed_view(
                what,
                "header_size "@ + text::dec(size) + " does not match chunk_count "@ + text::dec(
                    count,
                ) + " (expected "@ + text::dec(expected) + ")"@,
            ),
        )
    } else if size + encoded_before(data, count as int) > usize::MAX {
        Err(error::malformed_view(what, "chunk size overflow"@))
    } else {
        Ok(HeaderView { chunks: Seq::new(count, |i: int| chunk_at(data, i)), data_start: size })
    }
}

proof fn lemma_encoded_before_grows(data: Seq<u8>, i: int, j: int)
    requires
        i <= j,
    ensures
        encoded_before(data, i) <= encoded_before(data, j),
    decreases j - i,
{
    if i < j {
        lemma_encoded_before_grows(data, i, j - 1);
    }
}

fn parse_with_limits(data: &[u8], limits: ReadLimits) -> (r: Result<BlteHeader, CascError>)
    ensures
        error::outcome(r) == header(data@, limits),
{
    if data.len() > limits.max_encoded_bytes {
        return Err(CascError::limit("BLTE encoded input", limits.max_encoded_bytes));
    }
    if data.len() < 8 {
        return Err(CascError::malformed("BLTE header", "input shorter than 8 bytes"));
    }
    let magic_bytes: [u8; 4] = [0x42, 0x4c, 0x54, 0x45];
    assert(magic_bytes@ =~= magic());
    if !text::same_bytes(bytes::cut(data, 0, 4), magic_bytes.as_slice()) {
        return Err(CascError::malformed("BLTE header", "bad magic"));
    }
    let header_size = bytes::be32(data, 4) as usize;
    if header_size == 0 {
        let h = BlteHeader { chunks: Vec::new(), data_start: 8 };
        assert(h@.chunks =~= seq![]);
        return Ok(h);
    }
    if data.len() < header_size {
        return Err(CascError::malformed("BLTE header", "input shorter than declared header_size"));
    }
    if data.len() < 12 {
        return Err(CascError::malformed("BLTE header", "input too short for chunk count"));
    }
    let flags = data[8];
    if flags != 0x0f {
        let digits = text::hex2_text(flags);
        let reason = text::cat2("unexpected chunk table flags 0x", digits.as_str());
        return Err(CascError::malformed("BLTE header", reason.as_str()));
    }
    proof {
        bytes::lemma_pow256();
    }
    let chunk_count = bytes::read_be(data, 9, 3) as usize;
    if chunk_count == 0 {
        return Err(CascError::malformed("BLTE header", "chunk_count is zero"));
    }
    if chunk_count > limits.max_chunk_count {
        return Err(CascError::limit("BLTE chunk count", limits.max_chunk_count));
    }
    let expected_header_size: usize = 12 + CHUNK_ENTRY_SIZE * chunk_count;
    if header_size != expected_header_size {
        let mut reason = "header_size ".to_owned();
        reason.append(text::dec_text(header_size as u64).as_str());
        reason.append(" does not match chunk_count ");
        reason.append(text::dec_text(chunk_count as u64).as_str());
        reason.append(" (expected ");
        reason.append(text::dec_text(expected_header_size as u64).as_str());
        reason.append(")");
        return Err(CascError::malformed("BLTE header", reason.as_str()));
    }
    let mut chunks: Vec<ChunkInfo> = Vec::new();
    let mut offset: usize = header_size;
    let mut i: usize = 0;
    while i < chunk_count
        invariant
            0 <= i <= chunk_count,
            chunks@.len() == i,
            header_size == 12 + 24 * chunk_count,
            header_size <= data@.len(),
            header_size == bytes::be_at(data@, 4, 4),
            chunk_count == bytes::be_at(data@, 9, 3),
            chunk_count < 0x100_0000,
            offset == header_size + encoded_before(data@, i as int),
            forall|j: int| 0 <= j < i ==> (#[trigger] chunks@[j])@ == chunk_at(data@, j),
            header_size + encoded_before(data@, chunk_count as int) > usize::MAX ==> header(
                data@,
                limits,
            ) == Err::<HeaderView, ErrorView>(
                error::malformed_view("BLTE header"@, "chunk size overflow"@),
            ),
        decreases chunk_count - i,
    {
        let p: usize = 12 + 24 * i;
        let compressed_size = bytes::be32(data, p);
        let decompressed_size = bytes::be32(data, p + 4);
        let md5 = keys::array16(bytes::cut(data, p + 8, p + 24));
        chunks.push(ChunkInfo { compressed_size, decompressed_size, md5, offset });
        proof {
            lemma_encoded_before_grows(data@, i + 1, chunk_count as int);
        }
        match offset.checked_add(compressed_size as usize) {
            Some(next) => {
                offset = next;
            },
            None => {
                return Err(CascError::malformed("BLTE header", "chunk size overflow"));
            },
        }
        i += 1;
    }
    let h = BlteHeader { chunks, data_start: header_size };
    assert(h@.chunks =~= Seq::new(chunk_count as nat, |i: int| chunk_at(data@, i)));
    Ok(h)
}

/// The sum of the declared decoded sizes.
pub open spec fn declared_total(chunks: Seq<ChunkView>) -> nat
    decreases chunks.len(),
{
    if chunks.len() == 0 {
        0
    } else {
        declared_total(chunks.drop_last()) + chunks.last().decompressed_size
    }
}

proof fn lemma_declared_total_grows(chunks: Seq<ChunkView>, i: int)
    requires
        0 <= i <= chunks.len(),
    ensures
        declared_total(chunks.subrange(0, i)) <= declared_total(chunks),
    decreases chunks.len(),
{
    if i < chunks.len() {
        lemma_declared_total_grows(chunks.drop_last(), i);
        assert(chunks.subrange(0, i) =~= chunks.drop_last().subrange(0, i));
    } else {
        assert(chunks.subrange(0, i) =~= chunks);
    }
}

impl BlteHeader {
    /// Parses the header (magic + optional chunk table) of a BLTE buffer.
    ///
    /// Only the header bytes are required to be present; chunk data itself
    /// is not validated here.
    pub fn parse(data: &[u8]) -> (r: Result<BlteHeader, CascError>)
        ensures
            error::outcome(r) == header(data@, default_limits()),
    {
        parse_with_limits(data, ReadLimits::default())
    }

    /// Total decompressed size of all chunks combined, or `None` if the
    /// input has no chunk table (`header_size == 0`), in which case the
    /// decompressed size isn't known without decoding.
    pub fn total_decompressed_size(&self) -> (r: Option<u64>)
        ensures
            match r {
                Some(n) => self@.chunks.len() > 0 && n == declared_total(self@.chunks),
                None => self@.chunks.len() == 0 || declared_total(self@.chunks) > u64::MAX,
            },
    {
        if self.chunks.len() == 0 {
            return None;
        }
        let ghost all = self@.chunks;
        let mut sum: u64 = 0;
        let mut i: usize = 0;
        assert(all.subrange(0, 0) =~= seq![]);
        while i < self.chunks.len()
            invariant
                0 <= i <= self.chunks@.len(),
                all == chunk_views(self.chunks@),
                all == self@.chunks,
                sum == declared_total(all.subrange(0, i as int)),
            decreases self.chunks@.len() - i,
        {
            proof {
                lemma_declared_total_grows(all, i + 1);
                assert(all.subrange(0, i + 1).drop_last() =~= all.subrange(0, i as int));
            }
            match sum.checked_add(self.chunks[i].decompressed_size as u64) {
                Some(next) => {
                    sum = next;
                },
                None => {
                    return None;
                },
            }
            i += 1;
        }
        assert(all.subrange(0, i as int) =~= all);
        Some(sum)
    }

    /// The chunk table entries, in order. Empty when `header_size == 0`.
    pub fn chunks(&self) -> (s: &[ChunkInfo])
        ensures
            chunk_views(s@) == self@.chunks,
    {
        self.chunks.as_slice()
    }

    /// Offset in the input at which chunk data begins (i.e. the end of the
    /// header).
    pub fn data_start(&self) -> (n: usize)
        ensures
            n == self@.data_start,
    {
        self.data_start
    }
}

// ---------------------------------------------------------------------
// zlib

/// What inflating the zlib stream `data` into at most `limit` bytes gives:
/// the bytes, or the text of the error.
pub uninterp spec fn inflated(data: Seq<u8>, limit: nat) -> Result<Seq<u8>, Seq<char>>;

/// The stream `z` inflates to `data` under `limit` and under every larger
/// limit.
pub open spec fn inflates_from(z: Seq<u8>, limit: nat, data: Seq<u8>) -> bool {
    forall|more: nat|
        limit <= more <= usize::MAX ==> #[trigger] inflated(z, more) == Ok::<Seq<u8>, Seq<char>>(
            data,
        )
}

/// miniz_oxide's `decompress_to_vec_zlib_with_limit` inflates a zlib stream;
/// what it gives depends on the stream and the limit alone. An output is
/// never longer than the limit, which only bounds how far the output may
/// grow: a stream that inflates under one limit inflates alike under any
/// larger one.
#[verifier::external_body]
fn inflate(data: &[u8], limit: usize) -> (r: Result<Vec<u8>, String>)
    ensures
        match r {
            Ok(v) => inflated(data@, limit as nat) == Ok::<Seq<u8>, Seq<char>>(v@)
                && inflates_from(data@, limit as nat, v@) && v@.len() <= limit,
            Err(s) => inflated(data@, limit as nat) == Err::<Seq<u8>, Seq<char>>(s@),
        },
{
    decompress_to_vec_zlib_with_limit(data, limit).map_err(|e| format!("{e:?}"))
}

/// The zlib stream `z` inflates to `data` under every limit that `data` fits
/// in.
pub open spec fn inflates_to(z: Seq<u8>, data: Seq<u8>) -> bool {
    forall|limit: nat|
        data.len() <= limit <= usize::MAX ==> #[trigger] inflated(z, limit) == Ok::<
            Seq<u8>,
            Seq<char>,
        >(data)
}

/// The zlib stream that compressing `data` gives.
pub uninterp spec fn compressed(data: Seq<u8>) -> Seq<u8>;

/// miniz_oxide's `compress_to_vec_zlib` at level 6 writes a zlib stream that
/// depends on `data` alone and inflates to `data` again, under every limit
/// that `data` fits in.
#[verifier::external_body]
fn deflate(data: &[u8]) -> (z: Vec<u8>)
    ensures
        z@ == compressed(data@),
        inflates_to(z@, data@),
{
    compress_to_vec_zlib(data, 6)
}

/// Compresses `data` into a zlib stream, as the payload of a `Z` chunk.
pub fn zlib(data: &[u8]) -> (z: Vec<u8>)
    ensures
        z@ == compressed(data@),
        inflates_to(z@, data@),
{
    deflate(data)
}

// ---------------------------------------------------------------------
// What a buffer decodes to

/// Whether a decoded chunk of `size` bytes is within the limits.
pub open spec fn output_status(size: nat, limits: ReadLimits, remaining: nat) -> Result<
    (),
    ErrorView,
> {
    if size > limits.max_chunk_decoded_bytes {
        Err(error::limit_view("BLTE decoded chunk"@, limits.max_chunk_decoded_bytes as nat))
    } else if size > remaining {
        Err(error::limit_view("BLTE decoded output"@, remaining))
    } else {
        Ok(())
    }
}

/// The error for a chunk whose decoded length is not the declared one.
pub open spec fn size_mismatch(label: Seq<char>, got: nat, declared: nat) -> ErrorView {
    error::malformed_view(
        "BLTE chunk"@,
        label + text::dec(got) + " does not match declared decompressed_size "@ + text::dec(
            declared,
        ),
    )
}

/// What a decoded chunk body gives once its length has been checked.
pub open spec fn accepted(
    body: Seq<u8>,
    size: Option<nat>,
    limits: ReadLimits,
    remaining: nat,
    label: Seq<char>,
) -> Result<Seq<u8>, ErrorView> {
    if size is Some && body.len() != size->0 {
        Err(size_mismatch(label, body.len(), size->0))
    } else {
        match output_status(body.len(), limits, remaining) {
            Err(e) => Err(e),
            Ok(_) => Ok(body),
        }
    }
}

/// The limit on the output of a chunk that is expanded.
pub open spec fn expand_limit(size: Option<nat>, limits: ReadLimits, remaining: nat) -> nat {
    if size is Some {
        size->0
    } else if remaining <= limits.max_chunk_decoded_bytes {
        remaining
    } else {
        limits.max_chunk_decoded_bytes as nat
    }
}

/// What decoding one chunk gives. `size` and `md5` are what the chunk table
/// declares, where there is one; `remaining` is how much the whole output may
/// still grow.
pub open spec fn chunk_bytes(
    encoded: Seq<u8>,
    size: Option<nat>,
    md5: Option<Seq<u8>>,
    depth: nat,
    limits: ReadLimits,
    remaining: nat,
) -> Result<Seq<u8>, ErrorView>
    decreases encoded.len(), 1nat, 0nat,
{
    let what = "BLTE chunk"@;
    if md5 is Some && digest::digest(encoded) != md5->0 {
        Err(ErrorView::ChecksumMismatch(what))
    } else if encoded.len() == 0 {
        Err(error::malformed_view(what, "empty chunk (missing mode byte)"@))
    } else {
        let payload = encoded.subrange(1, encoded.len() as int);
        if encoded[0] == MODE_RAW {
            accepted(payload, size, limits, remaining, "mode 'N' payload length "@)
        } else if encoded[0] == MODE_ZLIB {
            if size is Some && output_status(size->0, limits, remaining) is Err {
                Err(output_status(size->0, limits, remaining)->Err_0)
            } else {
                match inflated(payload, expand_limit(size, limits, remaining)) {
                    Err(e) => Err(error::malformed_view(what, "zlib inflate failed: "@ + e)),
                    Ok(body) => accepted(
                        body,
                        size,
                        limits,
                        remaining,
                        "mode 'Z' decompressed length "@,
                    ),
                }
            }
        } else if encoded[0] == MODE_NESTED {
            if depth >= limits.max_nesting {
                Err(
                    error::malformed_view(
                        what,
                        "nested BLTE recursion exceeds max depth "@ + text::dec(
                            limits.max_nesting as nat,
                        ),
                    ),
                )
            } else if size is Some && output_status(size->0, limits, remaining) is Err {
                Err(output_status(size->0, limits, remaining)->Err_0)
            } else {
                match decoded(payload, depth + 1, limits, expand_limit(size, limits, remaining)) {
                    Err(e) => Err(e),
                    Ok(body) => accepted(
                        body,
                        size,
                        limits,
                        remaining,
                        "mode 'F' decoded length "@,
                    ),
                }
            }
        } else if encoded[0] == MODE_ENCRYPTED {
            Err(
                error::unsupported_view(
                    what,
                    "encrypted (Salsa20/ARC4) chunks are not supported"@,
                ),
            )
        } else {
            Err(error::unsupported_view(what, "mode 0x"@ + text::hex2(encoded[0])))
        }
    }
}

/// `r` with `head` put in front of its bytes.
pub open spec fn prepended(head: Seq<u8>, r: Result<Seq<u8>, ErrorView>) -> Result<
    Seq<u8>,
    ErrorView,
> {
    match r {
        Ok(tail) => Ok(head + tail),
        Err(e) => Err(e),
    }
}

/// What decoding the chunks of a table gives, where `rest` is the chunk data
/// from the first of them on.
pub open spec fn chunk_list(
    rest: Seq<u8>,
    table: Seq<ChunkView>,
    depth: nat,
    limits: ReadLimits,
    remaining: nat,
) -> Result<Seq<u8>, ErrorView>
    decreases rest.len(), 2nat, table.len(),
{
    if table.len() == 0 {
        Ok(seq![])
    } else {
        let c = table[0];
        let n = if c.compressed_size <= rest.len() {
            c.compressed_size as int
        } else {
            rest.len() as int
        };
        match chunk_bytes(
            rest.subrange(0, n),
            Some(c.decompressed_size),
            Some(c.md5),
            depth,
            limits,
            remaining,
        ) {
            Err(e) => Err(e),
            Ok(body) => prepended(
                body,
                chunk_list(
                    rest.subrange(n, rest.len() as int),
                    table.drop_first(),
                    depth,
                    limits,
                    (remaining - body.len()) as nat,
                ),
            ),
        }
    }
}

/// Where the last chunk of a table ends.
pub open spec fn chunks_end(h: HeaderView) -> nat {
    h.chunks.last().offset + h.chunks.last().compressed_size
}

/// What decoding the buffer `data` at a nesting depth gives, where the output
/// may have at most `output_limit` bytes.
pub open spec fn decoded(
    data: Seq<u8>,
    depth: nat,
    limits: ReadLimits,
    output_limit: nat,
) -> Result<Seq<u8>, ErrorView>
    decreases data.len(), 0nat, 0nat,
{
    proof {
        lemma_header(data, limits);
    }
    match header(data, limits) {
        Err(e) => Err(e),
        Ok(h) => {
            let body = data.subrange(h.data_start as int, data.len() as int);
            if h.chunks.len() == 0 {
                chunk_bytes(body, None, None, depth, limits, output_limit)
            } else if declared_total(h.chunks) > usize::MAX {
                Err(error::malformed_view("BLTE header"@, "decoded size overflow"@))
            } else if chunks_end(h) != data.len() {
                Err(
                    error::malformed_view(
                        "BLTE chunk data"@,
                        "declared chunks end at byte "@ + text::dec(chunks_end(h))
                            + ", but input length is "@ + text::dec(data.len()),
                    ),
                )
            } else if declared_total(h.chunks) > output_limit {
                Err(error::limit_view("BLTE decoded output"@, output_limit))
            } else if exists|i: int|
                0 <= i < h.chunks.len() && (#[trigger] h.chunks[i]).decompressed_size
                    > limits.max_chunk_decoded_bytes {
                Err(
                    error::limit_view(
                        "BLTE decoded chunk"@,
                        limits.max_chunk_decoded_bytes as nat,
                    ),
                )
            } else {
                chunk_list(body, h.chunks, depth, limits, output_limit)
            }
        },
    }
}

/// What a header that parses says of the buffer it stands in.
pub proof fn lemma_header(data: Seq<u8>, limits: ReadLimits)
    ensures
        header(data, limits) matches Ok(h) ==> {
            &&& 8 <= h.data_start <= data.len() <= limits.max_encoded_bytes
            &&& h.chunks.len() > 0 ==> chunks_end(h) == h.data_start + encoded_before(
                data,
                h.chunks.len() as int,
            )
            &&& chunks_end(h) <= usize::MAX || h.chunks.len() == 0
            &&& forall|i: int|
                0 <= i < h.chunks.len() ==> (#[trigger] h.chunks[i]).offset == h.data_start
                    + encoded_before(data, i)
            &&& forall|i: int|
                0 <= i < h.chunks.len() ==> encoded_before(data, i + 1) == encoded_before(data, i)
                    + (#[trigger] h.chunks[i]).compressed_size
        },
{
}

/// No limit of `b` is smaller than that of `a`.
pub open spec fn no_smaller(a: ReadLimits, b: ReadLimits) -> bool {
    &&& a.max_encoded_bytes <= b.max_encoded_bytes
    &&& a.max_decoded_bytes <= b.max_decoded_bytes
    &&& a.max_chunk_decoded_bytes <= b.max_chunk_decoded_bytes
    &&& a.max_chunk_count <= b.max_chunk_count
    &&& a.max_nesting <= b.max_nesting
}

/// Decoding one chunk gives `v` under these limits and under all that are no
/// smaller.
#[verifier::opaque]
pub open spec fn chunk_stands(
    encoded: Seq<u8>,
    size: Option<nat>,
    md5: Option<Seq<u8>>,
    depth: nat,
    limits: ReadLimits,
    remaining: nat,
    v: Seq<u8>,
) -> bool {
    forall|l: ReadLimits, r: nat|
        no_smaller(limits, l) && remaining <= r <= usize::MAX ==> #[trigger] chunk_bytes(
            encoded,
            size,
            md5,
            depth,
            l,
            r,
        ) == Ok::<Seq<u8>, ErrorView>(v)
}

/// Decoding a buffer gives `v` under these limits and under all that are no
/// smaller.
#[verifier::opaque]
pub open spec fn decoded_stands(
    data: Seq<u8>,
    depth: nat,
    limits: ReadLimits,
    output_limit: nat,
    v: Seq<u8>,
) -> bool {
    forall|l: ReadLimits, r: nat|
        no_smaller(limits, l) && output_limit <= r <= usize::MAX ==> #[trigger] decoded(
            data,
            depth,
            l,
            r,
        ) == Ok::<Seq<u8>, ErrorView>(v)
}

/// Decoding the chunks of `table` starts with `head`, and what follows is the
/// decoding of the chunks of `rows`, under these limits and under all that
/// are no smaller.
#[verifier::opaque]
spec fn list_stands(
    all: Seq<u8>,
    table: Seq<ChunkView>,
    rest: Seq<u8>,
    rows: Seq<ChunkView>,
    depth: nat,
    limits: ReadLimits,
    output_limit: nat,
    head: Seq<u8>,
) -> bool {
    forall|l: ReadLimits, r: nat|
        no_smaller(limits, l) && output_limit <= r <= usize::MAX ==> #[trigger] chunk_list(
            all,
            table,
            depth,
            l,
            r,
        ) == prepended(head, chunk_list(rest, rows, depth, l, (r - head.len()) as nat))
}

proof fn lemma_raw_stands(
    encoded: Seq<u8>,
    size: Option<nat>,
    md5: Option<Seq<u8>>,
    depth: nat,
    limits: ReadLimits,
    remaining: nat,
    v: Seq<u8>,
)
    requires
        encoded.len() > 0,
        encoded[0] == MODE_RAW,
        chunk_bytes(encoded, size, md5, depth, limits, remaining) == Ok::<Seq<u8>, ErrorView>(v),
    ensures
        chunk_stands(encoded, size, md5, depth, limits, remaining, v),
{
    reveal(chunk_stands);
}

proof fn lemma_zlib_stands(
    encoded: Seq<u8>,
    size: Option<nat>,
    md5: Option<Seq<u8>>,
    depth: nat,
    limits: ReadLimits,
    remaining: nat,
    v: Seq<u8>,
)
    requires
        encoded.len() > 0,
        encoded[0] == MODE_ZLIB,
        chunk_bytes(encoded, size, md5, depth, limits, remaining) == Ok::<Seq<u8>, ErrorView>(v),
        size is Some ==> size->0 <= usize::MAX,
        inflates_from(
            encoded.subrange(1, encoded.len() as int),
            expand_limit(size, limits, remaining),
            v,
        ),
    ensures
        chunk_stands(encoded, size, md5, depth, limits, remaining, v),
{
    reveal(chunk_stands);
    let payload = encoded.subrange(1, encoded.len() as int);
    assert forall|l: ReadLimits, r: nat|
        no_smaller(limits, l) && remaining <= r <= usize::MAX implies #[trigger] chunk_bytes(
        encoded,
        size,
        md5,
        depth,
        l,
        r,
    ) == Ok::<Seq<u8>, ErrorView>(v) by {
        assert(inflated(payload, expand_limit(size, l, r)) == Ok::<Seq<u8>, Seq<char>>(v));
    }
}

proof fn lemma_nested_stands(
    encoded: Seq<u8>,
    size: Option<nat>,
    md5: Option<Seq<u8>>,
    depth: nat,
    limits: ReadLimits,
    remaining: nat,
    v: Seq<u8>,
)
    requires
        encoded.len() > 0,
        encoded[0] == MODE_NESTED,
        chunk_bytes(encoded, size, md5, depth, limits, remaining) == Ok::<Seq<u8>, ErrorView>(v),
        size is Some ==> size->0 <= usize::MAX,
        decoded_stands(
            encoded.subrange(1, encoded.len() as int),
            depth + 1,
            limits,
            expand_limit(size, limits, remaining),
            v,
        ),
    ensures
        chunk_stands(encoded, size, md5, depth, limits, remaining, v),
{
    reveal(chunk_stands);
    reveal(decoded_stands);
    let payload = encoded.subrange(1, encoded.len() as int);
    assert forall|l: ReadLimits, r: nat|
        no_smaller(limits, l) && remaining <= r <= usize::MAX implies #[trigger] chunk_bytes(
        encoded,
        size,
        md5,
        depth,
        l,
        r,
    ) == Ok::<Seq<u8>, ErrorView>(v) by {
        assert(decoded(payload, depth + 1, l, expand_limit(size, l, r)) == Ok::<
            Seq<u8>,
            ErrorView,
        >(v));
    }
}

proof fn lemma_header_stands(data: Seq<u8>, limits: ReadLimits, l: ReadLimits)
    requires
        header(data, limits) is Ok,
        no_smaller(limits, l),
    ensures
        header(data, l) == header(data, limits),
{
}

proof fn lemma_plain_stands(
    data: Seq<u8>,
    depth: nat,
    limits: ReadLimits,
    output_limit: nat,
    v: Seq<u8>,
)
    requires
        header(data, limits) matches Ok(h) && h.chunks.len() == 0 && chunk_stands(
            data.subrange(h.data_start as int, data.len() as int),
            None,
            None,
            depth,
            limits,
            output_limit,
            v,
        ),
    ensures
        decoded_stands(data, depth, limits, output_limit, v),
{
    reveal(chunk_stands);
    reveal(decoded_stands);
    assert forall|l: ReadLimits, r: nat|
        no_smaller(limits, l) && output_limit <= r <= usize::MAX implies #[trigger] decoded(
        data,
        depth,
        l,
        r,
    ) == Ok::<Seq<u8>, ErrorView>(v) by {
        lemma_header_stands(data, limits, l);
        let h = header(data, limits)->Ok_0;
        let body = data.subrange(h.data_start as int, data.len() as int);
        assert(chunk_bytes(body, None, None, depth, l, r) == Ok::<Seq<u8>, ErrorView>(v));
    }
}

proof fn lemma_table_stands(
    data: Seq<u8>,
    depth: nat,
    limits: ReadLimits,
    output_limit: nat,
    v: Seq<u8>,
)
    requires
        decoded(data, depth, limits, output_limit) == Ok::<Seq<u8>, ErrorView>(v),
        header(data, limits) matches Ok(h) && h.chunks.len() > 0 && list_stands(
            data.subrange(h.data_start as int, data.len() as int),
            h.chunks,
            seq![],
            seq![],
            depth,
            limits,
            output_limit,
            v,
        ),
    ensures
        decoded_stands(data, depth, limits, output_limit, v),
{
    reveal(list_stands);
    reveal(decoded_stands);
    let h = header(data, limits)->Ok_0;
    let body = data.subrange(h.data_start as int, data.len() as int);
    assert forall|l: ReadLimits, r: nat|
        no_smaller(limits, l) && output_limit <= r <= usize::MAX implies #[trigger] decoded(
        data,
        depth,
        l,
        r,
    ) == Ok::<Seq<u8>, ErrorView>(v) by {
        lemma_header_stands(data, limits, l);
        assert(v + seq![] =~= v);
        assert(chunk_list(body, h.chunks, depth, l, r) == Ok::<Seq<u8>, ErrorView>(v));
    }
}

proof fn lemma_list_starts(
    all: Seq<u8>,
    table: Seq<ChunkView>,
    depth: nat,
    limits: ReadLimits,
    output_limit: nat,
)
    ensures
        list_stands(all, table, all, table, depth, limits, output_limit, seq![]),
{
    reveal(list_stands);
    assert forall|l: ReadLimits, r: nat|
        no_smaller(limits, l) && output_limit <= r <= usize::MAX implies #[trigger] chunk_list(
        all,
        table,
        depth,
        l,
        r,
    ) == prepended(seq![], chunk_list(all, table, depth, l, (r - 0) as nat)) by {
        lemma_prepended_nothing(chunk_list(all, table, depth, l, r));
    }
}

proof fn lemma_list_goes_on(
    all: Seq<u8>,
    table: Seq<ChunkView>,
    rest: Seq<u8>,
    rows: Seq<ChunkView>,
    depth: nat,
    limits: ReadLimits,
    output_limit: nat,
    head: Seq<u8>,
    body: Seq<u8>,
)
    requires
        list_stands(all, table, rest, rows, depth, limits, output_limit, head),
        rows.len() > 0,
        rows[0].compressed_size <= rest.len(),
        head.len() + body.len() <= output_limit,
        chunk_stands(
            rest.subrange(0, rows[0].compressed_size as int),
            Some(rows[0].decompressed_size),
            Some(rows[0].md5),
            depth,
            limits,
            (output_limit - head.len()) as nat,
            body,
        ),
    ensures
        list_stands(
            all,
            table,
            rest.subrange(rows[0].compressed_size as int, rest.len() as int),
            rows.drop_first(),
            depth,
            limits,
            output_limit,
            head + body,
        ),
{
    reveal(list_stands);
    reveal(chunk_stands);
    let n = rows[0].compressed_size as int;
    let tail = rest.subrange(n, rest.len() as int);
    assert forall|l: ReadLimits, r: nat|
        no_smaller(limits, l) && output_limit <= r <= usize::MAX implies #[trigger] chunk_list(
        all,
        table,
        depth,
        l,
        r,
    ) == prepended(
        head + body,
        chunk_list(tail, rows.drop_first(), depth, l, (r - (head + body).len()) as nat),
    ) by {
        let left = (r - head.len()) as nat;
        lemma_chunk_list_step(rest, rows, depth, l, left);
        assert(chunk_bytes(
            rest.subrange(0, n),
            Some(rows[0].decompressed_size),
            Some(rows[0].md5),
            depth,
            l,
            left,
        ) == Ok::<Seq<u8>, ErrorView>(body));
        lemma_prepended_twice(
            head,
            body,
            chunk_list(tail, rows.drop_first(), depth, l, (left - body.len()) as nat),
        );
    }
}

proof fn lemma_list_ends(
    all: Seq<u8>,
    table: Seq<ChunkView>,
    rest: Seq<u8>,
    rows: Seq<ChunkView>,
    depth: nat,
    limits: ReadLimits,
    output_limit: nat,
    head: Seq<u8>,
)
    requires
        list_stands(all, table, rest, rows, depth, limits, output_limit, head),
        rows.len() == 0,
    ensures
        list_stands(all, table, seq![], seq![], depth, limits, output_limit, head),
{
    reveal(list_stands);
}

fn check_chunk_output(size: usize, limits: ReadLimits, remaining_output: usize) -> (r: Result<
    (),
    CascError,
>)
    ensures
        error::status(r) == output_status(size as nat, limits, remaining_output as nat),
{
    if size > limits.max_chunk_decoded_bytes {
        return Err(CascError::limit("BLTE decoded chunk", limits.max_chunk_decoded_bytes));
    }
    if size > remaining_output {
        return Err(CascError::limit("BLTE decoded output", remaining_output));
    }
    Ok(())
}

/// A size that may be absent, as a mathematical integer.
pub open spec fn size_view(size: Option<usize>) -> Option<nat> {
    match size {
        Some(n) => Some(n as nat),
        None => None,
    }
}

/// A digest that may be absent, by its view.
pub open spec fn md5_view(md5: Option<&[u8; 16]>) -> Option<Seq<u8>> {
    match md5 {
        Some(d) => Some(d@),
        None => None,
    }
}

/// Checks the length of a decoded chunk body and hands it on.
fn accept(
    body: Vec<u8>,
    expected_size: Option<usize>,
    limits: ReadLimits,
    remaining_output: usize,
    label: &'static str,
) -> (r: Result<Vec<u8>, CascError>)
    ensures
        error::outcome(r) == accepted(
            body@,
            size_view(expected_size),
            limits,
            remaining_output as nat,
            label@,
        ),
        r matches Ok(v) ==> v@.len() <= remaining_output,
{
    if let Some(expected) = expected_size {
        if body.len() != expected {
            let mut reason = label.to_owned();
            reason.append(text::dec_text(body.len() as u64).as_str());
            reason.append(" does not match declared decompressed_size ");
            reason.append(text::dec_text(expected as u64).as_str());
            return Err(CascError::malformed("BLTE chunk", reason.as_str()));
        }
    }
    match check_chunk_output(body.len(), limits, remaining_output) {
        Ok(_) => Ok(body),
        Err(e) => Err(e),
    }
}

/// The limit on the output of a chunk that is expanded.
fn expansion_limit(
    expected_size: Option<usize>,
    limits: ReadLimits,
    remaining_output: usize,
) -> (n: usize)
    ensures
        n == expand_limit(size_view(expected_size), limits, remaining_output as nat),
{
    match expected_size {
        Some(n) => n,
        None => if remaining_output <= limits.max_chunk_decoded_bytes {
            remaining_output
        } else {
            limits.max_chunk_decoded_bytes
        },
    }
}

fn decode_chunk_inner(
    encoded: &[u8],
    expected_size: Option<usize>,
    expected_md5: Option<&[u8; 16]>,
    depth: u32,
    limits: ReadLimits,
    remaining_output: usize,
) -> (r: Result<Vec<u8>, CascError>)
    ensures
        error::outcome(r) == chunk_bytes(
            encoded@,
            size_view(expected_size),
            md5_view(expected_md5),
            depth as nat,
            limits,
            remaining_output as nat,
        ),
        r matches Ok(v) ==> v@.len() <= remaining_output && chunk_stands(
            encoded@,
            size_view(expected_size),
            md5_view(expected_md5),
            depth as nat,
            limits,
            remaining_output as nat,
            v@,
        ),
    decreases encoded@.len(), 2nat,
{
    if let Some(expected) = expected_md5 {
        let actual = digest::md5_of(encoded);
        if !text::same_bytes(actual.as_slice(), expected.as_slice()) {
            return Err(CascError::ChecksumMismatch("BLTE chunk"));
        }
    }
    if encoded.len() == 0 {
        return Err(CascError::malformed("BLTE chunk", "empty chunk (missing mode byte)"));
    }
    let mode = encoded[0];
    let payload = bytes::cut(encoded, 1, encoded.len());
    if mode == MODE_RAW {
        let r = accept(
            bytes::copy(payload),
            expected_size,
            limits,
            remaining_output,
            "mode 'N' payload length ",
        );
        proof {
            if let Ok(v) = &r {
                lemma_raw_stands(
                    encoded@,
                    size_view(expected_size),
                    md5_view(expected_md5),
                    depth as nat,
                    limits,
                    remaining_output as nat,
                    v@,
                );
            }
        }
        return r;
    }
    if mode == MODE_ZLIB {
        if let Some(expected) = expected_size {
            match check_chunk_output(expected, limits, remaining_output) {
                Ok(_) => {},
                Err(e) => {
                    return Err(e);
                },
            }
        }
        let output_limit = expansion_limit(expected_size, limits, remaining_output);
        return match inflate(payload, output_limit) {
            Ok(body) => {
                let r = accept(
                    body,
                    expected_size,
                    limits,
                    remaining_output,
                    "mode 'Z' decompressed length ",
                );
                proof {
                    if let Ok(v) = &r {
                        lemma_zlib_stands(
                            encoded@,
                            size_view(expected_size),
                            md5_view(expected_md5),
                            depth as nat,
                            limits,
                            remaining_output as nat,
                            v@,
                        );
                    }
                }
                r
            },
            Err(e) => {
                let reason = text::cat2("zlib inflate failed: ", e.as_str());
                Err(CascError::malformed("BLTE chunk", reason.as_str()))
            },
        };
    }
    if mode == MODE_NESTED {
        if depth >= limits.max_nesting {
            let digits = text::dec_text(limits.max_nesting as u64);
            let reason = text::cat2("nested BLTE recursion exceeds max depth ", digits.as_str());
            return Err(CascError::malformed("BLTE chunk", reason.as_str()));
        }
        if let Some(expected) = expected_size {
            match check_chunk_output(expected, limits, remaining_output) {
                Ok(_) => {},
                Err(e) => {
                    return Err(e);
                },
            }
        }
        let nested_limit = expansion_limit(expected_size, limits, remaining_output);
        return match decode_inner(payload, depth + 1, limits, nested_limit) {
            Ok(body) => {
                let r = accept(
                    body,
                    expected_size,
                    limits,
                    remaining_output,
                    "mode 'F' decoded length ",
                );
                proof {
                    if let Ok(v) = &r {
                        lemma_nested_stands(
                            encoded@,
                            size_view(expected_size),
                            md5_view(expected_md5),
                            depth as nat,
                            limits,
                            remaining_output as nat,
                            v@,
                        );
                    }
                }
                r
            },
            Err(e) => Err(e),
        };
    }
    if mode == MODE_ENCRYPTED {
        return Err(
            CascError::unsupported(
                "BLTE chunk",
                "encrypted (Salsa20/ARC4) chunks are not supported",
            ),
        );
    }
    let digits = text::hex2_text(mode);
    let reason = text::cat2("mode 0x", digits.as_str());
    Err(CascError::unsupported("BLTE chunk", reason.as_str()))
}

/// The sum of the declared decoded sizes, where it fits in memory.
fn total_of(chunks: &Vec<ChunkInfo>) -> (r: Option<usize>)
    ensures
        match r {
            Some(n) => n == declared_total(chunk_views(chunks@)),
            None => declared_total(chunk_views(chunks@)) > usize::MAX,
        },
{
    let ghost all = chunk_views(chunks@);
    let mut sum: usize = 0;
    let mut i: usize = 0;
    assert(all.subrange(0, 0) =~= seq![]);
    while i < chunks.len()
        invariant
            0 <= i <= chunks@.len(),
            all == chunk_views(chunks@),
            sum == declared_total(all.subrange(0, i as int)),
        decreases chunks@.len() - i,
    {
        proof {
            lemma_declared_total_grows(all, i + 1);
            assert(all.subrange(0, i + 1).drop_last() =~= all.subrange(0, i as int));
        }
        match sum.checked_add(chunks[i].decompressed_size as usize) {
            Some(next) => {
                sum = next;
            },
            None => {
                return None;
            },
        }
        i += 1;
    }
    assert(all.subrange(0, i as int) =~= all);
    Some(sum)
}

/// Whether some chunk declares more than `max` decoded bytes.
fn any_chunk_over(chunks: &Vec<ChunkInfo>, max: usize) -> (r: bool)
    ensures
        r == exists|i: int|
            0 <= i < chunk_views(chunks@).len() && (#[trigger] chunk_views(
                chunks@,
            )[i]).decompressed_size > max,
{
    let mut k: usize = 0;
    while k < chunks.len()
        invariant
            0 <= k <= chunks@.len(),
            forall|j: int|
                0 <= j < k ==> (#[trigger] chunk_views(chunks@)[j]).decompressed_size <= max,
        decreases chunks@.len() - k,
    {
        assert(chunk_views(chunks@)[k as int] == chunks@[k as int]@);
        if chunks[k].decompressed_size as usize > max {
            return true;
        }
        k += 1;
    }
    false
}

proof fn lemma_prepended_twice(a: Seq<u8>, b: Seq<u8>, r: Result<Seq<u8>, ErrorView>)
    ensures
        prepended(a, prepended(b, r)) == prepended(a + b, r),
{
    if r is Ok {
        assert(a + (b + r->Ok_0) =~= (a + b) + r->Ok_0);
    }
}

proof fn lemma_prepended_nothing(r: Result<Seq<u8>, ErrorView>)
    ensures
        prepended(seq![], r) == r,
{
    if r is Ok {
        assert(seq![] + r->Ok_0 =~= r->Ok_0);
    }
}

/// The chunks of a table follow one another from `start` to the end of the
/// `len` bytes of the buffer.
pub open spec fn contiguous(chunks: Seq<ChunkView>, start: nat, len: nat) -> bool {
    &&& chunks.len() > 0
    &&& 0 < start
    &&& chunks[0].offset == start
    &&& forall|i: int|
        0 <= i < chunks.len() ==> (#[trigger] chunks[i]).offset + chunks[i].compressed_size <= len
    &&& forall|i: int, j: int|
        0 <= i < chunks.len() && j == i + 1 && j < chunks.len() ==> (#[trigger] chunks[j]).offset
            == (#[trigger] chunks[i]).offset + chunks[i].compressed_size
    &&& chunks.last().offset + chunks.last().compressed_size == len
}

/// Where the chunks of a table end with the buffer, they lie in it one after
/// the other.
proof fn lemma_chunks_lie(data: Seq<u8>, limits: ReadLimits)
    ensures
        header(data, limits) matches Ok(h) ==> h.chunks.len() > 0 && chunks_end(h) == data.len()
            ==> contiguous(h.chunks, h.data_start, data.len()),
{
    lemma_header(data, limits);
    if let Ok(h) = header(data, limits) {
        if h.chunks.len() > 0 && chunks_end(h) == data.len() {
            assert(encoded_before(data, 0) == 0);
            assert forall|i: int| 0 <= i < h.chunks.len() implies (#[trigger] h.chunks[i]).offset
                + h.chunks[i].compressed_size <= data.len() by {
                lemma_encoded_before_grows(data, i + 1, h.chunks.len() as int);
            }
        }
    }
}

proof fn lemma_chunk_list_step(
    rest: Seq<u8>,
    table: Seq<ChunkView>,
    depth: nat,
    limits: ReadLimits,
    remaining: nat,
)
    requires
        table.len() > 0,
        table[0].compressed_size <= rest.len(),
    ensures
        chunk_list(rest, table, depth, limits, remaining) == (match chunk_bytes(
            rest.subrange(0, table[0].compressed_size as int),
            Some(table[0].decompressed_size),
            Some(table[0].md5),
            depth,
            limits,
            remaining,
        ) {
            Err(e) => Err(e),
            Ok(body) => prepended(
                body,
                chunk_list(
                    rest.subrange(table[0].compressed_size as int, rest.len() as int),
                    table.drop_first(),
                    depth,
                    limits,
                    (remaining - body.len()) as nat,
                ),
            ),
        }),
{
}

/// Decodes the chunks of a table, one after the other.
fn decode_chunks(
    data: &[u8],
    chunks: &Vec<ChunkInfo>,
    start: usize,
    initial: usize,
    depth: u32,
    limits: ReadLimits,
    output_limit: usize,
) -> (r: Result<Vec<u8>, CascError>)
    requires
        contiguous(chunk_views(chunks@), start as nat, data@.len()),
    ensures
        error::outcome(r) == chunk_list(
            data@.subrange(start as int, data@.len() as int),
            chunk_views(chunks@),
            depth as nat,
            limits,
            output_limit as nat,
        ),
        r matches Ok(v) ==> v@.len() <= output_limit && list_stands(
            data@.subrange(start as int, data@.len() as int),
            chunk_views(chunks@),
            seq![],
            seq![],
            depth as nat,
            limits,
            output_limit as nat,
            v@,
        ),
    decreases data@.len(), 0nat,
{
    let mut out: Vec<u8> = Vec::with_capacity(initial);
    let mut i: usize = 0;
    let mut pos: usize = start;
    let total: usize = data.len();
    let ghost len = data@.len() as int;
    let ghost table = chunk_views(chunks@);
    let ghost target = chunk_list(
        data@.subrange(start as int, len),
        table,
        depth as nat,
        limits,
        output_limit as nat,
    );
    proof {
        assert(table.subrange(0, table.len() as int) =~= table);
        lemma_prepended_nothing(target);
        assert(out@ =~= seq![]);
        lemma_list_starts(
            data@.subrange(start as int, len),
            table,
            depth as nat,
            limits,
            output_limit as nat,
        );
    }
    while i < chunks.len()
        invariant
            0 <= i <= chunks@.len(),
            table == chunk_views(chunks@),
            contiguous(table, start as nat, data@.len()),
            len == data@.len() == total,
            target == chunk_list(
                data@.subrange(start as int, len),
                table,
                depth as nat,
                limits,
                output_limit as nat,
            ),
            out@.len() <= output_limit,
            0 < start <= pos,
            pos == (if i < chunks@.len() { table[i as int].offset as int } else { len }),
            prepended(
                out@,
                chunk_list(
                    data@.subrange(pos as int, len),
                    table.subrange(i as int, table.len() as int),
                    depth as nat,
                    limits,
                    (output_limit - out@.len()) as nat,
                ),
            ) == target,
            list_stands(
                data@.subrange(start as int, len),
                table,
                data@.subrange(pos as int, len),
                table.subrange(i as int, table.len() as int),
                depth as nat,
                limits,
                output_limit as nat,
                out@,
            ),
        decreases chunks@.len() - i,
    {
        let chunk = chunks[i];
        assert(table[i as int] == chunk@);
        let end: usize = pos + chunk.compressed_size as usize;
        let encoded = bytes::cut(data, pos, end);
        let ghost before = out@;
        proof {
            let rest = data@.subrange(pos as int, len);
            let rows = table.subrange(i as int, table.len() as int);
            assert(rows[0] == chunk@);
            lemma_chunk_list_step(
                rest,
                rows,
                depth as nat,
                limits,
                (output_limit - out@.len()) as nat,
            );
            assert(rest.subrange(0, chunk.compressed_size as int) =~= encoded@);
            assert(rest.subrange(chunk.compressed_size as int, rest.len() as int)
                =~= data@.subrange(end as int, len));
            assert(rows.drop_first() =~= table.subrange(i + 1, table.len() as int));
        }
        match decode_chunk_inner(
            encoded,
            Some(chunk.decompressed_size as usize),
            Some(&chunk.md5),
            depth,
            limits,
            output_limit - out.len(),
        ) {
            Ok(body) => {
                bytes::push_all(&mut out, body.as_slice());
                proof {
                    lemma_list_goes_on(
                        data@.subrange(start as int, len),
                        table,
                        data@.subrange(pos as int, len),
                        table.subrange(i as int, table.len() as int),
                        depth as nat,
                        limits,
                        output_limit as nat,
                        before,
                        body@,
                    );
                    lemma_prepended_twice(
                        before,
                        body@,
                        chunk_list(
                            data@.subrange(end as int, len),
                            table.subrange(i + 1, table.len() as int),
                            depth as nat,
                            limits,
                            (output_limit - out@.len()) as nat,
                        ),
                    );
                }
            },
            Err(e) => {
                return Err(e);
            },
        }
        pos = end;
        i += 1;
    }
    assert(table.subrange(i as int, table.len() as int) =~= seq![]);
    assert(out@ + seq![] =~= out@);
    proof {
        lemma_list_ends(
            data@.subrange(start as int, len),
            table,
            data@.subrange(pos as int, len),
            table.subrange(i as int, table.len() as int),
            depth as nat,
            limits,
            output_limit as nat,
            out@,
        );
    }
    Ok(out)
}

fn decode_inner(data: &[u8], depth: u32, limits: ReadLimits, output_limit: usize) -> (r: Result<
    Vec<u8>,
    CascError,
>)
    ensures
        error::outcome(r) == decoded(data@, depth as nat, limits, output_limit as nat),
        r matches Ok(v) ==> v@.len() <= output_limit && decoded_stands(
            data@,
            depth as nat,
            limits,
            output_limit as nat,
            v@,
        ),
    decreases data@.len(), 1nat,
{
    let parsed = match parse_with_limits(data, limits) {
        Ok(h) => h,
        Err(e) => {
            return Err(e);
        },
    };
    let ghost h = parsed@;
    proof {
        lemma_header(data@, limits);
    }
    if parsed.chunks.len() == 0 {
        let encoded = bytes::cut(data, parsed.data_start, data.len());
        let r = decode_chunk_inner(encoded, None, None, depth, limits, output_limit);
        proof {
            if let Ok(v) = &r {
                lemma_plain_stands(data@, depth as nat, limits, output_limit as nat, v@);
            }
        }
        return r;
    }
    let declared = match total_of(&parsed.chunks) {
        Some(n) => n,
        None => {
            return Err(CascError::malformed("BLTE header", "decoded size overflow"));
        },
    };
    let last = parsed.chunks[parsed.chunks.len() - 1];
    assert(h.chunks.last() == last@);
    let encoded_end: usize = last.offset + last.compressed_size as usize;
    if encoded_end != data.len() {
        let mut reason = "declared chunks end at byte ".to_owned();
        reason.append(text::dec_text(encoded_end as u64).as_str());
        reason.append(", but input length is ");
        reason.append(text::dec_text(data.len() as u64).as_str());
        return Err(CascError::malformed("BLTE chunk data", reason.as_str()));
    }
    if declared > output_limit {
        return Err(CascError::limit("BLTE decoded output", output_limit));
    }
    if any_chunk_over(&parsed.chunks, limits.max_chunk_decoded_bytes) {
        return Err(CascError::limit("BLTE decoded chunk", limits.max_chunk_decoded_bytes));
    }
    proof {
        lemma_chunks_lie(data@, limits);
    }
    let initial: usize = if declared <= limits.initial_reserve_bytes {
        declared
    } else {
        limits.initial_reserve_bytes
    };
    let r = decode_chunks(
        data,
        &parsed.chunks,
        parsed.data_start,
        initial,
        depth,
        limits,
        output_limit,
    );
    proof {
        if let Ok(v) = &r {
            lemma_table_stands(data@, depth as nat, limits, output_limit as nat, v@);
        }
    }
    r
}

/// Decodes a single chunk's encoded data (mode byte + payload).
///
/// `expected_size`, when known (chunk-table case), is used both to bound the
/// inflate output and to validate the result. `expected_md5`, when provided,
/// is checked against the MD5 of `encoded` before decoding.
pub fn decode_chunk(
    encoded: &[u8],
    expected_size: Option<u32>,
    expected_md5: Option<&[u8; 16]>,
) -> (r: Result<Vec<u8>, CascError>)
    ensures
        error::outcome(r) == (if encoded@.len() > default_limits().max_encoded_bytes {
            Err(
                error::limit_view(
                    "BLTE encoded input"@,
                    default_limits().max_encoded_bytes as nat,
                ),
            )
        } else {
            chunk_bytes(
                encoded@,
                match expected_size {
                    Some(n) => Some(n as nat),
                    None => None,
                },
                md5_view(expected_md5),
                0,
                default_limits(),
                default_limits().max_decoded_bytes as nat,
            )
        }),
{
    let limits = ReadLimits::default();
    if encoded.len() > limits.max_encoded_bytes {
        return Err(CascError::limit("BLTE encoded input", limits.max_encoded_bytes));
    }
    let size: Option<usize> = match expected_size {
        Some(n) => Some(n as usize),
        None => None,
    };
    decode_chunk_inner(encoded, size, expected_md5, 0, limits, limits.max_decoded_bytes)
}

/// Decodes a complete BLTE-encoded buffer into its decoded contents.
pub fn decode(data: &[u8]) -> (r: Result<Vec<u8>, CascError>)
    ensures
        error::outcome(r) == decoded(
            data@,
            0,
            default_limits(),
            default_limits().max_decoded_bytes as nat,
        ),
{
    decode_with_limits(data, ReadLimits::default())
}

/// Decodes a complete BLTE-encoded buffer under explicit resource limits.
///
/// The limits only decide whether there is an output, never what it is: a
/// buffer that decodes under some limits decodes to the same bytes under all
/// that are no smaller.
pub fn decode_with_limits(data: &[u8], limits: ReadLimits) -> (r: Result<Vec<u8>, CascError>)
    ensures
        error::outcome(r) == decoded(data@, 0, limits, limits.max_decoded_bytes as nat),
        r matches Ok(v) ==> v@.len() <= limits.max_decoded_bytes && data@.len()
            <= limits.max_encoded_bytes,
        r matches Ok(v) ==> forall|l: ReadLimits|
            no_smaller(limits, l) ==> #[trigger] decoded(data@, 0, l, l.max_decoded_bytes as nat)
                == Ok::<Seq<u8>, ErrorView>(v@),
{
    let r = decode_inner(data, 0, limits, limits.max_decoded_bytes);
    proof {
        reveal(decoded_stands);
        lemma_header(data@, limits);
    }
    r
}

// ---------------------------------------------------------------------
// Laws

proof fn lemma_chunk_within_limit(
    encoded: Seq<u8>,
    size: Option<nat>,
    md5: Option<Seq<u8>>,
    depth: nat,
    limits: ReadLimits,
    remaining: nat,
)
    ensures
        chunk_bytes(encoded, size, md5, depth, limits, remaining) matches Ok(v) ==> v.len()
            <= remaining && v.len() <= limits.max_chunk_decoded_bytes && (size is Some ==> v.len()
            == size->0) && (md5 is Some ==> digest::digest(encoded) == md5->0),
{
}

proof fn lemma_list_within_limit(
    rest: Seq<u8>,
    table: Seq<ChunkView>,
    depth: nat,
    limits: ReadLimits,
    remaining: nat,
)
    ensures
        chunk_list(rest, table, depth, limits, remaining) matches Ok(v) ==> v.len() <= remaining,
    decreases table.len(),
{
    if table.len() > 0 {
        let c = table[0];
        let n = if c.compressed_size <= rest.len() {
            c.compressed_size as int
        } else {
            rest.len() as int
        };
        let head = rest.subrange(0, n);
        let size = Some(c.decompressed_size);
        lemma_chunk_within_limit(head, size, Some(c.md5), depth, limits, remaining);
        match chunk_bytes(head, size, Some(c.md5), depth, limits, remaining) {
            Ok(body) => {
                lemma_list_within_limit(
                    rest.subrange(n, rest.len() as int),
                    table.drop_first(),
                    depth,
                    limits,
                    (remaining - body.len()) as nat,
                );
            },
            Err(_) => {},
        }
    }
}

/// Decoding never gives more than the output limit, and never succeeds on
/// more encoded bytes than the limits allow.
pub proof fn law_output_within_limit(
    data: Seq<u8>,
    depth: nat,
    limits: ReadLimits,
    output_limit: nat,
)
    ensures
        decoded(data, depth, limits, output_limit) matches Ok(v) ==> v.len() <= output_limit
            && data.len() <= limits.max_encoded_bytes,
{
    lemma_header(data, limits);
    match header(data, limits) {
        Ok(h) => {
            let body = data.subrange(h.data_start as int, data.len() as int);
            lemma_chunk_within_limit(body, None, None, depth, limits, output_limit);
            lemma_list_within_limit(body, h.chunks, depth, limits, output_limit);
        },
        Err(_) => {},
    }
}

proof fn lemma_list_is_verified(
    data: Seq<u8>,
    table: Seq<ChunkView>,
    start: int,
    depth: nat,
    limits: ReadLimits,
    remaining: nat,
)
    requires
        0 < start <= data.len(),
        table.len() > 0 ==> contiguous(table, start as nat, data.len()),
        chunk_list(
            data.subrange(start, data.len() as int),
            table,
            depth,
            limits,
            remaining,
        ) is Ok,
    ensures
        forall|i: int|
            0 <= i < table.len() ==> digest::digest(
                data.subrange(
                    (#[trigger] table[i]).offset as int,
                    (table[i].offset + table[i].compressed_size) as int,
                ),
            ) == table[i].md5,
        chunk_list(
            data.subrange(start, data.len() as int),
            table,
            depth,
            limits,
            remaining,
        )->Ok_0.len() == declared_total(table),
    decreases table.len(),
{
    if table.len() > 0 {
        let rest = data.subrange(start, data.len() as int);
        let c = table[0];
        let n = c.compressed_size as int;
        let tail = table.drop_first();
        lemma_chunk_list_step(rest, table, depth, limits, remaining);
        let head = rest.subrange(0, n);
        assert(head =~= data.subrange(start, start + n));
        lemma_chunk_within_limit(
            head,
            Some(c.decompressed_size),
            Some(c.md5),
            depth,
            limits,
            remaining,
        );
        let body = chunk_bytes(
            head,
            Some(c.decompressed_size),
            Some(c.md5),
            depth,
            limits,
            remaining,
        )->Ok_0;
        assert(rest.subrange(n, rest.len() as int) =~= data.subrange(
            start + n,
            data.len() as int,
        ));
        if tail.len() > 0 {
            assert(tail[0] == table[1]);
            assert(tail.last() == table.last());
            assert forall|i: int| 0 <= i < tail.len() implies (#[trigger] tail[i]).offset
                + tail[i].compressed_size <= data.len() by {
                assert(tail[i] == table[i + 1]);
            }
            assert forall|i: int, j: int|
                0 <= i < tail.len() && j == i + 1 && j < tail.len() implies (
            #[trigger] tail[j]).offset == (#[trigger] tail[i]).offset + tail[i].compressed_size by {
                assert(tail[i] == table[i + 1]);
                assert(tail[j] == table[j + 1]);
            }
        }
        lemma_list_is_verified(
            data,
            tail,
            start + n,
            depth,
            limits,
            (remaining - body.len()) as nat,
        );
        lemma_declared_front(table);
        assert forall|i: int| 0 <= i < table.len() implies digest::digest(
            data.subrange(
                (#[trigger] table[i]).offset as int,
                (table[i].offset + table[i].compressed_size) as int,
            ),
        ) == table[i].md5 by {
            if i > 0 {
                assert(tail[i - 1] == table[i]);
            }
        }
    }
}

proof fn lemma_declared_front(table: Seq<ChunkView>)
    requires
        table.len() > 0,
    ensures
        declared_total(table) == table[0].decompressed_size + declared_total(table.drop_first()),
    decreases table.len(),
{
    if table.len() > 1 {
        lemma_declared_front(table.drop_last());
        assert(table.drop_first().drop_last() =~= table.drop_last().drop_first());
        assert(table.drop_first().last() == table.last());
    } else {
        assert(table.drop_last() =~= seq![]);
        assert(table.drop_first() =~= seq![]);
    }
}

/// A buffer with a chunk table decodes only if every chunk's encoded data has
/// the MD5 that the table declares, and the output has exactly the declared
/// size.
pub proof fn law_chunks_are_verified(
    data: Seq<u8>,
    depth: nat,
    limits: ReadLimits,
    output_limit: nat,
)
    requires
        decoded(data, depth, limits, output_limit) is Ok,
        header(data, limits)->Ok_0.chunks.len() > 0,
    ensures
        ({
            let chunks = header(data, limits)->Ok_0.chunks;
            &&& forall|i: int|
                0 <= i < chunks.len() ==> digest::digest(
                    data.subrange(
                        (#[trigger] chunks[i]).offset as int,
                        (chunks[i].offset + chunks[i].compressed_size) as int,
                    ),
                ) == chunks[i].md5
            &&& decoded(data, depth, limits, output_limit)->Ok_0.len() == declared_total(chunks)
        }),
{
    lemma_header(data, limits);
    lemma_chunks_lie(data, limits);
    let h = header(data, limits)->Ok_0;
    lemma_list_is_verified(data, h.chunks, h.data_start as int, depth, limits, output_limit);
}

/// A header is the four letters of the magic and its size, byte by byte. A
/// size of zero stands for no chunk table. Else the byte `0f` and three bytes
/// with the number of chunks follow, and for each chunk its encoded size, its
/// decoded size and its MD5; the chunks lie one behind the other from the end
/// of the header on.
pub proof fn law_header_layout(data: Seq<u8>, limits: ReadLimits)
    ensures
        header(data, limits) matches Ok(h) ==> {
            &&& 8 <= data.len() <= limits.max_encoded_bytes
            &&& data[0] == 'B' as int && data[1] == 'L' as int && data[2] == 'T' as int && data[3]
                == 'E' as int
            &&& h.chunks.len() == 0 ==> h.data_start == 8 && data[4] == 0 && data[5] == 0
                && data[6] == 0 && data[7] == 0
            &&& h.chunks.len() > 0 ==> {
                &&& data[8] == 0x0f
                &&& h.chunks.len() == data[9] * 0x1_0000 + data[10] * 0x100 + data[11]
                &&& h.chunks.len() <= limits.max_chunk_count
                &&& h.data_start == data[4] * 0x100_0000 + data[5] * 0x1_0000 + data[6] * 0x100
                    + data[7]
                &&& h.data_start == 12 + 24 * h.chunks.len()
                &&& h.data_start <= data.len()
                &&& h.chunks[0].offset == h.data_start
                &&& forall|i: int|
                    0 <= i < h.chunks.len() ==> is_table_entry(data, i, #[trigger] h.chunks[i])
                &&& forall|i: int|
                    1 <= i < h.chunks.len() ==> (#[trigger] h.chunks[i]).offset == h.chunks[i
                        - 1].offset + h.chunks[i - 1].compressed_size
            }
        },
        8 <= data.len() <= limits.max_encoded_bytes && data[0] == 'B' as int && data[1]
            == 'L' as int && data[2] == 'T' as int && data[3] == 'E' as int && data[4] == 0
            && data[5] == 0 && data[6] == 0 && data[7] == 0 ==> header(data, limits) is Ok,
{
    if data.len() >= 8 {
        bytes::law_big_endian(data, 4);
        assert(data.subrange(0, 4) == magic() ==> data[0] == 0x42 && data[1] == 0x4c && data[2]
            == 0x54 && data[3] == 0x45) by {
            if data.subrange(0, 4) == magic() {
                assert(data.subrange(0, 4)[0] == data[0]);
                assert(data.subrange(0, 4)[1] == data[1]);
                assert(data.subrange(0, 4)[2] == data[2]);
                assert(data.subrange(0, 4)[3] == data[3]);
            }
        }
        if data[0] == 0x42 && data[1] == 0x4c && data[2] == 0x54 && data[3] == 0x45 {
            assert(data.subrange(0, 4) =~= magic());
        }
    }
    if header(data, limits) is Ok {
        let h = header(data, limits)->Ok_0;
        if h.chunks.len() > 0 {
            bytes::law_big_endian(data, 9);
            assert forall|i: int| 0 <= i < h.chunks.len() implies is_table_entry(
                data,
                i,
                #[trigger] h.chunks[i],
            ) by {
                bytes::law_big_endian(data, 12 + 24 * i);
                bytes::law_big_endian(data, 12 + 24 * i + 4);
                assert(h.chunks[i].md5 =~= Seq::new(16, |k: int| data[12 + 24 * i + 8 + k]));
            }
        }
    }
}

/// The `i`-th entry of a chunk table, byte by byte.
pub open spec fn is_table_entry(data: Seq<u8>, i: int, c: ChunkView) -> bool {
    let p = 12 + 24 * i;
    &&& c.compressed_size == data[p] * 0x100_0000 + data[p + 1] * 0x1_0000 + data[p + 2] * 0x100
        + data[p + 3]
    &&& c.decompressed_size == data[p + 4] * 0x100_0000 + data[p + 5] * 0x1_0000 + data[p + 6]
        * 0x100 + data[p + 7]
    &&& c.md5 == Seq::new(16, |k: int| data[p + 8 + k])
}

/// A chunk that is given as it is, `N`, decodes to its payload, a `Z` chunk to
/// what its payload inflates to, and an `F` chunk to what its payload decodes
/// to, one level deeper; the length must be the declared one, where one is
/// declared, and within the limits. A chunk of any other mode, without a mode
/// byte, or with another MD5 than the declared one, does not decode.
pub proof fn law_chunk_modes(
    encoded: Seq<u8>,
    size: Option<nat>,
    md5: Option<Seq<u8>>,
    depth: nat,
    limits: ReadLimits,
    remaining: nat,
    content: Seq<u8>,
)
    requires
        remaining <= usize::MAX,
    ensures
        ({
            let r = chunk_bytes(encoded, size, md5, depth, limits, remaining);
            let payload = encoded.skip(1);
            let fits = (size is None || size->0 == content.len()) && content.len()
                <= limits.max_chunk_decoded_bytes && content.len() <= remaining;
            let genuine = encoded.len() > 0 && (md5 is None || digest::digest(encoded) == md5->0);
            &&& r is Ok ==> genuine
            &&& r is Ok ==> (encoded[0] == 'N' as int || encoded[0] == 'Z' as int || encoded[0]
                == 'F' as int)
            &&& r == Ok::<Seq<u8>, ErrorView>(content) ==> fits
            &&& genuine && encoded[0] == 'N' as int ==> (r == Ok::<Seq<u8>, ErrorView>(content)
                <==> fits && content == payload)
            &&& genuine && encoded[0] == 'Z' as int && fits && inflates_to(payload, content)
                ==> r == Ok::<Seq<u8>, ErrorView>(content)
            &&& encoded.len() > 0 && encoded[0] == 'Z' as int && r == Ok::<Seq<u8>, ErrorView>(
                content,
            ) ==> exists|limit: nat| #[trigger]
                inflated(payload, limit) == Ok::<Seq<u8>, Seq<char>>(content)
            &&& encoded.len() > 0 && encoded[0] == 'F' as int && r == Ok::<Seq<u8>, ErrorView>(
                content,
            ) ==> depth < limits.max_nesting && exists|limit: nat| #[trigger]
                decoded(payload, depth + 1, limits, limit) == Ok::<Seq<u8>, ErrorView>(content)
            &&& genuine && encoded[0] == 'F' as int && fits && depth < limits.max_nesting
                && decoded_under_any(payload, depth + 1, limits, content) ==> r == Ok::<
                Seq<u8>,
                ErrorView,
            >(content)
        }),
{
    if encoded.len() > 0 {
        assert(encoded.skip(1) =~= encoded.subrange(1, encoded.len() as int));
        let payload = encoded.skip(1);
        let limit = expand_limit(size, limits, remaining);
        if inflates_to(payload, content) && content.len() <= limit <= usize::MAX {
            assert(inflated(payload, limit) == Ok::<Seq<u8>, Seq<char>>(content));
        }
        if decoded_under_any(payload, depth + 1, limits, content) && content.len() <= limit {
            assert(decoded(payload, depth + 1, limits, limit) == Ok::<Seq<u8>, ErrorView>(
                content,
            ));
        }
    }
}

/// The buffer decodes to the content under every output limit that the
/// content fits in.
pub open spec fn decoded_under_any(
    data: Seq<u8>,
    depth: nat,
    limits: ReadLimits,
    content: Seq<u8>,
) -> bool {
    forall|limit: nat|
        content.len() <= limit ==> #[trigger] decoded(data, depth, limits, limit) == Ok::<
            Seq<u8>,
            ErrorView,
        >(content)
}

/// A buffer without a chunk table decodes as the one chunk behind its first
/// eight bytes does.
pub proof fn law_single_chunk(data: Seq<u8>, depth: nat, limits: ReadLimits, output_limit: nat)
    requires
        8 <= data.len() <= limits.max_encoded_bytes,
        data[0] == 'B' as int && data[1] == 'L' as int && data[2] == 'T' as int && data[3]
            == 'E' as int,
        data[4] == 0 && data[5] == 0 && data[6] == 0 && data[7] == 0,
    ensures
        decoded(data, depth, limits, output_limit) == chunk_bytes(
            data.skip(8),
            None,
            None,
            depth,
            limits,
            output_limit,
        ),
{
    law_header_layout(data, limits);
    bytes::law_big_endian(data, 4);
    assert(data.subrange(0, 4) =~= magic());
    assert(data.skip(8) =~= data.subrange(8, data.len() as int));
}

/// `body` is what the chunk that the table entry names decodes to.
pub open spec fn is_chunk_body(
    data: Seq<u8>,
    c: ChunkView,
    depth: nat,
    limits: ReadLimits,
    body: Seq<u8>,
) -> bool {
    exists|remaining: nat| #[trigger]
        chunk_bytes(
            data.subrange(c.offset as int, (c.offset + c.compressed_size) as int),
            Some(c.decompressed_size),
            Some(c.md5),
            depth,
            limits,
            remaining,
        ) == Ok::<Seq<u8>, ErrorView>(body)
}

/// A buffer with a chunk table decodes to the bodies of its chunks, all of
/// them, one behind the other in the order of the table, and the chunks fill
/// it to its end.
pub proof fn law_chunks_in_order(data: Seq<u8>, depth: nat, limits: ReadLimits, output_limit: nat)
    requires
        decoded(data, depth, limits, output_limit) is Ok,
        header(data, limits)->Ok_0.chunks.len() > 0,
    ensures
        ({
            let chunks = header(data, limits)->Ok_0.chunks;
            &&& chunks.last().offset + chunks.last().compressed_size == data.len()
            &&& exists|bodies: Seq<Seq<u8>>| #[trigger]
                bodies.flatten() == decoded(data, depth, limits, output_limit)->Ok_0
                    && bodies.len() == chunks.len() && forall|i: int|
                    0 <= i < chunks.len() ==> is_chunk_body(
                        data,
                        chunks[i],
                        depth,
                        limits,
                        #[trigger] bodies[i],
                    )
        }),
{
    lemma_header(data, limits);
    let h = header(data, limits)->Ok_0;
    assert(h.chunks[h.chunks.len() - 1] == h.chunks.last());
    let bodies = lemma_bodies(
        data,
        h.chunks,
        h.data_start as int,
        depth,
        limits,
        output_limit,
    );
    assert(bodies.flatten() == decoded(data, depth, limits, output_limit)->Ok_0);
}

proof fn lemma_bodies(
    data: Seq<u8>,
    table: Seq<ChunkView>,
    start: int,
    depth: nat,
    limits: ReadLimits,
    remaining: nat,
) -> (bodies: Seq<Seq<u8>>)
    requires
        0 <= start <= data.len(),
        table.len() > 0 ==> table[0].offset == start,
        forall|i: int|
            1 <= i < table.len() ==> (#[trigger] table[i]).offset == table[i - 1].offset + table[i
                - 1].compressed_size,
        table.len() > 0 ==> table.last().offset + table.last().compressed_size == data.len(),
        chunk_list(
            data.subrange(start, data.len() as int),
            table,
            depth,
            limits,
            remaining,
        ) is Ok,
    ensures
        bodies.len() == table.len(),
        bodies.flatten() == chunk_list(
            data.subrange(start, data.len() as int),
            table,
            depth,
            limits,
            remaining,
        )->Ok_0,
        forall|i: int|
            0 <= i < table.len() ==> is_chunk_body(
                data,
                table[i],
                depth,
                limits,
                #[trigger] bodies[i],
            ),
    decreases table.len(),
{
    let rest = data.subrange(start, data.len() as int);
    if table.len() == 0 {
        let none = Seq::<Seq<u8>>::empty();
        assert(none.flatten() =~= seq![]);
        none
    } else {
        let c = table[0];
        let n = c.compressed_size as int;
        lemma_offsets_grow(table, 0, table.len() - 1);
        let body = chunk_bytes(
            rest.subrange(0, n),
            Some(c.decompressed_size),
            Some(c.md5),
            depth,
            limits,
            remaining,
        )->Ok_0;
        assert(rest.subrange(0, n) =~= data.subrange(start, start + n));
        assert(rest.subrange(n, rest.len() as int) =~= data.subrange(
            start + n,
            data.len() as int,
        ));
        let tail = table.drop_first();
        assert forall|i: int| 1 <= i < tail.len() implies (#[trigger] tail[i]).offset == tail[i
            - 1].offset + tail[i - 1].compressed_size by {
            assert(tail[i] == table[i + 1]);
            assert(tail[i - 1] == table[i]);
        }
        if tail.len() > 0 {
            assert(tail[0] == table[1]);
            assert(tail.last() == table.last());
        }
        let others = lemma_bodies(
            data,
            tail,
            start + n,
            depth,
            limits,
            (remaining - body.len()) as nat,
        );
        let bodies = seq![body] + others;
        assert(bodies.drop_first() =~= others);
        assert(bodies.first() == body);
        assert forall|i: int| 0 <= i < table.len() implies is_chunk_body(
            data,
            table[i],
            depth,
            limits,
            #[trigger] bodies[i],
        ) by {
            if i > 0 {
                assert(bodies[i] == others[i - 1]);
                assert(table[i] == tail[i - 1]);
            }
        }
        bodies
    }
}

proof fn lemma_offsets_grow(table: Seq<ChunkView>, i: int, j: int)
    requires
        0 <= i <= j < table.len(),
        forall|k: int|
            1 <= k < table.len() ==> (#[trigger] table[k]).offset == table[k - 1].offset + table[k
                - 1].compressed_size,
    ensures
        table[i].offset + table[i].compressed_size <= table[j].offset + table[j].compressed_size,
    decreases j - i,
{
    if i < j {
        lemma_offsets_grow(table, i, j - 1);
        assert(table[j].offset == table[j - 1].offset + table[j - 1].compressed_size);
    }
}

/// The limits that a caller gets without asking for others: 256 MiB encoded,
/// 512 MiB decoded, 64 MiB in a chunk, 16384 chunks, four levels of nesting,
/// and 8 MiB reserved up front.
pub proof fn law_default_limits()
    ensures
        ({
            let l = default_limits();
            let mib = 1024 * 1024int;
            &&& l.max_encoded_bytes == 256 * mib
            &&& l.max_decoded_bytes == 512 * mib
            &&& l.max_chunk_decoded_bytes == 64 * mib
            &&& l.max_chunk_count == 16 * 1024
            &&& l.max_nesting == 4
            &&& l.initial_reserve_bytes == 8 * mib
        }),
{
}

/// The declared total is the sum of the declared sizes: that of two tables, one
/// behind the other, is the sum of theirs, that of one chunk is its size, and
/// that of none is zero.
pub proof fn law_declared_total(a: Seq<ChunkView>, b: Seq<ChunkView>, c: ChunkView)
    ensures
        declared_total(a + b) == declared_total(a) + declared_total(b),
        declared_total(seq![c]) == c.decompressed_size,
        declared_total(seq![]) == 0,
    decreases b.len(),
{
    assert(seq![c].drop_last() =~= seq![]);
    assert(declared_total(seq![c].drop_last()) == 0);
    if b.len() == 0 {
        assert(a + b =~= a);
    } else {
        law_declared_total(a, b.drop_last(), c);
        assert((a + b).drop_last() =~= a + b.drop_last());
        assert((a + b).last() == b.last());
    }
}

/// Why a chunk does not decode: another MD5 than the declared one is a
/// mismatch before anything else, a chunk without a mode is malformed, one
/// whose mode is not known, or is the encrypted one, is not supported, nesting
/// beyond the limit is malformed, and a raw payload of another length than the
/// declared one is malformed, and one beyond a limit exceeds it.
pub proof fn law_chunk_errors(
    encoded: Seq<u8>,
    size: Option<nat>,
    md5: Option<Seq<u8>>,
    depth: nat,
    limits: ReadLimits,
    remaining: nat,
)
    ensures
        ({
            let r = chunk_bytes(encoded, size, md5, depth, limits, remaining);
            let foreign = md5 matches Some(d) && d != digest::digest(encoded);
            let n = encoded.len() - 1;
            &&& foreign ==> (r matches Err(e) && e is ChecksumMismatch)
            &&& !foreign && encoded.len() == 0 ==> (r matches Err(e) && e is Malformed)
            &&& !foreign && encoded.len() > 0 ==> {
                let mode = encoded[0] as int;
                &&& mode != 0x4e && mode != 0x5a && mode != 0x46 ==> (r matches Err(e)
                    && e is Unsupported)
                &&& mode == 0x46 && depth >= limits.max_nesting ==> (r matches Err(e)
                    && e is Malformed)
                &&& mode == 0x4e && size is Some && size->0 != n ==> (r matches Err(e)
                    && e is Malformed)
                &&& mode == 0x4e && (size is None || size->0 == n) && (n
                    > limits.max_chunk_decoded_bytes || n > remaining) ==> (r matches Err(e)
                    && e is LimitExceeded)
                &&& (mode == 0x5a || (mode == 0x46 && depth < limits.max_nesting)) && size is Some
                    && (size->0 > limits.max_chunk_decoded_bytes || size->0 > remaining) ==> (
                r matches Err(e) && e is LimitExceeded)
            }
        }),
{
}

/// A header is accepted exactly where the buffer is within its limit, starts
/// with the magic, and either states a header size of zero or holds the whole
/// header with a chunk table of the stated size, whose chunks are not too many
/// and do not add up beyond the address space.
pub proof fn law_header_accepted(data: Seq<u8>, limits: ReadLimits)
    ensures
        ({
            let size = data[4] * 0x100_0000 + data[5] * 0x1_0000 + data[6] * 0x100 + data[7];
            let count = data[9] * 0x1_0000 + data[10] * 0x100 + data[11];
            header(data, limits) is Ok <==> {
                &&& 8 <= data.len() <= limits.max_encoded_bytes
                &&& data[0] == 0x42 && data[1] == 0x4c && data[2] == 0x54 && data[3] == 0x45
                &&& size == 0 || {
                    &&& 12 <= data.len()
                    &&& size <= data.len()
                    &&& data[8] == 0x0f
                    &&& 0 < count <= limits.max_chunk_count
                    &&& size == 12 + 24 * count
                    &&& size + encoded_before(data, count) <= usize::MAX
                }
            }
        }),
        data.len() > limits.max_encoded_bytes ==> (header(data, limits) matches Err(e)
            && e is LimitExceeded),
{
    if data.len() >= 8 {
        bytes::law_big_endian(data, 4);
        lemma_magic(data);
        if data.len() >= 12 {
            bytes::law_big_endian(data, 9);
        }
    }
}

proof fn lemma_magic(data: Seq<u8>)
    requires
        data.len() >= 4,
    ensures
        data.subrange(0, 4) == magic() <==> data[0] == 0x42 && data[1] == 0x4c && data[2] == 0x54
            && data[3] == 0x45,
{
    let head = data.subrange(0, 4);
    if head == magic() {
        assert(head[0] == magic()[0] && head[1] == magic()[1] && head[2] == magic()[2] && head[3]
            == magic()[3]);
    } else if data[0] == 0x42 && data[1] == 0x4c && data[2] == 0x54 && data[3] == 0x45 {
        assert(head =~= magic());
    }
}

/// A buffer with a chunk table is refused before any chunk is decoded where
/// its chunks do not end where it ends, where they declare more than may be
/// decoded in all, and where one of them declares more than a chunk may.
pub proof fn law_table_refusals(
    data: Seq<u8>,
    depth: nat,
    limits: ReadLimits,
    output_limit: nat,
    i: int,
)
    requires
        header(data, limits) matches Ok(h) && 0 <= i < h.chunks.len() && declared_total(h.chunks)
            <= usize::MAX,
    ensures
        ({
            let chunks = header(data, limits)->Ok_0.chunks;
            let r = decoded(data, depth, limits, output_limit);
            let ends = chunks.last().offset + chunks.last().compressed_size == data.len();
            &&& !ends ==> (r matches Err(e) && e is Malformed)
            &&& ends && declared_total(chunks) > output_limit ==> (r matches Err(
                ErrorView::LimitExceeded { limit, .. },
            ) && limit == output_limit)
            &&& ends && declared_total(chunks) <= output_limit && chunks[i].decompressed_size
                > limits.max_chunk_decoded_bytes ==> (r matches Err(
                ErrorView::LimitExceeded { limit, .. },
            ) && limit == limits.max_chunk_decoded_bytes)
        }),
{
    lemma_header(data, limits);
    law_header_layout(data, limits);
    let h = header(data, limits)->Ok_0;
    assert(h.chunks[h.chunks.len() - 1] == h.chunks.last());
}

} // verus!
