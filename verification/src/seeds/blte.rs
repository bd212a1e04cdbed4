//! Building BLTE buffers.

use vstd::prelude::*;

use crate::blte;
use crate::blte::ChunkView;
use crate::blte::HeaderView;
use crate::blte::ReadLimits;
use crate::bytes;
use crate::digest;
use crate::error::ErrorView;
use crate::seeds;

verus! {

/// A BLTE buffer without a chunk table: one chunk of unknown decoded size.
pub open spec fn single_chunk(mode: u8, payload: Seq<u8>) -> Seq<u8> {
    blte::magic() + bytes::be_bytes(0, 4) + (seq![mode] + payload)
}

/// A chunk to be put behind a chunk table: its payload before encoding has
/// been undone, and the decoded size that the table declares.
pub struct Chunk {
    pub mode: u8,
    pub payload: Seq<u8>,
    pub size: nat,
}

/// The encoded data of a chunk.
pub open spec fn frame(c: Chunk) -> Seq<u8> {
    seq![c.mode] + c.payload
}

/// The entry of a chunk in the chunk table.
pub open spec fn row(c: Chunk) -> Seq<u8> {
    bytes::be_bytes(frame(c).len(), 4) + bytes::be_bytes(c.size, 4) + digest::digest(frame(c))
}

/// The entries of a chunk table.
pub open spec fn rows(chunks: Seq<Chunk>) -> Seq<u8>
    decreases chunks.len(),
{
    if chunks.len() == 0 {
        seq![]
    } else {
        rows(chunks.drop_last()) + row(chunks.last())
    }
}

/// The encoded data of chunks, one after the other.
pub open spec fn frames(chunks: Seq<Chunk>) -> Seq<u8>
    decreases chunks.len(),
{
    if chunks.len() == 0 {
        seq![]
    } else {
        frames(chunks.drop_last()) + frame(chunks.last())
    }
}

/// A BLTE buffer with a chunk table.
pub open spec fn multi_chunk(chunks: Seq<Chunk>) -> Seq<u8> {
    blte::magic() + bytes::be_bytes((12 + 24 * chunks.len()) as nat, 4) + seq![0x0fu8]
        + bytes::be_bytes(chunks.len(), 3) + rows(chunks) + frames(chunks)
}

/// Chunks as a builder takes them.
pub open spec fn chunk_inputs(s: Seq<(u8, &[u8], u32)>) -> Seq<Chunk> {
    Seq::new(s.len(), |i: int| Chunk { mode: s[i].0, payload: s[i].1@, size: s[i].2 as nat })
}

fn push_magic(out: &mut Vec<u8>)
    ensures
        final(out)@ == old(out)@ + blte::magic(),
{
    let ghost start = out@;
    out.push(0x42);
    out.push(0x4c);
    out.push(0x54);
    out.push(0x45);
    assert(out@ =~= start + blte::magic());
}

/// Builds a single-chunk BLTE buffer: magic, a zero header size, the mode
/// byte and the payload, with no chunk table.
pub fn build_single_chunk(mode: u8, payload: &[u8]) -> (out: Vec<u8>)
    ensures
        out@ == single_chunk(mode, payload@),
{
    let mut out: Vec<u8> = Vec::new();
    push_magic(&mut out);
    bytes::push_be(&mut out, 0, 4);
    out.push(mode);
    bytes::push_all(&mut out, payload);
    assert(out@ =~= single_chunk(mode, payload@));
    out
}

fn frame_bytes(mode: u8, payload: &[u8]) -> (out: Vec<u8>)
    ensures
        out@ == seq![mode] + payload@,
{
    let mut out: Vec<u8> = Vec::new();
    out.push(mode);
    bytes::push_all(&mut out, payload);
    assert(out@ =~= seq![mode] + payload@);
    out
}

/// Builds a BLTE buffer with a chunk table from `(mode, payload,
/// decompressed_size)` triples, where `payload` is the data behind the mode
/// byte (raw bytes for `N`, already zlib-compressed bytes for `Z`, or a
/// complete nested BLTE stream for `F`).
pub fn build_multi_chunk(chunks: &[(u8, &[u8], u32)]) -> (out: Vec<u8>)
    requires
        chunks@.len() <= u32::MAX,
    ensures
        out@ == multi_chunk(chunk_inputs(chunks@)),
{
    let ghost all = chunk_inputs(chunks@);
    let mut out: Vec<u8> = Vec::new();
    push_magic(&mut out);
    let header_size: u64 = 12 + 24 * chunks.len() as u64;
    bytes::push_be(&mut out, header_size, 4);
    out.push(0x0f);
    bytes::push_be(&mut out, chunks.len() as u64, 3);
    let ghost head = blte::magic() + bytes::be_bytes((12 + 24 * all.len()) as nat, 4) + seq![0x0fu8]
        + bytes::be_bytes(all.len(), 3);
    assert(out@ =~= head);
    let mut i: usize = 0;
    assert(all.subrange(0, 0) =~= seq![]);
    assert(out@ =~= head + rows(all.subrange(0, 0)));
    while i < chunks.len()
        invariant
            0 <= i <= chunks@.len(),
            all == chunk_inputs(chunks@),
            out@ == head + rows(all.subrange(0, i as int)),
        decreases chunks@.len() - i,
    {
        let (mode, payload, size) = chunks[i];
        let data = frame_bytes(mode, payload);
        let md5 = digest::md5_of(data.as_slice());
        let ghost start = out@;
        bytes::push_be(&mut out, data.len() as u64, 4);
        bytes::push_be(&mut out, size as u64, 4);
        bytes::push_all(&mut out, md5.as_slice());
        proof {
            let c = all[i as int];
            let seen = all.subrange(0, i + 1);
            assert(data@ == frame(c));
            assert(seen.drop_last() =~= all.subrange(0, i as int));
            assert(seen.last() == c);
            assert(out@ =~= start + row(c));
            assert(out@ =~= head + rows(seen));
        }
        i += 1;
    }
    assert(all.subrange(0, i as int) =~= all);
    let ghost table = out@;
    let mut k: usize = 0;
    assert(out@ =~= table + frames(all.subrange(0, 0)));
    while k < chunks.len()
        invariant
            0 <= k <= chunks@.len(),
            all == chunk_inputs(chunks@),
            out@ == table + frames(all.subrange(0, k as int)),
        decreases chunks@.len() - k,
    {
        let (mode, payload, _) = chunks[k];
        let ghost start = out@;
        out.push(mode);
        bytes::push_all(&mut out, payload);
        proof {
            let c = all[k as int];
            let seen = all.subrange(0, k + 1);
            assert(seen.drop_last() =~= all.subrange(0, k as int));
            assert(seen.last() == c);
            assert(out@ =~= start + frame(c));
            assert(out@ =~= table + frames(seen));
        }
        k += 1;
    }
    assert(all.subrange(0, k as int) =~= all);
    out
}

// ---------------------------------------------------------------------
// Seeds

/// A raw chunk that holds `content`.
pub open spec fn raw(content: Seq<u8>) -> Chunk {
    Chunk { mode: blte::MODE_RAW, payload: content, size: content.len() }
}

/// A zlib chunk that holds `content`.
pub open spec fn deflated(content: Seq<u8>) -> Chunk {
    Chunk { mode: blte::MODE_ZLIB, payload: blte::compressed(content), size: content.len() }
}

/// A nested chunk around the buffer `inner`, with the declared size.
pub open spec fn nested(inner: Seq<u8>, size: nat) -> Chunk {
    Chunk { mode: blte::MODE_NESTED, payload: inner, size }
}

/// What the zlib seeds hold.
pub open spec fn single_z_text() -> Seq<u8> {
    seeds::utf8("synthetic seed payload, mode Z, compressible compressible compressible"@)
}

/// What the raw chunk of the two-chunk seed holds.
pub open spec fn two_chunk_n_text() -> Seq<u8> {
    seeds::utf8("first chunk, stored raw (mode N)"@)
}

/// What the zlib chunk of the two-chunk seed holds.
pub open spec fn two_chunk_z_text() -> Seq<u8> {
    seeds::utf8("second chunk, zlib compressed (mode Z), compressible compressible"@)
}

/// What the nested seeds hold.
pub open spec fn nested_text() -> Seq<u8> {
    seeds::utf8("synthetic nested F-mode payload"@)
}

/// The inner buffer of the nested seeds.
pub open spec fn nested_inner() -> Seq<u8> {
    multi_chunk(seq![raw(nested_text())])
}

/// The two-chunk seed.
pub open spec fn two_chunks() -> Seq<Chunk> {
    seq![raw(two_chunk_n_text()), deflated(two_chunk_z_text())]
}

/// The three-chunk seed.
pub open spec fn three_chunks() -> Seq<Chunk> {
    seq![
        deflated(seeds::utf8("chunk a chunk a chunk a chunk a chunk a"@)),
        deflated(seeds::utf8("chunk b chunk b chunk b chunk b chunk b"@)),
        deflated(seeds::utf8("chunk c chunk c chunk c chunk c chunk c"@)),
    ]
}

/// The seeds for decoding BLTE buffers.
pub open spec fn blte_seed_list() -> Seq<(Seq<char>, Seq<u8>)> {
    seq![
        (
            "single_n.blte"@,
            single_chunk(
                blte::MODE_RAW,
                seeds::utf8("synthetic seed payload, mode N, no chunk table"@),
            ),
        ),
        ("single_z.blte"@, single_chunk(blte::MODE_ZLIB, blte::compressed(single_z_text()))),
        ("two_chunk_n_z.blte"@, multi_chunk(two_chunks())),
        ("three_chunk_z.blte"@, multi_chunk(three_chunks())),
        ("empty_n.blte"@, single_chunk(blte::MODE_RAW, seq![])),
        (
            "nested_f.blte"@,
            multi_chunk(seq![nested(nested_inner(), nested_text().len())]),
        ),
        (
            "nested_f_parent_size_mismatch.blte"@,
            multi_chunk(seq![nested(nested_inner(), nested_text().len() + 1)]),
        ),
    ]
}

/// Builds a buffer with a chunk table and one chunk.
fn build_one(mode: u8, payload: &[u8], size: u32) -> (out: Vec<u8>)
    ensures
        out@ == multi_chunk(seq![Chunk { mode, payload: payload@, size: size as nat }]),
{
    let chunks: [(u8, &[u8], u32); 1] = [(mode, payload, size)];
    assert(chunk_inputs(chunks@) =~= seq![Chunk { mode, payload: payload@, size: size as nat }]);
    build_multi_chunk(chunks.as_slice())
}

fn two_chunk_seed() -> (out: Vec<u8>)
    ensures
        out@ == multi_chunk(two_chunks()),
{
    let n_text = "first chunk, stored raw (mode N)".as_bytes();
    let z_text = "second chunk, zlib compressed (mode Z), compressible compressible".as_bytes();
    let stream = blte::zlib(z_text);
    proof {
        reveal_strlit("first chunk, stored raw (mode N)");
        reveal_strlit("second chunk, zlib compressed (mode Z), compressible compressible");
        seeds::lemma_utf8_len("first chunk, stored raw (mode N)"@);
        seeds::lemma_utf8_len("second chunk, zlib compressed (mode Z), compressible compressible"@);
    }
    let chunks: [(u8, &[u8], u32); 2] = [
        (blte::MODE_RAW, n_text, n_text.len() as u32),
        (blte::MODE_ZLIB, stream.as_slice(), z_text.len() as u32),
    ];
    assert(chunk_inputs(chunks@) =~= two_chunks());
    build_multi_chunk(chunks.as_slice())
}

fn three_chunk_seed() -> (out: Vec<u8>)
    ensures
        out@ == multi_chunk(three_chunks()),
{
    let a_text = "chunk a chunk a chunk a chunk a chunk a".as_bytes();
    let b_text = "chunk b chunk b chunk b chunk b chunk b".as_bytes();
    let c_text = "chunk c chunk c chunk c chunk c chunk c".as_bytes();
    let a = blte::zlib(a_text);
    let b = blte::zlib(b_text);
    let c = blte::zlib(c_text);
    proof {
        reveal_strlit("chunk a chunk a chunk a chunk a chunk a");
        reveal_strlit("chunk b chunk b chunk b chunk b chunk b");
        reveal_strlit("chunk c chunk c chunk c chunk c chunk c");
        seeds::lemma_utf8_len("chunk a chunk a chunk a chunk a chunk a"@);
        seeds::lemma_utf8_len("chunk b chunk b chunk b chunk b chunk b"@);
        seeds::lemma_utf8_len("chunk c chunk c chunk c chunk c chunk c"@);
    }
    let chunks: [(u8, &[u8], u32); 3] = [
        (blte::MODE_ZLIB, a.as_slice(), a_text.len() as u32),
        (blte::MODE_ZLIB, b.as_slice(), b_text.len() as u32),
        (blte::MODE_ZLIB, c.as_slice(), c_text.len() as u32),
    ];
    assert(chunk_inputs(chunks@) =~= three_chunks());
    build_multi_chunk(chunks.as_slice())
}

/// The BLTE seeds: raw and zlib chunks with and without a chunk table, an
/// empty file, a nested buffer, and a nested buffer whose parent declares
/// another size, which must be rejected.
pub fn blte_seeds() -> (seeds: Vec<(&'static str, Vec<u8>)>)
    ensures
        seeds::seed_views(seeds@) == blte_seed_list(),
{
    let mut seeds: Vec<(&'static str, Vec<u8>)> = Vec::new();
    let plain = "synthetic seed payload, mode N, no chunk table".as_bytes();
    seeds.push(("single_n.blte", build_single_chunk(blte::MODE_RAW, plain)));

    let text = "synthetic seed payload, mode Z, compressible compressible compressible".as_bytes();
    let stream = blte::zlib(text);
    seeds.push(("single_z.blte", build_single_chunk(blte::MODE_ZLIB, stream.as_slice())));

    seeds.push(("two_chunk_n_z.blte", two_chunk_seed()));
    seeds.push(("three_chunk_z.blte", three_chunk_seed()));

    // An empty file: a zero header size, the mode byte and no data.
    let empty: [u8; 0] = [];
    assert(empty@ =~= seq![]);
    seeds.push(("empty_n.blte", build_single_chunk(blte::MODE_RAW, empty.as_slice())));

    // A chunk that holds another complete buffer with a chunk table, and the
    // same chunk with a declared size that disagrees with it.
    let inner_text = "synthetic nested F-mode payload".as_bytes();
    proof {
        reveal_strlit("synthetic nested F-mode payload");
        seeds::lemma_utf8_len("synthetic nested F-mode payload"@);
    }
    let inner_size: u32 = inner_text.len() as u32;
    let inner = build_one(blte::MODE_RAW, inner_text, inner_size);
    seeds.push(("nested_f.blte", build_one(blte::MODE_NESTED, inner.as_slice(), inner_size)));
    seeds.push(
        (
            "nested_f_parent_size_mismatch.blte",
            build_one(blte::MODE_NESTED, inner.as_slice(), inner_size + 1),
        ),
    );
    assert(seeds::seed_views(seeds@) =~= blte_seed_list());
    seeds
}

// ---------------------------------------------------------------------
// Laws

proof fn lemma_single_header(mode: u8, payload: Seq<u8>, limits: ReadLimits)
    requires
        9 + payload.len() <= limits.max_encoded_bytes,
    ensures
        blte::header(single_chunk(mode, payload), limits) == Ok::<HeaderView, ErrorView>(
            HeaderView { chunks: seq![], data_start: 8 },
        ),
        single_chunk(mode, payload).subrange(8, 9 + payload.len() as int) == seq![mode] + payload,
        single_chunk(mode, payload).len() == 9 + payload.len(),
{
    let data = single_chunk(mode, payload);
    bytes::lemma_be_bytes(0, 4);
    bytes::lemma_pow256();
    assert(data.subrange(0, 4) =~= blte::magic());
    assert(data.subrange(4, 8) =~= bytes::be_bytes(0, 4));
    assert(data.subrange(8, 9 + payload.len() as int) =~= seq![mode] + payload);
}

/// A raw chunk without a table decodes to its payload, where the limits
/// allow it.
pub proof fn law_raw_round_trip(payload: Seq<u8>, depth: nat, limits: ReadLimits, output: nat)
    requires
        9 + payload.len() <= limits.max_encoded_bytes,
        payload.len() <= limits.max_chunk_decoded_bytes,
        payload.len() <= output,
    ensures
        blte::decoded(single_chunk(blte::MODE_RAW, payload), depth, limits, output) == Ok::<
            Seq<u8>,
            ErrorView,
        >(payload),
{
    lemma_single_header(blte::MODE_RAW, payload, limits);
    let body = seq![blte::MODE_RAW] + payload;
    assert(body.subrange(1, body.len() as int) =~= payload);
}

/// A zlib chunk without a table decodes to what was compressed into it,
/// where the limits allow it.
pub proof fn law_zlib_round_trip(
    stream: Seq<u8>,
    content: Seq<u8>,
    depth: nat,
    limits: ReadLimits,
    output: nat,
)
    requires
        blte::inflates_to(stream, content),
        9 + stream.len() <= limits.max_encoded_bytes,
        content.len() <= limits.max_chunk_decoded_bytes,
        content.len() <= output,
    ensures
        blte::decoded(single_chunk(blte::MODE_ZLIB, stream), depth, limits, output) == Ok::<
            Seq<u8>,
            ErrorView,
        >(content),
{
    lemma_single_header(blte::MODE_ZLIB, stream, limits);
    let body = seq![blte::MODE_ZLIB] + stream;
    assert(body.subrange(1, body.len() as int) =~= stream);
    let limit = blte::expand_limit(None, limits, output);
    assert(content.len() <= limit <= usize::MAX);
    assert(blte::inflated(stream, limit) == Ok::<Seq<u8>, Seq<char>>(content));
}

/// The chunk decodes to `content` under the size and the digest that its
/// table entry declares.
pub open spec fn decodes_to(c: Chunk, content: Seq<u8>, depth: nat, limits: ReadLimits) -> bool {
    &&& content.len() == c.size
    &&& forall|remaining: nat|
        content.len() <= remaining ==> #[trigger] blte::chunk_bytes(
            frame(c),
            Some(c.size),
            Some(digest::digest(frame(c))),
            depth,
            limits,
            remaining,
        ) == Ok::<Seq<u8>, ErrorView>(content)
}

/// A raw chunk in a table decodes to its payload.
pub proof fn law_raw_chunk(payload: Seq<u8>, depth: nat, limits: ReadLimits)
    requires
        payload.len() <= limits.max_chunk_decoded_bytes,
    ensures
        decodes_to(
            Chunk { mode: blte::MODE_RAW, payload, size: payload.len() },
            payload,
            depth,
            limits,
        ),
{
    let c = Chunk { mode: blte::MODE_RAW, payload, size: payload.len() };
    assert(frame(c).subrange(1, frame(c).len() as int) =~= payload);
}

/// A zlib chunk in a table decodes to what was compressed into it.
pub proof fn law_zlib_chunk(stream: Seq<u8>, content: Seq<u8>, depth: nat, limits: ReadLimits)
    requires
        blte::inflates_to(stream, content),
        content.len() <= limits.max_chunk_decoded_bytes,
    ensures
        decodes_to(
            Chunk { mode: blte::MODE_ZLIB, payload: stream, size: content.len() },
            content,
            depth,
            limits,
        ),
{
    let c = Chunk { mode: blte::MODE_ZLIB, payload: stream, size: content.len() };
    assert(frame(c).subrange(1, frame(c).len() as int) =~= stream);
    assert(blte::inflated(stream, content.len()) == Ok::<Seq<u8>, Seq<char>>(content));
}

/// A nested buffer in a table decodes to what it holds, where the nesting is
/// not too deep.
pub proof fn law_nested_chunk(inner: Seq<u8>, content: Seq<u8>, depth: nat, limits: ReadLimits)
    requires
        depth < limits.max_nesting,
        blte::decoded(inner, depth + 1, limits, content.len()) == Ok::<Seq<u8>, ErrorView>(content),
        content.len() <= limits.max_chunk_decoded_bytes,
    ensures
        decodes_to(
            Chunk { mode: blte::MODE_NESTED, payload: inner, size: content.len() },
            content,
            depth,
            limits,
        ),
{
    let c = Chunk { mode: blte::MODE_NESTED, payload: inner, size: content.len() };
    assert(frame(c).subrange(1, frame(c).len() as int) =~= inner);
}

/// Contents, one after the other.
pub open spec fn concatenated(contents: Seq<Seq<u8>>) -> Seq<u8>
    decreases contents.len(),
{
    if contents.len() == 0 {
        seq![]
    } else {
        contents[0] + concatenated(contents.drop_first())
    }
}

proof fn lemma_rows(chunks: Seq<Chunk>, i: int)
    requires
        0 <= i < chunks.len(),
    ensures
        rows(chunks).len() == 24 * chunks.len(),
        rows(chunks).subrange(24 * i, 24 * i + 24) == row(chunks[i]),
    decreases chunks.len(),
{
    let init = chunks.drop_last();
    bytes::lemma_be_bytes(frame(chunks.last()).len(), 4);
    bytes::lemma_be_bytes(chunks.last().size, 4);
    assert(row(chunks.last()).len() == 24);
    lemma_rows_len(init);
    if i < init.len() {
        lemma_rows(init, i);
        assert(rows(chunks).subrange(24 * i, 24 * i + 24) =~= rows(init).subrange(
            24 * i,
            24 * i + 24,
        ));
    } else {
        assert(rows(chunks).subrange(24 * i, 24 * i + 24) =~= row(chunks.last()));
    }
}

proof fn lemma_rows_len(chunks: Seq<Chunk>)
    ensures
        rows(chunks).len() == 24 * chunks.len(),
    decreases chunks.len(),
{
    if chunks.len() > 0 {
        lemma_rows_len(chunks.drop_last());
        bytes::lemma_be_bytes(frame(chunks.last()).len(), 4);
        bytes::lemma_be_bytes(chunks.last().size, 4);
    }
}

proof fn lemma_frames_front(chunks: Seq<Chunk>)
    requires
        chunks.len() > 0,
    ensures
        frames(chunks) == frame(chunks[0]) + frames(chunks.drop_first()),
    decreases chunks.len(),
{
    let init = chunks.drop_last();
    if init.len() == 0 {
        assert(frames(init) =~= seq![]);
        assert(chunks.drop_first() =~= seq![]);
        assert(frames(chunks) =~= frame(chunks[0]) + frames(chunks.drop_first()));
    } else {
        lemma_frames_front(init);
        assert(chunks.drop_first().drop_last() =~= init.drop_first());
        assert(chunks.drop_first().last() == chunks.last());
        assert(frames(chunks) =~= frame(chunks[0]) + frames(chunks.drop_first()));
    }
}

/// The parts of a buffer with a chunk table.
proof fn lemma_parts(chunks: Seq<Chunk>)
    requires
        0 < chunks.len() < 0x100_0000,
    ensures
        ({
            let data = multi_chunk(chunks);
            let n = chunks.len() as int;
            &&& data.len() == 12 + 24 * n + frames(chunks).len()
            &&& data.subrange(0, 4) == blte::magic()
            &&& bytes::be_at(data, 4, 4) == 12 + 24 * n
            &&& data[8] == 0x0f
            &&& bytes::be_at(data, 9, 3) == n
            &&& data.subrange(12, 12 + 24 * n) == rows(chunks)
            &&& data.subrange(12 + 24 * n, data.len() as int) == frames(chunks)
        }),
{
    let data = multi_chunk(chunks);
    let n = chunks.len() as int;
    bytes::lemma_pow256();
    bytes::lemma_be_bytes((12 + 24 * n) as nat, 4);
    bytes::lemma_be_bytes(n as nat, 3);
    lemma_rows_len(chunks);
    assert(data.subrange(0, 4) =~= blte::magic());
    assert(data.subrange(4, 8) =~= bytes::be_bytes((12 + 24 * n) as nat, 4));
    assert(data.subrange(9, 12) =~= bytes::be_bytes(n as nat, 3));
    assert(data.subrange(12, 12 + 24 * n) =~= rows(chunks));
    assert(data.subrange(12 + 24 * n, data.len() as int) =~= frames(chunks));
}

/// What the `i`-th entry of the chunk table says.
proof fn lemma_entry(chunks: Seq<Chunk>, i: int)
    requires
        0 < chunks.len() < 0x100_0000,
        0 <= i < chunks.len(),
        frame(chunks[i]).len() <= u32::MAX,
        chunks[i].size <= u32::MAX,
    ensures
        ({
            let data = multi_chunk(chunks);
            let p = 12 + 24 * i;
            &&& bytes::be_at(data, p, 4) == frame(chunks[i]).len()
            &&& bytes::be_at(data, p + 4, 4) == chunks[i].size
            &&& data.subrange(p + 8, p + 24) == digest::digest(frame(chunks[i]))
        }),
{
    let data = multi_chunk(chunks);
    let n = chunks.len() as int;
    let p = 12 + 24 * i;
    let c = chunks[i];
    lemma_parts(chunks);
    lemma_rows(chunks, i);
    bytes::lemma_pow256();
    bytes::lemma_be_bytes(frame(c).len(), 4);
    bytes::lemma_be_bytes(c.size, 4);
    let table = data.subrange(12, 12 + 24 * n);
    let r = row(c);
    assert(r =~= data.subrange(p, p + 24)) by {
        assert(table.subrange(24 * i, 24 * i + 24) =~= data.subrange(p, p + 24));
    }
    assert(data.subrange(p, p + 4) =~= r.subrange(0, 4));
    assert(r.subrange(0, 4) =~= bytes::be_bytes(frame(c).len(), 4));
    assert(data.subrange(p + 4, p + 8) =~= r.subrange(4, 8));
    assert(r.subrange(4, 8) =~= bytes::be_bytes(c.size, 4));
    assert(data.subrange(p + 8, p + 24) =~= r.subrange(8, 24));
    assert(r.subrange(8, 24) =~= digest::digest(frame(c)));
}

/// The chunks can be described by a chunk table.
pub open spec fn fit_table(chunks: Seq<Chunk>) -> bool {
    &&& 0 < chunks.len() < 0x100_0000
    &&& forall|i: int|
        0 <= i < chunks.len() ==> frame(#[trigger] chunks[i]).len() <= u32::MAX && chunks[i].size
            <= u32::MAX
}

proof fn lemma_encoded_before(chunks: Seq<Chunk>, i: int)
    requires
        fit_table(chunks),
        0 <= i <= chunks.len(),
    ensures
        blte::encoded_before(multi_chunk(chunks), i) == frames(chunks.subrange(0, i)).len(),
    decreases i,
{
    if i > 0 {
        lemma_encoded_before(chunks, i - 1);
        lemma_entry(chunks, i - 1);
        let seen = chunks.subrange(0, i);
        assert(seen.drop_last() =~= chunks.subrange(0, i - 1));
        assert(seen.last() == chunks[i - 1]);
    }
}

/// The table describes the chunks.
spec fn describes(table: Seq<ChunkView>, chunks: Seq<Chunk>) -> bool {
    &&& table.len() == chunks.len()
    &&& forall|i: int|
        0 <= i < table.len() ==> (#[trigger] table[i]).compressed_size == frame(chunks[i]).len()
            && table[i].decompressed_size == chunks[i].size && table[i].md5 == digest::digest(
            frame(chunks[i]),
        )
}

proof fn lemma_list(
    chunks: Seq<Chunk>,
    contents: Seq<Seq<u8>>,
    table: Seq<ChunkView>,
    depth: nat,
    limits: ReadLimits,
    remaining: nat,
)
    requires
        describes(table, chunks),
        chunks.len() == contents.len(),
        forall|i: int|
            0 <= i < chunks.len() ==> decodes_to(
                #[trigger] chunks[i],
                contents[i],
                depth,
                limits,
            ),
        concatenated(contents).len() <= remaining,
    ensures
        blte::chunk_list(frames(chunks), table, depth, limits, remaining) == Ok::<
            Seq<u8>,
            ErrorView,
        >(concatenated(contents)),
    decreases chunks.len(),
{
    if chunks.len() > 0 {
        lemma_frames_front(chunks);
        let rest = frames(chunks);
        let head = frame(chunks[0]);
        let n = head.len() as int;
        assert(table[0].compressed_size == n);
        assert(rest.subrange(0, n) =~= head);
        assert(rest.subrange(n, rest.len() as int) =~= frames(chunks.drop_first()));
        assert(decodes_to(chunks[0], contents[0], depth, limits));
        assert(blte::chunk_bytes(
            frame(chunks[0]),
            Some(chunks[0].size),
            Some(digest::digest(frame(chunks[0]))),
            depth,
            limits,
            remaining,
        ) == Ok::<Seq<u8>, ErrorView>(contents[0]));
        let tail = table.drop_first();
        let others = chunks.drop_first();
        let texts = contents.drop_first();
        assert forall|i: int| 0 <= i < others.len() implies decodes_to(
            #[trigger] others[i],
            texts[i],
            depth,
            limits,
        ) by {
            assert(others[i] == chunks[i + 1]);
            assert(texts[i] == contents[i + 1]);
        }
        assert forall|i: int| 0 <= i < tail.len() implies (#[trigger] tail[i]).compressed_size
            == frame(others[i]).len() && tail[i].decompressed_size == others[i].size && tail[i].md5
            == digest::digest(frame(others[i])) by {
            assert(tail[i] == table[i + 1]);
            assert(others[i] == chunks[i + 1]);
        }
        lemma_list(
            others,
            texts,
            tail,
            depth,
            limits,
            (remaining - contents[0].len()) as nat,
        );
    } else {
        assert(concatenated(contents) =~= seq![]);
    }
}

proof fn lemma_declared(
    table: Seq<ChunkView>,
    chunks: Seq<Chunk>,
    contents: Seq<Seq<u8>>,
)
    requires
        describes(table, chunks),
        chunks.len() == contents.len(),
        forall|i: int| 0 <= i < chunks.len() ==> (#[trigger] chunks[i]).size == contents[i].len(),
    ensures
        blte::declared_total(table) == concatenated(contents).len(),
    decreases chunks.len(),
{
    if chunks.len() > 0 {
        let t = table.drop_last();
        let c = chunks.drop_last();
        let d = contents.drop_last();
        assert forall|i: int| 0 <= i < c.len() implies (#[trigger] c[i]).size == d[i].len() by {
            assert(c[i] == chunks[i]);
        }
        assert forall|i: int| 0 <= i < t.len() implies (#[trigger] t[i]).compressed_size == frame(
            c[i],
        ).len() && t[i].decompressed_size == c[i].size && t[i].md5 == digest::digest(
            frame(c[i]),
        ) by {
            assert(t[i] == table[i]);
        }
        lemma_declared(t, c, d);
        lemma_concatenated_back(contents);
        let last = chunks.len() - 1;
        assert(table[last] == table.last());
        assert(chunks[last].size == contents[last].len());
    }
}

proof fn lemma_concatenated_back(contents: Seq<Seq<u8>>)
    requires
        contents.len() > 0,
    ensures
        concatenated(contents) == concatenated(contents.drop_last()) + contents.last(),
    decreases contents.len(),
{
    let rest = contents.drop_first();
    if rest.len() == 0 {
        assert(contents.drop_last() =~= seq![]);
        assert(concatenated(contents.drop_last()) =~= seq![]);
        assert(concatenated(rest) =~= seq![]);
        assert(concatenated(contents) =~= concatenated(contents.drop_last()) + contents.last());
    } else {
        lemma_concatenated_back(rest);
        assert(contents.drop_last().drop_first() =~= rest.drop_last());
        assert(contents.drop_last()[0] == contents[0]);
        assert(concatenated(contents) =~= concatenated(contents.drop_last()) + contents.last());
    }
}

/// A buffer with a chunk table decodes to the contents of its chunks, one
/// after the other, where every chunk decodes on its own and the limits allow
/// the whole.
pub proof fn law_table_round_trip(
    chunks: Seq<Chunk>,
    contents: Seq<Seq<u8>>,
    depth: nat,
    limits: ReadLimits,
    output: nat,
)
    requires
        fit_table(chunks),
        chunks.len() <= limits.max_chunk_count,
        chunks.len() == contents.len(),
        forall|i: int|
            0 <= i < chunks.len() ==> decodes_to(
                #[trigger] chunks[i],
                contents[i],
                depth,
                limits,
            ) && chunks[i].size <= limits.max_chunk_decoded_bytes,
        multi_chunk(chunks).len() <= limits.max_encoded_bytes,
        concatenated(contents).len() <= output,
        concatenated(contents).len() <= usize::MAX,
    ensures
        blte::decoded(multi_chunk(chunks), depth, limits, output) == Ok::<Seq<u8>, ErrorView>(
            concatenated(contents),
        ),
{
    let data = multi_chunk(chunks);
    let n = chunks.len() as int;
    lemma_parts(chunks);
    lemma_encoded_before(chunks, n);
    assert(chunks.subrange(0, n) =~= chunks);
    let table = Seq::new(n as nat, |i: int| blte::chunk_at(data, i));
    let h = HeaderView { chunks: table, data_start: (12 + 24 * n) as nat };
    assert(blte::header(data, limits) == Ok::<HeaderView, ErrorView>(h));
    assert forall|i: int| 0 <= i < table.len() implies (#[trigger] table[i]).compressed_size
        == frame(chunks[i]).len() && table[i].decompressed_size == chunks[i].size && table[i].md5
        == digest::digest(frame(chunks[i])) by {
        lemma_entry(chunks, i);
    }
    assert(describes(table, chunks));
    blte::lemma_header(data, limits);
    lemma_declared(table, chunks, contents);
    lemma_list(chunks, contents, table, depth, limits, output);
    assert forall|i: int| 0 <= i < table.len() implies (#[trigger] table[i]).decompressed_size
        <= limits.max_chunk_decoded_bytes by {
        assert(chunks[i].size <= limits.max_chunk_decoded_bytes);
    }
}

/// A buffer without a chunk table, byte by byte: the magic, four zeros, the
/// mode and the payload.
pub proof fn law_single_bytes(mode: u8, payload: Seq<u8>)
    ensures
        single_chunk(mode, payload) == seq![
            0x42u8,
            0x4cu8,
            0x54u8,
            0x45u8,
            0u8,
            0u8,
            0u8,
            0u8,
            mode,
        ] + payload,
{
    reveal_with_fuel(bytes::be_bytes, 5);
    assert(single_chunk(mode, payload) =~= seq![
        0x42u8,
        0x4cu8,
        0x54u8,
        0x45u8,
        0u8,
        0u8,
        0u8,
        0u8,
        mode,
    ] + payload);
}

} // verus!
