//! Building local index files (`.idx` v7).

use vstd::arithmetic::power2::pow2;
use vstd::prelude::*;

use crate::bytes;
use crate::error::ErrorView;
use crate::idx;
use crate::idx::IdxEntry;
use crate::idx::Layout;
use crate::jenkins;
use crate::seeds;

verus! {

/// An entry of an index file: a truncated key, a storage offset and an
/// encoded size.
pub struct Slot {
    pub key: Seq<u8>,
    pub storage: Seq<u8>,
    pub size: nat,
}

/// The bytes of an entry.
pub open spec fn slot_bytes(s: Slot) -> Seq<u8> {
    s.key + s.storage + bytes::le_bytes(s.size, 4)
}

/// The bytes of each of the entries.
pub open spec fn all_slots(slots: Seq<Slot>) -> Seq<Seq<u8>> {
    Seq::new(slots.len(), |i: int| slot_bytes(slots[i]))
}

/// The file header: revision, bucket, flags, field widths, segment bits and
/// the largest file offset.
pub open spec fn file_header(segment_bits: u8) -> Seq<u8> {
    bytes::le_bytes(7, 2) + seq![0u8, 0u8, 4u8, 5u8, 9u8, segment_bits] + bytes::le_bytes(
        0xff_c000_0000,
        8,
    )
}

/// What stands before the entries: two guarded blocks' sizes and hashes round
/// the file header.
pub open spec fn file_head(segment_bits: u8, body: Seq<u8>) -> Seq<u8> {
    bytes::le_bytes(0x10, 4) + bytes::le_bytes(
        jenkins::hash(file_header(segment_bits), 0) as nat,
        4,
    ) + file_header(segment_bits) + Seq::new(8, |i: int| 0u8) + bytes::le_bytes(body.len(), 4)
        + bytes::le_bytes(idx::block_hash(body) as nat, 4)
}

/// An index file.
pub open spec fn idx_file(segment_bits: u8, slots: Seq<Slot>) -> Seq<u8> {
    let body = bytes::concat(all_slots(slots));
    file_head(segment_bits, body) + body
}

/// Entries as a builder takes them.
pub open spec fn slot_inputs(s: Seq<([u8; 9], [u8; 5], u32)>) -> Seq<Slot> {
    Seq::new(s.len(), |i: int| Slot { key: s[i].0@, storage: s[i].1@, size: s[i].2 as nat })
}

proof fn lemma_slots_len(slots: Seq<Slot>)
    requires
        forall|i: int|
            0 <= i < slots.len() ==> (#[trigger] slots[i]).key.len() == 9 && slots[i].storage.len()
                == 5,
    ensures
        bytes::concat(all_slots(slots)).len() == 18 * slots.len(),
    decreases slots.len(),
{
    if slots.len() > 0 {
        let init = slots.drop_last();
        assert forall|i: int| 0 <= i < init.len() implies (#[trigger] init[i]).key.len() == 9
            && init[i].storage.len() == 5 by {
            assert(init[i] == slots[i]);
        }
        lemma_slots_len(init);
        assert(all_slots(slots).drop_last() =~= all_slots(init));
        assert(slots[slots.len() - 1].key.len() == 9);
        bytes::lemma_le_bytes(slots.last().size, 4);
    }
}

/// Builds a valid `.idx` v7 file from raw entry tuples: `(key9,
/// storage_offset as 5 raw big-endian bytes, encoded_size)`, with the hashes
/// of its guarded blocks.
pub fn build_idx_file(segment_bits: u8, entries: &[([u8; 9], [u8; 5], u32)]) -> (out: Vec<u8>)
    requires
        18 * entries@.len() <= u32::MAX,
    ensures
        out@ == idx_file(segment_bits, slot_inputs(entries@)),
{
    let ghost slots = slot_inputs(entries@);
    let ghost parts = all_slots(slots);
    let mut body: Vec<u8> = Vec::new();
    let mut i: usize = 0;
    assert(parts.subrange(0, 0) =~= seq![]);
    assert(body@ =~= bytes::concat(parts.subrange(0, 0)));
    while i < entries.len()
        invariant
            0 <= i <= entries@.len(),
            slots == slot_inputs(entries@),
            parts == all_slots(slots),
            body@ == bytes::concat(parts.subrange(0, i as int)),
        decreases entries@.len() - i,
    {
        let ghost start = body@;
        let (key9, storage, size) = entries[i];
        bytes::push_all(&mut body, key9.as_slice());
        bytes::push_all(&mut body, storage.as_slice());
        bytes::push_le(&mut body, size as u64, 4);
        proof {
            let seen = parts.subrange(0, i + 1);
            assert(seen.drop_last() =~= parts.subrange(0, i as int));
            assert(seen.last() == slot_bytes(slots[i as int]));
            assert(body@ =~= start + slot_bytes(slots[i as int]));
        }
        i += 1;
    }
    assert(parts.subrange(0, i as int) =~= parts);
    let mut header: Vec<u8> = Vec::new();
    bytes::push_le(&mut header, 7, 2);
    header.push(0);
    header.push(0);
    header.push(4);
    header.push(5);
    header.push(9);
    header.push(segment_bits);
    bytes::push_le(&mut header, 0xff_c000_0000, 8);
    assert(header@ =~= file_header(segment_bits));
    let mut out: Vec<u8> = Vec::new();
    bytes::push_le(&mut out, 0x10, 4);
    bytes::push_le(&mut out, jenkins::hashlittle(header.as_slice(), 0) as u64, 4);
    bytes::push_all(&mut out, header.as_slice());
    let padding: [u8; 8] = [0, 0, 0, 0, 0, 0, 0, 0];
    bytes::push_all(&mut out, padding.as_slice());
    assert(padding@ =~= Seq::new(8, |i: int| 0u8));
    proof {
        lemma_slots_len(slots);
    }
    bytes::push_le(&mut out, body.len() as u64, 4);
    bytes::push_le(&mut out, idx::entry_block_hash(body.as_slice()) as u64, 4);
    assert(out@ =~= file_head(segment_bits, body@));
    bytes::push_all(&mut out, body.as_slice());
    out
}

/// The low five bytes of a storage offset.
pub fn pack_storage_offset(archive: u16, offset: u64, segment_bits: u8) -> (r: [u8; 5])
    requires
        segment_bits <= 39,
        offset < pow2(segment_bits as nat),
    ensures
        r@ == bytes::be_bytes(archive as nat * pow2(segment_bits as nat) + offset as nat, 5),
{
    proof {
        assert(1u64 << (segment_bits as u64) <= 0x80_0000_0000) by (bit_vector)
            requires
                segment_bits <= 39,
        ;
        vstd::arithmetic::power2::lemma_pow2_strictly_increases(segment_bits as nat, 64);
        vstd::arithmetic::power2::lemma2_to64_rest();
        vstd::arithmetic::power2::lemma_pow2_pos(segment_bits as nat);
        vstd::bits::lemma_u64_shl_is_mul(1, segment_bits as u64);
    }
    let unit: u64 = 1u64 << (segment_bits as u64);
    proof {
        assert(archive * unit <= 0xffff * 0x80_0000_0000) by (nonlinear_arith)
            requires
                archive <= 0xffff,
                unit <= 0x80_0000_0000,
        ;
    }
    let v: u64 = archive as u64 * unit + offset;
    let mut out: Vec<u8> = Vec::new();
    bytes::push_be(&mut out, v, 5);
    proof {
        bytes::lemma_be_bytes(v as nat, 5);
    }
    let r: [u8; 5] = [out[0], out[1], out[2], out[3], out[4]];
    assert(r@ =~= out@);
    assert(out@ =~= bytes::be_bytes(v as nat, 5));
    r
}

// ---------------------------------------------------------------------
// Laws

/// An entry by the place that it names.
pub struct Placed {
    pub key: Seq<u8>,
    pub archive: nat,
    pub offset: nat,
    pub size: nat,
}

/// The entry of an index file that names the place.
pub open spec fn slot_of(p: Placed, segment_bits: u8) -> Slot {
    Slot {
        key: p.key,
        storage: bytes::be_bytes(p.archive * pow2(segment_bits as nat) + p.offset, 5),
        size: p.size,
    }
}

/// The entries of an index file that name the places.
pub open spec fn slots_of(places: Seq<Placed>, segment_bits: u8) -> Seq<Slot> {
    Seq::new(places.len(), |i: int| slot_of(places[i], segment_bits))
}

/// A place that an index file with the given segment bits can name.
pub open spec fn is_nameable(p: Placed, segment_bits: u8) -> bool {
    &&& p.key.len() == 9
    &&& p.archive <= 0xffff
    &&& p.offset < pow2(segment_bits as nat)
    &&& p.archive * pow2(segment_bits as nat) + p.offset < 0x100_0000_0000
    &&& p.size <= u32::MAX
}

/// What an index holds of the places: the last of those with a key, where it
/// is no placeholder.
pub open spec fn placed_map(places: Seq<Placed>) -> Map<Seq<u8>, IdxEntry>
    decreases places.len(),
{
    if places.len() == 0 {
        Map::empty()
    } else {
        let m = placed_map(places.drop_last());
        let p = places.last();
        if p.size <= 30 {
            m
        } else {
            m.insert(
                p.key,
                IdxEntry {
                    archive: p.archive as u16,
                    offset: p.offset as u64,
                    encoded_size: p.size as u32,
                },
            )
        }
    }
}

proof fn lemma_head(segment_bits: u8, body: Seq<u8>)
    requires
        16 <= segment_bits <= 39,
        body.len() <= u32::MAX,
        body.len() % 18 == 0,
        0x28 + body.len() <= usize::MAX,
    ensures
        idx::layout(file_head(segment_bits, body) + body) == Ok::<Layout, ErrorView>(
            Layout { segment_bits: segment_bits as nat, count: body.len() / 18 },
        ),
        file_head(segment_bits, body).len() == 0x28,
{
    let header = file_header(segment_bits);
    let data = file_head(segment_bits, body) + body;
    bytes::lemma_pow256();
    bytes::lemma_le_bytes(7, 2);
    bytes::lemma_le_bytes(0xff_c000_0000, 8);
    bytes::lemma_le_bytes(0x10, 4);
    bytes::lemma_le_bytes(jenkins::hash(header, 0) as nat, 4);
    bytes::lemma_le_bytes(body.len(), 4);
    bytes::lemma_le_bytes(idx::block_hash(body) as nat, 4);
    assert(data.subrange(0, 4) =~= bytes::le_bytes(0x10, 4));
    assert(data.subrange(4, 8) =~= bytes::le_bytes(jenkins::hash(header, 0) as nat, 4));
    assert(data.subrange(8, 24) =~= header);
    assert(data.subrange(8, 10) =~= bytes::le_bytes(7, 2));
    assert(data.subrange(0x20, 0x24) =~= bytes::le_bytes(body.len(), 4));
    assert(data.subrange(0x24, 0x28) =~= bytes::le_bytes(idx::block_hash(body) as nat, 4));
    assert(data.subrange(0x28, (0x28 + body.len()) as int) =~= body);
}

/// What the `i`-th entry of a built file says.
proof fn lemma_slot(places: Seq<Placed>, segment_bits: u8, i: int)
    requires
        16 <= segment_bits <= 39,
        0 <= i < places.len(),
        forall|k: int| 0 <= k < places.len() ==> is_nameable(#[trigger] places[k], segment_bits),
        18 * places.len() <= u32::MAX,
    ensures
        ({
            let data = idx_file(segment_bits, slots_of(places, segment_bits));
            let bits = segment_bits as nat;
            &&& idx::entry_key(data, i) == places[i].key
            &&& idx::entry_size(data, i) == places[i].size
            &&& idx::entry_archive(data, i, bits) == places[i].archive
            &&& idx::entry_at(data, i, bits) == (IdxEntry {
                archive: places[i].archive as u16,
                offset: places[i].offset as u64,
                encoded_size: places[i].size as u32,
            })
        }),
{
    let bits = segment_bits as nat;
    let slots = slots_of(places, segment_bits);
    let parts = all_slots(slots);
    let body = bytes::concat(parts);
    let data = idx_file(segment_bits, slots);
    let p = places[i];
    let storage = p.archive * pow2(bits) + p.offset;
    assert forall|k: int| 0 <= k < slots.len() implies (#[trigger] slots[k]).key.len() == 9
        && slots[k].storage.len() == 5 by {
        assert(is_nameable(places[k], segment_bits));
        bytes::lemma_be_bytes(places[k].archive * pow2(bits) + places[k].offset, 5);
    }
    lemma_slots_len(slots);
    lemma_head_len(segment_bits, body);
    lemma_slot_starts(slots, i);
    bytes::lemma_concat_at(parts, i);
    bytes::lemma_pow256();
    bytes::lemma_be_bytes(storage, 5);
    bytes::lemma_le_bytes(p.size, 4);
    let s = slot_bytes(slots[i]);
    assert(s.len() == 18);
    let at = 0x28 + 18 * i;
    assert(body.subrange(18 * i, 18 * i + 18) == s);
    let found = data.subrange(at, at + 18);
    assert(found =~= body.subrange(18 * i, 18 * i + 18));
    assert(data.subrange(at, at + 9) =~= found.subrange(0, 9));
    assert(found.subrange(0, 9) =~= p.key);
    assert(data.subrange(at + 9, at + 14) =~= found.subrange(9, 14));
    assert(found.subrange(9, 14) =~= bytes::be_bytes(storage, 5));
    assert(data.subrange(at + 14, at + 18) =~= found.subrange(14, 18));
    assert(found.subrange(14, 18) =~= bytes::le_bytes(p.size, 4));
    assert(is_nameable(p, segment_bits));
    lemma_split(p.archive, p.offset, pow2(bits));
    vstd::arithmetic::power2::lemma_pow2_strictly_increases(bits, 64);
    vstd::arithmetic::power2::lemma2_to64_rest();
}

proof fn lemma_split(archive: nat, offset: nat, unit: nat)
    requires
        offset < unit,
    ensures
        (archive * unit + offset) / unit == archive,
        (archive * unit + offset) % unit == offset,
{
    vstd::arithmetic::mul::lemma_mul_is_commutative(archive as int, unit as int);
    vstd::arithmetic::div_mod::lemma_fundamental_div_mod_converse(
        (archive * unit + offset) as int,
        unit as int,
        archive as int,
        offset as int,
    );
}

proof fn lemma_head_len(segment_bits: u8, body: Seq<u8>)
    ensures
        file_head(segment_bits, body).len() == 0x28,
{
    bytes::lemma_le_bytes(7, 2);
    bytes::lemma_le_bytes(0xff_c000_0000, 8);
    bytes::lemma_le_bytes(0x10, 4);
    bytes::lemma_le_bytes(jenkins::hash(file_header(segment_bits), 0) as nat, 4);
    bytes::lemma_le_bytes(body.len(), 4);
    bytes::lemma_le_bytes(idx::block_hash(body) as nat, 4);
}

proof fn lemma_slot_starts(slots: Seq<Slot>, i: int)
    requires
        0 <= i <= slots.len(),
        forall|k: int|
            0 <= k < slots.len() ==> (#[trigger] slots[k]).key.len() == 9 && slots[k].storage.len()
                == 5,
    ensures
        bytes::start_of(all_slots(slots), i) == 18 * i,
{
    let seen = slots.subrange(0, i);
    assert(all_slots(slots).subrange(0, i) =~= all_slots(seen));
    assert forall|k: int| 0 <= k < seen.len() implies (#[trigger] seen[k]).key.len() == 9
        && seen[k].storage.len() == 5 by {
        assert(seen[k] == slots[k]);
    }
    lemma_slots_len(seen);
}

proof fn lemma_inserted(places: Seq<Placed>, segment_bits: u8, n: int)
    requires
        16 <= segment_bits <= 39,
        0 <= n <= places.len(),
        forall|k: int| 0 <= k < places.len() ==> is_nameable(#[trigger] places[k], segment_bits),
        18 * places.len() <= u32::MAX,
    ensures
        ({
            let data = idx_file(segment_bits, slots_of(places, segment_bits));
            let bits = segment_bits as nat;
            &&& idx::first_bad(data, bits, n) == n
            &&& idx::inserted(data, bits, n, Map::empty()) == placed_map(places.subrange(0, n))
        }),
    decreases n,
{
    if n > 0 {
        lemma_inserted(places, segment_bits, n - 1);
        lemma_slot(places, segment_bits, n - 1);
        assert(is_nameable(places[n - 1], segment_bits));
        let seen = places.subrange(0, n);
        assert(seen.drop_last() =~= places.subrange(0, n - 1));
        assert(seen.last() == places[n - 1]);
    }
}

/// A built index file reads back: merged on its own, it gives exactly the
/// places that it was built from, placeholders aside and later ones over
/// earlier ones.
#[verifier::rlimit(40)]
pub proof fn law_index_round_trip(places: Seq<Placed>, segment_bits: u8)
    requires
        16 <= segment_bits <= 39,
        places.len() <= idx::MAX_INDEX_ENTRIES,
        forall|k: int| 0 <= k < places.len() ==> is_nameable(#[trigger] places[k], segment_bits),
    ensures
        idx::files_merged(seq![idx_file(segment_bits, slots_of(places, segment_bits))]) == Ok::<
            Map<Seq<u8>, IdxEntry>,
            ErrorView,
        >(placed_map(places)),
{
    let bits = segment_bits as nat;
    let slots = slots_of(places, segment_bits);
    let body = bytes::concat(all_slots(slots));
    let data = idx_file(segment_bits, slots);
    let n = places.len() as int;
    assert forall|k: int| 0 <= k < slots.len() implies (#[trigger] slots[k]).key.len() == 9
        && slots[k].storage.len() == 5 by {
        assert(is_nameable(places[k], segment_bits));
        bytes::lemma_be_bytes(places[k].archive * pow2(bits) + places[k].offset, 5);
    }
    lemma_slots_len(slots);
    lemma_head(segment_bits, body);
    lemma_inserted(places, segment_bits, n);
    assert(places.subrange(0, n) =~= places);
    assert(idx::file_status(data, 0) is Ok);
    assert(idx::file_merged(data, Map::empty()) == placed_map(places));
    lemma_one_file(data, placed_map(places));
}

proof fn lemma_one_file(data: Seq<u8>, m: Map<Seq<u8>, IdxEntry>)
    requires
        idx::file_status(data, 0) is Ok,
        idx::file_merged(data, Map::empty()) == m,
    ensures
        idx::files_merged(seq![data]) == Ok::<Map<Seq<u8>, IdxEntry>, ErrorView>(m),
{
    let files = seq![data];
    assert(files.drop_last() =~= seq![]);
    assert(files.last() == data);
    assert(idx::files_merged(files.drop_last()) == Ok::<Map<Seq<u8>, IdxEntry>, ErrorView>(
        Map::empty(),
    ));
}

// ---------------------------------------------------------------------
// Seeds

/// A truncated key of one repeated byte.
pub open spec fn repeated(byte: u8) -> Seq<u8> {
    Seq::new(9, |i: int| byte)
}

fn key9(byte: u8) -> (key: [u8; 9])
    ensures
        key@ == repeated(byte),
{
    let key: [u8; 9] = [byte, byte, byte, byte, byte, byte, byte, byte, byte];
    assert(key@ =~= repeated(byte));
    key
}

/// A place by the byte that its key repeats.
pub open spec fn place(byte: u8, archive: nat, offset: nat, size: nat) -> Placed {
    Placed { key: repeated(byte), archive, offset, size }
}

/// Ordinary entries across a few archives.
pub open spec fn few_places() -> Seq<Placed> {
    seq![
        place(0x11, 0, 0x1000, 1234),
        place(0x22, 1, 0x2000, 5678),
        place(0x33, 2, 0x0ff0, 42),
        place(0x44, 3, 0, 4096),
    ]
}

/// A placeholder and an ordinary entry.
pub open spec fn placeholder_places() -> Seq<Placed> {
    seq![place(0xaa, 0, 0, 30), place(0xbb, 0, 4096, 500)]
}

/// An entry under another number of segment bits than the usual one.
pub open spec fn segment_places() -> Seq<Placed> {
    seq![place(0xcc, 900, 0x7_ffff, 999)]
}

/// The seeds for parsing local index files.
pub open spec fn idx_seed_list() -> Seq<(Seq<char>, Seq<u8>)> {
    seq![
        ("few_entries.idx"@, idx_file(30, slots_of(few_places(), 30))),
        ("with_placeholder.idx"@, idx_file(30, slots_of(placeholder_places(), 30))),
        ("non_default_segment_bits.idx"@, idx_file(20, slots_of(segment_places(), 20))),
        ("empty.idx"@, idx_file(30, seq![])),
    ]
}

/// The data is a local index file that parses on its own.
#[verifier::opaque]
pub open spec fn parses(data: Seq<u8>) -> bool {
    idx::files_merged(seq![data]) is Ok
}

proof fn lemma_units()
    ensures
        pow2(30) == 0x4000_0000,
        pow2(20) == 0x10_0000,
{
    vstd::arithmetic::power2::lemma2_to64();
}

fn few_seed() -> (out: Vec<u8>)
    ensures
        out@ == idx_file(30, slots_of(few_places(), 30)),
        parses(out@),
{
    proof {
        reveal(parses);
        lemma_units();
        law_index_round_trip(few_places(), 30);
    }
    let entries: [([u8; 9], [u8; 5], u32); 4] = [
        (key9(0x11), pack_storage_offset(0, 0x1000, 30), 1234),
        (key9(0x22), pack_storage_offset(1, 0x2000, 30), 5678),
        (key9(0x33), pack_storage_offset(2, 0x0ff0, 30), 42),
        (key9(0x44), pack_storage_offset(3, 0, 30), 4096),
    ];
    assert(slot_inputs(entries@) =~= slots_of(few_places(), 30));
    build_idx_file(30, entries.as_slice())
}

fn placeholder_seed() -> (out: Vec<u8>)
    ensures
        out@ == idx_file(30, slots_of(placeholder_places(), 30)),
        parses(out@),
{
    proof {
        reveal(parses);
        lemma_units();
        law_index_round_trip(placeholder_places(), 30);
    }
    let entries: [([u8; 9], [u8; 5], u32); 2] = [
        (key9(0xaa), pack_storage_offset(0, 0, 30), 30),
        (key9(0xbb), pack_storage_offset(0, 4096, 30), 500),
    ];
    assert(slot_inputs(entries@) =~= slots_of(placeholder_places(), 30));
    build_idx_file(30, entries.as_slice())
}

fn segment_seed() -> (out: Vec<u8>)
    ensures
        out@ == idx_file(20, slots_of(segment_places(), 20)),
        parses(out@),
{
    proof {
        reveal(parses);
        lemma_units();
        law_index_round_trip(segment_places(), 20);
    }
    let entries: [([u8; 9], [u8; 5], u32); 1] = [
        (key9(0xcc), pack_storage_offset(900, 0x7_ffff, 20), 999),
    ];
    assert(slot_inputs(entries@) =~= slots_of(segment_places(), 20));
    build_idx_file(20, entries.as_slice())
}

fn empty_seed() -> (out: Vec<u8>)
    ensures
        out@ == idx_file(30, seq![]),
        parses(out@),
{
    proof {
        reveal(parses);
        law_index_round_trip(seq![], 30);
        assert(slots_of(seq![], 30) =~= seq![]);
    }
    let entries: [([u8; 9], [u8; 5], u32); 0] = [];
    assert(slot_inputs(entries@) =~= seq![]);
    build_idx_file(30, entries.as_slice())
}

/// The local-index seeds: ordinary entries, a placeholder that is skipped, an
/// unusual number of segment bits, and an empty entry table. Each of them
/// parses.
pub fn idx_seeds() -> (seeds: Vec<(&'static str, Vec<u8>)>)
    ensures
        seeds::seed_views(seeds@) == idx_seed_list(),
        forall|i: int|
            0 <= i < seeds@.len() ==> parses((#[trigger] seeds@[i]).1@),
{
    let mut seeds: Vec<(&'static str, Vec<u8>)> = Vec::new();
    seeds.push(("few_entries.idx", few_seed()));
    seeds.push(("with_placeholder.idx", placeholder_seed()));
    seeds.push(("non_default_segment_bits.idx", segment_seed()));
    seeds.push(("empty.idx", empty_seed()));
    assert(seeds::seed_views(seeds@) =~= idx_seed_list());
    seeds
}

/// The file header, byte by byte.
pub proof fn law_header_bytes(segment_bits: u8)
    ensures
        file_header(segment_bits) == seq![
            7u8,
            0u8,
            0u8,
            0u8,
            4u8,
            5u8,
            9u8,
            segment_bits,
            0u8,
            0u8,
            0u8,
            0xc0u8,
            0xffu8,
            0u8,
            0u8,
            0u8,
        ],
{
    reveal_with_fuel(bytes::le_bytes, 9);
    assert(file_header(segment_bits) =~= seq![
        7u8,
        0u8,
        0u8,
        0u8,
        4u8,
        5u8,
        9u8,
        segment_bits,
        0u8,
        0u8,
        0u8,
        0xc0u8,
        0xffu8,
        0u8,
        0u8,
        0u8,
    ]);
}

} // verus!
