//! Bob Jenkins' little-endian lookup hash used by CASC guarded blocks.
//!
//! Local index and span framing are its only callers.

use vstd::prelude::*;

use crate::bytes;

verus! {

/// `x` rotated left by `k` bits.
pub open spec fn rotated(x: u32, k: u32) -> u32 {
    (x << k) | (x >> ((32 - k) as u32))
}

fn rotl(x: u32, k: u32) -> (r: u32)
    requires
        0 < k < 32,
    ensures
        r == rotated(x, k),
{
    (x << k) | (x >> (32 - k))
}

/// One step of the block mixer: `x` less `y`, mixed with `y` rotated.
pub open spec fn mix_step(x: u32, y: u32, k: u32) -> u32 {
    x.wrapping_sub(y) ^ rotated(y, k)
}

/// The block mixer on the state `(a, b, c)`.
pub open spec fn mixed(a: u32, b: u32, c: u32) -> (u32, u32, u32) {
    let a1 = mix_step(a, c, 4);
    let c1 = c.wrapping_add(b);
    let b1 = mix_step(b, a1, 6);
    let a2 = a1.wrapping_add(c1);
    let c2 = mix_step(c1, b1, 8);
    let b2 = b1.wrapping_add(a2);
    let a3 = mix_step(a2, c2, 16);
    let c3 = c2.wrapping_add(b2);
    let b3 = mix_step(b2, a3, 19);
    let a4 = a3.wrapping_add(c3);
    let c4 = mix_step(c3, b3, 4);
    let b4 = b3.wrapping_add(a4);
    (a4, b4, c4)
}

/// One step of the final mixer: `x` xor `y`, less `y` rotated.
pub open spec fn final_step(x: u32, y: u32, k: u32) -> u32 {
    (x ^ y).wrapping_sub(rotated(y, k))
}

/// The final mixer on the state `(a, b, c)`.
pub open spec fn final_mixed(a: u32, b: u32, c: u32) -> (u32, u32, u32) {
    let c1 = final_step(c, b, 14);
    let a1 = final_step(a, c1, 11);
    let b1 = final_step(b, a1, 25);
    let c2 = final_step(c1, b1, 16);
    let a2 = final_step(a1, c2, 4);
    let b2 = final_step(b1, a2, 14);
    let c3 = final_step(c2, b2, 24);
    (a2, b2, c3)
}

/// The little-endian word at `at`, where bytes past the end count as zero.
pub open spec fn padded_word(data: Seq<u8>, at: int) -> u32 {
    let end = if at + 4 <= data.len() {
        at + 4
    } else {
        data.len() as int
    };
    if at < data.len() {
        bytes::le(data.subrange(at, end)) as u32
    } else {
        0
    }
}

/// The state after the whole of `data`, read in blocks of 12 bytes, with the
/// last block padded with zeros.
pub open spec fn absorbed(data: Seq<u8>, a: u32, b: u32, c: u32) -> (u32, u32, u32)
    decreases data.len(),
{
    let a1 = a.wrapping_add(padded_word(data, 0));
    let b1 = b.wrapping_add(padded_word(data, 4));
    let c1 = c.wrapping_add(padded_word(data, 8));
    if data.len() == 0 {
        (a, b, c)
    } else if data.len() <= 12 {
        final_mixed(a1, b1, c1)
    } else {
        let (a2, b2, c2) = mixed(a1, b1, c1);
        absorbed(data.subrange(12, data.len() as int), a2, b2, c2)
    }
}

/// The two words of the lookup hash of `data`.
pub open spec fn hash2(data: Seq<u8>, pc: u32, pb: u32) -> (u32, u32) {
    let seed = 0xDEAD_BEEFu32.wrapping_add(data.len() as u32).wrapping_add(pc);
    let (a, b, c) = absorbed(data, seed, seed, seed.wrapping_add(pb));
    (c, b)
}

/// The first word of the lookup hash of `data`.
pub open spec fn hash(data: Seq<u8>, initval: u32) -> u32 {
    hash2(data, initval, 0).0
}

fn mix(a: u32, b: u32, c: u32) -> (r: (u32, u32, u32))
    ensures
        r == mixed(a, b, c),
{
    let a = a.wrapping_sub(c) ^ rotl(c, 4);
    let c = c.wrapping_add(b);
    let b = b.wrapping_sub(a) ^ rotl(a, 6);
    let a = a.wrapping_add(c);
    let c = c.wrapping_sub(b) ^ rotl(b, 8);
    let b = b.wrapping_add(a);
    let a = a.wrapping_sub(c) ^ rotl(c, 16);
    let c = c.wrapping_add(b);
    let b = b.wrapping_sub(a) ^ rotl(a, 19);
    let a = a.wrapping_add(c);
    let c = c.wrapping_sub(b) ^ rotl(b, 4);
    let b = b.wrapping_add(a);
    (a, b, c)
}

fn final_mix(a: u32, b: u32, c: u32) -> (r: (u32, u32, u32))
    ensures
        r == final_mixed(a, b, c),
{
    let c = (c ^ b).wrapping_sub(rotl(b, 14));
    let a = (a ^ c).wrapping_sub(rotl(c, 11));
    let b = (b ^ a).wrapping_sub(rotl(a, 25));
    let c = (c ^ b).wrapping_sub(rotl(b, 16));
    let a = (a ^ c).wrapping_sub(rotl(c, 4));
    let b = (b ^ a).wrapping_sub(rotl(a, 14));
    let c = (c ^ b).wrapping_sub(rotl(b, 24));
    (a, b, c)
}

fn word(data: &[u8], at: usize) -> (w: u32)
    requires
        at <= 8,
    ensures
        w == padded_word(data@, at as int),
{
    if at >= data.len() {
        return 0;
    }
    let n: usize = if data.len() - at < 4 {
        data.len() - at
    } else {
        4
    };
    proof {
        bytes::lemma_pow256();
        bytes::lemma_pow256_grows(n as nat, 4);
    }
    bytes::read_le(data, at, n) as u32
}

/// Bob Jenkins' `hashlittle`, with an explicit initial value.
pub fn hashlittle(data: &[u8], initval: u32) -> (h: u32)
    ensures
        h == hash(data@, initval),
{
    hashlittle2(data, initval, 0).0
}

/// Bob Jenkins' `hashlittle2`. The tuple is `(pc, pb)`, matching the high and
/// low words chained by Blizzard's v7 index writer.
pub fn hashlittle2(data: &[u8], pc: u32, pb: u32) -> (h: (u32, u32))
    ensures
        h == hash2(data@, pc, pb),
{
    let seed = 0xDEAD_BEEFu32.wrapping_add(data.len() as u32).wrapping_add(pc);
    let mut a: u32 = seed;
    let mut b: u32 = seed;
    let mut c: u32 = seed.wrapping_add(pb);
    let mut rest: &[u8] = data;
    let ghost whole = absorbed(data@, a, b, c);
    while rest.len() > 12
        invariant
            absorbed(rest@, a, b, c) == whole,
        decreases rest@.len(),
    {
        let (a1, b1, c1) = mix(
            a.wrapping_add(word(rest, 0)),
            b.wrapping_add(word(rest, 4)),
            c.wrapping_add(word(rest, 8)),
        );
        a = a1;
        b = b1;
        c = c1;
        rest = bytes::cut(rest, 12, rest.len());
    }
    if rest.len() == 0 {
        return (c, b);
    }
    let (_, b1, c1) = final_mix(
        a.wrapping_add(word(rest, 0)),
        b.wrapping_add(word(rest, 4)),
        c.wrapping_add(word(rest, 8)),
    );
    (c1, b1)
}

// ---------------------------------------------------------------------
// Laws

/// Zeros behind the data, where they start no further block of twelve bytes,
/// change the hash only as their number added to the first seed does.
pub proof fn law_padding(data: Seq<u8>, zeros: nat, pc: u32, pb: u32)
    requires
        0 < data.len(),
        data.len() + zeros <= u32::MAX,
        (data.len() - 1) / 12 == (data.len() + zeros - 1) / 12,
    ensures
        hash2(data + Seq::new(zeros, |i: int| 0u8), pc, pb) == hash2(
            data,
            pc.wrapping_add(zeros as u32),
            pb,
        ),
{
    let longer = data + Seq::new(zeros, |i: int| 0u8);
    let seed = 0xDEAD_BEEFu32.wrapping_add(longer.len() as u32).wrapping_add(pc);
    lemma_padding(data, zeros, seed, seed, seed.wrapping_add(pb));
}

proof fn lemma_padding(data: Seq<u8>, zeros: nat, a: u32, b: u32, c: u32)
    requires
        0 < data.len(),
        (data.len() - 1) / 12 == (data.len() + zeros - 1) / 12,
    ensures
        absorbed(data + Seq::new(zeros, |i: int| 0u8), a, b, c) == absorbed(data, a, b, c),
    decreases data.len(),
{
    let z = Seq::new(zeros, |i: int| 0u8);
    let longer = data + z;
    lemma_padded_word(data, zeros, 0);
    lemma_padded_word(data, zeros, 4);
    lemma_padded_word(data, zeros, 8);
    if data.len() > 12 {
        let rest = data.subrange(12, data.len() as int);
        assert(longer.subrange(12, longer.len() as int) =~= rest + z);
        let (a2, b2, c2) = mixed(
            a.wrapping_add(padded_word(data, 0)),
            b.wrapping_add(padded_word(data, 4)),
            c.wrapping_add(padded_word(data, 8)),
        );
        lemma_padding(rest, zeros, a2, b2, c2);
    }
}

proof fn lemma_padded_word(data: Seq<u8>, zeros: nat, at: int)
    requires
        0 <= at,
    ensures
        padded_word(data + Seq::new(zeros, |i: int| 0u8), at) == padded_word(data, at),
{
    let z = Seq::new(zeros, |i: int| 0u8);
    let longer = data + z;
    let end = if at + 4 <= longer.len() {
        at + 4
    } else {
        longer.len() as int
    };
    if at < longer.len() {
        let word = longer.subrange(at, end);
        if at + 4 <= data.len() {
            assert(word =~= data.subrange(at, at + 4));
        } else if at < data.len() {
            let head = data.subrange(at, data.len() as int);
            let tail = word.subrange(head.len() as int, word.len() as int);
            assert(word =~= head + tail);
            assert forall|i: int| 0 <= i < tail.len() implies #[trigger] tail[i] == 0 by {}
            lemma_le_zeros(head, tail);
        } else {
            assert forall|i: int| 0 <= i < word.len() implies #[trigger] word[i] == 0 by {}
            lemma_le_zeros(seq![], word);
            assert(seq![] + word =~= word);
        }
    }
}

proof fn lemma_le_zeros(head: Seq<u8>, tail: Seq<u8>)
    requires
        forall|i: int| 0 <= i < tail.len() ==> #[trigger] tail[i] == 0,
    ensures
        bytes::le(head + tail) == bytes::le(head),
    decreases head.len() + tail.len(),
{
    let s = head + tail;
    if head.len() > 0 {
        assert(s.drop_first() =~= head.drop_first() + tail);
        lemma_le_zeros(head.drop_first(), tail);
    } else if tail.len() > 0 {
        let rest = tail.drop_first();
        assert forall|i: int| 0 <= i < rest.len() implies #[trigger] rest[i] == 0 by {
            assert(rest[i] == tail[i + 1]);
        }
        assert(s.drop_first() =~= head + rest);
        assert(s[0] == tail[0]);
        lemma_le_zeros(head, rest);
    } else {
        assert(s =~= head);
    }
}

/// The hash of more than twelve bytes mixes in the first twelve, as three
/// little-endian words, and goes on with the rest.
pub proof fn law_blocks(data: Seq<u8>, a: u32, b: u32, c: u32)
    requires
        data.len() > 12,
    ensures
        ({
            let word = |i: int|
                (data[i] + data[i + 1] * 0x100 + data[i + 2] * 0x1_0000 + data[i + 3]
                    * 0x100_0000) as u32;
            let (x, y, z) = mixed(
                a.wrapping_add(word(0)),
                b.wrapping_add(word(4)),
                c.wrapping_add(word(8)),
            );
            absorbed(data, a, b, c) == absorbed(data.skip(12), x, y, z)
        }),
{
    bytes::law_little_endian(data, 0);
    bytes::law_little_endian(data, 4);
    bytes::law_little_endian(data, 8);
    assert(data.skip(12) =~= data.subrange(12, data.len() as int));
}

/// An entry of an index file of a StarCraft: Remastered install.
pub open spec fn sample_entry() -> Seq<u8> {
    seq![
        0x00u8, 0x06u8, 0x40u8, 0x20u8, 0x0au8, 0xd2u8, 0x5eu8, 0xf8u8, 0x7eu8,
        0x01u8, 0x8bu8, 0xeau8, 0x86u8, 0x7fu8, 0xc8u8, 0xdau8, 0x01u8, 0x00u8,
    ]
}

proof fn lemma_first_round()
    ensures
        mixed(0xfeedc501, 0xd70c910b, 0xc938c07f) == (0x80378ed7u32, 0x228f6820u32, 0xf0e03d21u32),
        final_mixed(0x5b000e5d, 0x228f6821, 0xf0e03d21) == (0x6242cdc1u32, 0xf98763a9u32, 0x936545f6u32),
{
    assert((0x35b50482u32 ^ rotated(0xc938c07fu32, 4)) == 0xa639037eu32
        && (0x30d38d8du32 ^ rotated(0xa639037eu32, 6)) == 0xbe935224u32
        && (0xe1b1ff66u32 ^ rotated(0xbe935224u32, 8)) == 0x72e3dbd8u32
        && (0xd39a7930u32 ^ rotated(0x72e3dbd8u32, 16)) == 0x08420bd3u32
        && (0xfccf9b59u32 ^ rotated(0x08420bd3u32, 19)) == 0xa257d949u32
        && (0xd59da9bbu32 ^ rotated(0xa257d949u32, 4)) == 0xf0e03d21u32
        && (0xf0e03d21u32 ^ 0x228f6821u32) == 0xd26f5500u32 && rotated(0x228f6821u32, 14) == 0xda0848a3u32
        && (0x5b000e5du32 ^ 0xf8670c5du32) == 0xa3670200u32 && rotated(0xf8670c5du32, 11) == 0x3862efc3u32
        && (0x228f6821u32 ^ 0x6b04123du32) == 0x498b7a1cu32 && rotated(0x6b04123du32, 25) == 0x7ad60824u32
        && (0xf8670c5du32 ^ 0xceb571f8u32) == 0x36d27da5u32 && rotated(0xceb571f8u32, 16) == 0x71f8ceb5u32
        && (0x6b04123du32 ^ 0xc4d9aef0u32) == 0xafddbccdu32 && rotated(0xc4d9aef0u32, 4) == 0x4d9aef0cu32
        && (0xceb571f8u32 ^ 0x6242cdc1u32) == 0xacf7bc39u32 && rotated(0x6242cdc1u32, 14) == 0xb3705890u32
        && (0xc4d9aef0u32 ^ 0xf98763a9u32) == 0x3d5ecd59u32 && rotated(0xf98763a9u32, 24) == 0xa9f98763u32) by (bit_vector);
    assert(mix_step(0xfeedc501, 0xc938c07f, 4) == 0xa639037e);
    assert(mix_step(0xd70c910b, 0xa639037e, 6) == 0xbe935224);
    assert(mix_step(0xa045518a, 0xbe935224, 8) == 0x72e3dbd8);
    assert(mix_step(0x467e5508, 0x72e3dbd8, 16) == 0x08420bd3);
    assert(mix_step(0x0511a72c, 0x08420bd3, 19) == 0xa257d949);
    assert(mix_step(0x77f58304, 0xa257d949, 4) == 0xf0e03d21);
    assert(mixed(0xfeedc501, 0xd70c910b, 0xc938c07f) == (0x80378ed7u32, 0x228f6820u32, 0xf0e03d21u32));
    assert(final_step(0xf0e03d21, 0x228f6821, 14) == 0xf8670c5d);
    assert(final_step(0x5b000e5d, 0xf8670c5d, 11) == 0x6b04123d);
    assert(final_step(0x228f6821, 0x6b04123d, 25) == 0xceb571f8);
    assert(final_step(0xf8670c5d, 0xceb571f8, 16) == 0xc4d9aef0);
    assert(final_step(0x6b04123d, 0xc4d9aef0, 4) == 0x6242cdc1);
    assert(final_step(0xceb571f8, 0x6242cdc1, 14) == 0xf98763a9);
    assert(final_step(0xc4d9aef0, 0xf98763a9, 24) == 0x936545f6);
    assert(final_mixed(0x5b000e5d, 0x228f6821, 0xf0e03d21) == (0x6242cdc1u32, 0xf98763a9u32, 0x936545f6u32));
}

proof fn lemma_second_round()
    ensures
        mixed(0x92530af7, 0x6a71d701, 0x56256a1e) == (0x4813227eu32, 0x05c5c548u32, 0xcfba8390u32),
        final_mixed(0x22dba204, 0x05c5c549, 0xcfba8390) == (0xdddf7499u32, 0x35120841u32, 0x7d85241bu32),
{
    assert((0x3c2da0d9u32 ^ rotated(0x56256a1eu32, 4)) == 0x5e7b013cu32
        && (0x0bf6d5c5u32 ^ rotated(0x5e7b013cu32, 6)) == 0x95369ad2u32
        && (0x2b60a64du32 ^ rotated(0x95369ad2u32, 8)) == 0x1dfa74d8u32
        && (0x0117cd83u32 ^ rotated(0x1dfa74d8u32, 16)) == 0x75cfd079u32
        && (0x3e790cb4u32 ^ rotated(0x75cfd079u32, 19)) == 0xbdb2a2cau32
        && (0x1490af3bu32 ^ rotated(0xbdb2a2cau32, 4)) == 0xcfba8390u32
        && (0xcfba8390u32 ^ 0x05c5c549u32) == 0xca7f46d9u32 && rotated(0x05c5c549u32, 14) == 0x71524171u32
        && (0x22dba204u32 ^ 0x592d0568u32) == 0x7bf6a76cu32 && rotated(0x592d0568u32, 11) == 0x682b42c9u32
        && (0x05c5c549u32 ^ 0x13cb64a3u32) == 0x160ea1eau32 && rotated(0x13cb64a3u32, 25) == 0x462796c9u32
        && (0x592d0568u32 ^ 0xcfe70b21u32) == 0x96ca0e49u32 && rotated(0xcfe70b21u32, 16) == 0x0b21cfe7u32
        && (0x13cb64a3u32 ^ 0x8ba83e62u32) == 0x98635ac1u32 && rotated(0x8ba83e62u32, 4) == 0xba83e628u32
        && (0xcfe70b21u32 ^ 0xdddf7499u32) == 0x12387fb8u32 && rotated(0xdddf7499u32, 14) == 0xdd267777u32
        && (0x8ba83e62u32 ^ 0x35120841u32) == 0xbeba3623u32 && rotated(0x35120841u32, 24) == 0x41351208u32) by (bit_vector);
    assert(mix_step(0x92530af7, 0x56256a1e, 4) == 0x5e7b013c);
    assert(mix_step(0x6a71d701, 0x5e7b013c, 6) == 0x95369ad2);
    assert(mix_step(0xc097411f, 0x95369ad2, 8) == 0x1dfa74d8);
    assert(mix_step(0x1f12425b, 0x1dfa74d8, 16) == 0x75cfd079);
    assert(mix_step(0xb448dd2d, 0x75cfd079, 19) == 0xbdb2a2ca);
    assert(mix_step(0xd2435205, 0xbdb2a2ca, 4) == 0xcfba8390);
    assert(mixed(0x92530af7, 0x6a71d701, 0x56256a1e) == (0x4813227eu32, 0x05c5c548u32, 0xcfba8390u32));
    assert(final_step(0xcfba8390, 0x05c5c549, 14) == 0x592d0568);
    assert(final_step(0x22dba204, 0x592d0568, 11) == 0x13cb64a3);
    assert(final_step(0x05c5c549, 0x13cb64a3, 25) == 0xcfe70b21);
    assert(final_step(0x592d0568, 0xcfe70b21, 16) == 0x8ba83e62);
    assert(final_step(0x13cb64a3, 0x8ba83e62, 4) == 0xdddf7499);
    assert(final_step(0xcfe70b21, 0xdddf7499, 14) == 0x35120841);
    assert(final_step(0x8ba83e62, 0x35120841, 24) == 0x7d85241b);
    assert(final_mixed(0x22dba204, 0x05c5c549, 0xcfba8390) == (0xdddf7499u32, 0x35120841u32, 0x7d85241bu32));
}

/// The words of the sample entry.
proof fn lemma_sample_words()
    ensures
        padded_word(sample_entry(), 0) == 0x20400600,
        padded_word(sample_entry(), 4) == 0xf85ed20a,
        padded_word(sample_entry(), 8) == 0xea8b017e,
        padded_word(sample_entry().subrange(12, 18), 0) == 0xdac87f86,
        padded_word(sample_entry().subrange(12, 18), 4) == 0x00000001,
        padded_word(sample_entry().subrange(12, 18), 8) == 0,
{
    let e = sample_entry();
    let rest = e.subrange(12, 18);
    bytes::law_little_endian(e, 0);
    bytes::law_little_endian(e, 4);
    bytes::law_little_endian(e, 8);
    bytes::law_little_endian(rest, 0);
    bytes::law_little_endian(rest, 4);
}

/// The hash of the sample entry, alone and chained behind itself.
pub proof fn law_sample_hashes()
    ensures
        hash2(sample_entry(), 0, 0) == (0x936545f6u32, 0xf98763a9u32),
        hash2(sample_entry(), 0x936545f6, 0xf98763a9) == (0x7d85241bu32, 0x35120841u32),
{
    lemma_sample_words();
    lemma_first_round();
    lemma_second_round();
    reveal_with_fuel(absorbed, 3);
}

} // verus!
