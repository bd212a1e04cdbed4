//! Integers inside byte strings, in both byte orders.

use vstd::prelude::*;

verus! {

// ---------------------------------------------------------------------
// Reading

/// The big-endian unsigned integer that the whole of `s` spells.
pub open spec fn be(s: Seq<u8>) -> nat
    decreases s.len(),
{
    if s.len() == 0 {
        0
    } else {
        be(s.drop_last()) * 256 + s.last() as nat
    }
}

/// The little-endian unsigned integer that the whole of `s` spells.
pub open spec fn le(s: Seq<u8>) -> nat
    decreases s.len(),
{
    if s.len() == 0 {
        0
    } else {
        s[0] as nat + 256 * le(s.drop_first())
    }
}

/// The big-endian integer in the `n` bytes at `at`.
pub open spec fn be_at(s: Seq<u8>, at: int, n: int) -> nat {
    be(s.subrange(at, at + n))
}

/// The little-endian integer in the `n` bytes at `at`.
pub open spec fn le_at(s: Seq<u8>, at: int, n: int) -> nat {
    le(s.subrange(at, at + n))
}

/// 256 to the power of `n`.
pub open spec fn pow256(n: nat) -> nat
    decreases n,
{
    if n == 0 {
        1
    } else {
        256 * pow256((n - 1) as nat)
    }
}

pub proof fn lemma_pow256()
    ensures
        pow256(0) == 1,
        pow256(1) == 0x100,
        pow256(2) == 0x1_0000,
        pow256(3) == 0x100_0000,
        pow256(4) == 0x1_0000_0000,
        pow256(5) == 0x100_0000_0000,
        pow256(8) == 0x1_0000_0000_0000_0000,
        pow256(9) == 0x100_0000_0000_0000_0000,
        pow256(16) == 0x1_0000_0000_0000_0000_0000_0000_0000_0000,
{
    reveal_with_fuel(pow256, 17);
}

pub proof fn lemma_be_bound(s: Seq<u8>)
    ensures
        be(s) < pow256(s.len()),
    decreases s.len(),
{
    if s.len() > 0 {
        lemma_be_bound(s.drop_last());
    }
}

pub proof fn lemma_le_bound(s: Seq<u8>)
    ensures
        le(s) < pow256(s.len()),
    decreases s.len(),
{
    if s.len() > 0 {
        lemma_le_bound(s.drop_first());
    }
}

/// Byte strings of one length that spell one number are equal.
pub proof fn lemma_be_injective(a: Seq<u8>, b: Seq<u8>)
    requires
        a.len() == b.len(),
        be(a) == be(b),
    ensures
        a == b,
    decreases a.len(),
{
    if a.len() > 0 {
        lemma_be_injective(a.drop_last(), b.drop_last());
        assert(a =~= a.drop_last().push(a.last()));
        assert(b =~= b.drop_last().push(b.last()));
    } else {
        assert(a =~= b);
    }
}

/// Reads the `n`-byte big-endian integer at `at`.
pub fn read_be(data: &[u8], at: usize, n: usize) -> (v: u64)
    requires
        n <= 8,
        at + n <= data@.len(),
    ensures
        v == be_at(data@, at as int, n as int),
        v < pow256(n as nat),
{
    let total: usize = data.len();
    let mut v: u64 = 0;
    let mut i: usize = 0;
    assert(data@.subrange(at as int, at + 0) =~= seq![]);
    while i < n
        invariant
            0 <= i <= n <= 8,
            at + n <= data@.len() == total,
            v == be_at(data@, at as int, i as int),
        decreases n - i,
    {
        let ghost head = data@.subrange(at as int, at + i);
        let ghost next = data@.subrange(at as int, at + i + 1);
        proof {
            lemma_be_bound(next);
            lemma_pow256_grows(next.len(), 8);
            lemma_pow256();
            assert(next.drop_last() =~= head);
        }
        v = v * 256 + data[at + i] as u64;
        i += 1;
    }
    proof {
        lemma_be_bound(data@.subrange(at as int, at + n));
    }
    v
}

pub proof fn lemma_pow256_grows(a: nat, b: nat)
    requires
        a <= b,
    ensures
        pow256(a) <= pow256(b),
    decreases b,
{
    if a < b {
        lemma_pow256_grows(a, (b - 1) as nat);
    }
}

/// Reads the `n`-byte little-endian integer at `at`.
pub fn read_le(data: &[u8], at: usize, n: usize) -> (v: u64)
    requires
        n <= 8,
        at + n <= data@.len(),
    ensures
        v == le_at(data@, at as int, n as int),
        v < pow256(n as nat),
{
    let total: usize = data.len();
    let mut v: u64 = 0;
    let mut i: usize = n;
    assert(data@.subrange(at + n, at + n) =~= seq![]);
    while i > 0
        invariant
            0 <= i <= n <= 8,
            at + n <= data@.len() == total,
            v == le(data@.subrange(at + i, at + n)),
        decreases i,
    {
        let ghost tail = data@.subrange(at + i, at + n);
        let ghost next = data@.subrange(at + i - 1, at + n);
        proof {
            lemma_le_bound(next);
            lemma_pow256_grows(next.len(), 8);
            lemma_pow256();
            assert(next.drop_first() =~= tail);
        }
        i -= 1;
        v = data[at + i] as u64 + 256 * v;
    }
    proof {
        lemma_le_bound(data@.subrange(at as int, at + n));
    }
    v
}

pub fn be32(data: &[u8], at: usize) -> (v: u32)
    requires
        at + 4 <= data@.len(),
    ensures
        v == be_at(data@, at as int, 4),
{
    proof {
        lemma_pow256();
    }
    read_be(data, at, 4) as u32
}

pub fn le32(data: &[u8], at: usize) -> (v: u32)
    requires
        at + 4 <= data@.len(),
    ensures
        v == le_at(data@, at as int, 4),
{
    proof {
        lemma_pow256();
    }
    read_le(data, at, 4) as u32
}

/// The number that a key of up to 16 bytes spells.
pub fn key_number(key: &[u8]) -> (v: u128)
    requires
        key@.len() <= 16,
    ensures
        v == be(key@),
{
    let mut v: u128 = 0;
    let mut i: usize = 0;
    assert(key@.subrange(0, 0) =~= seq![]);
    while i < key.len()
        invariant
            0 <= i <= key@.len() <= 16,
            v == be(key@.subrange(0, i as int)),
        decreases key@.len() - i,
    {
        let ghost head = key@.subrange(0, i as int);
        let ghost next = key@.subrange(0, i + 1);
        proof {
            lemma_be_bound(next);
            lemma_pow256_grows(next.len(), 16);
            lemma_pow256();
            assert(next.drop_last() =~= head);
        }
        v = v * 256 + key[i] as u128;
        i += 1;
    }
    assert(key@.subrange(0, i as int) =~= key@);
    v
}

// ---------------------------------------------------------------------
// Writing

/// The `n` low bytes of `v`, most significant first.
pub open spec fn be_bytes(v: nat, n: nat) -> Seq<u8>
    decreases n,
{
    if n == 0 {
        seq![]
    } else {
        be_bytes(v / 256, (n - 1) as nat).push((v % 256) as u8)
    }
}

/// The `n` low bytes of `v`, least significant first.
pub open spec fn le_bytes(v: nat, n: nat) -> Seq<u8>
    decreases n,
{
    if n == 0 {
        seq![]
    } else {
        seq![(v % 256) as u8] + le_bytes(v / 256, (n - 1) as nat)
    }
}

pub proof fn lemma_be_bytes(v: nat, n: nat)
    ensures
        be_bytes(v, n).len() == n,
        v < pow256(n) ==> be(be_bytes(v, n)) == v,
    decreases n,
{
    if n > 0 {
        lemma_be_bytes(v / 256, (n - 1) as nat);
        let s = be_bytes(v, n);
        assert(s.drop_last() =~= be_bytes(v / 256, (n - 1) as nat));
    }
}

pub proof fn lemma_le_bytes(v: nat, n: nat)
    ensures
        le_bytes(v, n).len() == n,
        v < pow256(n) ==> le(le_bytes(v, n)) == v,
    decreases n,
{
    if n > 0 {
        lemma_le_bytes(v / 256, (n - 1) as nat);
        let s = le_bytes(v, n);
        assert(s.drop_first() =~= le_bytes(v / 256, (n - 1) as nat));
    }
}

/// Appends the `n` low bytes of `v`, most significant first.
pub fn push_be(out: &mut Vec<u8>, v: u64, n: usize)
    ensures
        final(out)@ == old(out)@ + be_bytes(v as nat, n as nat),
    decreases n,
{
    if n > 0 {
        let ghost start = out@;
        push_be(out, v / 256, n - 1);
        out.push((v % 256) as u8);
        assert(out@ =~= start + be_bytes(v as nat, n as nat));
    } else {
        assert(out@ =~= out@ + be_bytes(v as nat, 0));
    }
}

/// Appends the `n` low bytes of `v`, least significant first.
pub fn push_le(out: &mut Vec<u8>, v: u64, n: usize)
    ensures
        final(out)@ == old(out)@ + le_bytes(v as nat, n as nat),
    decreases n,
{
    if n > 0 {
        let ghost start = out@;
        out.push((v % 256) as u8);
        push_le(out, v / 256, n - 1);
        assert(out@ =~= start + le_bytes(v as nat, n as nat));
    } else {
        assert(out@ =~= out@ + le_bytes(v as nat, 0));
    }
}

/// Appends a copy of `s`.
pub fn push_all(out: &mut Vec<u8>, s: &[u8])
    ensures
        final(out)@ == old(out)@ + s@,
{
    let ghost start = out@;
    let mut i: usize = 0;
    assert(out@ =~= start + s@.subrange(0, 0));
    while i < s.len()
        invariant
            0 <= i <= s@.len(),
            out@ == start + s@.subrange(0, i as int),
        decreases s@.len() - i,
    {
        out.push(s[i]);
        i += 1;
        assert(out@ =~= start + s@.subrange(0, i as int));
    }
    assert(s@.subrange(0, i as int) =~= s@);
}

/// A copy of `s`.
pub fn copy(s: &[u8]) -> (v: Vec<u8>)
    ensures
        v@ == s@,
{
    let mut v: Vec<u8> = Vec::new();
    push_all(&mut v, s);
    assert(v@ =~= s@);
    v
}

/// The part of `s` between two positions.
pub fn cut<'a>(s: &'a [u8], from: usize, to: usize) -> (r: &'a [u8])
    requires
        from <= to <= s@.len(),
    ensures
        r@ == s@.subrange(from as int, to as int),
{
    vstd::slice::slice_subrange(s, from, to)
}

// ---------------------------------------------------------------------
// Order

/// `a` comes before `b` in lexicographic order.
pub open spec fn before(a: Seq<u8>, b: Seq<u8>) -> bool {
    exists|i: int| #[trigger] differs_at(a, b, i) && a[i] < b[i]
}

/// `a` and `b` agree before position `i` and differ there.
pub open spec fn differs_at(a: Seq<u8>, b: Seq<u8>, i: int) -> bool {
    0 <= i < a.len() && i < b.len() && a.subrange(0, i) == b.subrange(0, i) && a[i] != b[i]
}

/// Byte strings of one length are in lexicographic order exactly as the
/// numbers that they spell.
pub proof fn law_number_order(a: Seq<u8>, b: Seq<u8>)
    requires
        a.len() == b.len(),
    ensures
        before(a, b) == (be(a) < be(b)),
    decreases a.len(),
{
    if a.len() == 0 {
        assert(a =~= b);
    } else {
        let x = a.drop_last();
        let y = b.drop_last();
        let n = a.len() - 1;
        law_number_order(x, y);
        if before(a, b) {
            let i = choose|i: int| #[trigger] differs_at(a, b, i) && a[i] < b[i];
            if i < n {
                assert(x.subrange(0, i) =~= a.subrange(0, i));
                assert(y.subrange(0, i) =~= b.subrange(0, i));
                assert(differs_at(x, y, i));
            } else {
                assert(x =~= a.subrange(0, i));
                assert(y =~= b.subrange(0, i));
            }
        }
        if be(a) < be(b) {
            if be(x) < be(y) {
                let i = choose|i: int| #[trigger] differs_at(x, y, i) && x[i] < y[i];
                assert(x.subrange(0, i) =~= a.subrange(0, i));
                assert(y.subrange(0, i) =~= b.subrange(0, i));
                assert(differs_at(a, b, i));
            } else {
                lemma_be_injective(x, y);
                assert(x =~= a.subrange(0, n));
                assert(y =~= b.subrange(0, n));
                assert(differs_at(a, b, n));
            }
        }
    }
}

// ---------------------------------------------------------------------
// Joining

/// Byte strings, one after the other.
pub open spec fn concat(parts: Seq<Seq<u8>>) -> Seq<u8>
    decreases parts.len(),
{
    if parts.len() == 0 {
        seq![]
    } else {
        concat(parts.drop_last()) + parts.last()
    }
}

/// Where the `i`-th of the joined byte strings lies.
pub open spec fn start_of(parts: Seq<Seq<u8>>, i: int) -> nat {
    concat(parts.subrange(0, i)).len()
}

pub proof fn lemma_concat_at(parts: Seq<Seq<u8>>, i: int)
    requires
        0 <= i < parts.len(),
    ensures
        start_of(parts, i) + parts[i].len() <= concat(parts).len(),
        concat(parts).subrange(
            start_of(parts, i) as int,
            (start_of(parts, i) + parts[i].len()) as int,
        ) == parts[i],
        start_of(parts, i + 1) == start_of(parts, i) + parts[i].len(),
        start_of(parts, parts.len() as int) == concat(parts).len(),
        start_of(parts, 0) == 0,
    decreases parts.len(),
{
    let init = parts.drop_last();
    let next = parts.subrange(0, i + 1);
    assert(next.drop_last() =~= parts.subrange(0, i));
    assert(next.last() == parts[i]);
    assert(parts.subrange(0, parts.len() as int) =~= parts);
    assert(parts.subrange(0, 0) =~= seq![]);
    if i < init.len() {
        lemma_concat_at(init, i);
        assert(init.subrange(0, i) =~= parts.subrange(0, i));
        assert(concat(parts).subrange(
            start_of(parts, i) as int,
            (start_of(parts, i) + parts[i].len()) as int,
        ) =~= concat(init).subrange(
            start_of(init, i) as int,
            (start_of(init, i) + init[i].len()) as int,
        ));
    } else {
        assert(init =~= parts.subrange(0, i));
        assert(concat(parts).subrange(
            start_of(parts, i) as int,
            (start_of(parts, i) + parts[i].len()) as int,
        ) =~= parts[i]);
    }
}

// ---------------------------------------------------------------------
// Laws

/// Big-endian integers, byte by byte: the first byte weighs most.
pub proof fn law_big_endian(s: Seq<u8>, at: int)
    requires
        0 <= at,
    ensures
        at + 2 <= s.len() ==> be_at(s, at, 2) == s[at] * 0x100 + s[at + 1],
        at + 3 <= s.len() ==> be_at(s, at, 3) == s[at] * 0x1_0000 + s[at + 1] * 0x100 + s[at + 2],
        at + 4 <= s.len() ==> be_at(s, at, 4) == s[at] * 0x100_0000 + s[at + 1] * 0x1_0000 + s[at
            + 2] * 0x100 + s[at + 3],
        at + 5 <= s.len() ==> be_at(s, at, 5) == s[at] * 0x1_0000_0000 + s[at + 1] * 0x100_0000
            + s[at + 2] * 0x1_0000 + s[at + 3] * 0x100 + s[at + 4],
{
    if at <= s.len() {
        assert(s.subrange(at, at) =~= seq![]);
    }
    assert forall|n: int| 0 < n && at + n <= s.len() implies #[trigger] be_at(s, at, n) == be_at(
        s,
        at,
        n - 1,
    ) * 256 + s[at + n - 1] by {
        assert(s.subrange(at, at + n).drop_last() =~= s.subrange(at, at + n - 1));
        assert(s.subrange(at, at + n).last() == s[at + n - 1]);
    }
    if at + 2 <= s.len() {
        assert(be_at(s, at, 0) == 0);
        assert(be_at(s, at, 1) == s[at]);
        assert(be_at(s, at, 2) == be_at(s, at, 1) * 256 + s[at + 1]);
    }
    if at + 3 <= s.len() {
        assert(be_at(s, at, 3) == be_at(s, at, 2) * 256 + s[at + 2]);
    }
    if at + 4 <= s.len() {
        assert(be_at(s, at, 4) == be_at(s, at, 3) * 256 + s[at + 3]);
    }
    if at + 5 <= s.len() {
        assert(be_at(s, at, 5) == be_at(s, at, 4) * 256 + s[at + 4]);
    }
}

/// Little-endian integers, byte by byte: the last byte weighs most.
pub proof fn law_little_endian(s: Seq<u8>, at: int)
    requires
        0 <= at,
    ensures
        at + 2 <= s.len() ==> le_at(s, at, 2) == s[at] + s[at + 1] * 0x100,
        at + 3 <= s.len() ==> le_at(s, at, 3) == s[at] + s[at + 1] * 0x100 + s[at + 2] * 0x1_0000,
        at + 4 <= s.len() ==> le_at(s, at, 4) == s[at] + s[at + 1] * 0x100 + s[at + 2] * 0x1_0000
            + s[at + 3] * 0x100_0000,
{
    assert forall|a: int, n: int| 0 <= a && 0 < n && a + n <= s.len() implies #[trigger] le_at(
        s,
        a,
        n,
    ) == s[a] + 256 * le_at(s, a + 1, n - 1) by {
        assert(s.subrange(a, a + n).drop_first() =~= s.subrange(a + 1, a + 1 + (n - 1)));
        assert(s.subrange(a, a + n)[0] == s[a]);
    }
    assert forall|a: int| 0 <= a < s.len() implies #[trigger] le_at(s, a, 1) == s[a] by {
        assert(s.subrange(a + 1, a + 1) =~= seq![]);
        assert(le_at(s, a + 1, 0) == 0);
    }
    assert forall|a: int| 0 <= a && a + 2 <= s.len() implies #[trigger] le_at(s, a, 2) == s[a]
        + s[a + 1] * 256 by {
        assert(le_at(s, a + 1, 1) == s[a + 1]);
    }
    assert forall|a: int| 0 <= a && a + 3 <= s.len() implies #[trigger] le_at(s, a, 3) == s[a]
        + s[a + 1] * 256 + s[a + 2] * 0x1_0000 by {
        assert(le_at(s, a + 1, 2) == s[a + 1] + s[a + 2] * 256);
    }
    if at + 4 <= s.len() {
        assert(le_at(s, at + 1, 3) == s[at + 1] + s[at + 2] * 256 + s[at + 3] * 0x1_0000);
    }
}

/// What is written in either byte order is what is read back, and the two
/// orders are each other's mirror images.
pub proof fn law_written_integers(v: nat, n: nat)
    requires
        v < pow256(n),
    ensures
        be_bytes(v, n).len() == n,
        be(be_bytes(v, n)) == v,
        le(le_bytes(v, n)) == v,
        le_bytes(v, n) == be_bytes(v, n).reverse(),
    decreases n,
{
    lemma_be_bytes(v, n);
    lemma_le_bytes(v, n);
    if n > 0 {
        law_written_integers(v / 256, (n - 1) as nat);
    }
    assert(le_bytes(v, n) =~= be_bytes(v, n).reverse());
}

} // verus!
