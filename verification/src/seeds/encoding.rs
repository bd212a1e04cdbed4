//! Building encoding tables.

use vstd::prelude::*;

use crate::bytes;
use crate::digest;
use crate::encoding;
use crate::encoding::EncodingView;
use crate::error::ErrorView;
use crate::seeds;

verus! {

/// An entry to be put into an encoding table.
pub struct RawEntry {
    pub ckey: [u8; 16],
    pub ekeys: Vec<[u8; 16]>,
    pub size: u64,
}

/// The content of a [`RawEntry`].
pub struct RawView {
    pub ckey: Seq<u8>,
    pub ekeys: Seq<Seq<u8>>,
    pub size: nat,
}

impl View for RawEntry {
    type V = RawView;

    open spec fn view(&self) -> RawView {
        RawView {
            ckey: self.ckey@,
            ekeys: Seq::new(self.ekeys@.len(), |i: int| self.ekeys@[i]@),
            size: self.size as nat,
        }
    }
}

/// Entries, taken by their views.
pub open spec fn raw_views(s: Seq<RawEntry>) -> Seq<RawView> {
    Seq::new(s.len(), |i: int| s[i]@)
}

/// The bytes of an entry: how many EKeys it has, the low five bytes of its
/// size, its CKey and its EKeys.
pub open spec fn entry_bytes(e: RawView) -> Seq<u8> {
    seq![e.ekeys.len() as u8] + bytes::be_bytes(e.size, 5) + e.ckey + bytes::concat(e.ekeys)
}

/// The bytes of each of the entries.
pub open spec fn serialized(entries: Seq<RawView>) -> Seq<Seq<u8>> {
    Seq::new(entries.len(), |i: int| entry_bytes(entries[i]))
}

/// How entries are packed into pages, one after the other: the full pages,
/// and the page that is being filled.
pub struct Packing {
    pub pages: Seq<Seq<RawView>>,
    pub current: Seq<RawView>,
}

/// Entries packed into pages of the given size: an entry that does not fit
/// into the current page starts the next one.
pub open spec fn packing(entries: Seq<RawView>, page: nat) -> Packing
    decreases entries.len(),
{
    if entries.len() == 0 {
        Packing { pages: seq![], current: seq![] }
    } else {
        let p = packing(entries.drop_last(), page);
        let e = entries.last();
        if bytes::concat(serialized(p.current)).len() + entry_bytes(e).len() > page {
            Packing { pages: p.pages.push(p.current), current: seq![e] }
        } else {
            Packing { pages: p.pages, current: p.current.push(e) }
        }
    }
}

/// The entries of each page.
pub open spec fn page_groups(entries: Seq<RawView>, page: nat) -> Seq<Seq<RawView>> {
    let p = packing(entries, page);
    if p.current.len() == 0 {
        p.pages
    } else {
        p.pages.push(p.current)
    }
}

/// `s` with zeros behind it up to the given size.
pub open spec fn padded(s: Seq<u8>, size: nat) -> Seq<u8> {
    s + Seq::new((size - s.len()) as nat, |i: int| 0u8)
}

/// The bytes of a page.
pub open spec fn page_bytes(group: Seq<RawView>, page: nat) -> Seq<u8> {
    padded(bytes::concat(serialized(group)), page)
}

/// The bytes of each page.
pub open spec fn all_pages(groups: Seq<Seq<RawView>>, page: nat) -> Seq<Seq<u8>> {
    Seq::new(groups.len(), |i: int| page_bytes(groups[i], page))
}

/// The entry of each page in the page index: its first CKey and its MD5.
pub open spec fn index_rows(pages: Seq<Seq<u8>>) -> Seq<Seq<u8>> {
    Seq::new(pages.len(), |i: int| pages[i].subrange(6, 22) + digest::digest(pages[i]))
}

/// The header of an encoding table with an empty ESpec block.
pub open spec fn table_header(page_kb: nat, count: nat) -> Seq<u8> {
    seq![0x45u8, 0x4eu8, 1u8, 16u8, 16u8] + bytes::be_bytes(page_kb, 2) + bytes::be_bytes(
        page_kb,
        2,
    ) + bytes::be_bytes(count, 4) + bytes::be_bytes(0, 4) + seq![0u8] + bytes::be_bytes(0, 4)
}

/// An encoding table over the given pages.
pub open spec fn table_bytes(pages: Seq<Seq<u8>>, page_kb: nat) -> Seq<u8> {
    table_header(page_kb, pages.len()) + bytes::concat(index_rows(pages)) + bytes::concat(pages)
}

/// The encoding table of the given entries.
pub open spec fn encoded_table(entries: Seq<RawView>, page_kb: nat) -> Seq<u8> {
    let page = page_kb * 1024;
    table_bytes(all_pages(page_groups(entries, page), page), page_kb)
}

/// Byte strings, taken by their views.
pub open spec fn buffers(v: Seq<Vec<u8>>) -> Seq<Seq<u8>> {
    Seq::new(v.len(), |i: int| v[i]@)
}

proof fn lemma_keys_len(ekeys: Seq<Seq<u8>>)
    requires
        forall|i: int| 0 <= i < ekeys.len() ==> (#[trigger] ekeys[i]).len() == 16,
    ensures
        bytes::concat(ekeys).len() == 16 * ekeys.len(),
    decreases ekeys.len(),
{
    if ekeys.len() > 0 {
        let init = ekeys.drop_last();
        assert forall|i: int| 0 <= i < init.len() implies (#[trigger] init[i]).len() == 16 by {
            assert(init[i] == ekeys[i]);
        }
        lemma_keys_len(init);
        assert(ekeys[ekeys.len() - 1].len() == 16);
    }
}

/// Serializes an entry.
pub fn serialize_entry(e: &RawEntry) -> (out: Vec<u8>)
    requires
        e.ekeys@.len() <= 255,
    ensures
        out@ == entry_bytes(e@),
        out@.len() == 22 + 16 * e.ekeys@.len(),
{
    let mut out: Vec<u8> = Vec::new();
    out.push(e.ekeys.len() as u8);
    bytes::push_be(&mut out, e.size, 5);
    bytes::push_all(&mut out, e.ckey.as_slice());
    let ghost head = out@;
    let ghost all = e@.ekeys;
    assert(head =~= seq![all.len() as u8] + bytes::be_bytes(e@.size, 5) + e@.ckey);
    let mut i: usize = 0;
    assert(all.subrange(0, 0) =~= seq![]);
    assert(out@ =~= head + bytes::concat(all.subrange(0, 0)));
    while i < e.ekeys.len()
        invariant
            0 <= i <= e.ekeys@.len(),
            all == e@.ekeys,
            out@ == head + bytes::concat(all.subrange(0, i as int)),
        decreases e.ekeys@.len() - i,
    {
        let ghost start = out@;
        bytes::push_all(&mut out, e.ekeys[i].as_slice());
        proof {
            let seen = all.subrange(0, i + 1);
            assert(seen.drop_last() =~= all.subrange(0, i as int));
            assert(seen.last() == e.ekeys@[i as int]@);
            assert(out@ =~= head + bytes::concat(seen));
        }
        i += 1;
    }
    proof {
        assert(all.subrange(0, i as int) =~= all);
        lemma_keys_len(all);
        bytes::lemma_be_bytes(e@.size, 5);
    }
    out
}

fn pad(v: Vec<u8>, size: usize) -> (out: Vec<u8>)
    requires
        v@.len() <= size,
    ensures
        out@ == padded(v@, size as nat),
        out@.len() == size,
{
    let mut out = v;
    while out.len() < size
        invariant
            v@.len() <= out@.len() <= size,
            out@ == v@ + Seq::new((out@.len() - v@.len()) as nat, |i: int| 0u8),
        decreases size - out@.len(),
    {
        let ghost before = out@;
        out.push(0);
        assert(out@ =~= v@ + Seq::new((out@.len() - v@.len()) as nat, |i: int| 0u8));
    }
    assert(out@ =~= padded(v@, size as nat));
    out
}

/// Every entry has at most 255 EKeys and fits into a page of the given size.
pub open spec fn fit_pages(entries: Seq<RawView>, page: nat) -> bool {
    forall|i: int|
        0 <= i < entries.len() ==> (#[trigger] entries[i]).ekeys.len() <= 255 && entry_bytes(
            entries[i],
        ).len() <= page
}

proof fn lemma_alone(e: RawView)
    ensures
        bytes::concat(serialized(seq![e])) == entry_bytes(e),
{
    let parts = serialized(seq![e]);
    assert(parts.drop_last() =~= seq![]);
    assert(bytes::concat(parts.drop_last()) =~= seq![]);
    assert(parts.last() == entry_bytes(e));
    assert(bytes::concat(parts) =~= entry_bytes(e));
}

/// Packs entries into pages.
fn pack_pages(entries: &[RawEntry], page_size: usize) -> (pages: Vec<Vec<u8>>)
    requires
        fit_pages(raw_views(entries@), page_size as nat),
    ensures
        buffers(pages@) == all_pages(
            page_groups(raw_views(entries@), page_size as nat),
            page_size as nat,
        ),
        forall|i: int| 0 <= i < pages@.len() ==> (#[trigger] pages@[i])@.len() == page_size,
{
    let ghost all = raw_views(entries@);
    let ghost page = page_size as nat;
    let mut pages: Vec<Vec<u8>> = Vec::new();
    let mut current: Vec<u8> = Vec::new();
    let mut i: usize = 0;
    proof {
        assert(all.subrange(0, 0) =~= seq![]);
        assert(serialized(seq![]) =~= seq![]);
        assert(buffers(pages@) =~= all_pages(seq![], page));
        assert(current@ =~= bytes::concat(serialized(seq![])));
    }
    while i < entries.len()
        invariant
            0 <= i <= entries@.len(),
            all == raw_views(entries@),
            page == page_size,
            fit_pages(all, page),
            buffers(pages@) == all_pages(packing(all.subrange(0, i as int), page).pages, page),
            current@ == bytes::concat(
                serialized(packing(all.subrange(0, i as int), page).current),
            ),
            current@.len() <= page_size,
            i == 0 ==> current@.len() == 0,
            (current@.len() == 0) == (packing(all.subrange(0, i as int), page).current.len() == 0),
            forall|j: int| 0 <= j < pages@.len() ==> (#[trigger] pages@[j])@.len() == page_size,
        decreases entries@.len() - i,
    {
        let ghost p = packing(all.subrange(0, i as int), page);
        let ghost seen = all.subrange(0, i + 1);
        assert(all[i as int] == entries@[i as int]@);
        let bytes_of_entry = serialize_entry(&entries[i]);
        let ghost e = all[i as int];
        proof {
            assert(seen.drop_last() =~= all.subrange(0, i as int));
            assert(seen.last() == e);
        }
        if bytes_of_entry.len() > page_size - current.len() {
            let ghost before = buffers(pages@);
            let full = pad(current, page_size);
            pages.push(full);
            proof {
                assert(buffers(pages@) =~= before.push(full@));
                assert(buffers(pages@) =~= all_pages(p.pages.push(p.current), page));
                lemma_alone(e);
            }
            current = bytes_of_entry;
        } else {
            let ghost before = current@;
            bytes::push_all(&mut current, bytes_of_entry.as_slice());
            proof {
                let next = serialized(p.current.push(e));
                assert(next.drop_last() =~= serialized(p.current));
                assert(next.last() == entry_bytes(e));
                assert(current@ =~= bytes::concat(next));
            }
        }
        i += 1;
    }
    assert(all.subrange(0, i as int) =~= all);
    if current.len() > 0 {
        let ghost before = buffers(pages@);
        let ghost p = packing(all, page);
        let full = pad(current, page_size);
        pages.push(full);
        assert(buffers(pages@) =~= before.push(full@));
        assert(buffers(pages@) =~= all_pages(p.pages.push(p.current), page));
    }
    pages
}

/// Packs `entries` (CKey-sorted, for a table that parses) into pages of
/// `page_size_kb` KB and emits a complete encoding file: header, empty ESpec
/// block, CKey page index, CKey pages. No EKey→ESpec table is appended (that
/// trailing region is optional and not read).
pub fn build_encoding(entries: &[RawEntry], page_size_kb: u16) -> (out: Vec<u8>)
    requires
        0 < page_size_kb,
        fit_pages(raw_views(entries@), (page_size_kb * 1024) as nat),
    ensures
        out@ == encoded_table(raw_views(entries@), page_size_kb as nat),
{
    let page_size: usize = page_size_kb as usize * 1024;
    let pages = pack_pages(entries, page_size);
    let ghost all = buffers(pages@);
    let mut out: Vec<u8> = Vec::new();
    out.push(0x45);
    out.push(0x4e);
    out.push(1);
    out.push(16);
    out.push(16);
    bytes::push_be(&mut out, page_size_kb as u64, 2);
    bytes::push_be(&mut out, page_size_kb as u64, 2);
    bytes::push_be(&mut out, pages.len() as u64, 4);
    bytes::push_be(&mut out, 0, 4);
    out.push(0);
    bytes::push_be(&mut out, 0, 4);
    let ghost head = table_header(page_size_kb as nat, all.len());
    assert(out@ =~= head);
    let mut i: usize = 0;
    let ghost index = index_rows(all);
    assert(index.subrange(0, 0) =~= seq![]);
    assert(out@ =~= head + bytes::concat(index.subrange(0, 0)));
    while i < pages.len()
        invariant
            0 <= i <= pages@.len(),
            all == buffers(pages@),
            index == index_rows(all),
            1024 <= page_size,
            forall|j: int| 0 <= j < pages@.len() ==> (#[trigger] pages@[j])@.len() == page_size,
            out@ == head + bytes::concat(index.subrange(0, i as int)),
        decreases pages@.len() - i,
    {
        let page = pages[i].as_slice();
        let ghost start = out@;
        assert(pages@[i as int]@.len() == page_size);
        let md5 = digest::md5_of(page);
        bytes::push_all(&mut out, bytes::cut(page, 6, 22));
        bytes::push_all(&mut out, md5.as_slice());
        proof {
            let seen = index.subrange(0, i + 1);
            assert(seen.drop_last() =~= index.subrange(0, i as int));
            assert(all[i as int] == page@);
            assert(seen.last() =~= page@.subrange(6, 22) + digest::digest(page@));
            assert(out@ =~= head + bytes::concat(seen));
        }
        i += 1;
    }
    assert(index.subrange(0, i as int) =~= index);
    let ghost table = out@;
    let mut k: usize = 0;
    assert(all.subrange(0, 0) =~= seq![]);
    assert(out@ =~= table + bytes::concat(all.subrange(0, 0)));
    while k < pages.len()
        invariant
            0 <= k <= pages@.len(),
            all == buffers(pages@),
            out@ == table + bytes::concat(all.subrange(0, k as int)),
        decreases pages@.len() - k,
    {
        let ghost start = out@;
        bytes::push_all(&mut out, pages[k].as_slice());
        proof {
            let seen = all.subrange(0, k + 1);
            assert(seen.drop_last() =~= all.subrange(0, k as int));
            assert(seen.last() == pages@[k as int]@);
            assert(out@ =~= table + bytes::concat(seen));
        }
        k += 1;
    }
    assert(all.subrange(0, k as int) =~= all);
    out
}

// ---------------------------------------------------------------------
// Seeds

/// A key that is made up from a number.
pub open spec fn synthetic_bytes(seed: u8) -> Seq<u8> {
    Seq::new(16, |i: int| ((seed as int * 7 + i) % 256) as u8)
}

/// A key that is made up from a number.
pub fn synthetic_key(seed: u8) -> (key: [u8; 16])
    ensures
        key@ == synthetic_bytes(seed),
{
    let mut key: [u8; 16] = [0; 16];
    let mut i: usize = 0;
    while i < 16
        invariant
            0 <= i <= 16,
            forall|j: int| 0 <= j < i ==> key@[j] == synthetic_bytes(seed)[j],
        decreases 16 - i,
    {
        key[i] = ((seed as usize * 7 + i) % 256) as u8;
        i += 1;
    }
    assert(key@ =~= synthetic_bytes(seed));
    key
}

/// An entry with one made-up EKey.
pub open spec fn simple_entry(ckey: u8, ekey: u8, size: nat) -> RawView {
    RawView { ckey: synthetic_bytes(ckey), ekeys: seq![synthetic_bytes(ekey)], size }
}

fn entry(ckey: u8, ekey: u8, size: u64) -> (e: RawEntry)
    ensures
        e@ == simple_entry(ckey, ekey, size as nat),
        e.ekeys@.len() == 1,
{
    let mut ekeys: Vec<[u8; 16]> = Vec::new();
    ekeys.push(synthetic_key(ekey));
    let e = RawEntry { ckey: synthetic_key(ckey), ekeys, size };
    assert(e@.ekeys =~= seq![synthetic_bytes(ekey)]);
    e
}

/// The entries of the one-page seed, one of them with two EKeys.
pub open spec fn small_entries() -> Seq<RawView> {
    seq![
        simple_entry(1, 101, 111),
        RawView {
            ckey: synthetic_bytes(2),
            ekeys: seq![synthetic_bytes(102), synthetic_bytes(103)],
            size: 222,
        },
        simple_entry(3, 104, 333),
    ]
}

/// The entries of the many-page seed, whose sizes straddle 32 bits.
pub open spec fn multi_entries() -> Seq<RawView> {
    Seq::new(
        30,
        |i: int|
            simple_entry(
                (i + 1) as u8,
                (i + 201) as u8,
                ((i + 1) * 1_000_000_000) as nat,
            ),
    )
}

proof fn lemma_synthetic_order(a: u8, b: u8)
    requires
        a < b <= 36,
    ensures
        bytes::be(synthetic_bytes(a)) < bytes::be(synthetic_bytes(b)),
{
    let x = synthetic_bytes(a);
    let y = synthetic_bytes(b);
    assert(x.subrange(0, 0) =~= y.subrange(0, 0));
    assert(x[0] == 7 * a);
    assert(y[0] == 7 * b);
    assert(bytes::differs_at(x, y, 0));
    bytes::law_number_order(x, y);
}

proof fn lemma_seed_entries()
    ensures
        ascending(small_entries()),
        fit_pages(small_entries(), 1024),
        ascending(multi_entries()),
        fit_pages(multi_entries(), 1024),
{
    let small = small_entries();
    let multi = multi_entries();
    lemma_synthetic_order(1, 2);
    lemma_synthetic_order(1, 3);
    lemma_synthetic_order(2, 3);
    assert forall|i: int| 0 <= i < small.len() implies is_statable(#[trigger] small[i])
        && entry_bytes(small[i]).len() <= 1024 by {
        lemma_entry_bytes(small[i]);
    }
    assert forall|i: int| 0 <= i < multi.len() implies is_statable(#[trigger] multi[i])
        && entry_bytes(multi[i]).len() <= 1024 by {
        lemma_entry_bytes(multi[i]);
    }
    assert forall|i: int, j: int| 0 <= i < j < multi.len() implies bytes::be(
        (#[trigger] multi[i]).ckey,
    ) < bytes::be((#[trigger] multi[j]).ckey) by {
        lemma_synthetic_order((i + 1) as u8, (j + 1) as u8);
    }
}

fn small_seed() -> (out: Vec<u8>)
    ensures
        out@ == encoded_table(small_entries(), 1),
{
    let mut entries: Vec<RawEntry> = Vec::new();
    entries.push(entry(1, 101, 111));
    let mut ekeys: Vec<[u8; 16]> = Vec::new();
    ekeys.push(synthetic_key(102));
    ekeys.push(synthetic_key(103));
    let second = RawEntry { ckey: synthetic_key(2), ekeys, size: 222 };
    assert(second@.ekeys =~= seq![synthetic_bytes(102), synthetic_bytes(103)]);
    entries.push(second);
    entries.push(entry(3, 104, 333));
    assert(raw_views(entries@) =~= small_entries());
    proof {
        lemma_seed_entries();
    }
    build_encoding(entries.as_slice(), 1)
}

fn multi_seed() -> (out: Vec<u8>)
    ensures
        out@ == encoded_table(multi_entries(), 1),
{
    let mut entries: Vec<RawEntry> = Vec::new();
    let mut i: u8 = 0;
    while i < 30
        invariant
            0 <= i <= 30,
            entries@.len() == i,
            forall|j: int| 0 <= j < i ==> (#[trigger] entries@[j])@ == multi_entries()[j],
        decreases 30 - i,
    {
        entries.push(entry(i + 1, i + 201, (i as u64 + 1) * 1_000_000_000));
        i += 1;
    }
    assert(raw_views(entries@) =~= multi_entries());
    proof {
        lemma_seed_entries();
    }
    build_encoding(entries.as_slice(), 1)
}

/// The seeds for parsing encoding tables.
pub open spec fn encoding_seed_list() -> Seq<(Seq<char>, Seq<u8>)> {
    seq![
        ("empty.enc"@, encoded_table(seq![], 1)),
        ("small_single_page.enc"@, encoded_table(small_entries(), 1)),
        ("multi_page.enc"@, encoded_table(multi_entries(), 1)),
    ]
}

/// The encoding-table seeds: an empty table, a handful of entries in a single
/// page, and enough entries to force several pages. Each of them parses.
pub fn encoding_seeds() -> (seeds: Vec<(&'static str, Vec<u8>)>)
    ensures
        seeds::seed_views(seeds@) == encoding_seed_list(),
        forall|i: int|
            0 <= i < seeds@.len() ==> encoding::table((#[trigger] seeds@[i]).1@) is Ok,
{
    let mut seeds: Vec<(&'static str, Vec<u8>)> = Vec::new();
    let none: Vec<RawEntry> = Vec::new();
    assert(raw_views(none@) =~= seq![]);
    seeds.push(("empty.enc", build_encoding(none.as_slice(), 1)));
    seeds.push(("small_single_page.enc", small_seed()));
    seeds.push(("multi_page.enc", multi_seed()));
    proof {
        assert(seeds::seed_views(seeds@) =~= encoding_seed_list());
        lemma_seed_entries();
        lemma_few_entries(seq![]);
        lemma_few_entries(small_entries());
        lemma_few_entries(multi_entries());
    }
    seeds
}

// ---------------------------------------------------------------------
// Laws

/// What a table says of an entry: its CKey, the first of its EKeys and its
/// size.
pub open spec fn stated(e: RawView) -> EncodingView {
    EncodingView { ckey: e.ckey, ekey: e.ekeys[0], size: e.size }
}

/// What a table says of each of the entries.
pub open spec fn all_stated(entries: Seq<RawView>) -> Seq<EncodingView> {
    Seq::new(entries.len(), |i: int| stated(entries[i]))
}

/// An entry that a table can state: full keys, at least one EKey, and a size
/// of at most five bytes.
pub open spec fn is_statable(e: RawView) -> bool {
    &&& e.ckey.len() == 16
    &&& 1 <= e.ekeys.len() <= 255
    &&& e.size < 0x100_0000_0000
    &&& forall|i: int| 0 <= i < e.ekeys.len() ==> (#[trigger] e.ekeys[i]).len() == 16
}

/// Statable entries whose CKeys strictly ascend.
pub open spec fn ascending(entries: Seq<RawView>) -> bool {
    &&& forall|i: int| 0 <= i < entries.len() ==> is_statable(#[trigger] entries[i])
    &&& forall|i: int, j: int|
        0 <= i < j < entries.len() ==> bytes::be((#[trigger] entries[i]).ckey) < bytes::be(
            (#[trigger] entries[j]).ckey,
        )
}

/// The fields of an entry's bytes.
proof fn lemma_entry_bytes(e: RawView)
    requires
        is_statable(e),
    ensures
        ({
            let s = entry_bytes(e);
            &&& s.len() == 22 + 16 * e.ekeys.len()
            &&& s[0] == e.ekeys.len()
            &&& bytes::be(s.subrange(1, 6)) == e.size
            &&& s.subrange(6, 22) == e.ckey
            &&& s.subrange(22, 38) == e.ekeys[0]
        }),
{
    let s = entry_bytes(e);
    bytes::lemma_pow256();
    bytes::lemma_be_bytes(e.size, 5);
    lemma_keys_len(e.ekeys);
    bytes::lemma_concat_at(e.ekeys, 0);
    assert(e.ekeys[0].len() == 16);
    assert(s.subrange(1, 6) =~= bytes::be_bytes(e.size, 5));
    assert(s.subrange(6, 22) =~= e.ckey);
    assert(s.subrange(22, 38) =~= bytes::concat(e.ekeys).subrange(0, 16));
}

/// The `j`-th entry of a page.
proof fn lemma_entry_in_page(group: Seq<RawView>, page: nat, j: int)
    requires
        0 <= j < group.len(),
        is_statable(group[j]),
        bytes::concat(serialized(group)).len() <= page,
    ensures
        ({
            let data = page_bytes(group, page);
            let cursor = bytes::start_of(serialized(group), j) as int;
            let n = (22 + 16 * group[j].ekeys.len()) as int;
            &&& 0 <= cursor
            &&& cursor + n <= data.len()
            &&& data.len() == page
            &&& data[cursor] == group[j].ekeys.len()
            &&& encoding::entry_at(data, cursor) == stated(group[j])
            &&& bytes::start_of(serialized(group), j + 1) == cursor + n
        }),
{
    let parts = serialized(group);
    let data = page_bytes(group, page);
    let cursor = bytes::start_of(parts, j) as int;
    let e = group[j];
    lemma_entry_bytes(e);
    bytes::lemma_concat_at(parts, j);
    let s = entry_bytes(e);
    let n = s.len() as int;
    assert(parts[j] == s);
    let body = bytes::concat(parts);
    let found = data.subrange(cursor, cursor + n);
    assert(found =~= body.subrange(cursor, cursor + n));
    assert(found == s);
    assert(data[cursor] == found[0]);
    assert(data.subrange(cursor + 1, cursor + 6) =~= found.subrange(1, 6));
    assert(data.subrange(cursor + 6, cursor + 22) =~= found.subrange(6, 22));
    assert(data.subrange(cursor + 22, cursor + 38) =~= found.subrange(22, 38));
}

/// Reading a page gives its entries.
proof fn lemma_page(
    group: Seq<RawView>,
    page: nat,
    j: int,
    first: Option<Seq<u8>>,
    before: Seq<EncodingView>,
)
    requires
        0 <= j <= group.len(),
        ascending(group),
        bytes::concat(serialized(group)).len() <= page,
        first is Some ==> j == 0 && group.len() > 0 && first->0 == group[0].ckey,
        before.len() > 0 && j < group.len() ==> bytes::be(before.last().ckey) < bytes::be(
            group[j].ckey,
        ),
    ensures
        encoding::page_entries(
            page_bytes(group, page),
            bytes::start_of(serialized(group), j) as int,
            first,
            before,
        ) == Ok::<Seq<EncodingView>, ErrorView>(
            before + all_stated(group.subrange(j, group.len() as int)),
        ),
    decreases group.len() - j,
{
    let rest = group.subrange(j, group.len() as int);
    if j < group.len() {
        let e = group[j];
        assert(is_statable(e));
        lemma_entry_in_page(group, page, j);
        let next = before.push(stated(e));
        if j + 1 < group.len() {
            assert(bytes::be(group[j].ckey) < bytes::be(group[j + 1].ckey));
        }
        lemma_page(group, page, j + 1, None, next);
        let tail = group.subrange(j + 1, group.len() as int);
        assert(next + all_stated(tail) =~= before + all_stated(rest)) by {
            assert(rest[0] == e);
            assert forall|i: int| 0 <= i < tail.len() implies tail[i] == rest[i + 1] by {}
        }
    } else {
        let parts = serialized(group);
        let data = page_bytes(group, page);
        assert(parts.subrange(0, j) =~= parts);
        assert(before + all_stated(rest) =~= before);
        let cursor = bytes::start_of(parts, j) as int;
        if cursor < data.len() {
            assert(data[cursor] == 0);
        }
    }
}

/// Groups of entries, one after the other.
pub open spec fn ungrouped(groups: Seq<Seq<RawView>>) -> Seq<RawView>
    decreases groups.len(),
{
    if groups.len() == 0 {
        seq![]
    } else {
        ungrouped(groups.drop_last()) + groups.last()
    }
}

/// Non-empty groups that each fit into a page.
spec fn proper(groups: Seq<Seq<RawView>>, page: nat) -> bool {
    forall|i: int|
        0 <= i < groups.len() ==> (#[trigger] groups[i]).len() > 0 && bytes::concat(
            serialized(groups[i]),
        ).len() <= page
}

proof fn lemma_packing(entries: Seq<RawView>, page: nat)
    requires
        fit_pages(entries, page),
    ensures
        proper(page_groups(entries, page), page),
        ungrouped(page_groups(entries, page)) == entries,
        page_groups(entries, page).len() <= entries.len(),
        ({
            let p = packing(entries, page);
            &&& proper(p.pages, page)
            &&& bytes::concat(serialized(p.current)).len() <= page
            &&& ungrouped(p.pages) + p.current == entries
            &&& (entries.len() > 0 ==> p.current.len() > 0)
            &&& p.pages.len() + (if p.current.len() > 0 { 1int } else { 0int }) <= entries.len()
        }),
    decreases entries.len(),
{
    let p = packing(entries, page);
    if entries.len() == 0 {
        assert(serialized(p.current) =~= seq![]);
        assert(ungrouped(p.pages) + p.current =~= entries);
    } else {
        let init = entries.drop_last();
        let e = entries.last();
        assert forall|i: int| 0 <= i < init.len() implies (#[trigger] init[i]).ekeys.len() <= 255
            && entry_bytes(init[i]).len() <= page by {
            assert(init[i] == entries[i]);
        }
        lemma_packing(init, page);
        let q = packing(init, page);
        assert(entries[entries.len() - 1] == e);
        lemma_alone(e);
        let pushed = serialized(q.current.push(e));
        assert(pushed.drop_last() =~= serialized(q.current));
        assert(pushed.last() == entry_bytes(e));
        if bytes::concat(serialized(q.current)).len() + entry_bytes(e).len() > page {
            assert(q.current.len() > 0) by {
                if q.current.len() == 0 {
                    assert(serialized(q.current) =~= seq![]);
                }
            }
            assert(q.pages.push(q.current).drop_last() =~= q.pages);
            assert(ungrouped(p.pages) == ungrouped(q.pages) + q.current);
            assert(init + seq![e] =~= entries);
        } else {
            assert(p.current == q.current.push(e));
            assert(ungrouped(p.pages) + p.current =~= (ungrouped(q.pages) + q.current).push(e));
            assert(init.push(e) =~= entries);
        }
    }
    let groups = page_groups(entries, page);
    if p.current.len() > 0 {
        assert(groups.drop_last() =~= p.pages);
        assert(ungrouped(groups) =~= entries);
    } else {
        assert(ungrouped(groups) =~= entries);
    }
}

proof fn lemma_ungrouped_at(groups: Seq<Seq<RawView>>, i: int)
    requires
        0 <= i < groups.len(),
    ensures
        ({
            let a = ungrouped(groups.subrange(0, i)).len() as int;
            let b = a + groups[i].len();
            &&& b <= ungrouped(groups).len()
            &&& ungrouped(groups).subrange(a, b) == groups[i]
            &&& ungrouped(groups.subrange(0, i + 1)) == ungrouped(groups).subrange(0, b)
            &&& ungrouped(groups.subrange(0, i)) == ungrouped(groups).subrange(0, a)
        }),
    decreases groups.len(),
{
    let init = groups.drop_last();
    let a = ungrouped(groups.subrange(0, i)).len() as int;
    let b = a + groups[i].len();
    let next = groups.subrange(0, i + 1);
    assert(next.drop_last() =~= groups.subrange(0, i));
    assert(next.last() == groups[i]);
    if i < init.len() {
        lemma_ungrouped_at(init, i);
        assert(init.subrange(0, i) =~= groups.subrange(0, i));
        assert(init.subrange(0, i + 1) =~= next);
        assert(ungrouped(groups).subrange(a, b) =~= ungrouped(init).subrange(a, b));
        assert(ungrouped(groups).subrange(0, b) =~= ungrouped(init).subrange(0, b));
        assert(ungrouped(groups).subrange(0, a) =~= ungrouped(init).subrange(0, a));
    } else {
        assert(init =~= groups.subrange(0, i));
        assert(next =~= groups);
        assert(ungrouped(groups).subrange(a, b) =~= groups[i]);
        assert(ungrouped(groups).subrange(0, b) =~= ungrouped(groups));
        assert(ungrouped(groups).subrange(0, a) =~= ungrouped(init));
    }
}

proof fn lemma_rows_at(pages: Seq<Seq<u8>>, page: nat, i: int)
    requires
        0 <= i <= pages.len(),
        22 <= page,
        forall|k: int| 0 <= k < pages.len() ==> (#[trigger] pages[k]).len() == page,
    ensures
        bytes::start_of(index_rows(pages), i) == 32 * i,
        bytes::start_of(pages, i) == page * i,
    decreases i,
{
    let rows = index_rows(pages);
    if i > 0 {
        lemma_rows_at(pages, page, i - 1);
        bytes::lemma_concat_at(rows, i - 1);
        bytes::lemma_concat_at(pages, i - 1);
        assert(pages[i - 1].len() == page);
        assert(rows[i - 1].len() == 32);
        assert(page * (i - 1) + page == page * i) by (nonlinear_arith);
    } else {
        assert(rows.subrange(0, 0) =~= seq![]);
        assert(pages.subrange(0, 0) =~= seq![]);
    }
}

/// Where the `i`-th page and its index entry lie in a table.
proof fn lemma_page_at(pages: Seq<Seq<u8>>, page_kb: nat, i: int)
    requires
        0 <= i < pages.len(),
        0 < page_kb,
        forall|k: int| 0 <= k < pages.len() ==> (#[trigger] pages[k]).len() == page_kb * 1024,
    ensures
        ({
            let page = (page_kb * 1024) as int;
            let data = table_bytes(pages, page_kb);
            let start = (22 + 32 * pages.len() + bytes::start_of(pages, i)) as int;
            let at = 22 + 32 * i;
            &&& start + page <= data.len()
            &&& data.subrange(start, start + page) == pages[i]
            &&& data.subrange(at, at + 16) == pages[i].subrange(6, 22)
            &&& data.subrange(at + 16, at + 32) == digest::digest(pages[i])
            &&& bytes::start_of(pages, i + 1) == bytes::start_of(pages, i) + page
        }),
{
    let page = (page_kb * 1024) as int;
    let n = pages.len() as int;
    let rows = index_rows(pages);
    let data = table_bytes(pages, page_kb);
    let offset = bytes::start_of(pages, i) as int;
    let start = 22 + 32 * n + offset;
    lemma_rows_at(pages, page_kb * 1024, i);
    lemma_rows_at(pages, page_kb * 1024, n);
    lemma_header_len(page_kb, n as nat);
    bytes::lemma_concat_at(pages, i);
    bytes::lemma_concat_at(rows, i);
    assert(pages[i].len() == page);
    assert(rows[i].len() == 32);
    assert(rows.subrange(0, n) =~= rows);
    let body = bytes::concat(pages);
    let head = table_header(page_kb, n as nat) + bytes::concat(rows);
    assert(head.len() == 22 + 32 * n);
    assert(data == head + body);
    assert(data.subrange(start, start + page) =~= body.subrange(offset, offset + page));
    let at = 22 + 32 * i;
    let row = data.subrange(at, at + 32);
    assert(row =~= bytes::concat(rows).subrange(32 * i, 32 * i + 32));
    assert(row == rows[i]);
    assert(data.subrange(at, at + 16) =~= row.subrange(0, 16));
    assert(row.subrange(0, 16) =~= pages[i].subrange(6, 22));
    assert(data.subrange(at + 16, at + 32) =~= row.subrange(16, 32));
    assert(row.subrange(16, 32) =~= digest::digest(pages[i]));
}

/// A group of an ascending list ascends, from beyond what stands before it.
proof fn lemma_group(groups: Seq<Seq<RawView>>, i: int)
    requires
        0 <= i < groups.len(),
        groups[i].len() > 0,
        ascending(ungrouped(groups)),
    ensures
        ascending(groups[i]),
        ({
            let before = all_stated(ungrouped(groups.subrange(0, i)));
            &&& before.len() > 0 ==> bytes::be(before.last().ckey) < bytes::be(groups[i][0].ckey)
            &&& before + all_stated(groups[i]) == all_stated(ungrouped(groups.subrange(0, i + 1)))
        }),
{
    let all = ungrouped(groups);
    let group = groups[i];
    let init = ungrouped(groups.subrange(0, i));
    let a = init.len() as int;
    lemma_ungrouped_at(groups, i);
    assert forall|k: int| 0 <= k < group.len() implies #[trigger] group[k] == all[a + k] by {
        assert(all.subrange(a, a + group.len())[k] == all[a + k]);
    }
    if a > 0 {
        assert(init[a - 1] == all[a - 1]);
        assert(group[0] == all[a]);
        assert(bytes::be(all[a - 1].ckey) < bytes::be(all[a].ckey));
    }
    let next = groups.subrange(0, i + 1);
    assert(next.drop_last() =~= groups.subrange(0, i));
    assert(next.last() == group);
    assert(all_stated(init) + all_stated(group) =~= all_stated(ungrouped(next)));
}

/// Reading the pages from the `i`-th on gives the entries of their groups.
proof fn lemma_pages(groups: Seq<Seq<RawView>>, page_kb: nat, i: int)
    requires
        0 <= i <= groups.len(),
        0 < page_kb,
        proper(groups, page_kb * 1024),
        ascending(ungrouped(groups)),
    ensures
        ({
            let page = page_kb * 1024;
            let pages = all_pages(groups, page);
            let data = table_bytes(pages, page_kb);
            encoding::pages(
                data,
                22 + 32 * i,
                (22 + 32 * groups.len() + bytes::start_of(pages, i)) as int,
                page as int,
                groups.len() - i,
                all_stated(ungrouped(groups.subrange(0, i))),
            ) == Ok::<Seq<EncodingView>, ErrorView>(all_stated(ungrouped(groups)))
        }),
    decreases groups.len() - i,
{
    let page = page_kb * 1024;
    let pages = all_pages(groups, page);
    if i < groups.len() {
        let group = groups[i];
        assert forall|k: int| 0 <= k < pages.len() implies (#[trigger] pages[k]).len() == page by {
            assert(groups[k].len() > 0);
        }
        lemma_page_at(pages, page_kb, i);
        assert(pages[i] == page_bytes(group, page));
        assert(group.len() > 0);
        lemma_group(groups, i);
        lemma_first_key(group, page);
        let before = all_stated(ungrouped(groups.subrange(0, i)));
        lemma_page(group, page, 0, Some(group[0].ckey), before);
        assert(serialized(group).subrange(0, 0) =~= seq![]);
        assert(bytes::start_of(serialized(group), 0) == 0);
        assert(group.subrange(0, group.len() as int) =~= group);
        lemma_pages(groups, page_kb, i + 1);
    } else {
        assert(groups.subrange(0, i) =~= groups);
    }
}

proof fn lemma_first_key(group: Seq<RawView>, page: nat)
    requires
        group.len() > 0,
        ascending(group),
        bytes::concat(serialized(group)).len() <= page,
    ensures
        page_bytes(group, page).subrange(6, 22) == group[0].ckey,
{
    let parts = serialized(group);
    assert(is_statable(group[0]));
    lemma_entry_bytes(group[0]);
    bytes::lemma_concat_at(parts, 0);
    let s = entry_bytes(group[0]);
    assert(parts[0] == s);
    assert(bytes::concat(parts).subrange(0, s.len() as int) == s);
    assert(page_bytes(group, page).subrange(6, 22) =~= s.subrange(6, 22)) by {
        assert forall|k: int| 6 <= k < 22 implies page_bytes(group, page)[k] == s[k] by {
            assert(bytes::concat(parts).subrange(0, s.len() as int)[k] == bytes::concat(parts)[k]);
        }
    }
}

proof fn lemma_header_len(page_kb: nat, count: nat)
    ensures
        table_header(page_kb, count).len() == 22,
{
    bytes::lemma_be_bytes(page_kb, 2);
    bytes::lemma_be_bytes(count, 4);
    bytes::lemma_be_bytes(0, 4);
}

/// An encoding table states every entry that it was built from, in their
/// order, where their CKeys strictly ascend, every entry fits into a page and
/// the pages can be counted in the header.
pub proof fn law_table_round_trip(entries: Seq<RawView>, page_kb: nat)
    requires
        0 < page_kb <= u16::MAX,
        ascending(entries),
        fit_pages(entries, page_kb * 1024),
        page_groups(entries, page_kb * 1024).len() <= u32::MAX,
        32 * page_groups(entries, page_kb * 1024).len() <= usize::MAX,
    ensures
        encoding::table(encoded_table(entries, page_kb)) == Ok::<Seq<EncodingView>, ErrorView>(
            all_stated(entries),
        ),
{
    let page = page_kb * 1024;
    let groups = page_groups(entries, page);
    let pages = all_pages(groups, page);
    let data = table_bytes(pages, page_kb);
    let n = groups.len() as int;
    lemma_packing(entries, page);
    lemma_header_len(page_kb, n as nat);
    bytes::lemma_pow256();
    bytes::lemma_be_bytes(page_kb, 2);
    bytes::lemma_be_bytes(n as nat, 4);
    bytes::lemma_be_bytes(0, 4);
    assert forall|k: int| 0 <= k < pages.len() implies (#[trigger] pages[k]).len() == page by {
        assert(groups[k].len() > 0);
    }
    lemma_rows_at(pages, page, n);
    let rows = index_rows(pages);
    assert(rows.subrange(0, n) =~= rows);
    assert(data.subrange(5, 7) =~= bytes::be_bytes(page_kb, 2));
    assert(data.subrange(9, 13) =~= bytes::be_bytes(n as nat, 4));
    assert(data.subrange(18, 22) =~= bytes::be_bytes(0, 4));
    lemma_pages(groups, page_kb, 0);
    assert(groups.subrange(0, 0) =~= seq![]);
    assert(all_stated(seq![]) =~= seq![]);
    assert(pages.subrange(0, 0) =~= seq![]);
}

/// A lookup of the CKey of an entry that a table was built from gives its
/// first EKey and its size, and a lookup of any other CKey gives nothing.
pub proof fn law_table_lookup(entries: Seq<RawView>, key: Seq<u8>)
    requires
        ascending(entries),
    ensures
        all_stated(entries).len() == entries.len(),
        forall|i: int|
            0 <= i < entries.len() && (#[trigger] entries[i]).ckey == key ==> encoding::found(
                all_stated(entries),
                key,
            ) == Some(
                EncodingView { ckey: key, ekey: entries[i].ekeys[0], size: entries[i].size },
            ),
        (forall|i: int| 0 <= i < entries.len() ==> (#[trigger] entries[i]).ckey != key)
            ==> encoding::found(all_stated(entries), key) is None,
{
    let s = all_stated(entries);
    assert forall|i: int, j: int| 0 <= i < j < s.len() implies bytes::be((#[trigger] s[i]).ckey)
        < bytes::be((#[trigger] s[j]).ckey) by {
        assert(s[i].ckey == entries[i].ckey);
        assert(s[j].ckey == entries[j].ckey);
    }
    assert forall|i: int| 0 <= i < entries.len() && (#[trigger] entries[i]).ckey
        == key implies encoding::found(s, key) == Some(
        EncodingView { ckey: key, ekey: entries[i].ekeys[0], size: entries[i].size },
    ) by {
        encoding::lemma_found(s, i);
    }
    if forall|i: int| 0 <= i < entries.len() ==> (#[trigger] entries[i]).ckey != key {
        assert forall|i: int| 0 <= i < s.len() implies (#[trigger] s[i]).ckey != key by {
            assert(s[i].ckey == entries[i].ckey);
        }
    }
}

/// A table of a few entries, in pages of one KiB, parses.
proof fn lemma_few_entries(entries: Seq<RawView>)
    requires
        ascending(entries),
        fit_pages(entries, 1024),
        entries.len() <= 1000,
    ensures
        encoding::table(encoded_table(entries, 1)) is Ok,
{
    lemma_packing(entries, 1024);
    law_table_round_trip(entries, 1);
}

/// An encoding table with an ESpec block of any bytes, whose size its header
/// states, states the entries that it was built from, in their order.
pub proof fn law_espec_round_trip(
    entries: Seq<RawView>,
    page_kb: nat,
    size: Seq<u8>,
    block: Seq<u8>,
)
    requires
        0 < page_kb <= u16::MAX,
        ascending(entries),
        fit_pages(entries, page_kb * 1024),
        page_groups(entries, page_kb * 1024).len() <= u32::MAX,
        32 * page_groups(entries, page_kb * 1024).len() <= usize::MAX,
        size.len() == 4,
        size[0] * 0x100_0000 + size[1] * 0x1_0000 + size[2] * 0x100 + size[3] == block.len(),
    ensures
        ({
            let plain = encoded_table(entries, page_kb);
            encoding::table(plain.take(18) + size + block + plain.skip(22)) == Ok::<
                Seq<EncodingView>,
                ErrorView,
            >(
                Seq::new(
                    entries.len(),
                    |i: int|
                        EncodingView {
                            ckey: entries[i].ckey,
                            ekey: entries[i].ekeys[0],
                            size: entries[i].size,
                        },
                ),
            )
        }),
{
    let plain = encoded_table(entries, page_kb);
    let n = page_groups(entries, page_kb * 1024).len();
    law_table_round_trip(entries, page_kb);
    lemma_header_len(page_kb, n);
    bytes::lemma_be_bytes(page_kb, 2);
    bytes::lemma_be_bytes(n, 4);
    bytes::lemma_be_bytes(0, 4);
    reveal_with_fuel(bytes::be_bytes, 5);
    encoding::law_espec_is_skipped(plain.take(18), size, block, plain.skip(22));
    assert(plain =~= plain.take(18) + seq![0u8, 0u8, 0u8, 0u8] + plain.skip(22)) by {
        let zeros = bytes::be_bytes(0, 4);
        assert(zeros =~= seq![0u8, 0u8, 0u8, 0u8]);
        assert(table_header(page_kb, n).subrange(18, 22) =~= zeros);
        assert forall|k: int| 18 <= k < 22 implies #[trigger] plain[k] == 0 by {
            assert(plain[k] == table_header(page_kb, n)[k]);
            assert(table_header(page_kb, n).subrange(18, 22)[k - 18] == zeros[k - 18]);
        }
    }
    assert(all_stated(entries) =~= Seq::new(
        entries.len(),
        |i: int|
            EncodingView {
                ckey: entries[i].ckey,
                ekey: entries[i].ekeys[0],
                size: entries[i].size,
            },
    ));
}

/// The header of a table, byte by byte: the magic, the version, the lengths of
/// the keys, the page size twice, the number of pages, and no EKey pages, no
/// flags and no ESpec block.
pub proof fn law_header_bytes(page_kb: nat, count: nat)
    requires
        page_kb < 0x1_0000,
        count < 0x1_0000_0000,
    ensures
        table_header(page_kb, count) == seq![
            0x45u8,
            0x4eu8,
            1u8,
            16u8,
            16u8,
            (page_kb / 0x100) as u8,
            (page_kb % 0x100) as u8,
            (page_kb / 0x100) as u8,
            (page_kb % 0x100) as u8,
            (count / 0x100_0000) as u8,
            (count / 0x1_0000 % 0x100) as u8,
            (count / 0x100 % 0x100) as u8,
            (count % 0x100) as u8,
            0u8,
            0u8,
            0u8,
            0u8,
            0u8,
            0u8,
            0u8,
            0u8,
            0u8,
        ],
{
    reveal_with_fuel(bytes::be_bytes, 5);
    assert(count / 256 / 256 == count / 0x1_0000);
    assert(count / 256 / 256 / 256 == count / 0x100_0000);
    assert(count / 256 / 256 / 256 % 256 == count / 0x100_0000);
    assert(page_kb / 256 % 256 == page_kb / 0x100);
    assert(table_header(page_kb, count) =~= seq![
        0x45u8,
        0x4eu8,
        1u8,
        16u8,
        16u8,
        (page_kb / 0x100) as u8,
        (page_kb % 0x100) as u8,
        (page_kb / 0x100) as u8,
        (page_kb % 0x100) as u8,
        (count / 0x100_0000) as u8,
        (count / 0x1_0000 % 0x100) as u8,
        (count / 0x100 % 0x100) as u8,
        (count % 0x100) as u8,
        0u8,
        0u8,
        0u8,
        0u8,
        0u8,
        0u8,
        0u8,
        0u8,
        0u8,
    ]);
}

/// A page ends where the next entry does not fit: the first entry of every
/// page but the first would run past the end of the page before it.
pub proof fn law_pages_are_full(entries: Seq<RawView>, page: nat, i: int)
    requires
        fit_pages(entries, page),
        0 < i < page_groups(entries, page).len(),
    ensures
        ({
            let groups = page_groups(entries, page);
            &&& groups[i].len() > 0
            &&& bytes::concat(serialized(groups[i - 1])).len() + entry_bytes(groups[i][0]).len()
                > page
        }),
{
    lemma_full_pages(entries, page);
    let groups = page_groups(entries, page);
    assert(overflows(groups[i - 1], groups[i], page));
}

/// The first entry of the page `next` does not fit behind those of `page`.
spec fn overflows(page: Seq<RawView>, next: Seq<RawView>, size: nat) -> bool {
    next.len() > 0 && bytes::concat(serialized(page)).len() + entry_bytes(next[0]).len() > size
}

spec fn full(pages: Seq<Seq<RawView>>, page: nat) -> bool {
    forall|i: int, j: int|
        0 <= i && j == i + 1 && j < pages.len() ==> overflows(
            #[trigger] pages[i],
            #[trigger] pages[j],
            page,
        )
}

proof fn lemma_page_added(pages: Seq<Seq<RawView>>, next: Seq<RawView>, page: nat)
    requires
        full(pages, page),
        pages.len() > 0 ==> overflows(pages.last(), next, page),
    ensures
        full(pages.push(next), page),
{
    let all = pages.push(next);
    assert forall|i: int, j: int| 0 <= i && j == i + 1 && j < all.len() implies overflows(
        #[trigger] all[i],
        #[trigger] all[j],
        page,
    ) by {
        if j < pages.len() {
            assert(overflows(pages[i], pages[j], page));
        }
    }
}

proof fn lemma_page_grown(
    pages: Seq<Seq<RawView>>,
    current: Seq<RawView>,
    e: RawView,
    page: nat,
)
    requires
        full(pages.push(current), page),
        current.len() > 0,
    ensures
        full(pages.push(current.push(e)), page),
{
    let before = pages.push(current);
    let all = pages.push(current.push(e));
    assert forall|i: int, j: int| 0 <= i && j == i + 1 && j < all.len() implies overflows(
        #[trigger] all[i],
        #[trigger] all[j],
        page,
    ) by {
        assert(overflows(before[i], before[j], page));
        assert(all[j][0] == before[j][0]);
    }
}

proof fn lemma_full_pages(entries: Seq<RawView>, page: nat)
    requires
        fit_pages(entries, page),
    ensures
        full(page_groups(entries, page), page),
        ({
            let p = packing(entries, page);
            &&& p.current.len() > 0 ==> full(p.pages.push(p.current), page)
            &&& p.current.len() == 0 ==> p.pages.len() == 0
        }),
    decreases entries.len(),
{
    if entries.len() > 0 {
        let init = entries.drop_last();
        assert forall|i: int| 0 <= i < init.len() implies (#[trigger] init[i]).ekeys.len() <= 255
            && entry_bytes(init[i]).len() <= page by {
            assert(init[i] == entries[i]);
        }
        lemma_full_pages(init, page);
        let q = packing(init, page);
        let e = entries.last();
        assert(entries[entries.len() - 1] == e);
        let before = q.pages.push(q.current);
        if q.current.len() == 0 {
            assert(serialized(q.current) =~= seq![]);
            assert(q.pages =~= seq![]);
            lemma_page_added(q.pages, q.current.push(e), page);
        } else if bytes::concat(serialized(q.current)).len() + entry_bytes(e).len() > page {
            assert(before.last() == q.current);
            lemma_page_added(before, seq![e], page);
        } else {
            lemma_page_grown(q.pages, q.current, e, page);
        }
    } else {
        assert(page_groups(entries, page) =~= seq![]);
    }
}

} // verus!
