//! Whether seeds and inputs are what the fuzz targets want.

use vstd::prelude::*;
use vstd::string::*;

use crate::blte;
use crate::blte::BlteHeader;
use crate::config;
use crate::config::BuildConfig;
use crate::config::BuildInfo;
use crate::encoding;
use crate::encoding::EncodingTable;
use crate::error;
use crate::error::CascError;
use crate::error::ErrorView;
use crate::idx;
use crate::idx::LocalIndex;
use crate::root;
use crate::root::RootFile;
use crate::text;

verus! {

/// The parsers that are fuzzed.
#[derive(Debug, Clone, Copy, PartialEq, Eq)]
pub enum Target {
    Blte,
    Encoding,
    Idx,
    Root,
    Config,
}

/// The name of a target, which is the name of its seed directory.
pub open spec fn target_dir(t: Target) -> Seq<char> {
    match t {
        Target::Blte => "blte_decode"@,
        Target::Encoding => "encoding_parse"@,
        Target::Idx => "idx_parse"@,
        Target::Root => "root_parse"@,
        Target::Config => "config_parse"@,
    }
}

/// The name of a target.
pub fn target_name(t: Target) -> (s: &'static str)
    ensures
        s@ == target_dir(t),
{
    match t {
        Target::Blte => "blte_decode",
        Target::Encoding => "encoding_parse",
        Target::Idx => "idx_parse",
        Target::Root => "root_parse",
        Target::Config => "config_parse",
    }
}

/// The most bytes that a seed may have.
pub const MAX_SEED_BYTES: usize = 4096;

/// The name holds the given word.
pub open spec fn names(name: Seq<char>, word: Seq<char>) -> bool {
    text::occurs(name, word)
}

/// A decoding fails as that of a nested buffer of another size does.
pub open spec fn is_size_mismatch(r: Result<Seq<u8>, ErrorView>) -> bool {
    r matches Err(ErrorView::Malformed { what, reason }) && what == "BLTE chunk"@ && text::occurs(
        reason,
        "mode 'F'"@,
    )
}

/// The seed does what it is meant to: it parses with the parser that it is
/// for, but for the one seed that must be rejected.
pub open spec fn is_good(t: Target, name: Seq<char>, data: Seq<u8>) -> bool {
    match t {
        Target::Blte => {
            let limits = blte::default_limits();
            let r = blte::decoded(data, 0, limits, limits.max_decoded_bytes as nat);
            if name == "nested_f_parent_size_mismatch.blte"@ {
                is_size_mismatch(r)
            } else {
                r is Ok
            }
        },
        Target::Encoding => encoding::table(data) is Ok,
        Target::Idx => idx::files_merged(seq![data]) is Ok,
        Target::Root => root::root_file(data) is Ok,
        Target::Config => if names(name, "build_info"@) {
            config::build_info(text::utf8_lossy(data)) is Ok
        } else if names(name, "build_config"@) {
            config::build_config(text::utf8_lossy(data)) is Ok
        } else {
            true
        },
    }
}

fn has_word(s: &str, word: &str) -> (b: bool)
    ensures
        b == text::occurs(s@, word@),
{
    let chars = text::chars_of(s);
    let wanted = text::chars_of(word);
    text::contains_chars(chars.as_slice(), wanted.as_slice())
}

fn blte_is_good(name: &str, data: &[u8]) -> (b: bool)
    ensures
        b == is_good(Target::Blte, name@, data@),
{
    let r = blte::decode(data);
    if text::same_text(name, "nested_f_parent_size_mismatch.blte") {
        match r {
            Err(CascError::Malformed { what, reason }) => text::same_text(what, "BLTE chunk")
                && has_word(reason.as_str(), "mode 'F'"),
            _ => false,
        }
    } else {
        r.is_ok()
    }
}

/// Whether a seed does what it is meant to.
pub fn seed_is_good(t: Target, name: &str, data: &[u8]) -> (b: bool)
    ensures
        b == is_good(t, name@, data@),
{
    match t {
        Target::Blte => blte_is_good(name, data),
        Target::Encoding => EncodingTable::parse(data).is_ok(),
        Target::Idx => {
            let files: [&[u8]; 1] = [data];
            assert(idx::buffers(files@) =~= seq![data@]);
            LocalIndex::from_files(files.as_slice()).is_ok()
        },
        Target::Root => RootFile::parse(data).is_ok(),
        Target::Config => {
            let input = text::lossy_text(data);
            if has_word(name, "build_info") {
                BuildInfo::parse(input.as_str()).is_ok()
            } else if has_word(name, "build_config") {
                BuildConfig::parse(input.as_str()).is_ok()
            } else {
                true
            }
        },
    }
}

/// The largest declared output that a fuzzed input is decoded for: 64 MiB.
pub const MAX_FUZZED_BYTES: u64 = 0x400_0000;

/// The input declares no more than the largest output that is fuzzed. One
/// without a chunk table declares nothing.
pub open spec fn is_worth_decoding(data: Seq<u8>) -> bool {
    match blte::header(data, blte::default_limits()) {
        Ok(h) => h.chunks.len() == 0 || blte::declared_total(h.chunks) > u64::MAX
            || blte::declared_total(h.chunks) <= MAX_FUZZED_BYTES,
        Err(_) => true,
    }
}

/// Whether an input is decoded by the fuzz target: one whose chunk table
/// already declares an enormous output is skipped, so that a degenerate chunk
/// table cannot turn a tiny input into minutes of inflating.
pub fn worth_decoding(data: &[u8]) -> (b: bool)
    ensures
        b == is_worth_decoding(data@),
{
    match BlteHeader::parse(data) {
        Ok(h) => match h.total_decompressed_size() {
            Some(total) => total <= MAX_FUZZED_BYTES,
            None => true,
        },
        Err(_) => true,
    }
}

/// The positions of the samples that are taken of `n` items: all of them
/// where there are at most ten, else ten spread evenly from the first to the
/// last.
pub open spec fn picks(n: nat) -> Seq<nat> {
    if n <= 10 {
        Seq::new(n, |i: int| i as nat)
    } else {
        Seq::new(10, |i: int| (i * (n - 1) / 9) as nat)
    }
}

/// Chooses samples of `n` items, spread evenly from the first to the last.
pub fn spread_picks(n: usize) -> (v: Vec<usize>)
    requires
        n <= usize::MAX / 9,
    ensures
        v@.len() == picks(n as nat).len(),
        forall|i: int| 0 <= i < v@.len() ==> #[trigger] v@[i] == picks(n as nat)[i],
{
    let count: usize = if n <= 10 {
        n
    } else {
        10
    };
    let mut v: Vec<usize> = Vec::new();
    let mut i: usize = 0;
    while i < count
        invariant
            0 <= i <= count,
            count == (if n <= 10 { n } else { 10 }),
            n <= usize::MAX / 9,
            v@.len() == i,
            forall|j: int| 0 <= j < i ==> #[trigger] v@[j] == picks(n as nat)[j],
        decreases count - i,
    {
        if n <= 10 {
            v.push(i);
        } else {
            proof {
                assert(i * (n - 1) <= 9 * (n - 1)) by (nonlinear_arith)
                    requires
                        i <= 9,
                        n > 10,
                ;
            }
            v.push(i * (n - 1) / 9);
        }
        i += 1;
    }
    v
}

/// The item at `a` comes before the one at `b`: it is smaller, or as large
/// and nearer to the start.
pub open spec fn comes_before(sizes: Seq<u32>, a: usize, b: usize) -> bool {
    sizes[a as int] < sizes[b as int] || (sizes[a as int] == sizes[b as int] && a < b)
}

/// `order` lists positions of items from `lo` up to `hi`, the smaller items
/// first and equal ones as they stand.
pub open spec fn orders(order: Seq<usize>, sizes: Seq<u32>, lo: int, hi: int) -> bool {
    &&& order.len() == hi - lo
    &&& forall|i: int| 0 <= i < order.len() ==> lo <= #[trigger] order[i] < hi
    &&& forall|i: int, j: int|
        0 <= i < j < order.len() ==> comes_before(sizes, #[trigger] order[i], #[trigger] order[j])
}

/// Merges the orders of two neighbouring ranges of items.
fn merged_order(
    sizes: &[u32],
    left: &Vec<usize>,
    right: &Vec<usize>,
    Ghost(at): Ghost<(int, int, int)>,
) -> (order: Vec<usize>)
    requires
        0 <= at.0 <= at.1 <= at.2 <= sizes@.len(),
        orders(left@, sizes@, at.0, at.1),
        orders(right@, sizes@, at.1, at.2),
    ensures
        orders(order@, sizes@, at.0, at.2),
{
    let mut order: Vec<usize> = Vec::new();
    let mut i: usize = 0;
    let mut j: usize = 0;
    while i < left.len() || j < right.len()
        invariant
            0 <= at.0 <= at.1 <= at.2 <= sizes@.len(),
            orders(left@, sizes@, at.0, at.1),
            orders(right@, sizes@, at.1, at.2),
            i <= left@.len(),
            j <= right@.len(),
            order@.len() == i + j,
            forall|k: int| 0 <= k < order@.len() ==> at.0 <= #[trigger] order@[k] < at.2,
            forall|k: int, l: int|
                0 <= k < l < order@.len() ==> comes_before(
                    sizes@,
                    #[trigger] order@[k],
                    #[trigger] order@[l],
                ),
            forall|k: int, l: int|
                0 <= k < order@.len() && i <= l < left@.len() ==> comes_before(
                    sizes@,
                    #[trigger] order@[k],
                    #[trigger] left@[l],
                ),
            forall|k: int, l: int|
                0 <= k < order@.len() && j <= l < right@.len() ==> comes_before(
                    sizes@,
                    #[trigger] order@[k],
                    #[trigger] right@[l],
                ),
        decreases left@.len() + right@.len() - i - j,
    {
        let from_left = if i >= left.len() {
            false
        } else if j >= right.len() {
            true
        } else {
            sizes[left[i]] <= sizes[right[j]]
        };
        if from_left {
            order.push(left[i]);
            i += 1;
        } else {
            order.push(right[j]);
            j += 1;
        }
    }
    order
}

/// The positions of the items from `lo` up to `hi`, the smaller items first.
fn range_order(sizes: &[u32], lo: usize, hi: usize) -> (order: Vec<usize>)
    requires
        lo <= hi <= sizes@.len(),
    ensures
        orders(order@, sizes@, lo as int, hi as int),
    decreases hi - lo,
{
    if hi - lo <= 1 {
        let mut order: Vec<usize> = Vec::new();
        if lo < hi {
            order.push(lo);
        }
        return order;
    }
    let mid: usize = lo + (hi - lo) / 2;
    let left = range_order(sizes, lo, mid);
    let right = range_order(sizes, mid, hi);
    merged_order(sizes, &left, &right, Ghost((lo as int, mid as int, hi as int)))
}

/// Samples of items of the given sizes are taken at `v`.
pub open spec fn size_samples(v: Seq<usize>, sizes: Seq<u32>) -> bool {
    exists|order: Seq<usize>| #[trigger]
        orders(order, sizes, 0, sizes.len() as int) && {
            &&& v.len() == picks(sizes.len()).len()
            &&& forall|i: int|
                0 <= i < v.len() ==> #[trigger] v[i] == order[picks(sizes.len())[i] as int]
        }
}

/// Chooses samples of items of the given sizes, spread evenly from the
/// smallest to the largest.
pub fn pick_by_size(sizes: &[u32]) -> (v: Vec<usize>)
    requires
        sizes@.len() <= usize::MAX / 9,
    ensures
        size_samples(v@, sizes@),
        forall|i: int| 0 <= i < v@.len() ==> #[trigger] v@[i] < sizes@.len(),
{
    let order = range_order(sizes, 0, sizes.len());
    let at = spread_picks(sizes.len());
    let mut v: Vec<usize> = Vec::new();
    let mut i: usize = 0;
    while i < at.len()
        invariant
            0 <= i <= at@.len(),
            orders(order@, sizes@, 0, sizes@.len() as int),
            at@.len() == picks(sizes@.len()).len(),
            forall|j: int| 0 <= j < at@.len() ==> #[trigger] at@[j] == picks(sizes@.len())[j],
            v@.len() == i,
            forall|j: int| 0 <= j < i ==> #[trigger] v@[j] == order@[picks(sizes@.len())[j] as int],
            forall|j: int| 0 <= j < i ==> #[trigger] v@[j] < sizes@.len(),
        decreases at@.len() - i,
    {
        proof {
            law_picks(sizes@.len());
            assert(at@[i as int] == picks(sizes@.len())[i as int]);
        }
        v.push(order[at[i]]);
        i += 1;
    }
    v
}

// ---------------------------------------------------------------------
// Laws

/// Samples are positions of items, in ascending order, and hold the first
/// item and the last.
pub proof fn law_picks(n: nat)
    requires
        n > 0,
    ensures
        picks(n)[0] == 0,
        picks(n).last() == n - 1,
        forall|i: int| 0 <= i < picks(n).len() ==> #[trigger] picks(n)[i] < n,
        forall|i: int, j: int|
            0 <= i < j < picks(n).len() ==> #[trigger] picks(n)[i] < #[trigger] picks(n)[j],
{
    if n > 10 {
        assert(0 * (n - 1) / 9 == 0) by (nonlinear_arith);
        assert(9 * (n - 1) / 9 == n - 1) by (nonlinear_arith);
        assert forall|i: int| 0 <= i < 10 implies #[trigger] picks(n)[i] < n by {
            assert(i * (n - 1) / 9 <= n - 1 && i * (n - 1) / 9 >= 0) by (nonlinear_arith)
                requires
                    0 <= i <= 9,
                    n > 10,
            ;
        }
        assert forall|i: int, j: int| 0 <= i < j < 10 implies #[trigger] picks(n)[i]
            < #[trigger] picks(n)[j] by {
            assert(i * (n - 1) / 9 < j * (n - 1) / 9 && i * (n - 1) / 9 >= 0) by (nonlinear_arith)
                requires
                    0 <= i < j <= 9,
                    n > 10,
            ;
        }
    }
}

/// Samples are spread evenly: each is within one item of its share of the way
/// from the first to the last. Of ten items or fewer each is a sample.
pub proof fn law_even_picks(n: nat, i: int)
    requires
        0 <= i < picks(n).len(),
    ensures
        n <= 10 ==> picks(n).len() == n && picks(n)[i] == i,
        n > 10 ==> picks(n).len() == 10 && 9 * picks(n)[i] <= i * (n - 1) < 9 * (picks(n)[i] + 1),
{
    if n > 10 {
        let x = i * (n - 1);
        assert(x >= 0) by (nonlinear_arith)
            requires
                x == i * (n - 1),
                i >= 0,
                n > 10,
        ;
        assert(9 * (x / 9) <= x < 9 * (x / 9 + 1));
    }
}

/// An order by size lists every item once, the smaller ones first, and equal
/// ones as they stand.
pub proof fn law_size_order(order: Seq<usize>, sizes: Seq<u32>)
    requires
        orders(order, sizes, 0, sizes.len() as int),
    ensures
        order.len() == sizes.len(),
        order.no_duplicates(),
        forall|i: int, j: int|
            0 <= i < j < order.len() ==> sizes[#[trigger] order[i] as int]
                <= sizes[#[trigger] order[j] as int],
        forall|i: int, j: int|
            0 <= i < j < order.len() && sizes[#[trigger] order[i] as int]
                == sizes[#[trigger] order[j] as int] ==> order[i] < order[j],
{
    assert forall|i: int, j: int| 0 <= i < order.len() && 0 <= j < order.len() && i != j implies
        order[i] != order[j] by {
        if i < j {
            assert(comes_before(sizes, order[i], order[j]));
        } else {
            assert(comes_before(sizes, order[j], order[i]));
        }
    }
    assert forall|i: int, j: int| 0 <= i < j < order.len() implies sizes[#[trigger] order[i] as int]
        <= sizes[#[trigger] order[j] as int] by {
        assert(comes_before(sizes, order[i], order[j]));
    }
    assert forall|i: int, j: int|
        0 <= i < j < order.len() && sizes[#[trigger] order[i] as int]
            == sizes[#[trigger] order[j] as int] implies order[i] < order[j] by {
        assert(comes_before(sizes, order[i], order[j]));
    }
}

/// An input is skipped exactly where its chunk table declares more than 64 MiB
/// in all, in a number of 64 bits.
pub proof fn law_skipped_inputs(data: Seq<u8>, h: blte::HeaderView)
    requires
        blte::header(data, blte::default_limits()) == Ok::<blte::HeaderView, ErrorView>(h),
    ensures
        !is_worth_decoding(data) <==> h.chunks.len() > 0 && 64 * 1024 * 1024
            < blte::declared_total(h.chunks) <= 0xffff_ffff_ffff_ffff,
{
}

/// A seed is good exactly where the parser of its target reads it: the one
/// seed apart that must be rejected, for the size of a nested chunk, and the
/// config seeds that are neither a build info nor a build config.
pub proof fn law_good_seeds(name: Seq<char>, data: Seq<u8>)
    ensures
        ({
            let limits = blte::default_limits();
            let r = blte::decoded(data, 0, limits, limits.max_decoded_bytes as nat);
            &&& name != "nested_f_parent_size_mismatch.blte"@ ==> is_good(Target::Blte, name, data)
                == (r is Ok)
            &&& is_good(Target::Blte, "nested_f_parent_size_mismatch.blte"@, data) ==> (r
                matches Err(e) && e is Malformed)
        }),
        is_good(Target::Encoding, name, data) == (encoding::table(data) is Ok),
        is_good(Target::Idx, name, data) == (idx::files_merged(seq![data]) is Ok),
        is_good(Target::Root, name, data) == (root::root_file(data) is Ok),
        text::occurs(name, "build_info"@) ==> is_good(Target::Config, name, data) == (
        config::build_info(text::utf8_lossy(data)) is Ok),
        !text::occurs(name, "build_info"@) && text::occurs(name, "build_config"@) ==> is_good(
            Target::Config,
            name,
            data,
        ) == (config::build_config(text::utf8_lossy(data)) is Ok),
{
}

/// The seeds of each target have a directory of their own.
pub proof fn law_target_names(a: Target, b: Target)
    ensures
        target_dir(a) == target_dir(b) ==> a == b,
        target_dir(Target::Blte) == "blte_decode"@,
        target_dir(Target::Encoding) == "encoding_parse"@,
        target_dir(Target::Idx) == "idx_parse"@,
        target_dir(Target::Root) == "root_parse"@,
        target_dir(Target::Config) == "config_parse"@,
{
    reveal_strlit("blte_decode");
    reveal_strlit("encoding_parse");
    reveal_strlit("idx_parse");
    reveal_strlit("root_parse");
    reveal_strlit("config_parse");
    assert(target_dir(a)[0] == target_dir(a)[0]);
    assert("blte_decode"@[0] == 'b' && "encoding_parse"@[0] == 'e' && "idx_parse"@[0] == 'i'
        && "root_parse"@[0] == 'r' && "config_parse"@[0] == 'c');
}

} // verus!
