//! Building the text formats: root files, `.build.info` tables and build
//! configs.

use vstd::prelude::*;
use vstd::string::*;

use crate::bytes;
use crate::compose;
use crate::config;
use crate::config::RecordView;
use crate::error::ErrorView;
use crate::keys;
use crate::keys::ContentKey;
use crate::root;
use crate::root::RootView;
use crate::sanitize;
use crate::seeds;
use crate::storage;
use crate::text;

verus! {

// ---------------------------------------------------------------------
// Root files

/// The hexadecimal form of the content key that spells `n`.
pub open spec fn number_hex(n: nat) -> Seq<char> {
    keys::key_hex(bytes::be_bytes(n, 16))
}

/// The hexadecimal form of a made-up content key.
pub fn synthetic_ckey_hex(n: u32) -> (s: String)
    ensures
        s@ == number_hex(n as nat),
{
    let mut v: Vec<u8> = Vec::new();
    bytes::push_be(&mut v, n as u64, 16);
    proof {
        bytes::lemma_be_bytes(n as nat, 16);
        assert(v@ =~= bytes::be_bytes(n as nat, 16));
    }
    ContentKey(keys::array16(v.as_slice())).to_string()
}

/// The line of a root file for a path and a hash.
pub open spec fn root_line(path: Seq<char>, hash: Seq<char>) -> Seq<char> {
    path + "|"@ + hash
}

/// The lines of a root file.
pub open spec fn root_lines(records: Seq<(Seq<char>, Seq<char>)>) -> Seq<Seq<char>> {
    Seq::new(records.len(), |i: int| root_line(records[i].0, records[i].1))
}

/// A root file over the given paths and hashes.
pub open spec fn root_text(records: Seq<(Seq<char>, Seq<char>)>, crlf: bool) -> Seq<char> {
    compose::terminated(root_lines(records), compose::line_end(crlf))
}

/// Pairs of texts, taken by their views.
pub open spec fn pair_views(v: Seq<(String, String)>) -> Seq<(Seq<char>, Seq<char>)> {
    Seq::new(v.len(), |i: int| (v[i].0@, v[i].1@))
}

fn end_of_line(crlf: bool) -> (s: &'static str)
    ensures
        s@ == compose::line_end(crlf),
{
    proof {
        reveal_strlit("\r\n");
        reveal_strlit("\n");
    }
    if crlf {
        assert("\r\n"@ =~= seq!['\r', '\n']);
        "\r\n"
    } else {
        assert("\n"@ =~= seq!['\n']);
        "\n"
    }
}

/// Builds a root file from paths and hashes.
pub fn build_root(records: &Vec<(String, String)>, crlf: bool) -> (s: String)
    ensures
        s@ == root_text(pair_views(records@), crlf),
{
    let ghost all = root_lines(pair_views(records@));
    let mut lines: Vec<String> = Vec::new();
    let mut i: usize = 0;
    assert(text::texts(lines@) =~= all.subrange(0, 0));
    while i < records.len()
        invariant
            0 <= i <= records@.len(),
            all == root_lines(pair_views(records@)),
            text::texts(lines@) == all.subrange(0, i as int),
        decreases records@.len() - i,
    {
        let ghost before = text::texts(lines@);
        lines.push(text::cat3(records[i].0.as_str(), "|", records[i].1.as_str()));
        assert(text::texts(lines@) =~= before.push(all[i as int]));
        i += 1;
        assert(text::texts(lines@) =~= all.subrange(0, i as int));
    }
    assert(all.subrange(0, i as int) =~= all);
    compose::terminate_texts(&lines, end_of_line(crlf))
}

/// A few records, one of them of an empty file.
pub open spec fn few_records() -> Seq<(Seq<char>, Seq<char>)> {
    seq![
        ("synthetic/seed/fileA.txt"@, number_hex(1)),
        ("synthetic/seed/nested/dir/fileB.bin"@, number_hex(2)),
        ("synthetic/seed/FileWithMixedCase.DAT"@, number_hex(3)),
        ("synthetic/seed/empty.chk"@, "d41d8cd98f00b204e9800998ecf8427e"@),
    ]
}

/// Records for a file with bare line feeds.
pub open spec fn lf_records() -> Seq<(Seq<char>, Seq<char>)> {
    Seq::new(
        3,
        |i: int|
            (
                "synthetic/lf/file"@ + text::dec(i as nat) + ".bin"@,
                number_hex((100 + i) as nat),
            ),
    )
}

fn few_seed() -> (s: String)
    ensures
        s@ == root_text(few_records(), true),
{
    let mut records: Vec<(String, String)> = Vec::new();
    records.push(("synthetic/seed/fileA.txt".to_owned(), synthetic_ckey_hex(1)));
    records.push(("synthetic/seed/nested/dir/fileB.bin".to_owned(), synthetic_ckey_hex(2)));
    records.push(("synthetic/seed/FileWithMixedCase.DAT".to_owned(), synthetic_ckey_hex(3)));
    records.push(
        ("synthetic/seed/empty.chk".to_owned(), "d41d8cd98f00b204e9800998ecf8427e".to_owned()),
    );
    assert(pair_views(records@) =~= few_records());
    build_root(&records, true)
}

fn lf_seed() -> (s: String)
    ensures
        s@ == root_text(lf_records(), false),
{
    let mut records: Vec<(String, String)> = Vec::new();
    let mut i: u32 = 0;
    while i < 3
        invariant
            0 <= i <= 3,
            records@.len() == i,
            forall|j: int|
                0 <= j < i ==> ((#[trigger] records@[j]).0@, records@[j].1@) == lf_records()[j],
        decreases 3 - i,
    {
        let digits = text::dec_text(i as u64);
        let path = text::cat3("synthetic/lf/file", digits.as_str(), ".bin");
        records.push((path, synthetic_ckey_hex(100 + i)));
        i += 1;
    }
    assert(pair_views(records@) =~= lf_records());
    build_root(&records, false)
}

/// The seeds for parsing root files.
pub open spec fn root_seed_list() -> Seq<(Seq<char>, Seq<u8>)> {
    seq![
        ("few_records.root"@, seeds::utf8(root_text(few_records(), true))),
        ("bare_lf.root"@, seeds::utf8(root_text(lf_records(), false))),
    ]
}

/// The bytes of a text.
fn bytes_of(s: &String) -> (v: Vec<u8>)
    ensures
        v@ == seeds::utf8(s@),
{
    bytes::copy(s.as_str().as_bytes())
}

/// The root-file seeds: a few records with carriage returns, and records with
/// bare line feeds.
pub fn root_seeds() -> (seeds: Vec<(&'static str, Vec<u8>)>)
    ensures
        seeds::seed_views(seeds@) == root_seed_list(),
{
    let mut seeds: Vec<(&'static str, Vec<u8>)> = Vec::new();
    seeds.push(("few_records.root", bytes_of(&few_seed())));
    seeds.push(("bare_lf.root", bytes_of(&lf_seed())));
    assert(seeds::seed_views(seeds@) =~= root_seed_list());
    seeds
}

// ---------------------------------------------------------------------
// Build info

/// The header fields of a `.build.info` table.
pub open spec fn header_fields(columns: Seq<Seq<char>>) -> Seq<Seq<char>> {
    Seq::new(columns.len(), |i: int| columns[i] + "!STRING:0"@)
}

/// The lines of a `.build.info` table: a typed header followed by the rows.
pub open spec fn info_lines(columns: Seq<Seq<char>>, rows: Seq<Seq<Seq<char>>>) -> Seq<Seq<char>> {
    seq![compose::joined(header_fields(columns), "|"@)] + Seq::new(
        rows.len(),
        |i: int| compose::joined(rows[i], "|"@),
    )
}

/// A `.build.info` table.
pub open spec fn info_text(columns: Seq<Seq<char>>, rows: Seq<Seq<Seq<char>>>) -> Seq<char> {
    compose::terminated(info_lines(columns, rows), compose::line_end(true))
}

/// Rows of texts, taken by their views.
pub open spec fn row_views(rows: Seq<&[&str]>) -> Seq<Seq<Seq<char>>> {
    Seq::new(rows.len(), |i: int| storage::str_views(rows[i]@))
}

/// Builds a synthetic `.build.info` file from parallel column and value
/// lists, so that column counts cannot silently drift apart.
pub fn build_info_text(columns: &[&str], rows: &[&[&str]]) -> (s: String)
    requires
        forall|i: int|
            0 <= i < rows@.len() ==> (#[trigger] rows@[i])@.len() == columns@.len(),
    ensures
        s@ == info_text(storage::str_views(columns@), row_views(rows@)),
{
    let ghost names = storage::str_views(columns@);
    let ghost fields = header_fields(names);
    let mut header: Vec<String> = Vec::new();
    let mut i: usize = 0;
    assert(text::texts(header@) =~= fields.subrange(0, 0));
    while i < columns.len()
        invariant
            0 <= i <= columns@.len(),
            names == storage::str_views(columns@),
            fields == header_fields(names),
            text::texts(header@) == fields.subrange(0, i as int),
        decreases columns@.len() - i,
    {
        let ghost before = text::texts(header@);
        header.push(text::cat2(columns[i], "!STRING:0"));
        assert(text::texts(header@) =~= before.push(fields[i as int]));
        i += 1;
        assert(text::texts(header@) =~= fields.subrange(0, i as int));
    }
    assert(fields.subrange(0, i as int) =~= fields);
    let ghost all = info_lines(names, row_views(rows@));
    let mut lines: Vec<String> = Vec::new();
    lines.push(compose::join_texts(&header, "|"));
    assert(text::texts(lines@) =~= all.subrange(0, 1));
    let mut k: usize = 0;
    while k < rows.len()
        invariant
            0 <= k <= rows@.len(),
            all == info_lines(names, row_views(rows@)),
            text::texts(lines@) == all.subrange(0, k + 1),
        decreases rows@.len() - k,
    {
        let ghost before = text::texts(lines@);
        lines.push(compose::join_strs(rows[k], "|"));
        assert(text::texts(lines@) =~= before.push(all[k + 1]));
        k += 1;
        assert(text::texts(lines@) =~= all.subrange(0, k + 1));
    }
    assert(all.subrange(0, k + 1) =~= all);
    compose::terminate_texts(&lines, end_of_line(true))
}

/// The columns of the build-info seed.
pub open spec fn seed_columns() -> Seq<Seq<char>> {
    seq![
        "Branch"@,
        "Active"@,
        "Build Key"@,
        "CDN Key"@,
        "Install Key"@,
        "IM Size"@,
        "CDN Path"@,
        "CDN Hosts"@,
        "CDN Servers"@,
        "Tags"@,
        "Armadillo"@,
        "Last Activated"@,
        "Version"@,
        "KeyRing"@,
        "Product"@,
    ]
}

/// The inactive row of the build-info seed.
pub open spec fn inactive_row() -> Seq<Seq<char>> {
    seq![
        "xx"@,
        "0"@,
        "00000000000000000000000000000000"@,
        "11111111111111111111111111111111"@,
        ""@,
        ""@,
        "tpr/fake"@,
        "fake.example.invalid"@,
        "http://fake.example.invalid"@,
        ""@,
        ""@,
        ""@,
        "0.0.0.0"@,
        ""@,
        ""@,
    ]
}

/// The active row of the build-info seed.
pub open spec fn active_row() -> Seq<Seq<char>> {
    seq![
        "yy"@,
        "1"@,
        "22222222222222222222222222222222"@,
        "33333333333333333333333333333333"@,
        ""@,
        ""@,
        "tpr/fake"@,
        "fake.example.invalid"@,
        "http://fake.example.invalid"@,
        "Windows synthetic"@,
        ""@,
        ""@,
        "1.0.0.1"@,
        ""@,
        ""@,
    ]
}

fn info_seed() -> (s: String)
    ensures
        s@ == info_text(seed_columns(), seq![inactive_row(), active_row()]),
{
    let columns: [&str; 15] = [
        "Branch",
        "Active",
        "Build Key",
        "CDN Key",
        "Install Key",
        "IM Size",
        "CDN Path",
        "CDN Hosts",
        "CDN Servers",
        "Tags",
        "Armadillo",
        "Last Activated",
        "Version",
        "KeyRing",
        "Product",
    ];
    let inactive: [&str; 15] = [
        "xx",
        "0",
        "00000000000000000000000000000000",
        "11111111111111111111111111111111",
        "",
        "",
        "tpr/fake",
        "fake.example.invalid",
        "http://fake.example.invalid",
        "",
        "",
        "",
        "0.0.0.0",
        "",
        "",
    ];
    let active: [&str; 15] = [
        "yy",
        "1",
        "22222222222222222222222222222222",
        "33333333333333333333333333333333",
        "",
        "",
        "tpr/fake",
        "fake.example.invalid",
        "http://fake.example.invalid",
        "Windows synthetic",
        "",
        "",
        "1.0.0.1",
        "",
        "",
    ];
    let rows: [&[&str]; 2] = [inactive.as_slice(), active.as_slice()];
    proof {
        assert(storage::str_views(columns@) =~= seed_columns());
        assert(storage::str_views(inactive@) =~= inactive_row());
        assert(storage::str_views(active@) =~= active_row());
        assert(row_views(rows@) =~= seq![inactive_row(), active_row()]);
    }
    build_info_text(columns.as_slice(), rows.as_slice())
}

// ---------------------------------------------------------------------
// Build configs

/// The lines of the build-config seed: a comment, a blank line, and pairs
/// under the names that real configs use, with made-up hashes.
pub open spec fn seed_config_lines() -> Seq<Seq<char>> {
    seq![
        "# Synthetic build configuration (fuzz seed, not from a real install)"@,
        ""@,
        "root = 44444444444444444444444444444444"@,
        "install = 55555555555555555555555555555555 66666666666666666666666666666666"@,
        "install-size = 1000 900"@,
        "download = 77777777777777777777777777777777 88888888888888888888888888888888"@,
        "download-size = 2000 1900"@,
        "size = 99999999999999999999999999999999 aaaaaaaaaaaaaaaaaaaaaaaaaaaaaaaa"@,
        "size-size = 3000 2900"@,
        "encoding = bbbbbbbbbbbbbbbbbbbbbbbbbbbbbbbb cccccccccccccccccccccccccccccccc"@,
        "encoding-size = 4000 3900"@,
        "patch = dddddddddddddddddddddddddddddddd"@,
        "patch-size = 500"@,
        "build-name = 0.0.0-synthetic"@,
        "build-uid = zz"@,
        "build-product = SyntheticProduct"@,
        "build-comments = seed for fuzzing, not real build data"@,
    ]
}

fn config_seed() -> (s: String)
    ensures
        s@ == compose::terminated(seed_config_lines(), compose::line_end(false)),
{
    let lines: [&str; 17] = [
        "# Synthetic build configuration (fuzz seed, not from a real install)",
        "",
        "root = 44444444444444444444444444444444",
        "install = 55555555555555555555555555555555 66666666666666666666666666666666",
        "install-size = 1000 900",
        "download = 77777777777777777777777777777777 88888888888888888888888888888888",
        "download-size = 2000 1900",
        "size = 99999999999999999999999999999999 aaaaaaaaaaaaaaaaaaaaaaaaaaaaaaaa",
        "size-size = 3000 2900",
        "encoding = bbbbbbbbbbbbbbbbbbbbbbbbbbbbbbbb cccccccccccccccccccccccccccccccc",
        "encoding-size = 4000 3900",
        "patch = dddddddddddddddddddddddddddddddd",
        "patch-size = 500",
        "build-name = 0.0.0-synthetic",
        "build-uid = zz",
        "build-product = SyntheticProduct",
        "build-comments = seed for fuzzing, not real build data",
    ];
    let ghost all = seed_config_lines();
    assert(storage::str_views(lines@) =~= all);
    let mut owned: Vec<String> = Vec::new();
    let mut i: usize = 0;
    assert(text::texts(owned@) =~= all.subrange(0, 0));
    while i < 17
        invariant
            0 <= i <= 17,
            all == storage::str_views(lines@),
            text::texts(owned@) == all.subrange(0, i as int),
        decreases 17 - i,
    {
        let ghost before = text::texts(owned@);
        owned.push(lines[i].to_owned());
        assert(text::texts(owned@) =~= before.push(all[i as int]));
        i += 1;
        assert(text::texts(owned@) =~= all.subrange(0, i as int));
    }
    assert(all.subrange(0, i as int) =~= all);
    compose::terminate_texts(&owned, end_of_line(false))
}

/// The seeds for parsing `.build.info` tables and build configs.
pub open spec fn config_seed_list() -> Seq<(Seq<char>, Seq<u8>)> {
    seq![
        (
            "synthetic_build_info.txt"@,
            seeds::utf8(info_text(seed_columns(), seq![inactive_row(), active_row()])),
        ),
        (
            "synthetic_build_config.txt"@,
            seeds::utf8(compose::terminated(seed_config_lines(), compose::line_end(false))),
        ),
    ]
}

/// The seeds of the two config formats: a `.build.info` table with an
/// inactive and an active row, and a build config.
pub fn config_seeds() -> (seeds: Vec<(&'static str, Vec<u8>)>)
    ensures
        seeds::seed_views(seeds@) == config_seed_list(),
{
    let mut seeds: Vec<(&'static str, Vec<u8>)> = Vec::new();
    seeds.push(("synthetic_build_info.txt", bytes_of(&info_seed())));
    seeds.push(("synthetic_build_config.txt", bytes_of(&config_seed())));
    assert(seeds::seed_views(seeds@) =~= config_seed_list());
    seeds
}

// ---------------------------------------------------------------------
// Laws

/// The text holds neither of the two characters.
pub open spec fn is_free_of(s: Seq<char>, a: char, b: char) -> bool {
    !sanitize::holds(s, a) && !sanitize::holds(s, b)
}

/// Records as paths and hashes.
pub open spec fn as_pairs(records: Seq<RootView>) -> Seq<(Seq<char>, Seq<char>)> {
    Seq::new(records.len(), |i: int| (records[i].path, keys::key_hex(records[i].ckey)))
}

proof fn lemma_root_line(path: Seq<char>, ckey: Seq<u8>)
    requires
        is_free_of(path, '|', '\n'),
        ckey.len() == 16,
    ensures
        root::root_row(root_line(path, keys::key_hex(ckey))) == Some(RootView { path, ckey }),
        !sanitize::holds(root_line(path, keys::key_hex(ckey)), '\n'),
        root_line(path, keys::key_hex(ckey)).last() != '\r',
        root_line(path, keys::key_hex(ckey)).len() > 0,
{
    let hash = keys::key_hex(ckey);
    let line = root_line(path, hash);
    let n = path.len() as int;
    reveal_strlit("|");
    assert(line[n] == '|');
    assert forall|j: int| 0 <= j < n implies line[j] != '|' by {
        assert(path[j] == line[j]);
    }
    text::lemma_first_index_is(line, '|', n);
    let rest = line.subrange(n + 1, line.len() as int);
    assert(rest =~= hash);
    keys::law_hex_form(ckey);
    assert forall|j: int| 0 <= j < hash.len() implies hash[j] != '|' && hash[j] != '\n' && hash[j]
        != '\r' by {}
    text::lemma_first_index(hash, '|');
    assert(text::first_index(hash, '|') == hash.len());
    assert(rest.subrange(0, hash.len() as int) =~= hash);
    assert(line.subrange(0, n) =~= path);
    keys::law_hex_round_trip(ckey, "content key"@);
    assert(line.last() == hash[hash.len() - 1]);
    if sanitize::holds(line, '\n') {
        let j = choose|j: int| 0 <= j < line.len() && #[trigger] line[j] == '\n';
        if j < n {
            assert(path[j] == '\n');
        } else if j > n {
            assert(hash[j - n - 1] == '\n');
        }
    }
}

proof fn lemma_root_rows(records: Seq<RootView>)
    requires
        records.len() <= u32::MAX,
        forall|i: int|
            0 <= i < records.len() ==> is_free_of((#[trigger] records[i]).path, '|', '\n')
                && records[i].ckey.len() == 16,
    ensures
        root::root_rows(root_lines(as_pairs(records))) == Ok::<Seq<RootView>, ErrorView>(records),
    decreases records.len(),
{
    let lines = root_lines(as_pairs(records));
    if records.len() > 0 {
        let init = records.drop_last();
        assert forall|i: int| 0 <= i < init.len() implies is_free_of(
            (#[trigger] init[i]).path,
            '|',
            '\n',
        ) && init[i].ckey.len() == 16 by {
            assert(init[i] == records[i]);
        }
        lemma_root_rows(init);
        assert(lines.drop_last() =~= root_lines(as_pairs(init)));
        let last = records[records.len() - 1];
        lemma_root_line(last.path, last.ckey);
        assert(lines.last() == root_line(last.path, keys::key_hex(last.ckey)));
        assert(init.push(last) =~= records);
    } else {
        assert(lines =~= seq![]);
        assert(records =~= seq![]);
    }
}

/// A root file lists every record that it was built from, in their order,
/// where no path holds a bar or a line feed.
pub proof fn law_root_round_trip(records: Seq<RootView>, crlf: bool)
    requires
        0 < records.len() <= u32::MAX,
        forall|i: int|
            0 <= i < records.len() ==> is_free_of((#[trigger] records[i]).path, '|', '\n')
                && records[i].ckey.len() == 16,
    ensures
        root::root_file(seeds::utf8(root_text(as_pairs(records), crlf))) == Ok::<
            Seq<RootView>,
            ErrorView,
        >(records),
{
    let lines = root_lines(as_pairs(records));
    let s = root_text(as_pairs(records), crlf);
    assert forall|i: int| 0 <= i < lines.len() implies !sanitize::holds(#[trigger] lines[i], '\n')
        && (crlf || lines[i].len() == 0 || lines[i].last() != '\r') by {
        lemma_root_line(records[i].path, records[i].ckey);
    }
    compose::law_lines_terminated(lines, crlf);
    lemma_root_rows(records);
    vstd::utf8::encode_utf8_valid_utf8(s);
    vstd::utf8::encode_utf8_decode_utf8(s);
}

/// The lines of a build config.
pub open spec fn pair_lines(pairs: Seq<(Seq<char>, Seq<char>)>) -> Seq<Seq<char>> {
    Seq::new(pairs.len(), |i: int| pairs[i].0 + " = "@ + pairs[i].1)
}

/// What pairs map, later ones over earlier ones.
pub open spec fn pair_map(pairs: Seq<(Seq<char>, Seq<char>)>) -> Map<Seq<char>, Seq<char>>
    decreases pairs.len(),
{
    if pairs.len() == 0 {
        Map::empty()
    } else {
        pair_map(pairs.drop_last()).insert(pairs.last().0, pairs.last().1)
    }
}

/// A key and a value that a config line can state.
pub open spec fn is_config_pair(key: Seq<char>, value: Seq<char>) -> bool {
    &&& compose::is_solid(key)
    &&& key[0] != '#'
    &&& is_free_of(key, '=', '\n')
    &&& compose::is_solid(value)
    &&& !sanitize::holds(value, '\n')
}

proof fn lemma_pair_line(key: Seq<char>, value: Seq<char>)
    requires
        is_config_pair(key, value),
    ensures
        ({
            let line = key + " = "@ + value;
            let eq = text::first_index(line, '=');
            &&& text::trimmed(line) == line
            &&& line.len() > 0
            &&& line[0] != '#'
            &&& eq < line.len()
            &&& text::trimmed(line.subrange(0, eq)) == key
            &&& text::trimmed(line.subrange(eq + 1, line.len() as int)) == value
            &&& !sanitize::holds(line, '\n')
            &&& line.last() != '\r'
        }),
{
    let line = key + " = "@ + value;
    let n = key.len() as int;
    reveal_strlit(" = ");
    let none = Seq::<char>::empty();
    assert(none + line + none =~= line);
    assert(line[0] == key[0]);
    assert(line.last() == value.last());
    compose::law_trimmed(none, line, none);
    assert(line[n + 1] == '=');
    assert forall|j: int| 0 <= j < n + 1 implies line[j] != '=' by {
        if j < n {
            assert(key[j] == line[j]);
        }
    }
    text::lemma_first_index_is(line, '=', n + 1);
    let blank = seq![' '];
    assert(line.subrange(0, n + 1) =~= none + key + blank);
    compose::law_trimmed(none, key, blank);
    assert(line.subrange(n + 2, line.len() as int) =~= blank + value + none);
    compose::law_trimmed(blank, value, none);
    if sanitize::holds(line, '\n') {
        let j = choose|j: int| 0 <= j < line.len() && #[trigger] line[j] == '\n';
        if j < n {
            assert(key[j] == '\n');
        } else if j >= n + 3 {
            assert(value[j - n - 3] == '\n');
        }
    }
}

proof fn lemma_pair_lines(pairs: Seq<(Seq<char>, Seq<char>)>)
    requires
        forall|i: int|
            0 <= i < pairs.len() ==> is_config_pair((#[trigger] pairs[i]).0, pairs[i].1),
    ensures
        config::config_lines(pair_lines(pairs)) == Ok::<Map<Seq<char>, Seq<char>>, ErrorView>(
            pair_map(pairs),
        ),
    decreases pairs.len(),
{
    let lines = pair_lines(pairs);
    if pairs.len() > 0 {
        let init = pairs.drop_last();
        assert forall|i: int| 0 <= i < init.len() implies is_config_pair(
            (#[trigger] init[i]).0,
            init[i].1,
        ) by {
            assert(init[i] == pairs[i]);
        }
        lemma_pair_lines(init);
        assert(lines.drop_last() =~= pair_lines(init));
        let last = pairs[pairs.len() - 1];
        lemma_pair_line(last.0, last.1);
        assert(lines.last() == last.0 + " = "@ + last.1);
    } else {
        assert(lines =~= seq![]);
    }
}

/// A build config maps every key that was written to the value that was
/// written last for it.
pub proof fn law_config_round_trip(pairs: Seq<(Seq<char>, Seq<char>)>, crlf: bool)
    requires
        forall|i: int|
            0 <= i < pairs.len() ==> is_config_pair((#[trigger] pairs[i]).0, pairs[i].1),
    ensures
        config::build_config(
            compose::terminated(pair_lines(pairs), compose::line_end(crlf)),
        ) == Ok::<Map<Seq<char>, Seq<char>>, ErrorView>(pair_map(pairs)),
{
    let lines = pair_lines(pairs);
    assert forall|i: int| 0 <= i < lines.len() implies !sanitize::holds(#[trigger] lines[i], '\n')
        && (crlf || lines[i].len() == 0 || lines[i].last() != '\r') by {
        assert(is_config_pair(pairs[i].0, pairs[i].1));
        lemma_pair_line(pairs[i].0, pairs[i].1);
    }
    compose::law_lines_terminated(lines, crlf);
    lemma_pair_lines(pairs);
}

/// What a `.build.info` table says of a row: an empty or missing field is
/// absent.
pub open spec fn row_record(columns: Seq<Seq<char>>, row: Seq<Seq<char>>) -> RecordView {
    RecordView { columns, values: config::field_values(row, columns.len()) }
}

/// A column name that a header can state: it may be empty.
pub open spec fn is_column(s: Seq<char>) -> bool {
    (s.len() == 0 || compose::is_solid(s)) && is_free_of(s, '!', '|') && !sanitize::holds(s, '\n')
}

/// A row that a table with `n` columns can state: it may have fewer fields.
pub open spec fn is_row(row: Seq<Seq<char>>, n: nat) -> bool {
    &&& 0 < row.len() <= n
    &&& config::is_content(compose::joined(row, seq!['|']))
    &&& forall|i: int| 0 <= i < row.len() ==> is_free_of(#[trigger] row[i], '|', '\n')
}

proof fn lemma_joined_free(parts: Seq<Seq<char>>)
    requires
        forall|i: int| 0 <= i < parts.len() ==> !sanitize::holds(#[trigger] parts[i], '\n'),
    ensures
        !sanitize::holds(compose::joined(parts, seq!['|']), '\n'),
    decreases parts.len(),
{
    let s = compose::joined(parts, seq!['|']);
    if parts.len() > 1 {
        let init = parts.drop_last();
        assert forall|i: int| 0 <= i < init.len() implies !sanitize::holds(
            #[trigger] init[i],
            '\n',
        ) by {
            assert(init[i] == parts[i]);
        }
        lemma_joined_free(init);
        let head = compose::joined(init, seq!['|']);
        if sanitize::holds(s, '\n') {
            let j = choose|j: int| 0 <= j < s.len() && #[trigger] s[j] == '\n';
            if j < head.len() {
                assert(head[j] == '\n');
            } else if j > head.len() {
                assert(parts.last()[j - head.len() - 1] == '\n');
                assert(!sanitize::holds(parts[parts.len() - 1], '\n'));
            }
        }
    } else if parts.len() == 1 {
        assert(!sanitize::holds(parts[0], '\n'));
    }
}

proof fn lemma_header_field(name: Seq<char>)
    requires
        is_column(name),
    ensures
        ({
            let field = name + "!STRING:0"@;
            let bang = text::first_index(field, '!');
            &&& bang < field.len()
            &&& text::trimmed(field.subrange(0, bang)) == name
            &&& is_free_of(field, '|', '\n')
        }),
{
    let field = name + "!STRING:0"@;
    let n = name.len() as int;
    reveal_strlit("!STRING:0");
    assert(field[n] == '!');
    assert forall|j: int| 0 <= j < n implies field[j] != '!' by {
        assert(name[j] == field[j]);
    }
    text::lemma_first_index_is(field, '!', n);
    let none = Seq::<char>::empty();
    assert(field.subrange(0, n) =~= none + name + none);
    if n > 0 {
        compose::law_trimmed(none, name, none);
    } else {
        assert(name =~= none);
        assert(text::trimmed(none) =~= none);
    }
    assert forall|j: int| 0 <= j < field.len() implies field[j] != '|' && field[j] != '\n' by {
        if j < n {
            assert(name[j] == field[j]);
        }
    }
}

proof fn lemma_columns(columns: Seq<Seq<char>>)
    requires
        forall|i: int| 0 <= i < columns.len() ==> is_column(#[trigger] columns[i]),
    ensures
        config::column_names(header_fields(columns)) == Ok::<Seq<Seq<char>>, ErrorView>(columns),
    decreases columns.len(),
{
    let fields = header_fields(columns);
    if columns.len() > 0 {
        let init = columns.drop_last();
        assert forall|i: int| 0 <= i < init.len() implies is_column(#[trigger] init[i]) by {
            assert(init[i] == columns[i]);
        }
        lemma_columns(init);
        assert(fields.drop_last() =~= header_fields(init));
        let last = columns[columns.len() - 1];
        lemma_header_field(last);
        assert(fields.last() == last + "!STRING:0"@);
        assert(init.push(last) =~= columns);
    } else {
        assert(fields =~= seq![]);
        assert(columns =~= seq![]);
    }
}

proof fn lemma_all_content(lines: Seq<Seq<char>>)
    requires
        forall|i: int| 0 <= i < lines.len() ==> config::is_content(#[trigger] lines[i]),
    ensures
        config::content_lines(lines) == lines,
    decreases lines.len(),
{
    if lines.len() > 0 {
        let init = lines.drop_last();
        assert forall|i: int| 0 <= i < init.len() implies config::is_content(
            #[trigger] init[i],
        ) by {
            assert(init[i] == lines[i]);
        }
        lemma_all_content(init);
        assert(config::is_content(lines[lines.len() - 1]));
        assert(init.push(lines.last()) =~= lines);
    } else {
        assert(config::content_lines(lines) =~= lines);
    }
}

proof fn lemma_table(columns: Seq<Seq<char>>, rows: Seq<Seq<Seq<char>>>)
    requires
        0 < columns.len(),
        forall|i: int| 0 <= i < rows.len() ==> is_row(#[trigger] rows[i], columns.len()),
    ensures
        config::table_records(
            Seq::new(rows.len(), |i: int| compose::joined(rows[i], seq!['|'])),
            columns,
        ) == Ok::<Seq<RecordView>, ErrorView>(
            Seq::new(rows.len(), |i: int| row_record(columns, rows[i])),
        ),
    decreases rows.len(),
{
    let lines = Seq::new(rows.len(), |i: int| compose::joined(rows[i], seq!['|']));
    let records = Seq::new(rows.len(), |i: int| row_record(columns, rows[i]));
    if rows.len() > 0 {
        let init = rows.drop_last();
        assert forall|i: int| 0 <= i < init.len() implies is_row(
            #[trigger] init[i],
            columns.len(),
        ) by {
            assert(init[i] == rows[i]);
        }
        lemma_table(columns, init);
        assert(lines.drop_last() =~= Seq::new(
            init.len(),
            |i: int| compose::joined(init[i], seq!['|']),
        ));
        let last = rows[rows.len() - 1];
        assert(is_row(last, columns.len()));
        assert forall|i: int| 0 <= i < last.len() implies !sanitize::holds(
            #[trigger] last[i],
            '|',
        ) by {
            assert(is_free_of(last[i], '|', '\n'));
        }
        compose::law_fields_joined(last, '|');
        assert(records =~= Seq::new(init.len(), |i: int| row_record(columns, init[i])).push(
            row_record(columns, last),
        ));
    } else {
        assert(lines =~= seq![]);
        assert(records =~= seq![]);
    }
}

/// A `.build.info` table states every row that was written, in their order,
/// under the column names of its header. Where lines end with a line feed
/// alone, no row may end with a carriage return.
pub proof fn law_info_round_trip(
    columns: Seq<Seq<char>>,
    rows: Seq<Seq<Seq<char>>>,
    crlf: bool,
)
    requires
        0 < columns.len(),
        columns[0].len() > 0 ==> columns[0][0] != '#',
        forall|i: int| 0 <= i < columns.len() ==> is_column(#[trigger] columns[i]),
        forall|i: int| 0 <= i < rows.len() ==> is_row(#[trigger] rows[i], columns.len()),
        forall|i: int|
            0 <= i < rows.len() ==> crlf || compose::joined(#[trigger] rows[i], "|"@).last()
                != '\r',
    ensures
        config::build_info(
            compose::terminated(info_lines(columns, rows), compose::line_end(crlf)),
        ) == Ok::<Seq<RecordView>, ErrorView>(
            Seq::new(rows.len(), |i: int| row_record(columns, rows[i])),
        ),
{
    reveal_strlit("|");
    assert("|"@ =~= seq!['|']);
    let fields = header_fields(columns);
    let header = compose::joined(fields, seq!['|']);
    let body = Seq::new(rows.len(), |i: int| compose::joined(rows[i], seq!['|']));
    let lines = info_lines(columns, rows);
    assert(lines =~= seq![header] + body);
    assert forall|i: int| 0 <= i < fields.len() implies !sanitize::holds(#[trigger] fields[i], '|')
        && !sanitize::holds(fields[i], '\n') by {
        lemma_header_field(columns[i]);
    }
    lemma_joined_free(fields);
    compose::law_fields_joined(fields, '|');
    lemma_columns(columns);
    lemma_header_content(columns);
    assert forall|i: int| 0 <= i < lines.len() implies !sanitize::holds(#[trigger] lines[i], '\n')
        && config::is_content(lines[i]) && (crlf || lines[i].last() != '\r') by {
        if i > 0 {
            let row = rows[i - 1];
            assert(is_row(row, columns.len()));
            assert(lines[i] == compose::joined(row, seq!['|']));
            assert forall|k: int| 0 <= k < row.len() implies !sanitize::holds(
                #[trigger] row[k],
                '\n',
            ) by {
                assert(is_free_of(row[k], '|', '\n'));
            }
            lemma_joined_free(row);
        }
    }
    compose::law_lines_terminated(lines, crlf);
    lemma_all_content(lines);
    assert(lines.subrange(1, lines.len() as int) =~= body);
    lemma_table(columns, rows);
}

/// What a record of a table states: under the name of a column, the field
/// that was written there, or nothing where it was empty or left out; under
/// any other name, nothing.
pub proof fn law_info_values(columns: Seq<Seq<char>>, row: Seq<Seq<char>>, name: Seq<char>)
    requires
        row.len() <= columns.len(),
    ensures
        forall|j: int|
            0 <= j < columns.len() && #[trigger] columns[j] == name && (forall|k: int|
                0 <= k < j ==> columns[k] != name) ==> config::record_value(
                row_record(columns, row),
                name,
            ) == (if j >= row.len() || row[j].len() == 0 {
                None
            } else {
                Some(row[j])
            }),
        (forall|j: int| 0 <= j < columns.len() ==> #[trigger] columns[j] != name)
            ==> config::record_value(row_record(columns, row), name) is None,
{
    assert forall|j: int|
        0 <= j < columns.len() && #[trigger] columns[j] == name && (forall|k: int|
            0 <= k < j ==> columns[k] != name) implies config::record_value(
        row_record(columns, row),
        name,
    ) == (if j >= row.len() || row[j].len() == 0 {
        None
    } else {
        Some(row[j])
    }) by {
        config::lemma_column_index_is(columns, name, j);
    }
    if forall|j: int| 0 <= j < columns.len() ==> #[trigger] columns[j] != name {
        config::lemma_column_index_is(columns, name, columns.len() as int);
    }
}

proof fn lemma_header_content(columns: Seq<Seq<char>>)
    requires
        0 < columns.len(),
        columns[0].len() > 0 ==> columns[0][0] != '#',
        forall|i: int| 0 <= i < columns.len() ==> is_column(#[trigger] columns[i]),
    ensures
        config::is_content(compose::joined(header_fields(columns), seq!['|'])),
        compose::joined(header_fields(columns), seq!['|']).last() == '0',
{
    let fields = header_fields(columns);
    let s = compose::joined(fields, seq!['|']);
    reveal_strlit("!STRING:0");
    assert(is_column(columns[0]));
    lemma_joined_ends(fields);
    assert(fields[0][0] == if columns[0].len() > 0 {
        columns[0][0]
    } else {
        '!'
    });
    let last = columns[columns.len() - 1];
    assert(fields.last() == last + "!STRING:0"@);
    assert(fields.last().last() == '0');
    let none = Seq::<char>::empty();
    assert(none + s + none =~= s);
    compose::law_trimmed(none, s, none);
}

proof fn lemma_joined_ends(parts: Seq<Seq<char>>)
    requires
        0 < parts.len(),
        forall|i: int| 0 <= i < parts.len() ==> (#[trigger] parts[i]).len() > 0,
    ensures
        compose::joined(parts, seq!['|']).len() > 0,
        compose::joined(parts, seq!['|'])[0] == parts[0][0],
        compose::joined(parts, seq!['|']).last() == parts.last().last(),
    decreases parts.len(),
{
    assert(parts[parts.len() - 1].len() > 0);
    assert(parts[0].len() > 0);
    if parts.len() > 1 {
        let init = parts.drop_last();
        assert forall|i: int| 0 <= i < init.len() implies (#[trigger] init[i]).len() > 0 by {
            assert(init[i] == parts[i]);
        }
        lemma_joined_ends(init);
    }
}

/// A root text is its records, one behind the other: the path, a bar, the hash
/// and the end of the line.
pub proof fn law_root_text(
    records: Seq<(Seq<char>, Seq<char>)>,
    path: Seq<char>,
    hash: Seq<char>,
    crlf: bool,
)
    ensures
        root_text(seq![], crlf) == Seq::<char>::empty(),
        root_text(records.push((path, hash)), crlf) == root_text(records, crlf) + (path + seq!['|']
            + hash) + (if crlf {
            seq!['\r', '\n']
        } else {
            seq!['\n']
        }),
{
    reveal_strlit("|");
    assert("|"@ =~= seq!['|']);
    compose::law_line_ends();
    let line = root_line(path, hash);
    compose::law_terminated(root_lines(records), line, compose::line_end(crlf));
    assert(root_lines(records.push((path, hash))) =~= root_lines(records).push(line));
    assert(root_lines(seq![]) =~= seq![]);
}

/// A `.build.info` text is its header, with every column typed as a string,
/// and its rows, each with bars between its fields and ended by a carriage
/// return and a line feed.
pub proof fn law_info_text(columns: Seq<Seq<char>>, rows: Seq<Seq<Seq<char>>>, row: Seq<Seq<char>>)
    ensures
        info_text(columns, seq![]) == compose::joined(
            columns.map_values(|c: Seq<char>| c + "!STRING:0"@),
            seq!['|'],
        ) + seq!['\r', '\n'],
        info_text(columns, rows.push(row)) == info_text(columns, rows) + compose::joined(
            row,
            seq!['|'],
        ) + seq!['\r', '\n'],
{
    reveal_strlit("|");
    assert("|"@ =~= seq!['|']);
    compose::law_line_ends();
    let end = compose::line_end(true);
    let header = compose::joined(header_fields(columns), "|"@);
    let line = compose::joined(row, "|"@);
    assert(header_fields(columns) =~= columns.map_values(|c: Seq<char>| c + "!STRING:0"@));
    assert(info_lines(columns, seq![]) =~= Seq::<Seq<char>>::empty().push(header));
    compose::law_terminated(seq![], header, end);
    assert(compose::terminated(seq![], end) + header + end =~= header + end);
    assert(info_lines(columns, rows.push(row)) =~= info_lines(columns, rows).push(line));
    compose::law_terminated(info_lines(columns, rows), line, end);
}

} // verus!
