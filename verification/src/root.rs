//! The StarCraft: Remastered root file: the name → [`ContentKey`] catalog.
//!
//! SC:R uses the plain-text root format (CascLib's `TRootHandler_SC1`), not
//! any of the binary root formats used by other Blizzard products. After
//! BLTE-decoding, the root is ASCII text with one record per CRLF-terminated
//! line:
//!
//! ```text
//! locales/enUS/Assets/sound/misc/button.wav|316b0274bf2dabaa8db60c3ff1270c85
//! ```
//!
//! Paths use `/` separators and mixed case; records are unsorted and unique.
//! The hash is a CKey (MD5 of the decoded contents) that must be resolved
//! through the encoding table to actually read the file.

use vstd::hash_map::StringHashMap;
use vstd::prelude::*;

use crate::error;
use crate::error::CascError;
use crate::error::ErrorView;
use crate::keys;
use crate::keys::ContentKey;
use crate::text;

verus! {

/// One record from the root file.
#[derive(Debug, Clone, PartialEq, Eq)]
pub struct RootEntry {
    /// The file's path as stored: `/`-separated, original casing.
    pub path: String,
    /// MD5 of the file's decoded contents.
    pub ckey: ContentKey,
}

/// A parsed SC:R root file: the path → CKey mapping for every game asset.
///
/// Lookups are case-insensitive and accept either `/` or `\` separators,
/// since SC:R paths are mixed-case with no case-insensitive collisions and
/// callers frequently hold Windows-style paths.
pub struct RootFile {
    entries: Vec<RootEntry>,
    /// Normalized (lowercased, `/`-separated) path → index into `entries`.
    index: StringHashMap<usize>,
}

// ---------------------------------------------------------------------
// What a root file says

/// The content of a [`RootEntry`].
pub struct RootView {
    pub path: Seq<char>,
    pub ckey: Seq<u8>,
}

impl View for RootEntry {
    type V = RootView;

    open spec fn view(&self) -> RootView {
        RootView { path: self.path@, ckey: self.ckey@ }
    }
}

/// Records, taken by their views.
pub open spec fn entry_views(s: Seq<RootEntry>) -> Seq<RootView> {
    Seq::new(s.len(), |i: int| s[i]@)
}

impl View for RootFile {
    type V = Seq<RootView>;

    closed spec fn view(&self) -> Seq<RootView> {
        entry_views(self.entries@)
    }
}

/// The form of a character that lookups compare.
pub open spec fn normal_char(c: char) -> char {
    if c == '\\' {
        '/'
    } else {
        text::ascii_lower(c)
    }
}

/// The form of a path that lookups compare: lowercase, with `/` separators.
pub open spec fn normalized(path: Seq<char>) -> Seq<char> {
    Seq::new(path.len(), |i: int| normal_char(path[i]))
}

/// The record that a line gives, where it looks like one: a path, a bar and
/// 32 hexadecimal digits, with anything after a further bar ignored.
pub open spec fn root_row(line: Seq<char>) -> Option<RootView> {
    let bar = text::first_index(line, '|');
    let rest = line.subrange(bar + 1, line.len() as int);
    let hash = rest.subrange(0, text::first_index(rest, '|'));
    if bar >= line.len() {
        None
    } else {
        match keys::key_from_hex(hash, 16, "content key"@) {
            Ok(ckey) => Some(RootView { path: line.subrange(0, bar), ckey }),
            Err(_) => None,
        }
    }
}

/// What the given lines list.
pub open spec fn root_rows(lines: Seq<Seq<char>>) -> Result<Seq<RootView>, ErrorView>
    decreases lines.len(),
{
    if lines.len() == 0 {
        Ok(seq![])
    } else {
        match root_rows(lines.drop_last()) {
            Err(e) => Err(e),
            Ok(rows) => match root_row(lines.last()) {
                None => Ok(rows),
                Some(row) => if rows.len() > u32::MAX {
                    Err(error::malformed_view("root file"@, "too many entries"@))
                } else {
                    Ok(rows.push(row))
                },
            },
        }
    }
}

/// What parsing a root file gives.
pub open spec fn root_file(data: Seq<u8>) -> Result<Seq<RootView>, ErrorView> {
    if !vstd::utf8::valid_utf8(data) {
        Err(error::malformed_view("root file"@, "not valid UTF-8"@))
    } else {
        match root_rows(text::lines(vstd::utf8::decode_utf8(data))) {
            Err(e) => Err(e),
            Ok(rows) => if rows.len() == 0 {
                Err(
                    error::malformed_view(
                        "root file"@,
                        "no valid records; input is probably not a root file"@,
                    ),
                )
            } else {
                Ok(rows)
            },
        }
    }
}

/// The position of the last record whose path has the normalized form
/// `key`, or -1.
pub open spec fn last_with(rows: Seq<RootView>, key: Seq<char>) -> int
    decreases rows.len(),
{
    if rows.len() == 0 {
        -1
    } else if normalized(rows.last().path) == key {
        rows.len() - 1
    } else {
        last_with(rows.drop_last(), key)
    }
}

/// The record that a path names.
pub open spec fn cataloged(rows: Seq<RootView>, path: Seq<char>) -> Option<RootView> {
    let i = last_with(rows, normalized(path));
    if i >= 0 {
        Some(rows[i])
    } else {
        None
    }
}

proof fn lemma_last_with(rows: Seq<RootView>, key: Seq<char>)
    ensures
        -1 <= last_with(rows, key) < rows.len(),
        last_with(rows, key) >= 0 ==> normalized(rows[last_with(rows, key)].path) == key,
    decreases rows.len(),
{
    if rows.len() > 0 {
        lemma_last_with(rows.drop_last(), key);
    }
}

proof fn lemma_root_rows_fail(lines: Seq<Seq<char>>, i: int)
    requires
        0 <= i <= lines.len(),
        root_rows(lines.subrange(0, i)) is Err,
    ensures
        root_rows(lines) == root_rows(lines.subrange(0, i)),
    decreases lines.len() - i,
{
    if i < lines.len() {
        assert(lines.subrange(0, i + 1).drop_last() =~= lines.subrange(0, i));
        lemma_root_rows_fail(lines, i + 1);
    } else {
        assert(lines.subrange(0, i) =~= lines);
    }
}

/// The form of a path that lookups compare.
fn normalize_path(path: &[char]) -> (s: String)
    ensures
        s@ == normalized(path@),
{
    let mut s = String::new();
    let mut i: usize = 0;
    assert(s@ =~= normalized(path@).subrange(0, 0));
    while i < path.len()
        invariant
            0 <= i <= path@.len(),
            s@ == normalized(path@).subrange(0, i as int),
        decreases path@.len() - i,
    {
        let c = path[i];
        let ghost before = s@;
        if c == '\\' {
            s.push('/');
        } else {
            s.push(text::ascii_lower_char(c));
        }
        assert(s@ =~= before.push(normal_char(c)));
        i += 1;
        assert(s@ =~= normalized(path@).subrange(0, i as int));
    }
    assert(normalized(path@).subrange(0, i as int) =~= normalized(path@));
    s
}

/// Reads the record off a line.
fn parse_row(line: &[char]) -> (r: Option<RootEntry>)
    ensures
        match r {
            Some(e) => root_row(line@) == Some(e@),
            None => root_row(line@) is None,
        },
{
    let bar = text::find_char(line, '|');
    proof {
        text::lemma_first_index(line@, '|');
    }
    if bar >= line.len() {
        return None;
    }
    let path = text::cut(line, 0, bar);
    let rest = text::cut(line, bar + 1, line.len());
    let end = text::find_char(rest, '|');
    proof {
        text::lemma_first_index(rest@, '|');
    }
    let hash = text::string_of(text::cut(rest, 0, end));
    match ContentKey::from_hex(hash.as_str()) {
        Ok(ckey) => Some(RootEntry { path: text::string_of(path), ckey }),
        Err(_) => None,
    }
}

impl RootFile {
    /// The index maps the normalized form of every path to its last record.
    pub closed spec fn wf(&self) -> bool {
        forall|k: Seq<char>|
            #![trigger self.index@.contains_key(k)]
            {
                &&& self.index@.contains_key(k) == (last_with(self@, k) >= 0)
                &&& self.index@.contains_key(k) ==> self.index@[k] == last_with(self@, k)
            }
    }

    fn empty() -> (r: RootFile)
        ensures
            r.wf(),
            r@ == Seq::<RootView>::empty(),
    {
        let r = RootFile { entries: Vec::new(), index: StringHashMap::new() };
        assert(r@ =~= Seq::<RootView>::empty());
        r
    }

    /// Adds a record.
    fn add(&mut self, entry: RootEntry)
        requires
            old(self).wf(),
        ensures
            final(self).wf(),
            final(self)@ == old(self)@.push(entry@),
    {
        let ghost before = *self;
        let id: usize = self.entries.len();
        let path = text::chars_of(entry.path.as_str());
        let key = normalize_path(path.as_slice());
        self.index.insert(key, id);
        self.entries.push(entry);
        proof {
            assert(self@ =~= before@.push(entry@));
            assert(self@.drop_last() =~= before@);
            assert forall|k: Seq<char>| #![trigger self.index@.contains_key(k)] {
                &&& self.index@.contains_key(k) == (last_with(self@, k) >= 0)
                &&& self.index@.contains_key(k) ==> self.index@[k] == last_with(self@, k)
            } by {
                assert(before.index@.contains_key(k) == (last_with(before@, k) >= 0));
            }
        }
    }

    /// Parses a decoded (post-BLTE) root file.
    ///
    /// Lines that don't look like records (no `|`, or a hash that isn't 32
    /// hex chars) are skipped, matching CascLib's tolerance; a file yielding
    /// zero records is rejected as malformed since it almost certainly means
    /// the input isn't a root file at all.
    pub fn parse(data: &[u8]) -> (r: Result<RootFile, CascError>)
        ensures
            error::outcome(r) == root_file(data@),
            r matches Ok(f) ==> f.wf(),
    {
        let input = match text::utf8_text(data) {
            Some(s) => s,
            None => {
                return Err(CascError::malformed("root file", "not valid UTF-8"));
            },
        };
        let chars = text::chars_of(input);
        let lines = text::split_lines(chars.as_slice());
        let ghost all = text::views(lines@);
        let mut root = RootFile::empty();
        let mut i: usize = 0;
        assert(all.subrange(0, 0) =~= seq![]);
        while i < lines.len()
            invariant
                0 <= i <= lines@.len(),
                all == text::views(lines@),
                vstd::utf8::valid_utf8(data@),
                all == text::lines(vstd::utf8::decode_utf8(data@)),
                root.wf(),
                root_rows(all.subrange(0, i as int)) == Ok::<Seq<RootView>, ErrorView>(root@),
            decreases lines@.len() - i,
        {
            proof {
                assert(all.subrange(0, i + 1).drop_last() =~= all.subrange(0, i as int));
                assert(all.subrange(0, i + 1).last() == lines@[i as int]@);
            }
            if let Some(entry) = parse_row(lines[i]) {
                if root.entries.len() as u64 > u32::MAX as u64 {
                    proof {
                        lemma_root_rows_fail(all, i + 1);
                    }
                    return Err(CascError::malformed("root file", "too many entries"));
                }
                root.add(entry);
            }
            i += 1;
        }
        assert(all.subrange(0, i as int) =~= all);
        if root.entries.len() == 0 {
            return Err(
                CascError::malformed(
                    "root file",
                    "no valid records; input is probably not a root file",
                ),
            );
        }
        Ok(root)
    }

    /// Looks up a file by path, case-insensitively; `\` and `/` separators
    /// are interchangeable.
    pub fn lookup(&self, path: &str) -> (r: Option<&RootEntry>)
        requires
            self.wf(),
        ensures
            match r {
                Some(e) => cataloged(self@, path@) == Some(e@),
                None => cataloged(self@, path@) is None,
            },
    {
        let chars = text::chars_of(path);
        let key = normalize_path(chars.as_slice());
        proof {
            lemma_last_with(self@, key@);
            assert(self.index@.contains_key(key@) == (last_with(self@, key@) >= 0));
        }
        match self.index.get(key.as_str()) {
            Some(id) => Some(&self.entries[*id]),
            None => None,
        }
    }

    /// All records, in file order.
    pub fn entries(&self) -> (s: &[RootEntry])
        ensures
            entry_views(s@) == self@,
    {
        self.entries.as_slice()
    }

    /// Number of records.
    pub fn len(&self) -> (n: usize)
        ensures
            n == self@.len(),
    {
        self.entries.len()
    }

    /// Whether there are no records.
    pub fn is_empty(&self) -> (b: bool)
        ensures
            b == (self@.len() == 0),
    {
        self.entries.len() == 0
    }
}

impl Clone for RootFile {
    fn clone(&self) -> (r: RootFile)
        ensures
            r@ == self@,
            r.wf(),
    {
        let mut r = RootFile::empty();
        let mut i: usize = 0;
        assert(self@.subrange(0, 0) =~= Seq::<RootView>::empty());
        while i < self.entries.len()
            invariant
                0 <= i <= self.entries@.len(),
                r.wf(),
                r@ == self@.subrange(0, i as int),
            decreases self.entries@.len() - i,
        {
            let entry = &self.entries[i];
            r.add(RootEntry { path: entry.path.clone(), ckey: entry.ckey });
            i += 1;
            assert(self@.subrange(0, i as int) =~= self@.subrange(0, i - 1).push(entry@));
        }
        assert(self@.subrange(0, i as int) =~= self@);
        r
    }
}

// ---------------------------------------------------------------------
// Laws

/// Lookups do not distinguish paths that differ only in the case of ASCII
/// letters and in the choice of separators.
pub proof fn law_lookup_by_form(rows: Seq<RootView>, a: Seq<char>, b: Seq<char>)
    requires
        normalized(a) == normalized(b),
    ensures
        cataloged(rows, a) == cataloged(rows, b),
{
}

/// The normalized form of a path is its own normalized form, so a path and
/// its normalized form name the same record.
pub proof fn law_normalized_twice(path: Seq<char>)
    ensures
        normalized(normalized(path)) == normalized(path),
{
    assert(normalized(normalized(path)) =~= normalized(path));
}

/// Every cataloged path is found, and what is found under a path is a record
/// of the catalog with that path up to case and separators.
pub proof fn law_cataloged(rows: Seq<RootView>, i: int)
    requires
        0 <= i < rows.len(),
    ensures
        cataloged(rows, rows[i].path) matches Some(r) ==> rows.contains(r) && normalized(r.path)
            == normalized(rows[i].path),
        cataloged(rows, rows[i].path) is Some,
    decreases rows.len(),
{
    let key = normalized(rows[i].path);
    lemma_last_with(rows, key);
    lemma_last_with_found(rows, i);
    assert(rows.contains(rows[last_with(rows, key)]));
}

proof fn lemma_last_with_found(rows: Seq<RootView>, i: int)
    requires
        0 <= i < rows.len(),
    ensures
        last_with(rows, normalized(rows[i].path)) >= i,
    decreases rows.len(),
{
    if normalized(rows.last().path) != normalized(rows[i].path) {
        assert(rows.drop_last()[i] == rows[i]);
        lemma_last_with_found(rows.drop_last(), i);
    }
}

/// Two characters that lookups do not tell apart: one character, two
/// separators, or an ASCII letter in both cases.
pub open spec fn alike(a: char, b: char) -> bool {
    ||| a == b
    ||| (a == '/' || a == '\\') && (b == '/' || b == '\\')
    ||| 'A' <= a <= 'Z' && b as int == a as int + 32
    ||| 'A' <= b <= 'Z' && a as int == b as int + 32
}

/// Two paths that lookups do not tell apart.
pub open spec fn paths_alike(a: Seq<char>, b: Seq<char>) -> bool {
    a.len() == b.len() && forall|i: int| 0 <= i < a.len() ==> alike(#[trigger] a[i], b[i])
}

/// Two paths have one normalized form only where they have one length and are
/// alike character by character.
pub proof fn law_one_form(a: Seq<char>, b: Seq<char>)
    ensures
        normalized(a) == normalized(b) <==> paths_alike(a, b),
{
    if normalized(a) == normalized(b) {
        assert(normalized(a).len() == normalized(b).len());
        assert forall|i: int| 0 <= i < a.len() implies alike(#[trigger] a[i], b[i]) by {
            assert(normalized(a)[i] == normalized(b)[i]);
            lemma_one_char(a[i], b[i]);
        }
    }
    if paths_alike(a, b) {
        assert forall|i: int| 0 <= i < a.len() implies normalized(a)[i] == normalized(b)[i] by {
            assert(alike(a[i], b[i]));
            lemma_one_char(a[i], b[i]);
        }
        assert(normalized(a) =~= normalized(b));
    }
}

proof fn lemma_one_char(a: char, b: char)
    ensures
        normal_char(a) == normal_char(b) <==> alike(a, b),
{
}

/// A lookup gives the last record whose path is like the given one, and
/// nothing where no record has such a path.
pub proof fn law_lookup_is_last_alike(rows: Seq<RootView>, path: Seq<char>, i: int)
    requires
        -1 <= i < rows.len(),
        i >= 0 ==> paths_alike(rows[i].path, path),
        forall|j: int| i < j < rows.len() ==> !paths_alike((#[trigger] rows[j]).path, path),
    ensures
        cataloged(rows, path) == (if i >= 0 {
            Some(rows[i])
        } else {
            None
        }),
    decreases rows.len(),
{
    if rows.len() > 0 {
        let n = rows.len() - 1;
        law_one_form(rows[n].path, path);
        if i < n {
            assert(!paths_alike(rows[n].path, path));
            let init = rows.drop_last();
            assert forall|j: int| i < j < init.len() implies !paths_alike(
                (#[trigger] init[j]).path,
                path,
            ) by {
                assert(init[j] == rows[j]);
            }
            law_lookup_is_last_alike(init, path, i);
            assert(rows.last() == rows[n]);
            lemma_last_with(init, normalized(path));
        }
    }
}

/// In a catalog in which no two paths are alike, the lookup of a record's own
/// path gives that record, and the lookup of a path that is like none of them
/// gives nothing.
pub proof fn law_own_path(rows: Seq<RootView>, path: Seq<char>)
    requires
        forall|i: int, j: int|
            0 <= i < j < rows.len() ==> !paths_alike(
                (#[trigger] rows[i]).path,
                (#[trigger] rows[j]).path,
            ),
    ensures
        forall|i: int|
            0 <= i < rows.len() ==> cataloged(rows, (#[trigger] rows[i]).path) == Some(rows[i]),
        (forall|i: int| 0 <= i < rows.len() ==> !paths_alike((#[trigger] rows[i]).path, path))
            ==> cataloged(rows, path) is None,
{
    assert forall|i: int| 0 <= i < rows.len() implies cataloged(rows, (#[trigger] rows[i]).path)
        == Some(rows[i]) by {
        assert forall|j: int| i < j < rows.len() implies !paths_alike(
            (#[trigger] rows[j]).path,
            rows[i].path,
        ) by {
            law_one_form(rows[i].path, rows[j].path);
            law_one_form(rows[j].path, rows[i].path);
        }
        law_lookup_is_last_alike(rows, rows[i].path, i);
    }
    if forall|i: int| 0 <= i < rows.len() ==> !paths_alike((#[trigger] rows[i]).path, path) {
        law_lookup_is_last_alike(rows, path, -1);
    }
}

/// A path without a bar, a bar, and a key in hexadecimal make a record, with
/// or without a further bar and anything behind it.
pub proof fn law_record(path: Seq<char>, ckey: Seq<u8>, rest: Seq<char>)
    requires
        !path.contains('|'),
        ckey.len() == 16,
    ensures
        root_row(path + seq!['|'] + keys::key_hex(ckey)) == Some(RootView { path, ckey }),
        root_row(path + seq!['|'] + keys::key_hex(ckey) + seq!['|'] + rest) == Some(
            RootView { path, ckey },
        ),
{
    keys::law_hex_round_trip(ckey, "content key"@);
    keys::law_hex_form(ckey);
    let hash = keys::key_hex(ckey);
    let a = path + seq!['|'] + hash;
    let b = a + seq!['|'] + rest;
    lemma_bar(a, path, hash);
    assert(b =~= path + seq!['|'] + (hash + seq!['|'] + rest));
    lemma_bar(b, path, hash + seq!['|'] + rest);
    assert(hash[0] != '|');
    text::lemma_first_index_is(hash, '|', hash.len() as int);
    let tail = hash + seq!['|'] + rest;
    assert forall|j: int| 0 <= j < hash.len() implies tail[j] != '|' by {
        assert(tail[j] == hash[j]);
    }
    assert(tail[hash.len() as int] == '|');
    text::lemma_first_index_is(tail, '|', hash.len() as int);
    assert(tail.subrange(0, hash.len() as int) =~= hash);
    assert(hash.subrange(0, hash.len() as int) =~= hash);
}

proof fn lemma_bar(line: Seq<char>, path: Seq<char>, rest: Seq<char>)
    requires
        line == path + seq!['|'] + rest,
        !path.contains('|'),
    ensures
        text::first_index(line, '|') == path.len(),
        line.subrange(0, path.len() as int) == path,
        line.subrange(path.len() as int + 1, line.len() as int) == rest,
{
    let n = path.len() as int;
    assert(line[n] == '|');
    assert forall|j: int| 0 <= j < n implies line[j] != '|' by {
        assert(path.contains(path[j]));
        assert(line[j] == path[j]);
    }
    text::lemma_first_index_is(line, '|', n);
    assert(line.subrange(0, n) =~= path);
    assert(line.subrange(n + 1, line.len() as int) =~= rest);
}

/// A line without a bar is no record, and neither is one with anything else
/// than a key between its first bar and the next.
pub proof fn law_no_record(line: Seq<char>, path: Seq<char>, hash: Seq<char>)
    ensures
        !line.contains('|') ==> root_row(line) is None,
        !path.contains('|') && !hash.contains('|') && keys::key_from_hex(
            hash,
            16,
            "content key"@,
        ) is Err ==> root_row(path + seq!['|'] + hash) is None,
{
    text::lemma_first_index(line, '|');
    if !line.contains('|') && text::first_index(line, '|') < line.len() {
        assert(line.contains(line[text::first_index(line, '|')]));
    }
    if !path.contains('|') && !hash.contains('|') {
        lemma_bar(path + seq!['|'] + hash, path, hash);
        text::lemma_first_index(hash, '|');
        let i = text::first_index(hash, '|');
        if i < hash.len() {
            assert(hash.contains(hash[i]));
        }
        assert(hash.subrange(0, hash.len() as int) =~= hash);
    }
}

/// A root file lists the records of its lines, in their order, with the lines
/// left out that are none; it is refused where no record is left, and where
/// its bytes are no text.
pub proof fn law_listed_records(lines: Seq<Seq<char>>, data: Seq<u8>)
    requires
        lines.len() <= u32::MAX,
        vstd::utf8::valid_utf8(data) ==> lines == text::lines(vstd::utf8::decode_utf8(data)),
    ensures
        ({
            let rows = lines.filter_map(|l: Seq<char>| root_row(l));
            &&& vstd::utf8::valid_utf8(data) && rows.len() > 0 ==> root_file(data) == Ok::<
                Seq<RootView>,
                ErrorView,
            >(rows)
            &&& vstd::utf8::valid_utf8(data) && rows.len() == 0 ==> (root_file(data) matches Err(
                e,
            ) && e is Malformed)
            &&& !vstd::utf8::valid_utf8(data) ==> (root_file(data) matches Err(e)
                && e is Malformed)
        }),
{
    lemma_rows(lines);
}

proof fn lemma_rows(lines: Seq<Seq<char>>)
    requires
        lines.len() <= u32::MAX,
    ensures
        root_rows(lines) == Ok::<Seq<RootView>, ErrorView>(
            lines.filter_map(|l: Seq<char>| root_row(l)),
        ),
        lines.filter_map(|l: Seq<char>| root_row(l)).len() <= lines.len(),
    decreases lines.len(),
{
    reveal(Seq::filter_map);
    let rows = lines.filter_map(|l: Seq<char>| root_row(l));
    if lines.len() > 0 {
        let init = lines.drop_last();
        lemma_rows(init);
        let before = init.filter_map(|l: Seq<char>| root_row(l));
        if let Some(row) = root_row(lines.last()) {
            assert(rows =~= before.push(row));
        }
    }
}

} // verus!
