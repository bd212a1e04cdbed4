//! Parsers for the plain-text configuration formats used by CASC local
//! storage: `.build.info` and the build config it points at.
//!
//! `.build.info` lives at the root of a storage and is a pipe-delimited table
//! listing the builds installed for a product; each row's `Build Key` is the
//! CKey of a build config file living under `config/`. That build config is
//! itself a simple `key = value` text file whose values are (mostly)
//! whitespace-separated pairs of `CKey EKey` hashes pointing at the encoding
//! file, install manifest, root file, and so on.

use std::sync::Arc;

use vstd::prelude::*;
use vstd::string::StringExecFns;

use crate::error;
use crate::error::CascError;
use crate::error::ErrorView;
use crate::keys;
use crate::keys::ContentKey;
use crate::keys::EncodingKey;
use crate::text;
use crate::textmap::TextMap;

verus! {

/// A parsed `.build.info` file: a pipe-delimited table of installed builds.
///
/// See [`BuildInfo::parse`] for the format.
#[derive(Debug, Clone)]
pub struct BuildInfo {
    records: Vec<BuildInfoRecord>,
}

/// One row of a [`BuildInfo`] table, addressable by column name.
#[derive(Debug, Clone)]
pub struct BuildInfoRecord {
    columns: Arc<Vec<String>>,
    values: Vec<Option<String>>,
}

// ---------------------------------------------------------------------
// What a build info table says

/// The content of a [`BuildInfoRecord`].
pub struct RecordView {
    pub columns: Seq<Seq<char>>,
    pub values: Seq<Option<Seq<char>>>,
}

/// A text that may be absent, by its view.
pub open spec fn optional_text(v: Option<String>) -> Option<Seq<char>> {
    match v {
        Some(s) => Some(s@),
        None => None,
    }
}

/// Values, taken by their views.
pub open spec fn value_views(v: Seq<Option<String>>) -> Seq<Option<Seq<char>>> {
    Seq::new(v.len(), |i: int| optional_text(v[i]))
}

impl View for BuildInfoRecord {
    type V = RecordView;

    closed spec fn view(&self) -> RecordView {
        RecordView { columns: text::texts((*self.columns)@), values: value_views(self.values@) }
    }
}

/// Records, taken by their views.
pub open spec fn record_views(s: Seq<BuildInfoRecord>) -> Seq<RecordView> {
    Seq::new(s.len(), |i: int| s[i]@)
}

impl View for BuildInfo {
    type V = Seq<RecordView>;

    closed spec fn view(&self) -> Seq<RecordView> {
        record_views(self.records@)
    }
}

/// A line that is neither blank nor a comment.
pub open spec fn is_content(line: Seq<char>) -> bool {
    let t = text::trimmed(line);
    t.len() > 0 && t[0] != '#'
}

/// The lines that are neither blank nor comments, in their order.
pub open spec fn content_lines(lines: Seq<Seq<char>>) -> Seq<Seq<char>>
    decreases lines.len(),
{
    if lines.len() == 0 {
        seq![]
    } else if is_content(lines.last()) {
        content_lines(lines.drop_last()).push(lines.last())
    } else {
        content_lines(lines.drop_last())
    }
}

/// The column names that header fields give: each up to its first `!`.
pub open spec fn column_names(fields: Seq<Seq<char>>) -> Result<Seq<Seq<char>>, ErrorView>
    decreases fields.len(),
{
    if fields.len() == 0 {
        Ok(seq![])
    } else {
        let col = fields.last();
        let bang = text::first_index(col, '!');
        match column_names(fields.drop_last()) {
            Err(e) => Err(e),
            Ok(names) => if bang >= col.len() {
                Err(
                    error::malformed_view(
                        "build info"@,
                        "header column missing '!': "@ + text::quoted(col),
                    ),
                )
            } else {
                Ok(names.push(text::trimmed(col.subrange(0, bang))))
            },
        }
    }
}

/// The values of a record: a missing or empty field is absent.
pub open spec fn field_values(fields: Seq<Seq<char>>, n: nat) -> Seq<Option<Seq<char>>> {
    Seq::new(
        n,
        |i: int|
            if i < fields.len() && fields[i].len() > 0 {
                Some(fields[i])
            } else {
                None
            },
    )
}

/// The records that lines give under the given column names.
pub open spec fn table_records(lines: Seq<Seq<char>>, names: Seq<Seq<char>>) -> Result<
    Seq<RecordView>,
    ErrorView,
>
    decreases lines.len(),
{
    if lines.len() == 0 {
        Ok(seq![])
    } else {
        let fields = text::fields(lines.last(), '|');
        match table_records(lines.drop_last(), names) {
            Err(e) => Err(e),
            Ok(records) => if fields.len() > names.len() {
                Err(
                    error::malformed_view(
                        "build info"@,
                        "record has "@ + text::dec(fields.len()) + " fields but header has "@
                            + text::dec(names.len()),
                    ),
                )
            } else {
                Ok(
                    records.push(
                        RecordView { columns: names, values: field_values(fields, names.len()) },
                    ),
                )
            },
        }
    }
}

/// What parsing a build info table gives.
pub open spec fn build_info(s: Seq<char>) -> Result<Seq<RecordView>, ErrorView> {
    let kept = content_lines(text::lines(s));
    if kept.len() == 0 {
        Err(error::malformed_view("build info"@, "empty input"@))
    } else {
        match column_names(text::fields(kept[0], '|')) {
            Err(e) => Err(e),
            Ok(names) => table_records(kept.subrange(1, kept.len() as int), names),
        }
    }
}

/// The position of the first column of the given name, or the number of
/// columns.
pub open spec fn column_index(columns: Seq<Seq<char>>, name: Seq<char>) -> int
    decreases columns.len(),
{
    if columns.len() == 0 || columns[0] == name {
        0
    } else {
        1 + column_index(columns.drop_first(), name)
    }
}

/// The value of a record in the named column.
pub open spec fn record_value(r: RecordView, column: Seq<char>) -> Option<Seq<char>> {
    let i = column_index(r.columns, column);
    if i < r.columns.len() && i < r.values.len() {
        r.values[i]
    } else {
        None
    }
}

/// The record is the active one.
pub open spec fn is_active(r: RecordView) -> bool {
    record_value(r, "Active"@) == Some("1"@)
}

/// The position of the first active record, or the number of records.
pub open spec fn first_active(records: Seq<RecordView>) -> int
    decreases records.len(),
{
    if records.len() == 0 || is_active(records[0]) {
        0
    } else {
        1 + first_active(records.drop_first())
    }
}

/// The build key of a record.
pub open spec fn record_build_key(r: RecordView) -> Result<Seq<u8>, ErrorView> {
    match record_value(r, "Build Key"@) {
        None => Err(error::malformed_view("build info"@, "record missing 'Build Key'"@)),
        Some(s) => keys::key_from_hex(s, 16, "content key"@),
    }
}

pub proof fn lemma_column_index_is(columns: Seq<Seq<char>>, name: Seq<char>, i: int)
    requires
        0 <= i <= columns.len(),
        forall|j: int| 0 <= j < i ==> columns[j] != name,
        i < columns.len() ==> columns[i] == name,
    ensures
        column_index(columns, name) == i,
    decreases columns.len(),
{
    if i > 0 {
        let t = columns.drop_first();
        assert forall|j: int| 0 <= j < i - 1 implies t[j] != name by {
            assert(columns[j + 1] != name);
        }
        lemma_column_index_is(t, name, i - 1);
    }
}

proof fn lemma_first_active_is(records: Seq<RecordView>, i: int)
    requires
        0 <= i <= records.len(),
        forall|j: int| 0 <= j < i ==> !is_active(#[trigger] records[j]),
        i < records.len() ==> is_active(records[i]),
    ensures
        first_active(records) == i,
    decreases records.len(),
{
    if i > 0 {
        assert(!is_active(records[0]));
        let t = records.drop_first();
        assert forall|j: int| 0 <= j < i - 1 implies !is_active(#[trigger] t[j]) by {
            assert(!is_active(records[j + 1]));
        }
        lemma_first_active_is(t, i - 1);
    }
}

/// The lines of a text that are neither blank nor comments.
fn keep_content<'a>(lines: &Vec<&'a [char]>) -> (out: Vec<&'a [char]>)
    ensures
        text::views(out@) == content_lines(text::views(lines@)),
{
    let ghost all = text::views(lines@);
    let mut out: Vec<&'a [char]> = Vec::new();
    let mut i: usize = 0;
    assert(all.subrange(0, 0) =~= seq![]);
    assert(text::views(out@) =~= seq![]);
    while i < lines.len()
        invariant
            0 <= i <= lines@.len(),
            all == text::views(lines@),
            text::views(out@) == content_lines(all.subrange(0, i as int)),
        decreases lines@.len() - i,
    {
        let ghost before = text::views(out@);
        let line = lines[i];
        let t = text::trim(line);
        assert(all.subrange(0, i + 1).drop_last() =~= all.subrange(0, i as int));
        if t.len() > 0 && t[0] != '#' {
            out.push(line);
            assert(text::views(out@) =~= before.push(line@));
        }
        i += 1;
    }
    assert(all.subrange(0, i as int) =~= all);
    out
}

proof fn lemma_column_names_fail(fields: Seq<Seq<char>>, i: int)
    requires
        0 <= i <= fields.len(),
        column_names(fields.subrange(0, i)) is Err,
    ensures
        column_names(fields) == column_names(fields.subrange(0, i)),
    decreases fields.len() - i,
{
    if i < fields.len() {
        assert(fields.subrange(0, i + 1).drop_last() =~= fields.subrange(0, i));
        lemma_column_names_fail(fields, i + 1);
    } else {
        assert(fields.subrange(0, i) =~= fields);
    }
}

/// The column names that a header line gives.
fn parse_columns(header: &[char]) -> (r: Result<Vec<String>, CascError>)
    ensures
        match r {
            Ok(v) => column_names(text::fields(header@, '|')) == Ok::<Seq<Seq<char>>, ErrorView>(
                text::texts(v@),
            ),
            Err(e) => column_names(text::fields(header@, '|')) == Err::<
                Seq<Seq<char>>,
                ErrorView,
            >(e@),
        },
{
    let fields = text::split_fields(header, '|');
    let ghost all = text::views(fields@);
    let mut columns: Vec<String> = Vec::new();
    let mut i: usize = 0;
    assert(all.subrange(0, 0) =~= seq![]);
    assert(text::texts(columns@) =~= seq![]);
    while i < fields.len()
        invariant
            0 <= i <= fields@.len(),
            all == text::views(fields@),
            all == text::fields(header@, '|'),
            column_names(all.subrange(0, i as int)) == Ok::<Seq<Seq<char>>, ErrorView>(
                text::texts(columns@),
            ),
        decreases fields@.len() - i,
    {
        let col = fields[i];
        let ghost before = text::texts(columns@);
        let bang = text::find_char(col, '!');
        proof {
            text::lemma_first_index(col@, '!');
            assert(all.subrange(0, i + 1).drop_last() =~= all.subrange(0, i as int));
            assert(all.subrange(0, i + 1).last() == col@);
        }
        if bang >= col.len() {
            let shown = text::quoted_text(text::string_of(col).as_str());
            let reason = text::cat2("header column missing '!': ", shown.as_str());
            proof {
                lemma_column_names_fail(all, i + 1);
            }
            return Err(CascError::malformed("build info", reason.as_str()));
        }
        let name = text::trim(text::cut(col, 0, bang));
        columns.push(text::string_of(name));
        assert(text::texts(columns@) =~= before.push(name@));
        i += 1;
    }
    assert(all.subrange(0, i as int) =~= all);
    Ok(columns)
}

proof fn lemma_records_fail(lines: Seq<Seq<char>>, names: Seq<Seq<char>>, i: int)
    requires
        0 <= i <= lines.len(),
        table_records(lines.subrange(0, i), names) is Err,
    ensures
        table_records(lines, names) == table_records(lines.subrange(0, i), names),
    decreases lines.len() - i,
{
    if i < lines.len() {
        assert(lines.subrange(0, i + 1).drop_last() =~= lines.subrange(0, i));
        lemma_records_fail(lines, names, i + 1);
    } else {
        assert(lines.subrange(0, i) =~= lines);
    }
}

/// The values of one record line.
fn parse_values(fields: &Vec<&[char]>, n: usize) -> (values: Vec<Option<String>>)
    ensures
        value_views(values@) == field_values(text::views(fields@), n as nat),
{
    let mut values: Vec<Option<String>> = Vec::new();
    let mut i: usize = 0;
    while i < n
        invariant
            0 <= i <= n,
            values@.len() == i,
            forall|j: int|
                0 <= j < i ==> optional_text(#[trigger] values@[j]) == field_values(
                    text::views(fields@),
                    n as nat,
                )[j],
        decreases n - i,
    {
        if i < fields.len() && fields[i].len() > 0 {
            values.push(Some(text::string_of(fields[i])));
        } else {
            values.push(None);
        }
        i += 1;
    }
    assert(value_views(values@) =~= field_values(text::views(fields@), n as nat));
    values
}

impl BuildInfo {
    /// Parses a `.build.info` file.
    ///
    /// The first non-empty line is a header of `|`-separated columns, each
    /// formatted `Name!TYPE:size` (the `!TYPE:size` suffix is discarded;
    /// only `Name` is kept). Every
    /// following non-empty line is a record with `|`-separated values in the
    /// same order as the header; an empty value is treated as absent
    /// (`None`) rather than an empty string. Trailing empty lines and CRLF
    /// line endings are tolerated.
    ///
    /// Lines whose trimmed form starts with `#` are skipped entirely,
    /// wherever they appear — before the header or between records.
    /// `.build.info` itself never contains these, but the same pipe-delimited
    /// table format is also used by NGDP's `versions`/`cdns` HTTP responses,
    /// which intersperse `## seqn = <n>` comment lines; skipping them here
    /// lets this same parser handle those responses directly.
    ///
    /// Fails on empty input, a header column missing the `!` type
    /// separator, or a record with more fields than the header has columns
    /// (fewer fields is fine — the missing trailing fields become `None`).
    pub fn parse(input: &str) -> (r: Result<BuildInfo, CascError>)
        ensures
            error::outcome(r) == build_info(input@),
    {
        let chars = text::chars_of(input);
        let all_lines = text::split_lines(chars.as_slice());
        let kept = keep_content(&all_lines);
        if kept.len() == 0 {
            return Err(CascError::malformed("build info", "empty input"));
        }
        let ghost content = text::views(kept@);
        assert(content[0] == kept@[0]@);
        let columns = match parse_columns(kept[0]) {
            Ok(v) => Arc::new(v),
            Err(e) => {
                return Err(e);
            },
        };
        let ghost names = text::texts((*columns)@);
        let ghost rows = content.subrange(1, content.len() as int);
        let mut records: Vec<BuildInfoRecord> = Vec::new();
        let mut i: usize = 1;
        assert(rows.subrange(0, 0) =~= seq![]);
        assert(record_views(records@) =~= seq![]);
        while i < kept.len()
            invariant
                1 <= i <= kept@.len(),
                content == text::views(kept@),
                names == text::texts((*columns)@),
                rows == content.subrange(1, content.len() as int),
                build_info(input@) == table_records(rows, names),
                table_records(rows.subrange(0, i - 1), names) == Ok::<
                    Seq<RecordView>,
                    ErrorView,
                >(record_views(records@)),
            decreases kept@.len() - i,
        {
            let ghost before = record_views(records@);
            let fields = text::split_fields(kept[i], '|');
            proof {
                assert(rows.subrange(0, i as int).drop_last() =~= rows.subrange(0, i - 1));
                assert(rows.subrange(0, i as int).last() == kept@[i as int]@);
                assert(text::views(fields@).len() == fields@.len());
            }
            if fields.len() > columns.len() {
                let mut reason = "record has ".to_owned();
                reason.append(text::dec_text(fields.len() as u64).as_str());
                reason.append(" fields but header has ");
                reason.append(text::dec_text(columns.len() as u64).as_str());
                proof {
                    lemma_records_fail(rows, names, i as int);
                }
                return Err(CascError::malformed("build info", reason.as_str()));
            }
            let values = parse_values(&fields, columns.len());
            let record = BuildInfoRecord { columns: columns.clone(), values };
            records.push(record);
            assert(record_views(records@) =~= before.push(record@));
            i += 1;
        }
        assert(rows.subrange(0, i - 1) =~= rows);
        Ok(BuildInfo { records })
    }

    /// All parsed records, in file order.
    pub fn records(&self) -> (s: &[BuildInfoRecord])
        ensures
            record_views(s@) == self@,
    {
        self.records.as_slice()
    }

    /// The first record whose `Active` column is `"1"`, if any.
    ///
    /// This is the build the client would currently launch; a storage can
    /// list builds for other products/regions that aren't active.
    pub fn active_record(&self) -> (r: Option<&BuildInfoRecord>)
        ensures
            match r {
                Some(r) => first_active(self@) < self@.len() && r@ == self@[first_active(self@)],
                None => first_active(self@) == self@.len(),
            },
    {
        let mut i: usize = 0;
        while i < self.records.len()
            invariant
                0 <= i <= self.records@.len(),
                forall|j: int| 0 <= j < i ==> !is_active(#[trigger] self@[j]),
            decreases self.records@.len() - i,
        {
            let record = &self.records[i];
            assert(self@[i as int] == record@);
            if let Some(v) = record.get("Active") {
                if text::same_text(v, "1") {
                    proof {
                        lemma_first_active_is(self@, i as int);
                    }
                    return Some(record);
                }
            }
            i += 1;
        }
        proof {
            lemma_first_active_is(self@, i as int);
        }
        None
    }
}

impl BuildInfoRecord {
    /// The value in the named column, or `None` if the column doesn't exist,
    /// the record didn't have enough fields to reach it, or the value was
    /// empty.
    pub fn get(&self, column: &str) -> (r: Option<&str>)
        ensures
            match r {
                Some(s) => record_value(self@, column@) == Some(s@),
                None => record_value(self@, column@) is None,
            },
    {
        let ghost names = self@.columns;
        let mut i: usize = 0;
        while i < self.columns.len()
            invariant
                0 <= i <= (*self.columns)@.len(),
                names == text::texts((*self.columns)@),
                names == self@.columns,
                forall|j: int| 0 <= j < i ==> names[j] != column@,
            decreases (*self.columns)@.len() - i,
        {
            if text::same_text(self.columns[i].as_str(), column) {
                proof {
                    lemma_column_index_is(names, column@, i as int);
                }
                if i < self.values.len() {
                    return match &self.values[i] {
                        Some(s) => Some(s.as_str()),
                        None => None,
                    };
                }
                return None;
            }
            assert(names[i as int] != column@);
            i += 1;
        }
        proof {
            lemma_column_index_is(names, column@, i as int);
        }
        None
    }

    /// The `Build Key` column: the CKey (MD5) of this record's build config
    /// file, found under `config/<xx>/<yy>/<hex>` where `xx`/`yy` are the
    /// first two byte-pairs of the hex string.
    pub fn build_key(&self) -> (r: Result<ContentKey, CascError>)
        ensures
            error::outcome(r) == record_build_key(self@),
    {
        match self.get("Build Key") {
            Some(hex) => ContentKey::from_hex(hex),
            None => Err(CascError::malformed("build info", "record missing 'Build Key'")),
        }
    }

    /// The `Version` column, e.g. `"1.23.10.13515"`.
    pub fn version(&self) -> (r: Option<&str>)
        ensures
            match r {
                Some(s) => record_value(self@, "Version"@) == Some(s@),
                None => record_value(self@, "Version"@) is None,
            },
    {
        self.get("Version")
    }

    /// The `Product` column.
    pub fn product(&self) -> (r: Option<&str>)
        ensures
            match r {
                Some(s) => record_value(self@, "Product"@) == Some(s@),
                None => record_value(self@, "Product"@) is None,
            },
    {
        self.get("Product")
    }

    /// The `Branch` column, e.g. `"us"`.
    pub fn branch(&self) -> (r: Option<&str>)
        ensures
            match r {
                Some(s) => record_value(self@, "Branch"@) == Some(s@),
                None => record_value(self@, "Branch"@) is None,
            },
    {
        self.get("Branch")
    }
}

// ---------------------------------------------------------------------
// What a build config says

/// A parsed build config file: `key = value` pairs pointing at the other
/// files that make up a build (encoding table, install manifest, root file,
/// ...).
///
/// See [`BuildConfig::parse`] for the format.
#[derive(Debug, Clone)]
pub struct BuildConfig {
    entries: TextMap<String>,
}

impl View for BuildConfig {
    type V = Map<Seq<char>, Seq<char>>;

    closed spec fn view(&self) -> Map<Seq<char>, Seq<char>> {
        entry_values(self.entries@)
    }
}

/// A map to texts, its values taken by their views.
pub open spec fn entry_values(m: Map<Seq<char>, String>) -> Map<Seq<char>, Seq<char>> {
    Map::new(|k: Seq<char>| m.contains_key(k), |k: Seq<char>| m[k]@)
}

/// What the given lines map, later ones over earlier ones.
pub open spec fn config_lines(lines: Seq<Seq<char>>) -> Result<
    Map<Seq<char>, Seq<char>>,
    ErrorView,
>
    decreases lines.len(),
{
    if lines.len() == 0 {
        Ok(Map::empty())
    } else {
        let line = text::trimmed(lines.last());
        let eq = text::first_index(line, '=');
        match config_lines(lines.drop_last()) {
            Err(e) => Err(e),
            Ok(m) => if line.len() == 0 || line[0] == '#' {
                Ok(m)
            } else if eq >= line.len() {
                Err(
                    error::malformed_view(
                        "build config"@,
                        "line missing '=': "@ + text::quoted(line),
                    ),
                )
            } else {
                Ok(
                    m.insert(
                        text::trimmed(line.subrange(0, eq)),
                        text::trimmed(line.subrange(eq + 1, line.len() as int)),
                    ),
                )
            },
        }
    }
}

/// What parsing a build config gives.
pub open spec fn build_config(s: Seq<char>) -> Result<Map<Seq<char>, Seq<char>>, ErrorView> {
    config_lines(text::lines(s))
}

/// The value of `key`, where there is one.
pub open spec fn config_value(m: Map<Seq<char>, Seq<char>>, key: Seq<char>) -> Option<Seq<char>> {
    if m.contains_key(key) {
        Some(m[key])
    } else {
        None
    }
}

/// What the `root` key gives.
pub open spec fn config_root(m: Map<Seq<char>, Seq<char>>) -> Result<Seq<u8>, ErrorView> {
    match config_value(m, "root"@) {
        None => Err(error::malformed_view("build config"@, "missing 'root'"@)),
        Some(s) => keys::key_from_hex(s, 16, "content key"@),
    }
}

/// The two hashes that the value of `key` lists.
pub open spec fn config_hashes(m: Map<Seq<char>, Seq<char>>, key: Seq<char>) -> Result<
    (Seq<char>, Seq<char>),
    ErrorView,
> {
    match config_value(m, key) {
        None => Err(error::malformed_view("build config"@, "missing '"@ + key + "'"@)),
        Some(s) => {
            let parts = text::words(s);
            if parts.len() == 0 {
                Err(error::malformed_view("build config"@, "'"@ + key + "' has no content key"@))
            } else if parts.len() == 1 {
                Err(error::malformed_view("build config"@, "'"@ + key + "' has no encoding key"@))
            } else {
                Ok((parts[0], parts[1]))
            }
        },
    }
}

/// What the `encoding` key gives.
pub open spec fn config_encoding(m: Map<Seq<char>, Seq<char>>) -> Result<
    (Seq<u8>, Seq<u8>),
    ErrorView,
> {
    match config_hashes(m, "encoding"@) {
        Err(e) => Err(e),
        Ok((c, e)) => match keys::key_from_hex(c, 16, "content key"@) {
            Err(err) => Err(err),
            Ok(ckey) => match keys::key_from_hex(e, 16, "encoding key"@) {
                Err(err) => Err(err),
                Ok(ekey) => Ok((ckey, ekey)),
            },
        },
    }
}

/// What the `encoding-size` key gives: the decoded and the encoded size.
pub open spec fn config_encoding_size(m: Map<Seq<char>, Seq<char>>) -> Option<(nat, nat)> {
    match config_value(m, "encoding-size"@) {
        None => None,
        Some(s) => {
            let parts = text::words(s);
            if parts.len() < 2 {
                None
            } else {
                match (
                    text::number(parts[0], u64::MAX as nat),
                    text::number(parts[1], u64::MAX as nat),
                ) {
                    (Some(a), Some(b)) => Some((a, b)),
                    _ => None,
                }
            }
        },
    }
}

/// What the `install` key gives: a content key, and an encoding key where
/// there is one.
pub open spec fn config_install(m: Map<Seq<char>, Seq<char>>) -> Option<
    (Seq<u8>, Option<Seq<u8>>),
> {
    match config_value(m, "install"@) {
        None => None,
        Some(s) => {
            let parts = text::words(s);
            if parts.len() == 0 {
                None
            } else {
                match keys::key_from_hex(parts[0], 16, "content key"@) {
                    Err(_) => None,
                    Ok(ckey) => Some(
                        (
                            ckey,
                            if parts.len() < 2 {
                                None
                            } else {
                                match keys::key_from_hex(parts[1], 16, "encoding key"@) {
                                    Err(_) => None,
                                    Ok(ekey) => Some(ekey),
                                }
                            },
                        ),
                    ),
                }
            }
        },
    }
}

proof fn lemma_config_lines_fail(lines: Seq<Seq<char>>, i: int)
    requires
        0 <= i <= lines.len(),
        config_lines(lines.subrange(0, i)) is Err,
    ensures
        config_lines(lines) == config_lines(lines.subrange(0, i)),
    decreases lines.len() - i,
{
    if i < lines.len() {
        assert(lines.subrange(0, i + 1).drop_last() =~= lines.subrange(0, i));
        lemma_config_lines_fail(lines, i + 1);
    } else {
        assert(lines.subrange(0, i) =~= lines);
    }
}

impl BuildConfig {
    /// The map of the entries is well-formed.
    pub closed spec fn wf(&self) -> bool {
        self.entries.wf()
    }

    /// Parses a build config file.
    ///
    /// Each non-blank, non-comment line is `key = value`; `#` starts a
    /// comment (only recognized at the start of a line, after trimming
    /// whitespace). Many values are whitespace-separated pairs of hashes:
    /// the first is a [`ContentKey`] (CKey, the MD5 of the decoded file) and
    /// the second, where present, is the [`EncodingKey`] (EKey, the MD5 of
    /// the BLTE-encoded file, directly usable to locate it in local
    /// indices). `root` is the odd one out and has only a CKey, since the
    /// root file must be looked up through the encoding table like any
    /// other content.
    pub fn parse(input: &str) -> (r: Result<BuildConfig, CascError>)
        ensures
            error::outcome(r) == build_config(input@),
            r matches Ok(c) ==> c.wf(),
    {
        let chars = text::chars_of(input);
        let lines = text::split_lines(chars.as_slice());
        let ghost all = text::views(lines@);
        let mut config = BuildConfig { entries: TextMap::new() };
        let mut i: usize = 0;
        assert(all.subrange(0, 0) =~= seq![]);
        assert(config@ =~= Map::<Seq<char>, Seq<char>>::empty());
        while i < lines.len()
            invariant
                0 <= i <= lines@.len(),
                all == text::views(lines@),
                build_config(input@) == config_lines(all),
                config.wf(),
                config_lines(all.subrange(0, i as int)) == Ok::<
                    Map<Seq<char>, Seq<char>>,
                    ErrorView,
                >(config@),
            decreases lines@.len() - i,
        {
            let line = text::trim(lines[i]);
            proof {
                assert(all.subrange(0, i + 1).drop_last() =~= all.subrange(0, i as int));
                assert(all.subrange(0, i + 1).last() == lines@[i as int]@);
            }
            if line.len() > 0 && line[0] != '#' {
                let eq = text::find_char(line, '=');
                proof {
                    text::lemma_first_index(line@, '=');
                }
                if eq >= line.len() {
                    let shown = text::quoted_text(text::string_of(line).as_str());
                    let reason = text::cat2("line missing '=': ", shown.as_str());
                    proof {
                        lemma_config_lines_fail(all, i + 1);
                    }
                    return Err(CascError::malformed("build config", reason.as_str()));
                }
                let key = text::trim(text::cut(line, 0, eq));
                let value = text::trim(text::cut(line, eq + 1, line.len()));
                let ghost before = config@;
                config.entries.insert(key, text::string_of(value));
                assert(config@ =~= before.insert(key@, value@));
            }
            i += 1;
        }
        assert(all.subrange(0, i as int) =~= all);
        Ok(config)
    }

    /// The raw value for `key`, if present.
    pub fn get(&self, key: &str) -> (r: Option<&str>)
        requires
            self.wf(),
        ensures
            match r {
                Some(s) => config_value(self@, key@) == Some(s@),
                None => config_value(self@, key@) is None,
            },
    {
        let k = text::chars_of(key);
        match self.entries.get(k.as_slice()) {
            Some(v) => Some(v.as_str()),
            None => None,
        }
    }

    /// Number of keys.
    pub fn len(&self) -> (n: usize)
        requires
            self.wf(),
        ensures
            n == self@.dom().len(),
    {
        assert(self@.dom() =~= self.entries@.dom());
        self.entries.len()
    }

    /// The `root` key: the CKey of the root file. Must be resolved through
    /// the encoding table to find the EKey needed to actually read it.
    pub fn root(&self) -> (r: Result<ContentKey, CascError>)
        requires
            self.wf(),
        ensures
            error::outcome(r) == config_root(self@),
    {
        match self.get("root") {
            Some(hex) => ContentKey::from_hex(hex),
            None => Err(CascError::malformed("build config", "missing 'root'")),
        }
    }

    /// The `encoding` key: `(CKey, EKey)` of the encoding file itself.
    pub fn encoding(&self) -> (r: Result<(ContentKey, EncodingKey), CascError>)
        requires
            self.wf(),
        ensures
            error::outcome(r) == config_encoding(self@),
    {
        let (ckey_hex, ekey_hex) = match self.two_hashes("encoding") {
            Ok(p) => p,
            Err(e) => {
                return Err(e);
            },
        };
        let ckey = match ContentKey::from_hex(ckey_hex.as_str()) {
            Ok(k) => k,
            Err(e) => {
                return Err(e);
            },
        };
        let ekey = match EncodingKey::from_hex(ekey_hex.as_str()) {
            Ok(k) => k,
            Err(e) => {
                return Err(e);
            },
        };
        Ok((ckey, ekey))
    }

    /// The `encoding-size` key: `(decoded size, encoded size)` in bytes of
    /// the encoding file.
    pub fn encoding_size(&self) -> (r: Option<(u64, u64)>)
        requires
            self.wf(),
        ensures
            match r {
                Some((a, b)) => config_encoding_size(self@) == Some((a as nat, b as nat)),
                None => config_encoding_size(self@) is None,
            },
    {
        let value = match self.get("encoding-size") {
            Some(v) => v,
            None => {
                return None;
            },
        };
        let chars = text::chars_of(value);
        let parts = text::split_words(chars.as_slice());
        assert(text::views(parts@).len() == parts@.len());
        if parts.len() < 2 {
            return None;
        }
        match (text::parse_number(parts[0], u64::MAX), text::parse_number(parts[1], u64::MAX)) {
            (Some(a), Some(b)) => Some((a, b)),
            _ => None,
        }
    }

    /// The `install` key: the install manifest's CKey, with its EKey if
    /// present (some build configs only list the CKey).
    pub fn install(&self) -> (r: Option<(ContentKey, Option<EncodingKey>)>)
        requires
            self.wf(),
        ensures
            match r {
                Some((c, Some(e))) => config_install(self@) == Some((c@, Some(e@))),
                Some((c, None)) => config_install(self@) == Some((c@, None::<Seq<u8>>)),
                None => config_install(self@) is None,
            },
    {
        let value = match self.get("install") {
            Some(v) => v,
            None => {
                return None;
            },
        };
        let chars = text::chars_of(value);
        let parts = text::split_words(chars.as_slice());
        assert(text::views(parts@).len() == parts@.len());
        if parts.len() == 0 {
            return None;
        }
        let ckey = match ContentKey::from_hex(text::string_of(parts[0]).as_str()) {
            Ok(k) => k,
            Err(_) => {
                return None;
            },
        };
        if parts.len() < 2 {
            return Some((ckey, None));
        }
        match EncodingKey::from_hex(text::string_of(parts[1]).as_str()) {
            Ok(k) => Some((ckey, Some(k))),
            Err(_) => Some((ckey, None)),
        }
    }

    /// The `build-uid` key, e.g. `"s1"`.
    pub fn build_uid(&self) -> (r: Option<&str>)
        requires
            self.wf(),
        ensures
            match r {
                Some(s) => config_value(self@, "build-uid"@) == Some(s@),
                None => config_value(self@, "build-uid"@) is None,
            },
    {
        self.get("build-uid")
    }

    /// The `build-name` key, e.g. `"1.23.10.13515-retail"`.
    pub fn build_name(&self) -> (r: Option<&str>)
        requires
            self.wf(),
        ensures
            match r {
                Some(s) => config_value(self@, "build-name"@) == Some(s@),
                None => config_value(self@, "build-name"@) is None,
            },
    {
        self.get("build-name")
    }

    /// Splits a two-hash value (`"<ckey hex> <ekey hex>"`) for `key`,
    /// erroring if the key is missing or doesn't have both hashes.
    fn two_hashes(&self, key: &'static str) -> (r: Result<(String, String), CascError>)
        requires
            self.wf(),
        ensures
            error::outcome(r) == config_hashes(self@, key@),
    {
        let value = match self.get(key) {
            Some(v) => v,
            None => {
                let reason = text::cat3("missing '", key, "'");
                return Err(CascError::malformed("build config", reason.as_str()));
            },
        };
        let chars = text::chars_of(value);
        let parts = text::split_words(chars.as_slice());
        assert(text::views(parts@).len() == parts@.len());
        if parts.len() == 0 {
            let reason = text::cat3("'", key, "' has no content key");
            return Err(CascError::malformed("build config", reason.as_str()));
        }
        if parts.len() == 1 {
            let reason = text::cat3("'", key, "' has no encoding key");
            return Err(CascError::malformed("build config", reason.as_str()));
        }
        Ok((text::string_of(parts[0]), text::string_of(parts[1])))
    }
}

// ---------------------------------------------------------------------
// Laws

/// A line counts where something but white space is in it and the first such
/// character is no `#`.
pub proof fn law_content_line(line: Seq<char>, i: int)
    requires
        0 <= i <= line.len(),
        forall|j: int| 0 <= j < i ==> text::is_white(#[trigger] line[j]),
        i < line.len() ==> !text::is_white(line[i]),
    ensures
        is_content(line) == (i < line.len() && line[i] != '#'),
{
    text::lemma_white_len(line);
    let n = text::white_len(line);
    if n < i {
        assert(text::is_white(line[n]));
    }
    if i < n {
        assert(text::is_white(line[i]));
    }
    let t = text::trim_start(line);
    if i < line.len() {
        assert(t[0] == line[i]);
        lemma_trim_end_keeps(t);
    } else {
        assert(t.len() == 0);
    }
}

proof fn lemma_trim_end_keeps(s: Seq<char>)
    requires
        s.len() > 0,
        !text::is_white(s[0]),
    ensures
        text::trim_end(s).len() > 0,
        text::trim_end(s)[0] == s[0],
    decreases s.len(),
{
    if text::is_white(s.last()) {
        assert(s.len() > 1);
        lemma_trim_end_keeps(s.drop_last());
    }
}

/// The lines that count are all of those and no others, in their order.
pub proof fn law_content_lines(lines: Seq<Seq<char>>)
    ensures
        content_lines(lines) == lines.filter(|l: Seq<char>| is_content(l)),
    decreases lines.len(),
{
    reveal(Seq::filter);
    if lines.len() > 0 {
        law_content_lines(lines.drop_last());
    }
    assert(content_lines(lines) =~= lines.filter(|l: Seq<char>| is_content(l)));
}

/// A header field gives what stands before its first `!`, without the white
/// space round it; a field without a `!` spoils the header.
pub proof fn law_column_names(fields: Seq<Seq<char>>, names: Seq<Seq<char>>, types: Seq<Seq<char>>)
    requires
        fields.len() == names.len() == types.len(),
        forall|i: int|
            0 <= i < fields.len() ==> #[trigger] fields[i] == names[i] + seq!['!'] + types[i]
                && !names[i].contains('!'),
    ensures
        column_names(fields) == Ok::<Seq<Seq<char>>, ErrorView>(
            names.map_values(|n: Seq<char>| text::trimmed(n)),
        ),
    decreases fields.len(),
{
    let trimmed = names.map_values(|n: Seq<char>| text::trimmed(n));
    if fields.len() > 0 {
        let k = fields.len() - 1;
        let a = fields.drop_last();
        let b = names.drop_last();
        let c = types.drop_last();
        assert forall|i: int| 0 <= i < a.len() implies #[trigger] a[i] == b[i] + seq!['!'] + c[i]
            && !b[i].contains('!') by {
            assert(a[i] == fields[i]);
        }
        law_column_names(a, b, c);
        let col = fields[k];
        let n = names[k].len() as int;
        assert(col == names[k] + seq!['!'] + types[k]);
        assert(col[n] == '!');
        assert forall|j: int| 0 <= j < n implies col[j] != '!' by {
            assert(names[k].contains(names[k][j]));
            assert(col[j] == names[k][j]);
        }
        text::lemma_first_index_is(col, '!', n);
        assert(col.subrange(0, n) =~= names[k]);
        assert(trimmed =~= b.map_values(|n: Seq<char>| text::trimmed(n)).push(
            text::trimmed(names[k]),
        ));
    } else {
        assert(trimmed =~= seq![]);
    }
}

/// A header with a field that has no `!` is refused.
pub proof fn law_column_without_type(fields: Seq<Seq<char>>, i: int)
    requires
        0 <= i < fields.len(),
        !fields[i].contains('!'),
    ensures
        column_names(fields) is Err,
    decreases fields.len(),
{
    let k = fields.len() - 1;
    if i < k {
        law_column_without_type(fields.drop_last(), i);
    } else {
        text::lemma_first_index(fields[i], '!');
        let b = text::first_index(fields[i], '!');
        if b < fields[i].len() {
            assert(fields[i].contains(fields[i][b]));
        }
    }
}

/// Every line gives one record, in their order: the fields between its bars,
/// where an empty or a missing one counts as absent. A line with more fields
/// than the header has columns spoils the table.
pub proof fn law_records(rows: Seq<Seq<Seq<char>>>, lines: Seq<Seq<char>>, names: Seq<Seq<char>>)
    requires
        rows.len() == lines.len(),
        forall|i: int|
            0 <= i < lines.len() ==> text::fields(#[trigger] lines[i], '|') == rows[i],
    ensures
        (forall|i: int| 0 <= i < rows.len() ==> (#[trigger] rows[i]).len() <= names.len())
            ==> table_records(lines, names) == Ok::<Seq<RecordView>, ErrorView>(
            Seq::new(
                rows.len(),
                |i: int|
                    RecordView {
                        columns: names,
                        values: Seq::new(
                            names.len(),
                            |k: int|
                                if k < rows[i].len() && rows[i][k].len() > 0 {
                                    Some(rows[i][k])
                                } else {
                                    None
                                },
                        ),
                    },
            ),
        ),
        (exists|i: int| 0 <= i < rows.len() && (#[trigger] rows[i]).len() > names.len())
            ==> table_records(lines, names) is Err,
    decreases lines.len(),
{
    let all = Seq::new(
        rows.len(),
        |i: int|
            RecordView {
                columns: names,
                values: Seq::new(
                    names.len(),
                    |k: int|
                        if k < rows[i].len() && rows[i][k].len() > 0 {
                            Some(rows[i][k])
                        } else {
                            None
                        },
                ),
            },
    );
    if lines.len() > 0 {
        let n = lines.len() - 1;
        let r = rows.drop_last();
        let l = lines.drop_last();
        assert forall|i: int| 0 <= i < l.len() implies text::fields(#[trigger] l[i], '|')
            == r[i] by {
            assert(l[i] == lines[i]);
        }
        law_records(r, l, names);
        assert(text::fields(lines[n], '|') == rows[n]);
        if forall|i: int| 0 <= i < rows.len() ==> (#[trigger] rows[i]).len() <= names.len() {
            assert forall|i: int| 0 <= i < r.len() implies (#[trigger] r[i]).len()
                <= names.len() by {
                assert(r[i] == rows[i]);
            }
            assert(rows[n].len() <= names.len());
            assert(field_values(rows[n], names.len()) =~= all[n].values);
            let before = Seq::new(
                r.len(),
                |i: int|
                    RecordView {
                        columns: names,
                        values: Seq::new(
                            names.len(),
                            |k: int|
                                if k < r[i].len() && r[i][k].len() > 0 {
                                    Some(r[i][k])
                                } else {
                                    None
                                },
                        ),
                    },
            );
            assert forall|i: int| 0 <= i < n implies before[i] == all[i] by {
                assert(r[i] == rows[i]);
                assert(before[i].values =~= all[i].values);
            }
            assert(before.push(all[n]) =~= all);
        }
        if exists|i: int| 0 <= i < rows.len() && (#[trigger] rows[i]).len() > names.len() {
            let i = choose|i: int| 0 <= i < rows.len() && (#[trigger] rows[i]).len() > names.len();
            if i < n {
                assert(r[i] == rows[i]);
            }
        }
    } else {
        assert(all =~= seq![]);
    }
}

/// A column of a record is the first of its name.
pub proof fn law_record_value(r: RecordView, name: Seq<char>, i: int)
    requires
        r.values.len() == r.columns.len(),
        0 <= i <= r.columns.len(),
        forall|j: int| 0 <= j < i ==> #[trigger] r.columns[j] != name,
        i < r.columns.len() ==> r.columns[i] == name,
    ensures
        record_value(r, name) == (if i < r.columns.len() {
            r.values[i]
        } else {
            None
        }),
{
    lemma_column_index_is(r.columns, name, i);
}

/// The active build is the first record whose `Active` column holds `1`.
pub proof fn law_first_active(records: Seq<RecordView>, i: int)
    requires
        0 <= i <= records.len(),
        forall|j: int|
            0 <= j < i ==> record_value(#[trigger] records[j], "Active"@) != Some(seq!['1']),
        i < records.len() ==> record_value(records[i], "Active"@) == Some(seq!['1']),
    ensures
        first_active(records) == i,
{
    reveal_strlit("1");
    assert("1"@ =~= seq!['1']);
    assert forall|j: int| 0 <= j < i implies !is_active(#[trigger] records[j]) by {
        assert(record_value(records[j], "Active"@) != Some(seq!['1']));
    }
    lemma_first_active_is(records, i);
}

/// A line of a build config maps what stands before its first `=` to what
/// stands behind it, both without the white space round them, over what the
/// key was mapped to.
pub proof fn law_config_line(
    lines: Seq<Seq<char>>,
    before: Seq<char>,
    key: Seq<char>,
    value: Seq<char>,
    after: Seq<char>,
)
    requires
        config_lines(lines) is Ok,
        forall|i: int| 0 <= i < before.len() ==> text::is_white(#[trigger] before[i]),
        forall|i: int| 0 <= i < after.len() ==> text::is_white(#[trigger] after[i]),
        key.len() > 0 && !text::is_white(key[0]) && key[0] != '#',
        !key.contains('='),
        value.len() > 0 ==> !text::is_white(value.last()),
    ensures
        config_lines(lines.push(before + key + seq!['='] + value + after)) == Ok::<
            Map<Seq<char>, Seq<char>>,
            ErrorView,
        >(
            (config_lines(lines)->Ok_0).insert(text::trimmed(key), text::trimmed(value)),
        ),
{
    let line = before + key + seq!['='] + value + after;
    let core = key + seq!['='] + value;
    assert(line =~= before + core + after);
    assert(core[0] == key[0]);
    assert(core.last() == (if value.len() > 0 {
        value.last()
    } else {
        '='
    }));
    assert(!text::is_white('='));
    crate::compose::law_trimmed(before, core, after);
    let n = key.len() as int;
    assert(core[n] == '=');
    assert forall|j: int| 0 <= j < n implies core[j] != '=' by {
        assert(key.contains(key[j]));
        assert(core[j] == key[j]);
    }
    text::lemma_first_index_is(core, '=', n);
    assert(core.subrange(0, n) =~= key);
    assert(core.subrange(n + 1, core.len() as int) =~= value);
    assert(lines.push(line).drop_last() =~= lines);
}

/// A line that does not count changes nothing, and a line that counts and has
/// no `=` spoils the config.
pub proof fn law_other_config_line(lines: Seq<Seq<char>>, line: Seq<char>)
    requires
        config_lines(lines) is Ok,
    ensures
        !is_content(line) ==> config_lines(lines.push(line)) == config_lines(lines),
        is_content(line) && !line.contains('=') ==> config_lines(lines.push(line)) is Err,
{
    assert(lines.push(line).drop_last() =~= lines);
    let t = text::trimmed(line);
    text::lemma_first_index(t, '=');
    let eq = text::first_index(t, '=');
    if eq < t.len() {
        lemma_trimmed_within(line);
        assert(t[eq] == '=');
        assert(t.contains('='));
    }
}

proof fn lemma_trimmed_within(s: Seq<char>)
    ensures
        forall|c: char| text::trimmed(s).contains(c) ==> s.contains(c),
{
    text::lemma_white_len(s);
    let n = text::white_len(s);
    let t = text::trim_start(s);
    lemma_trim_end_within(t);
    assert forall|c: char| text::trimmed(s).contains(c) implies s.contains(c) by {
        assert(t.contains(c));
        let i = choose|i: int| 0 <= i < t.len() && t[i] == c;
        assert(s[n + i] == c);
    }
}

proof fn lemma_trim_end_within(s: Seq<char>)
    ensures
        forall|c: char| text::trim_end(s).contains(c) ==> s.contains(c),
    decreases s.len(),
{
    if s.len() > 0 && text::is_white(s.last()) {
        let t = s.drop_last();
        lemma_trim_end_within(t);
        assert forall|c: char| text::trim_end(s).contains(c) implies s.contains(c) by {
            assert(t.contains(c));
            let i = choose|i: int| 0 <= i < t.len() && t[i] == c;
            assert(s[i] == c);
        }
    }
}

/// The keys of a build config: `root` is one hash, `encoding` is two, a content
/// key and an encoding key, in that order, `encoding-size` is two numbers, and
/// `install` is a content key and possibly an encoding key.
pub proof fn law_config_keys(m: Map<Seq<char>, Seq<char>>, value: Seq<char>, w: Seq<Seq<char>>)
    requires
        text::words(value) == w,
    ensures
        m.contains_key("root"@) && m["root"@] == value ==> config_root(m) == keys::key_from_hex(
            value,
            16,
            "content key"@,
        ),
        !m.contains_key("root"@) ==> config_root(m) is Err,
        m.contains_key("encoding"@) && m["encoding"@] == value ==> match config_encoding(m) {
            Ok((c, e)) => {
                &&& w.len() >= 2
                &&& keys::key_from_hex(w[0], 16, "content key"@) == Ok::<Seq<u8>, ErrorView>(c)
                &&& keys::key_from_hex(w[1], 16, "encoding key"@) == Ok::<Seq<u8>, ErrorView>(e)
            },
            Err(_) => w.len() < 2 || keys::key_from_hex(w[0], 16, "content key"@) is Err
                || keys::key_from_hex(w[1], 16, "encoding key"@) is Err,
        },
        !m.contains_key("encoding"@) ==> config_encoding(m) is Err,
        m.contains_key("encoding-size"@) && m["encoding-size"@] == value
            ==> match config_encoding_size(m) {
            Some((a, b)) => {
                &&& w.len() >= 2
                &&& text::number(w[0], 0xffff_ffff_ffff_ffff) == Some(a)
                &&& text::number(w[1], 0xffff_ffff_ffff_ffff) == Some(b)
            },
            None => w.len() < 2 || text::number(w[0], 0xffff_ffff_ffff_ffff) is None
                || text::number(w[1], 0xffff_ffff_ffff_ffff) is None,
        },
        !m.contains_key("encoding-size"@) ==> config_encoding_size(m) is None,
        m.contains_key("install"@) && m["install"@] == value ==> match config_install(m) {
            Some((c, e)) => {
                &&& w.len() >= 1
                &&& keys::key_from_hex(w[0], 16, "content key"@) == Ok::<Seq<u8>, ErrorView>(c)
                &&& match e {
                    Some(k) => w.len() >= 2 && keys::key_from_hex(w[1], 16, "encoding key"@)
                        == Ok::<Seq<u8>, ErrorView>(k),
                    None => w.len() < 2 || keys::key_from_hex(w[1], 16, "encoding key"@) is Err,
                }
            },
            None => w.len() < 1 || keys::key_from_hex(w[0], 16, "content key"@) is Err,
        },
        !m.contains_key("install"@) ==> config_install(m) is None,
{
}

/// The build key of a record is the key that its `Build Key` column spells; a
/// record without one, or with another text there, has none.
pub proof fn law_build_key(r: RecordView, key: Seq<u8>)
    requires
        key.len() == 16,
    ensures
        record_value(r, "Build Key"@) == Some(keys::key_hex(key)) ==> record_build_key(r) == Ok::<
            Seq<u8>,
            ErrorView,
        >(key),
        record_value(r, "Build Key"@) is None ==> (record_build_key(r) matches Err(e)
            && e is Malformed),
        record_build_key(r) matches Ok(k) ==> (record_value(r, "Build Key"@) matches Some(s)
            && keys::key_from_hex(s, 16, "content key"@) == Ok::<Seq<u8>, ErrorView>(k)),
{
    keys::law_hex_round_trip(key, "content key"@);
}

/// A key gives what it was last mapped to, and nothing where it never was.
pub proof fn law_config_value(m: Map<Seq<char>, Seq<char>>, key: Seq<char>, value: Seq<char>)
    ensures
        config_value(m.insert(key, value), key) == Some(value),
        config_value(m.remove(key), key) is None,
        forall|k: Seq<char>|
            k != key ==> config_value(m.insert(key, value), k) == #[trigger] config_value(m, k),
{
}

/// A `.build.info` table is made of those of its lines that are neither blank
/// nor a comment: the first of them is the header, the others are the records,
/// and there must be a header.
pub proof fn law_build_info(s: Seq<char>)
    ensures
        ({
            let kept = text::lines(s).filter(
                |l: Seq<char>| text::trimmed(l).len() > 0 && text::trimmed(l)[0] != '#',
            );
            &&& kept.len() == 0 ==> (build_info(s) matches Err(e) && e is Malformed)
            &&& kept.len() > 0 ==> match column_names(text::fields(kept[0], '|')) {
                Ok(names) => build_info(s) == table_records(kept.skip(1), names),
                Err(e) => build_info(s) == Err::<Seq<RecordView>, ErrorView>(e),
            }
        }),
{
    law_content_lines(text::lines(s));
    let keep = |l: Seq<char>| text::trimmed(l).len() > 0 && text::trimmed(l)[0] != '#';
    lemma_same_filter(text::lines(s), keep);
    let kept = text::lines(s).filter(keep);
    if kept.len() > 0 {
        assert(kept.skip(1) =~= kept.subrange(1, kept.len() as int));
    }
}

proof fn lemma_same_filter(lines: Seq<Seq<char>>, keep: spec_fn(Seq<char>) -> bool)
    requires
        forall|l: Seq<char>| #[trigger] keep(l) == is_content(l),
    ensures
        lines.filter(keep) == lines.filter(|l: Seq<char>| is_content(l)),
    decreases lines.len(),
{
    reveal(Seq::filter);
    if lines.len() > 0 {
        lemma_same_filter(lines.drop_last(), keep);
        assert(keep(lines.last()) == is_content(lines.last()));
    }
}

} // verus!
