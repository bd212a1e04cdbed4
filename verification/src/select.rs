//! Choosing what a listing shows and what an extraction writes, and where.

use vstd::hash_map::StringHashMap;
use vstd::prelude::*;
use vstd::string::*;

use crate::compose;
use crate::error;
use crate::error::CascError;
use crate::error::ErrorView;
use crate::matcher;
use crate::matcher::PathMatcher;
use crate::sanitize;
use crate::storage;
use crate::text;

verus! {

/// The paths that some matcher accepts, in their order.
pub open spec fn selected(matchers: Seq<PathMatcher>, paths: Seq<Seq<char>>) -> Seq<Seq<char>>
    decreases paths.len(),
{
    if paths.len() == 0 {
        seq![]
    } else {
        let before = selected(matchers, paths.drop_last());
        if matcher::some_accepts(matchers, paths.last()) {
            before.push(paths.last())
        } else {
            before
        }
    }
}

/// Selects the paths that match any of the patterns, in catalog order.
pub fn select_paths<'a>(matchers: &[PathMatcher], paths: &Vec<&'a str>) -> (v: Vec<&'a str>)
    ensures
        storage::str_views(v@) == selected(matchers@, storage::str_views(paths@)),
{
    let ghost all = storage::str_views(paths@);
    let mut v: Vec<&'a str> = Vec::new();
    let mut i: usize = 0;
    assert(all.subrange(0, 0) =~= seq![]);
    assert(storage::str_views(v@) =~= seq![]);
    while i < paths.len()
        invariant
            0 <= i <= paths@.len(),
            all == storage::str_views(paths@),
            storage::str_views(v@) == selected(matchers@, all.subrange(0, i as int)),
        decreases paths@.len() - i,
    {
        let path: &'a str = paths[i];
        let ghost before = storage::str_views(v@);
        proof {
            assert(all.subrange(0, i + 1).drop_last() =~= all.subrange(0, i as int));
            assert(all.subrange(0, i + 1).last() == path@);
        }
        if matcher::any_match(matchers, path) {
            v.push(path);
            assert(storage::str_views(v@) =~= before.push(path@));
        }
        i += 1;
    }
    assert(all.subrange(0, i as int) =~= all);
    v
}

// ---------------------------------------------------------------------
// Refusals

/// Why an extraction is refused before anything is written.
#[derive(Debug)]
pub enum ExtractError {
    /// No catalog path matches any of the patterns.
    NoMatch { patterns: Vec<String> },
    /// Two paths would be written to the same file.
    Collision { first: String, second: String, name: String },
}

/// The content of an [`ExtractError`].
pub enum ExtractErrorView {
    NoMatch { patterns: Seq<Seq<char>> },
    Collision { first: Seq<char>, second: Seq<char>, name: Seq<char> },
}

impl View for ExtractError {
    type V = ExtractErrorView;

    open spec fn view(&self) -> ExtractErrorView {
        match *self {
            ExtractError::NoMatch { patterns } => ExtractErrorView::NoMatch {
                patterns: text::texts(patterns@),
            },
            ExtractError::Collision { first, second, name } => ExtractErrorView::Collision {
                first: first@,
                second: second@,
                name: name@,
            },
        }
    }
}

/// The message that describes a refusal to a user.
pub open spec fn refusal(e: ExtractErrorView) -> Seq<char> {
    match e {
        ExtractErrorView::NoMatch { patterns } => "no catalog files matched pattern(s): "@
            + compose::joined(patterns, ", "@),
        ExtractErrorView::Collision { first, second, name } => "--flat would collide: "@
            + text::quoted(first) + " and "@ + text::quoted(second) + " both have basename "@
            + text::quoted(name),
    }
}

impl ExtractError {
    /// The text that describes this error to a user.
    pub fn message(&self) -> (s: String)
        ensures
            s@ == refusal(self@),
    {
        match self {
            ExtractError::NoMatch { patterns } => {
                let list = compose::join_texts(patterns, ", ");
                text::cat2("no catalog files matched pattern(s): ", list.as_str())
            },
            ExtractError::Collision { first, second, name } => {
                let a = text::quoted_text(first.as_str());
                let b = text::quoted_text(second.as_str());
                let n = text::quoted_text(name.as_str());
                let mut s = text::cat4("--flat would collide: ", a.as_str(), " and ", b.as_str());
                s.append(" both have basename ");
                s.append(n.as_str());
                s
            },
        }
    }
}

// ---------------------------------------------------------------------
// Flat extraction

/// The form in which file names are compared: two names that differ in case
/// only cannot both exist on the file systems that a real install lives on.
pub open spec fn flat_key(name: Seq<char>) -> Seq<char> {
    text::lowercase(name)
}

/// A file name, empty where there is none.
pub open spec fn flat_name(name: Option<Seq<char>>) -> Seq<char> {
    match name {
        Some(s) => s,
        None => seq![],
    }
}

/// `names` is what the file names of the paths can be.
pub open spec fn names_of(paths: Seq<Seq<char>>, names: Seq<Seq<char>>) -> bool {
    &&& names.len() == paths.len()
    &&& forall|i: int|
        0 <= i < paths.len() && sanitize::is_plain(#[trigger] paths[i]) ==> names[i] == flat_name(
            sanitize::base_name(paths[i]),
        )
}

/// The last of the names with the given key, or -1.
pub open spec fn last_with_key(names: Seq<Seq<char>>, key: Seq<char>) -> int
    decreases names.len(),
{
    if names.len() == 0 {
        -1
    } else if flat_key(names.last()) == key {
        names.len() - 1
    } else {
        last_with_key(names.drop_last(), key)
    }
}

/// The position of the first name whose key occurs before it, or the number
/// of names where there is none.
pub open spec fn first_collision(names: Seq<Seq<char>>) -> int
    decreases names.len(),
{
    if names.len() == 0 {
        0
    } else {
        let i = first_collision(names.drop_last());
        if i < names.len() - 1 {
            i
        } else if last_with_key(names.drop_last(), flat_key(names.last())) >= 0 {
            names.len() - 1
        } else {
            names.len() as int
        }
    }
}

/// What checking the paths of a flat extraction gives, where `names` holds
/// their file names: two paths that share a file name would silently
/// overwrite each other, and are refused up front.
pub open spec fn flat_status(paths: Seq<Seq<char>>, names: Seq<Seq<char>>) -> Result<
    (),
    ExtractErrorView,
> {
    let i = first_collision(names);
    if i < paths.len() {
        let before = names.subrange(0, i);
        Err(
            ExtractErrorView::Collision {
                first: paths[last_with_key(before, flat_key(names[i]))],
                second: paths[i],
                name: names[i],
            },
        )
    } else {
        Ok(())
    }
}

proof fn lemma_first_collision(names: Seq<Seq<char>>, i: int)
    requires
        0 <= i < names.len(),
        first_collision(names.subrange(0, i)) == i,
        last_with_key(names.subrange(0, i), flat_key(names[i])) >= 0,
    ensures
        first_collision(names) == i,
    decreases names.len(),
{
    let init = names.drop_last();
    if i == names.len() - 1 {
        assert(init =~= names.subrange(0, i));
    } else {
        assert(init.subrange(0, i) =~= names.subrange(0, i));
        assert(init[i] == names[i]);
        lemma_first_collision(init, i);
    }
}

/// The outcome of a check, with its error taken by its view.
pub open spec fn check_view(r: Result<(), ExtractError>) -> Result<(), ExtractErrorView> {
    match r {
        Ok(_) => Ok(()),
        Err(e) => Err(e@),
    }
}

/// With a flat output directory, two different catalog paths that share a
/// file name would silently overwrite each other; this refuses them up front.
pub fn check_no_duplicate_basenames(paths: &[&str]) -> (r: Result<(), ExtractError>)
    ensures
        exists|names: Seq<Seq<char>>| #[trigger]
            names_of(storage::str_views(paths@), names) && check_view(r) == flat_status(
                storage::str_views(paths@),
                names,
            ),
{
    let ghost all = storage::str_views(paths@);
    let mut names: Vec<String> = Vec::new();
    let mut i: usize = 0;
    while i < paths.len()
        invariant
            0 <= i <= paths@.len(),
            all == storage::str_views(paths@),
            names@.len() == i,
            forall|j: int|
                0 <= j < i && sanitize::is_plain(#[trigger] all[j]) ==> text::texts(names@)[j]
                    == flat_name(sanitize::base_name(all[j])),
        decreases paths@.len() - i,
    {
        assert(all[i as int] == paths@[i as int]@);
        let ghost before = text::texts(names@);
        let name = match sanitize::file_name(paths[i]) {
            Some(s) => s,
            None => {
                let s = String::new();
                assert(s@ =~= seq![]);
                s
            },
        };
        names.push(name);
        assert(text::texts(names@) =~= before.push(name@));
        i += 1;
    }
    assert(names_of(all, text::texts(names@)));
    check_names(paths, &names)
}

/// Refuses paths that share a file name, where `names` holds the file name of
/// each.
pub fn check_names(paths: &[&str], names: &Vec<String>) -> (r: Result<(), ExtractError>)
    requires
        names@.len() == paths@.len(),
    ensures
        check_view(r) == flat_status(storage::str_views(paths@), text::texts(names@)),
{
    let ghost all = text::texts(names@);
    let mut seen: StringHashMap<usize> = StringHashMap::new();
    let mut i: usize = 0;
    assert(all.subrange(0, 0) =~= seq![]);
    while i < names.len()
        invariant
            0 <= i <= names@.len(),
            names@.len() == paths@.len(),
            all == text::texts(names@),
            first_collision(all.subrange(0, i as int)) == i,
            forall|k: Seq<char>|
                #![trigger seen@.contains_key(k)]
                {
                    let at = last_with_key(all.subrange(0, i as int), k);
                    &&& seen@.contains_key(k) == (at >= 0)
                    &&& seen@.contains_key(k) ==> seen@[k] == at && at < i
                },
        decreases names@.len() - i,
    {
        let name = names[i].as_str();
        let ghost before = all.subrange(0, i as int);
        let ghost next = all.subrange(0, i + 1);
        proof {
            assert(next.drop_last() =~= before);
            assert(next.last() == name@);
            assert(all[i as int] == name@);
        }
        let key = text::lowercase_text(name);
        assert(seen@.contains_key(key@) == (last_with_key(before, key@) >= 0));
        match seen.get(key.as_str()) {
            Some(prev) => {
                let first = paths[*prev];
                proof {
                    lemma_first_collision(all, i as int);
                    let shown = storage::str_views(paths@);
                    assert(shown[*prev as int] == first@);
                    assert(shown[i as int] == paths@[i as int]@);
                }
                return Err(
                    ExtractError::Collision {
                        first: first.to_owned(),
                        second: paths[i].to_owned(),
                        name: name.to_owned(),
                    },
                );
            },
            None => {},
        }
        let ghost old_seen = seen@;
        seen.insert(key, i);
        proof {
            assert forall|k: Seq<char>| #![trigger seen@.contains_key(k)] {
                let at = last_with_key(next, k);
                &&& seen@.contains_key(k) == (at >= 0)
                &&& seen@.contains_key(k) ==> seen@[k] == at && at < i + 1
            } by {
                assert(old_seen.contains_key(k) == (last_with_key(before, k) >= 0));
            }
        }
        i += 1;
    }
    assert(all.subrange(0, i as int) =~= all);
    Ok(())
}

// ---------------------------------------------------------------------
// Planning an extraction

/// What an extraction of the given paths is to write, or why it is refused,
/// where `names` holds the file names of the selected paths.
pub open spec fn extraction(
    matchers: Seq<PathMatcher>,
    patterns: Seq<Seq<char>>,
    paths: Seq<Seq<char>>,
    flat: bool,
    names: Seq<Seq<char>>,
) -> Result<Seq<Seq<char>>, ExtractErrorView> {
    let chosen = selected(matchers, paths);
    if chosen.len() == 0 {
        Err(ExtractErrorView::NoMatch { patterns })
    } else if flat {
        match flat_status(chosen, names) {
            Ok(_) => Ok(chosen),
            Err(e) => Err(e),
        }
    } else {
        Ok(chosen)
    }
}

/// The outcome of planning an extraction, by its views.
pub open spec fn plan_view(r: Result<Vec<&str>, ExtractError>) -> Result<
    Seq<Seq<char>>,
    ExtractErrorView,
> {
    match r {
        Ok(v) => Ok(storage::str_views(v@)),
        Err(e) => Err(e@),
    }
}

/// Selects what an extraction writes.
pub fn plan_extraction<'a>(
    matchers: &[PathMatcher],
    patterns: &Vec<String>,
    paths: &Vec<&'a str>,
    flat: bool,
) -> (r: Result<Vec<&'a str>, ExtractError>)
    ensures
        exists|names: Seq<Seq<char>>| #[trigger]
            names_of(selected(matchers@, storage::str_views(paths@)), names) && plan_view(r)
                == extraction(
                matchers@,
                text::texts(patterns@),
                storage::str_views(paths@),
                flat,
                names,
            ),
{
    let chosen = select_paths(matchers, paths);
    let ghost all = storage::str_views(chosen@);
    assert(all.len() == chosen@.len());
    let ghost mut names = Seq::new(
        all.len(),
        |i: int| flat_name(sanitize::base_name(all[i])),
    );
    assert(names_of(all, names));
    if chosen.len() == 0 {
        return Err(ExtractError::NoMatch { patterns: text::copy_texts(patterns) });
    }
    if flat {
        let checked = check_no_duplicate_basenames(chosen.as_slice());
        proof {
            names = choose|names: Seq<Seq<char>>| #[trigger]
                names_of(all, names) && check_view(checked) == flat_status(all, names);
            assert(names_of(all, names));
        }
        match checked {
            Ok(_) => {},
            Err(e) => {
                return Err(e);
            },
        }
    }
    Ok(chosen)
}

/// The segments of the file that a path is written to, relative to the output
/// directory, where `name` is the path's file name; `None` where there is no
/// such file.
pub open spec fn destination_of(path: Seq<char>, flat: bool, name: Option<Seq<char>>) -> Option<
    Seq<Seq<char>>,
> {
    if flat {
        match name {
            Some(name) => Some(seq![name]),
            None => None,
        }
    } else {
        sanitize::sanitized(path)
    }
}

/// Segments that may be absent, taken by their views.
pub open spec fn destination_view(r: Option<Vec<String>>) -> Option<Seq<Seq<char>>> {
    match r {
        Some(v) => Some(text::texts(v@)),
        None => None,
    }
}

/// Where a path is written to: just its file name in a flat output directory,
/// else its catalog subdirectories.
pub fn destination(path: &str, flat: bool) -> (r: Option<Vec<String>>)
    ensures
        exists|name: Option<Seq<char>>| #[trigger]
            sanitize::may_be_named(path@, name) && destination_view(r) == destination_of(
                path@,
                flat,
                name,
            ),
{
    if flat {
        let name = sanitize::file_name(path);
        assert(sanitize::may_be_named(path@, sanitize::name_view(name)));
        match name {
            Some(s) => {
                let mut v: Vec<String> = Vec::new();
                v.push(s);
                assert(text::texts(v@) =~= seq![s@]);
                Some(v)
            },
            None => None,
        }
    } else {
        assert(sanitize::may_be_named(path@, sanitize::base_name(path@)));
        sanitize::sanitize_relative_path(path)
    }
}

/// What an extraction does once a file has been read: write it, skip it where
/// it is not installed, or fail.
pub open spec fn read_verdict(read: Result<Seq<u8>, ErrorView>) -> Result<
    Option<Seq<u8>>,
    ErrorView,
> {
    match read {
        Ok(bytes) => Ok(Some(bytes)),
        Err(ErrorView::NotInstalled(_)) => Ok(None),
        Err(e) => Err(e),
    }
}

/// Decides what an extraction does with what reading a file gave.
pub fn after_read(read: Result<Vec<u8>, CascError>) -> (r: Result<Option<Vec<u8>>, CascError>)
    ensures
        match r {
            Ok(Some(bytes)) => read_verdict(error::outcome(read)) == Ok::<
                Option<Seq<u8>>,
                ErrorView,
            >(Some(bytes@)),
            Ok(None) => read_verdict(error::outcome(read)) == Ok::<Option<Seq<u8>>, ErrorView>(
                None,
            ),
            Err(e) => read_verdict(error::outcome(read)) == Err::<Option<Seq<u8>>, ErrorView>(e@),
        },
{
    match read {
        Ok(bytes) => Ok(Some(bytes)),
        Err(CascError::NotInstalled(_)) => Ok(None),
        Err(e) => Err(e),
    }
}

// ---------------------------------------------------------------------
// Laws

proof fn lemma_last_with_key(names: Seq<Seq<char>>, key: Seq<char>, i: int)
    requires
        0 <= i < names.len(),
        flat_key(names[i]) == key,
    ensures
        last_with_key(names, key) >= i,
    decreases names.len(),
{
    if flat_key(names.last()) != key {
        lemma_last_with_key(names.drop_last(), key, i);
    }
}

proof fn lemma_no_collision(names: Seq<Seq<char>>, i: int, j: int)
    requires
        0 <= i < j < names.len(),
        first_collision(names) == names.len(),
    ensures
        flat_key(names[i]) != flat_key(names[j]),
    decreases names.len(),
{
    let init = names.drop_last();
    if j < names.len() - 1 {
        lemma_first_collision_bound(init);
        lemma_no_collision(init, i, j);
    } else if flat_key(names[i]) == flat_key(names[j]) {
        assert(init[i] == names[i]);
        lemma_last_with_key(init, flat_key(names[j]), i);
        lemma_first_collision_bound(init);
    }
}

proof fn lemma_first_collision_bound(names: Seq<Seq<char>>)
    ensures
        0 <= first_collision(names) <= names.len(),
    decreases names.len(),
{
    if names.len() > 0 {
        lemma_first_collision_bound(names.drop_last());
    }
}

/// No two paths of an accepted flat extraction have the same file name, in
/// any case: none overwrites another.
pub proof fn law_flat_names_differ(
    paths: Seq<Seq<char>>,
    names: Seq<Seq<char>>,
    i: int,
    j: int,
)
    requires
        flat_status(paths, names) is Ok,
        names.len() == paths.len(),
        0 <= i < j < names.len(),
    ensures
        flat_key(names[i]) != flat_key(names[j]),
{
    lemma_first_collision_bound(names);
    lemma_no_collision(names, i, j);
}

/// A path is selected exactly where it is cataloged and some matcher accepts
/// it.
pub proof fn law_selected(matchers: Seq<PathMatcher>, paths: Seq<Seq<char>>, path: Seq<char>)
    ensures
        selected(matchers, paths).contains(path) == (paths.contains(path)
            && matcher::some_accepts(matchers, path)),
    decreases paths.len(),
{
    if paths.len() > 0 {
        let init = paths.drop_last();
        law_selected(matchers, init, path);
        assert(paths =~= init.push(paths.last()));
        let before = selected(matchers, init);
        let all = selected(matchers, paths);
        if paths.contains(path) {
            let i = choose|i: int| 0 <= i < paths.len() && paths[i] == path;
            if i < init.len() {
                assert(init[i] == path);
            }
        }
        if init.contains(path) {
            let i = choose|i: int| 0 <= i < init.len() && init[i] == path;
            assert(paths[i] == path);
        }
        if before.contains(path) {
            let i = choose|i: int| 0 <= i < before.len() && before[i] == path;
            assert(all[i] == path);
        }
        if all.contains(path) {
            let i = choose|i: int| 0 <= i < all.len() && all[i] == path;
            if i < before.len() {
                assert(before[i] == path);
            }
        }
        if matcher::some_accepts(matchers, paths.last()) {
            assert(all[before.len() as int] == paths.last());
        }
        assert(paths[paths.len() - 1] == paths.last());
    }
}

/// What is selected is the catalog with every path left out that no matcher
/// accepts.
pub proof fn law_selected_in_order(matchers: Seq<PathMatcher>, paths: Seq<Seq<char>>)
    ensures
        selected(matchers, paths) == paths.filter(
            |p: Seq<char>|
                exists|i: int|
                    0 <= i < matchers.len() && matcher::accepts((#[trigger] matchers[i])@, p),
        ),
    decreases paths.len(),
{
    reveal(Seq::filter);
    let keep = |p: Seq<char>|
        exists|i: int|
            0 <= i < matchers.len() && matcher::accepts((#[trigger] matchers[i])@, p);
    if paths.len() > 0 {
        law_selected_in_order(matchers, paths.drop_last());
        assert(keep(paths.last()) == matcher::some_accepts(matchers, paths.last()));
    }
    assert(selected(matchers, paths) =~= paths.filter(keep));
}

/// The first path whose file name has the key of an earlier one is refused,
/// together with that earlier path; where no two keys are the same, none is.
pub proof fn law_first_collision(
    paths: Seq<Seq<char>>,
    names: Seq<Seq<char>>,
    i: int,
    j: int,
)
    requires
        names.len() == paths.len(),
        0 <= i < j <= names.len(),
        forall|a: int, b: int|
            0 <= a < b < j ==> flat_key(#[trigger] names[a]) != flat_key(#[trigger] names[b]),
        j < names.len() ==> flat_key(names[i]) == flat_key(names[j]),
    ensures
        flat_status(paths, names) == (if j < names.len() {
            Err::<(), ExtractErrorView>(
                ExtractErrorView::Collision { first: paths[i], second: paths[j], name: names[j] },
            )
        } else {
            Ok(())
        }),
{
    lemma_apart(names.subrange(0, j));
    if j < names.len() {
        let before = names.subrange(0, j);
        let key = flat_key(names[j]);
        assert(before[i] == names[i]);
        lemma_last_with_key(before, key, i);
        lemma_last_with_key_is(before, key);
        let k = last_with_key(before, key);
        assert(before[k] == names[k]);
        assert(k == i) by {
            if k != i {
                assert(flat_key(names[i]) != flat_key(names[k]));
            }
        }
        lemma_first_collision(names, j);
    } else {
        assert(names.subrange(0, j) =~= names);
    }
}

proof fn lemma_last_with_key_is(names: Seq<Seq<char>>, key: Seq<char>)
    ensures
        -1 <= last_with_key(names, key) < names.len(),
        last_with_key(names, key) >= 0 ==> flat_key(names[last_with_key(names, key)]) == key,
    decreases names.len(),
{
    if names.len() > 0 {
        lemma_last_with_key_is(names.drop_last(), key);
    }
}

proof fn lemma_apart(names: Seq<Seq<char>>)
    requires
        forall|a: int, b: int|
            0 <= a < b < names.len() ==> flat_key(#[trigger] names[a]) != flat_key(
                #[trigger] names[b],
            ),
    ensures
        first_collision(names) == names.len(),
    decreases names.len(),
{
    if names.len() > 0 {
        let init = names.drop_last();
        assert forall|a: int, b: int| 0 <= a < b < init.len() implies flat_key(
            #[trigger] init[a],
        ) != flat_key(#[trigger] init[b]) by {
            assert(init[a] == names[a] && init[b] == names[b]);
        }
        lemma_apart(init);
        let key = flat_key(names.last());
        lemma_last_with_key_is(init, key);
        let k = last_with_key(init, key);
        if k >= 0 {
            assert(init[k] == names[k]);
            assert(names.last() == names[names.len() - 1]);
        }
    }
}

/// An extraction writes what is selected; it is refused where nothing is, and
/// into a flat directory where two of the file names collide.
pub proof fn law_extraction(
    matchers: Seq<PathMatcher>,
    patterns: Seq<Seq<char>>,
    paths: Seq<Seq<char>>,
    flat: bool,
    names: Seq<Seq<char>>,
)
    requires
        names.len() == selected(matchers, paths).len(),
    ensures
        extraction(matchers, patterns, paths, flat, names) matches Ok(chosen) ==> chosen
            == selected(matchers, paths) && chosen.len() > 0,
        (forall|p: Seq<char>| #[trigger]
            paths.contains(p) ==> !matcher::some_accepts(matchers, p)) ==> extraction(
            matchers,
            patterns,
            paths,
            flat,
            names,
        ) == Err::<Seq<Seq<char>>, ExtractErrorView>(ExtractErrorView::NoMatch { patterns }),
        (exists|p: Seq<char>| #[trigger]
            paths.contains(p) && matcher::some_accepts(matchers, p)) && (!flat || (forall|
            a: int,
            b: int,
        |
            0 <= a < b < names.len() ==> flat_key(#[trigger] names[a]) != flat_key(
                #[trigger] names[b],
            ))) ==> extraction(matchers, patterns, paths, flat, names) is Ok,
{
    let chosen = selected(matchers, paths);
    if chosen.len() > 0 {
        law_selected(matchers, paths, chosen[0]);
        assert(chosen.contains(chosen[0]));
    }
    if exists|p: Seq<char>| #[trigger]
        paths.contains(p) && matcher::some_accepts(matchers, p) {
        let p = choose|p: Seq<char>| #[trigger]
            paths.contains(p) && matcher::some_accepts(matchers, p);
        law_selected(matchers, paths, p);
        assert(chosen.contains(p));
    }
    if forall|a: int, b: int|
        0 <= a < b < names.len() ==> flat_key(#[trigger] names[a]) != flat_key(
            #[trigger] names[b],
        ) {
        lemma_apart(names);
    }
}

/// A path of plain segments is written under all of them, or under its file
/// name alone into a flat directory.
pub proof fn law_destination(segments: Seq<Seq<char>>)
    requires
        segments.len() > 0,
        forall|i: int|
            0 <= i < segments.len() ==> sanitize::names_something(#[trigger] segments[i]),
    ensures
        ({
            let path = compose::joined(segments, seq!['/']);
            let name = sanitize::base_name(path);
            &&& destination_of(path, false, name) == Some(segments)
            &&& destination_of(path, true, name) == Some(seq![segments.last()])
        }),
{
    sanitize::law_plain_path_is_unchanged(segments);
    sanitize::law_file_name(segments);
    assert(sanitize::names_something(segments[segments.len() - 1]));
    sanitize::lemma_all_kept(segments);
}

/// Only a file that is not installed is skipped; what was read is written,
/// and any other error stops the extraction.
pub proof fn law_after_read(bytes: Seq<u8>, path: Seq<char>, e: ErrorView)
    ensures
        read_verdict(Ok(bytes)) == Ok::<Option<Seq<u8>>, ErrorView>(Some(bytes)),
        read_verdict(Err(ErrorView::NotInstalled(path))) == Ok::<Option<Seq<u8>>, ErrorView>(None),
        !(e is NotInstalled) ==> read_verdict(Err(e)) == Err::<Option<Seq<u8>>, ErrorView>(e),
{
}

/// File names count as the same exactly where their lowercase forms are.
pub proof fn law_names_ignore_case(a: Seq<char>, b: Seq<char>)
    ensures
        flat_key(a) == flat_key(b) <==> text::lowercase(a) == text::lowercase(b),
{
}

} // verus!
