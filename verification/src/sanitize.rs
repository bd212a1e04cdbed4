//! Path sanitization for extraction: turns a catalog path (forward-slash
//! separated, e.g. `SD/tileset/jungle.wpe`) into the segments of a relative
//! path, refusing anything that could escape the output directory.

use vstd::prelude::*;
use vstd::string::*;

use crate::compose;
use crate::text;

verus! {

/// `path` with every backslash taken as a separator.
pub open spec fn slashed(path: Seq<char>) -> Seq<char> {
    Seq::new(
        path.len(),
        |i: int|
            if path[i] == '\\' {
                '/'
            } else {
                path[i]
            },
    )
}

/// The text holds the character `c`.
pub open spec fn holds(s: Seq<char>, c: char) -> bool {
    exists|i: int| 0 <= i < s.len() && #[trigger] s[i] == c
}

/// The segment adds nothing to a path.
pub open spec fn is_redundant(s: Seq<char>) -> bool {
    s.len() == 0 || s == seq!['.']
}

/// The segment could make a path escape the directory it is joined to: a
/// parent directory, or a colon, which spells a drive or an alternate data
/// stream on Windows.
pub open spec fn is_escaping(s: Seq<char>) -> bool {
    holds(s, ':') || s == seq!['.', '.']
}

/// The segments that are kept of a path, or `None` where one of them could
/// escape.
pub open spec fn kept(segments: Seq<Seq<char>>) -> Option<Seq<Seq<char>>>
    decreases segments.len(),
{
    if segments.len() == 0 {
        Some(seq![])
    } else {
        match kept(segments.drop_last()) {
            None => None,
            Some(v) => if is_redundant(segments.last()) {
                Some(v)
            } else if is_escaping(segments.last()) {
                None
            } else {
                Some(v.push(segments.last()))
            },
        }
    }
}

/// The segments of the relative path that a catalog path gives, or `None`
/// where it could escape or names nothing.
pub open spec fn sanitized(path: Seq<char>) -> Option<Seq<Seq<char>>> {
    match kept(text::fields(slashed(path), '/')) {
        None => None,
        Some(v) => if v.len() == 0 {
            None
        } else {
            Some(v)
        },
    }
}

/// The final component of a path, redundant segments aside: `None` where
/// there is none, or where it is a parent directory.
pub open spec fn final_component(segments: Seq<Seq<char>>) -> Option<Seq<char>>
    decreases segments.len(),
{
    if segments.len() == 0 {
        None
    } else if is_redundant(segments.last()) {
        final_component(segments.drop_last())
    } else if segments.last() == seq!['.', '.'] {
        None
    } else {
        Some(segments.last())
    }
}

/// The file name of a path whose only separator is the slash.
pub open spec fn base_name(path: Seq<char>) -> Option<Seq<char>> {
    final_component(text::fields(path, '/'))
}

/// A path that means the same on every platform: a backslash separates on
/// some and is part of a name on others, and a colon or two slashes at the
/// start can spell a drive or a server.
pub open spec fn is_plain(path: Seq<char>) -> bool {
    &&& !holds(path, '\\')
    &&& !holds(path, ':')
    &&& !(path.len() >= 2 && path[0] == '/' && path[1] == '/')
}

/// `name` is what the file name of `path` can be, on some platform.
pub open spec fn may_be_named(path: Seq<char>, name: Option<Seq<char>>) -> bool {
    is_plain(path) ==> name == base_name(path)
}

/// A name that may be absent, by its view.
pub open spec fn name_view(name: Option<String>) -> Option<Seq<char>> {
    match name {
        Some(s) => Some(s@),
        None => None,
    }
}

fn slashed_chars(path: &str) -> (v: Vec<char>)
    ensures
        v@ == slashed(path@),
{
    let chars = text::chars_of(path);
    let ghost all = slashed(path@);
    let mut v: Vec<char> = Vec::new();
    let mut i: usize = 0;
    assert(v@ =~= all.subrange(0, 0));
    while i < chars.len()
        invariant
            0 <= i <= chars@.len(),
            chars@ == path@,
            all == slashed(path@),
            v@ == all.subrange(0, i as int),
        decreases chars@.len() - i,
    {
        let ghost before = v@;
        let c = chars[i];
        v.push(
            if c == '\\' {
                '/'
            } else {
                c
            },
        );
        assert(v@ =~= before.push(all[i as int]));
        i += 1;
        assert(v@ =~= all.subrange(0, i as int));
    }
    assert(all.subrange(0, i as int) =~= all);
    v
}

fn redundant(s: &[char]) -> (b: bool)
    ensures
        b == is_redundant(s@),
{
    if s.len() == 0 {
        return true;
    }
    let b = s.len() == 1 && s[0] == '.';
    assert(b ==> s@ =~= seq!['.']);
    b
}

fn parent(s: &[char]) -> (b: bool)
    ensures
        b == (s@ == seq!['.', '.']),
{
    let b = s.len() == 2 && s[0] == '.' && s[1] == '.';
    assert(b ==> s@ =~= seq!['.', '.']);
    b
}

fn escaping(s: &[char]) -> (b: bool)
    ensures
        b == is_escaping(s@),
{
    let i: usize = text::find_char(s, ':');
    proof {
        text::lemma_first_index(s@, ':');
    }
    if i < s.len() {
        assert(s@[i as int] == ':');
        return true;
    }
    parent(s)
}

proof fn lemma_kept_fail(segments: Seq<Seq<char>>, i: int)
    requires
        0 <= i <= segments.len(),
        kept(segments.subrange(0, i)) is None,
    ensures
        kept(segments) is None,
    decreases segments.len() - i,
{
    if i < segments.len() {
        assert(segments.subrange(0, i + 1).drop_last() =~= segments.subrange(0, i));
        lemma_kept_fail(segments, i + 1);
    } else {
        assert(segments.subrange(0, i) =~= segments);
    }
}

/// Converts a catalog path into the segments of a safe relative path (no
/// leading root, no `..` components), or `None` if the path contains anything
/// that could make it escape the directory it's joined against.
///
/// Catalog paths use `/` separators, but a stray `\` is treated as a
/// separator too rather than passed through as a literal character, since a
/// literal backslash in a real SC:R asset path is not a thing we expect and
/// treating it as one would be the more dangerous assumption.
pub fn sanitize_relative_path(path: &str) -> (r: Option<Vec<String>>)
    ensures
        match r {
            Some(v) => sanitized(path@) == Some(text::texts(v@)),
            None => sanitized(path@) is None,
        },
{
    let chars = slashed_chars(path);
    let segments = text::split_fields(chars.as_slice(), '/');
    let ghost all = text::views(segments@);
    let mut out: Vec<String> = Vec::new();
    let mut i: usize = 0;
    assert(all.subrange(0, 0) =~= seq![]);
    assert(text::texts(out@) =~= seq![]);
    while i < segments.len()
        invariant
            0 <= i <= segments@.len(),
            all == text::views(segments@),
            all == text::fields(slashed(path@), '/'),
            kept(all.subrange(0, i as int)) == Some(text::texts(out@)),
        decreases segments@.len() - i,
    {
        let segment = segments[i];
        let ghost before = text::texts(out@);
        proof {
            assert(all.subrange(0, i + 1).drop_last() =~= all.subrange(0, i as int));
            assert(all.subrange(0, i + 1).last() == segment@);
        }
        if !redundant(segment) {
            if escaping(segment) {
                proof {
                    lemma_kept_fail(all, i + 1);
                }
                return None;
            }
            out.push(text::string_of(segment));
            assert(text::texts(out@) =~= before.push(segment@));
        }
        i += 1;
    }
    assert(all.subrange(0, i as int) =~= all);
    assert(text::texts(out@).len() == out@.len());
    if out.len() == 0 {
        None
    } else {
        Some(out)
    }
}

/// `std::path::Path::file_name` gives the final component of a path by the
/// platform's rules, or `None` where the path ends in `..` or has no such
/// component. Of a plain path, which only slashes separate, that is the same
/// on every platform; of any other path nothing is said.
#[verifier::external_body]
pub(crate) fn file_name(path: &str) -> (r: Option<String>)
    ensures
        may_be_named(path@, name_view(r)),
{
    std::path::Path::new(path).file_name().and_then(|n| n.to_str()).map(|n| n.to_owned())
}

// ---------------------------------------------------------------------
// Laws

/// A segment that names something in the directory that it is joined to.
pub open spec fn is_inside(s: Seq<char>) -> bool {
    &&& s.len() > 0
    &&& s != seq!['.']
    &&& s != seq!['.', '.']
    &&& !holds(s, '/')
    &&& !holds(s, '\\')
    &&& !holds(s, ':')
}

proof fn lemma_fields_chars(s: Seq<char>)
    requires
        !holds(s, '\\'),
    ensures
        forall|i: int|
            0 <= i < text::fields(s, '/').len() ==> !holds(#[trigger] text::fields(s, '/')[i], '/')
                && !holds(text::fields(s, '/')[i], '\\'),
    decreases s.len(),
{
    text::lemma_first_index(s, '/');
    let n = text::first_index(s, '/');
    let head = s.subrange(0, n);
    assert(!holds(head, '/') && !holds(head, '\\')) by {
        if holds(head, '\\') {
            let i = choose|i: int| 0 <= i < head.len() && #[trigger] head[i] == '\\';
            assert(s[i] == '\\');
        }
    }
    if n < s.len() {
        let rest = s.subrange(n + 1, s.len() as int);
        assert(!holds(rest, '\\')) by {
            if holds(rest, '\\') {
                let i = choose|i: int| 0 <= i < rest.len() && #[trigger] rest[i] == '\\';
                assert(s[n + 1 + i] == '\\');
            }
        }
        lemma_fields_chars(rest);
        let all = text::fields(s, '/');
        assert forall|i: int| 0 <= i < all.len() implies !holds(#[trigger] all[i], '/') && !holds(
            all[i],
            '\\',
        ) by {
            if i > 0 {
                assert(all[i] == text::fields(rest, '/')[i - 1]);
            } else {
                assert(all[0] =~= head);
            }
        }
    } else {
        assert(text::fields(s, '/')[0] =~= head);
    }
}

proof fn lemma_kept_inside(segments: Seq<Seq<char>>)
    requires
        forall|i: int|
            0 <= i < segments.len() ==> !holds(#[trigger] segments[i], '/') && !holds(
                segments[i],
                '\\',
            ),
    ensures
        kept(segments) matches Some(v) ==> forall|i: int|
            0 <= i < v.len() ==> is_inside(#[trigger] v[i]),
    decreases segments.len(),
{
    if segments.len() > 0 {
        let init = segments.drop_last();
        assert forall|i: int| 0 <= i < init.len() implies !holds(#[trigger] init[i], '/') && !holds(
            init[i],
            '\\',
        ) by {
            assert(init[i] == segments[i]);
        }
        lemma_kept_inside(init);
        assert(segments.last() == segments[segments.len() - 1]);
    }
}

/// Whatever the catalog path is, the sanitized path stays inside the
/// directory it is joined to: it names something, and none of its segments is
/// a parent directory or holds a separator or a drive.
pub proof fn law_sanitized_stays_inside(path: Seq<char>)
    ensures
        sanitized(path) matches Some(v) ==> v.len() > 0 && forall|i: int|
            0 <= i < v.len() ==> is_inside(#[trigger] v[i]),
{
    let s = slashed(path);
    assert(!holds(s, '\\'));
    lemma_fields_chars(s);
    lemma_kept_inside(text::fields(s, '/'));
}

proof fn lemma_kept_parent(segments: Seq<Seq<char>>, i: int)
    requires
        0 <= i < segments.len(),
        segments[i] == seq!['.', '.'],
    ensures
        kept(segments) is None,
    decreases segments.len(),
{
    if i < segments.len() - 1 {
        lemma_kept_parent(segments.drop_last(), i);
    } else {
        assert(segments.last()[1] == '.');
        assert(segments.last().len() == 2);
        assert(seq!['.'].len() == 1);
    }
}

/// A path with a parent-directory segment anywhere in it is rejected.
pub proof fn law_parent_is_rejected(path: Seq<char>, i: int)
    requires
        0 <= i < text::fields(slashed(path), '/').len(),
        text::fields(slashed(path), '/')[i] == seq!['.', '.'],
    ensures
        sanitized(path) is None,
{
    lemma_kept_parent(text::fields(slashed(path), '/'), i);
}

/// Backslashes and slashes are the same separator.
pub proof fn law_separators_agree(path: Seq<char>)
    ensures
        sanitized(slashed(path)) == sanitized(path),
{
    assert(slashed(slashed(path)) =~= slashed(path));
}

/// Where a path is made of segments without separators, joined by slashes,
/// and none of them could escape, the sanitized path is those segments that
/// are neither empty nor a single dot, in their order; where one of them is a
/// parent directory or holds a colon, or where none is left, the path is
/// rejected.
pub proof fn law_segments_are_kept(segments: Seq<Seq<char>>)
    requires
        segments.len() > 0,
        forall|i: int|
            0 <= i < segments.len() ==> !(#[trigger] segments[i]).contains('/')
                && !segments[i].contains('\\'),
    ensures
        ({
            let path = compose::joined(segments, seq!['/']);
            let left = segments.filter(|s: Seq<char>| s.len() > 0 && s != seq!['.']);
            let escapes = exists|i: int|
                0 <= i < segments.len() && ((#[trigger] segments[i]).contains(':') || segments[i]
                    == seq!['.', '.']);
            sanitized(path) == (if escapes || left.len() == 0 {
                None
            } else {
                Some(left)
            })
        }),
{
    let path = compose::joined(segments, seq!['/']);
    assert forall|i: int| 0 <= i < segments.len() implies !holds(#[trigger] segments[i], '/') by {
        lemma_holds(segments[i], '/');
    }
    assert forall|i: int| 0 <= i < segments.len() implies !holds(#[trigger] segments[i], '\\') by {
        lemma_holds(segments[i], '\\');
    }
    lemma_joined_slashed(segments);
    assert(slashed(path) =~= path);
    compose::law_fields_joined(segments, '/');
    lemma_kept_filter(segments);
}

proof fn lemma_holds(s: Seq<char>, c: char)
    ensures
        holds(s, c) == s.contains(c),
{
    if holds(s, c) {
        let i = choose|i: int| 0 <= i < s.len() && #[trigger] s[i] == c;
        assert(s.contains(s[i]));
    }
    if s.contains(c) {
        let i = choose|i: int| 0 <= i < s.len() && s[i] == c;
        assert(s[i] == c);
    }
}

proof fn lemma_joined_slashed(segments: Seq<Seq<char>>)
    requires
        forall|i: int| 0 <= i < segments.len() ==> !holds(#[trigger] segments[i], '\\'),
    ensures
        !holds(compose::joined(segments, seq!['/']), '\\'),
    decreases segments.len(),
{
    let path = compose::joined(segments, seq!['/']);
    if holds(path, '\\') {
        let k = choose|k: int| 0 <= k < path.len() && #[trigger] path[k] == '\\';
        let n = segments.len() - 1;
        if segments.len() == 1 {
            assert(segments[0][k] == '\\');
        } else {
            let init = segments.drop_last();
            assert forall|i: int| 0 <= i < init.len() implies !holds(
                #[trigger] init[i],
                '\\',
            ) by {
                assert(init[i] == segments[i]);
            }
            lemma_joined_slashed(init);
            let a = compose::joined(init, seq!['/']);
            if k < a.len() {
                assert(a[k] == '\\');
            } else {
                assert(!holds(segments[n], '\\'));
                assert(k > a.len());
                assert(segments[n][k - a.len() - 1] == '\\');
            }
        }
    }
}

proof fn lemma_kept_filter(segments: Seq<Seq<char>>)
    ensures
        ({
            let left = segments.filter(|s: Seq<char>| s.len() > 0 && s != seq!['.']);
            let escapes = exists|i: int|
                0 <= i < segments.len() && ((#[trigger] segments[i]).contains(':') || segments[i]
                    == seq!['.', '.']);
            kept(segments) == (if escapes {
                None
            } else {
                Some(left)
            })
        }),
    decreases segments.len(),
{
    reveal(Seq::filter);
    let keep = |s: Seq<char>| s.len() > 0 && s != seq!['.'];
    let n = segments.len() - 1;
    if segments.len() > 0 {
        let init = segments.drop_last();
        let last = segments.last();
        lemma_kept_filter(init);
        lemma_holds(last, ':');
        assert(is_redundant(last) ==> !last.contains(':') && last != seq!['.', '.']) by {
            if is_redundant(last) {
                assert(seq!['.'].len() == 1);
                assert(seq!['.', '.'].len() == 2);
                if last.contains(':') {
                    let i = choose|i: int| 0 <= i < last.len() && last[i] == ':';
                    assert(last[0] == '.');
                }
            }
        }
        let bad = |s: Seq<char>| s.contains(':') || s == seq!['.', '.'];
        if exists|i: int| 0 <= i < init.len() && ((#[trigger] init[i]).contains(':') || init[i]
            == seq!['.', '.']) {
            let i = choose|i: int|
                0 <= i < init.len() && ((#[trigger] init[i]).contains(':') || init[i]
                    == seq!['.', '.']);
            assert(segments[i] == init[i]);
        } else {
            assert forall|i: int| 0 <= i < n implies !((#[trigger] segments[i]).contains(':')
                || segments[i] == seq!['.', '.']) by {
                assert(init[i] == segments[i]);
            }
            assert(segments[n] == last);
        }
    }
}

/// A path made of segments that each name something is written under exactly
/// those segments.
pub proof fn law_plain_path_is_unchanged(segments: Seq<Seq<char>>)
    requires
        segments.len() > 0,
        forall|i: int| 0 <= i < segments.len() ==> names_something(#[trigger] segments[i]),
    ensures
        sanitized(compose::joined(segments, seq!['/'])) == Some(segments),
{
    law_segments_are_kept(segments);
    let keep = |s: Seq<char>| s.len() > 0 && s != seq!['.'];
    lemma_filter_all(segments, keep);
}

/// Paths of segments that each name something are written to one file only
/// where they have the same segments.
pub proof fn law_paths_stay_apart(a: Seq<Seq<char>>, b: Seq<Seq<char>>)
    requires
        a.len() > 0,
        b.len() > 0,
        forall|i: int| 0 <= i < a.len() ==> names_something(#[trigger] a[i]),
        forall|i: int| 0 <= i < b.len() ==> names_something(#[trigger] b[i]),
        sanitized(compose::joined(a, seq!['/'])) == sanitized(compose::joined(b, seq!['/'])),
    ensures
        a == b,
{
    law_plain_path_is_unchanged(a);
    law_plain_path_is_unchanged(b);
}

/// A segment that names something: not empty, not the directory itself or its
/// parent, and without a separator or a colon.
pub open spec fn names_something(s: Seq<char>) -> bool {
    &&& s.len() > 0
    &&& s != seq!['.']
    &&& s != seq!['.', '.']
    &&& !s.contains('/')
    &&& !s.contains('\\')
    &&& !s.contains(':')
}

proof fn lemma_filter_all(s: Seq<Seq<char>>, keep: spec_fn(Seq<char>) -> bool)
    requires
        forall|i: int| 0 <= i < s.len() ==> keep(#[trigger] s[i]),
    ensures
        s.filter(keep) == s,
    decreases s.len(),
{
    reveal(Seq::filter);
    if s.len() > 0 {
        let init = s.drop_last();
        assert forall|i: int| 0 <= i < init.len() implies keep(#[trigger] init[i]) by {
            assert(init[i] == s[i]);
        }
        lemma_filter_all(init, keep);
        assert(keep(s[s.len() - 1]));
        assert(init.push(s.last()) =~= s);
    } else {
        assert(s.filter(keep) =~= s);
    }
}

pub proof fn lemma_all_kept(segments: Seq<Seq<char>>)
    requires
        forall|i: int| 0 <= i < segments.len() ==> names_something(#[trigger] segments[i]),
    ensures
        segments.filter(|s: Seq<char>| s.len() > 0 && s != seq!['.']) == segments,
{
    lemma_filter_all(segments, |s: Seq<char>| s.len() > 0 && s != seq!['.']);
}

/// The file name of a path is the last of its segments that is neither empty
/// nor a single dot; there is none where no such segment is left, or where it
/// is a parent directory.
pub proof fn law_file_name(segments: Seq<Seq<char>>)
    requires
        segments.len() > 0,
        forall|i: int| 0 <= i < segments.len() ==> !(#[trigger] segments[i]).contains('/'),
    ensures
        ({
            let left = segments.filter(|s: Seq<char>| s.len() > 0 && s != seq!['.']);
            base_name(compose::joined(segments, seq!['/'])) == (if left.len() == 0 || left.last()
                == seq!['.', '.'] {
                None
            } else {
                Some(left.last())
            })
        }),
{
    assert forall|i: int| 0 <= i < segments.len() implies !holds(#[trigger] segments[i], '/') by {
        lemma_holds(segments[i], '/');
    }
    compose::law_fields_joined(segments, '/');
    lemma_final_component(segments);
}

proof fn lemma_final_component(segments: Seq<Seq<char>>)
    ensures
        ({
            let left = segments.filter(|s: Seq<char>| s.len() > 0 && s != seq!['.']);
            final_component(segments) == (if left.len() == 0 || left.last() == seq!['.', '.'] {
                None
            } else {
                Some(left.last())
            })
        }),
    decreases segments.len(),
{
    reveal(Seq::filter);
    if segments.len() > 0 {
        lemma_final_component(segments.drop_last());
    }
}

/// Two paths that differ in nothing but the choice of slashes and backslashes
/// give the same segments.
pub proof fn law_either_separator(a: Seq<char>, b: Seq<char>)
    requires
        a.len() == b.len(),
        forall|i: int|
            0 <= i < a.len() ==> #[trigger] a[i] == b[i] || ((a[i] == '/' || a[i] == '\\') && (b[i]
                == '/' || b[i] == '\\')),
    ensures
        sanitized(a) == sanitized(b),
{
    assert forall|i: int| 0 <= i < a.len() implies slashed(a)[i] == slashed(b)[i] by {
        assert(a[i] == b[i] || ((a[i] == '/' || a[i] == '\\') && (b[i] == '/' || b[i] == '\\')));
    }
    assert(slashed(a) =~= slashed(b));
}

/// A path of segments that each name something, joined by slashes, means the
/// same on every platform.
pub proof fn law_plain_paths(segments: Seq<Seq<char>>)
    requires
        segments.len() > 0,
        forall|i: int| 0 <= i < segments.len() ==> names_something(#[trigger] segments[i]),
    ensures
        is_plain(compose::joined(segments, seq!['/'])),
{
    let path = compose::joined(segments, seq!['/']);
    lemma_joined_chars(segments);
    if holds(path, '\\') || holds(path, ':') {
        let i = choose|i: int| 0 <= i < path.len() && (path[i] == '\\' || path[i] == ':');
        assert(path[i] != '\\' && path[i] != ':');
    }
}

proof fn lemma_joined_chars(segments: Seq<Seq<char>>)
    requires
        segments.len() > 0,
        forall|i: int| 0 <= i < segments.len() ==> names_something(#[trigger] segments[i]),
    ensures
        ({
            let path = compose::joined(segments, seq!['/']);
            &&& forall|i: int|
                0 <= i < path.len() ==> #[trigger] path[i] != '\\' && path[i] != ':'
            &&& path.len() > 0
            &&& path[0] != '/'
        }),
    decreases segments.len(),
{
    let path = compose::joined(segments, seq!['/']);
    let n = segments.len() - 1;
    let last = segments[n];
    assert(names_something(last));
    assert forall|k: int| 0 <= k < last.len() implies #[trigger] last[k] != '\\' && last[k] != ':'
        && last[k] != '/' by {
        assert(last.contains(last[k]));
    }
    if segments.len() > 1 {
        let init = segments.drop_last();
        assert forall|i: int| 0 <= i < init.len() implies names_something(#[trigger] init[i]) by {
            assert(init[i] == segments[i]);
        }
        lemma_joined_chars(init);
        let head = compose::joined(init, seq!['/']);
        assert(path == head + seq!['/'] + last);
        assert forall|i: int| 0 <= i < path.len() implies #[trigger] path[i] != '\\' && path[i]
            != ':' by {
            if i < head.len() {
                assert(path[i] == head[i]);
            } else if i > head.len() {
                assert(path[i] == last[i - head.len() - 1]);
            }
        }
        assert(path[0] == head[0]);
    }
}

} // verus!
