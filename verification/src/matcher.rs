//! Case-insensitive path matching for listing and extraction: a glob when the
//! pattern looks like one, a plain substring match otherwise (more ergonomic
//! for the common "just find files with 'tileset' in the name" case, which
//! would otherwise need `*tileset*`).

use globset::GlobBuilder;
use globset::GlobSet;
use vstd::prelude::*;
use vstd::string::*;

use crate::text;

verus! {

// ---------------------------------------------------------------------
// Globs

/// A compiled set of globs.
#[verifier::external_type_specification]
#[verifier::external_body]
pub struct ExGlobSet(globset::GlobSet);

/// The paths that a compiled set of globs accepts.
pub uninterp spec fn accepted(globs: GlobSet) -> Set<Seq<char>>;

/// What compiling a glob gives: the paths without a backslash that it
/// accepts in any case, or why it is not a glob.
pub uninterp spec fn glob_language(pattern: Seq<char>) -> Result<Set<Seq<char>>, Seq<char>>;

/// The text holds no backslash.
pub open spec fn without_backslash(s: Seq<char>) -> bool {
    forall|i: int| 0 <= i < s.len() ==> #[trigger] s[i] != '\\'
}

/// A glob that means the same on every platform: a backslash escapes on some
/// and separates on others, and how large a glob may grow depends on the
/// machine.
pub open spec fn is_portable(pattern: Seq<char>) -> bool {
    pattern.len() <= 1000 && without_backslash(pattern)
}

/// What a compilation gave, over the paths without a backslash.
pub open spec fn compiled_view(r: Result<GlobSet, String>) -> Result<Set<Seq<char>>, Seq<char>> {
    match r {
        Ok(globs) => Ok(
            Set::new(|p: Seq<char>| accepted(globs).contains(p) && without_backslash(p)),
        ),
        Err(reason) => Err(reason@),
    }
}

/// `globset::GlobBuilder` parses the pattern, case-insensitive and with `*`
/// and `?` matching a `/` too, and `globset::GlobSet::new` compiles it; the
/// error is taken by its text. Of a portable pattern the outcome depends on
/// the pattern alone. Nothing is said of what any other pattern gives.
#[verifier::external_body]
fn compile_glob(pattern: &str) -> (r: Result<GlobSet, String>)
    ensures
        is_portable(pattern@) ==> compiled_view(r) == glob_language(pattern@),
{
    let glob = GlobBuilder::new(pattern)
        .case_insensitive(true)
        .literal_separator(false)
        .build()
        .map_err(|e| e.to_string())?;
    GlobSet::new([glob]).map_err(|e| e.to_string())
}

/// `globset::GlobSet::is_match` tells whether the set accepts the path.
#[verifier::external_body]
fn globs_accept(globs: &GlobSet, path: &str) -> (b: bool)
    ensures
        b == accepted(*globs).contains(path@),
{
    globs.is_match(path)
}

// ---------------------------------------------------------------------
// Matchers

/// Matches catalog paths against one pattern.
pub enum PathMatcher {
    Substring(String),
    Glob(GlobSet),
}

/// What a matcher accepts: paths that hold a text once they are in
/// lowercase, or the members of a set.
pub enum MatcherView {
    Substring(Seq<char>),
    Glob(Set<Seq<char>>),
}

impl View for PathMatcher {
    type V = MatcherView;

    open spec fn view(&self) -> MatcherView {
        match *self {
            PathMatcher::Substring(s) => MatcherView::Substring(s@),
            PathMatcher::Glob(g) => MatcherView::Glob(accepted(g)),
        }
    }
}

/// The matcher accepts the path.
pub open spec fn accepts(m: MatcherView, path: Seq<char>) -> bool {
    match m {
        MatcherView::Substring(needle) => text::occurs(text::lowercase(path), needle),
        MatcherView::Glob(paths) => paths.contains(path),
    }
}

/// A pattern that is not a valid glob.
#[derive(Debug)]
pub struct PatternError {
    pub pattern: String,
    pub reason: String,
}

impl PatternError {
    /// The text that describes this error to a user.
    pub fn message(&self) -> (s: String)
        ensures
            s@ == "invalid glob pattern: "@ + text::quoted(self.pattern@) + ": "@ + self.reason@,
    {
        let q = text::quoted_text(self.pattern.as_str());
        text::cat4("invalid glob pattern: ", q.as_str(), ": ", self.reason.as_str())
    }
}

/// A character that marks a pattern as a glob rather than a plain substring.
pub open spec fn is_metachar(c: char) -> bool {
    c == '*' || c == '?' || c == '[' || c == ']' || c == '{' || c == '}'
}

/// The pattern holds a glob metacharacter.
pub open spec fn is_glob(pattern: Seq<char>) -> bool {
    exists|i: int| 0 <= i < pattern.len() && is_metachar(#[trigger] pattern[i])
}

/// Whether a pattern is a glob.
pub fn is_glob_pattern(pattern: &str) -> (b: bool)
    ensures
        b == is_glob(pattern@),
{
    let chars = text::chars_of(pattern);
    let mut i: usize = 0;
    while i < chars.len()
        invariant
            0 <= i <= chars@.len(),
            chars@ == pattern@,
            forall|j: int| 0 <= j < i ==> !is_metachar(#[trigger] pattern@[j]),
        decreases chars@.len() - i,
    {
        let c = chars[i];
        if c == '*' || c == '?' || c == '[' || c == ']' || c == '{' || c == '}' {
            assert(is_metachar(pattern@[i as int]));
            return true;
        }
        i += 1;
    }
    false
}

impl PathMatcher {
    /// Builds a matcher for `pattern`. Patterns containing glob
    /// metacharacters (`* ? [ ] { }`) are compiled as case-insensitive
    /// globs; anything else becomes a case-insensitive substring match.
    pub fn new(pattern: &str) -> (r: Result<PathMatcher, PatternError>)
        ensures
            !is_glob(pattern@) ==> (r matches Ok(m) && m@ == MatcherView::Substring(
                text::lowercase(pattern@),
            )),
            !is_glob(pattern@) && vstd::utf8::is_ascii_chars(pattern@) ==> (r matches Ok(m) && m@
                == MatcherView::Substring(text::ascii_lowered(pattern@))),
            is_glob(pattern@) ==> match r {
                Ok(m) => m@ is Glob,
                Err(e) => e.pattern@ == pattern@,
            },
            is_glob(pattern@) && is_portable(pattern@) ==> match r {
                Ok(m) => m matches PathMatcher::Glob(g) && compiled_view(Ok(g)) == glob_language(
                    pattern@,
                ),
                Err(e) => glob_language(pattern@) == Err::<Set<Seq<char>>, Seq<char>>(e.reason@),
            },
    {
        if is_glob_pattern(pattern) {
            match compile_glob(pattern) {
                Ok(g) => Ok(PathMatcher::Glob(g)),
                Err(reason) => Err(PatternError { pattern: pattern.to_owned(), reason }),
            }
        } else {
            Ok(PathMatcher::Substring(text::lowercase_text(pattern)))
        }
    }

    /// Whether the matcher accepts `path`.
    pub fn is_match(&self, path: &str) -> (b: bool)
        ensures
            b == accepts(self@, path@),
            vstd::utf8::is_ascii_chars(path@) ==> (self@ matches MatcherView::Substring(needle)
                ==> b == text::occurs(text::ascii_lowered(path@), needle)),
    {
        match self {
            PathMatcher::Substring(needle) => {
                let lowered = text::lowercase_text(path);
                let hay = text::chars_of(lowered.as_str());
                let wanted = text::chars_of(needle.as_str());
                text::contains_chars(hay.as_slice(), wanted.as_slice())
            },
            PathMatcher::Glob(globs) => globs_accept(globs, path),
        }
    }
}

/// Some of the matchers accepts the path.
pub open spec fn some_accepts(matchers: Seq<PathMatcher>, path: Seq<char>) -> bool {
    exists|i: int| 0 <= i < matchers.len() && accepts((#[trigger] matchers[i])@, path)
}

/// Whether `path` matches any of `matchers` (empty `matchers` matches
/// nothing).
pub fn any_match(matchers: &[PathMatcher], path: &str) -> (b: bool)
    ensures
        b == some_accepts(matchers@, path@),
{
    let mut i: usize = 0;
    while i < matchers.len()
        invariant
            0 <= i <= matchers@.len(),
            forall|j: int| 0 <= j < i ==> !accepts((#[trigger] matchers@[j])@, path@),
        decreases matchers@.len() - i,
    {
        if matchers[i].is_match(path) {
            assert(accepts(matchers@[i as int]@, path@));
            return true;
        }
        i += 1;
    }
    false
}

// ---------------------------------------------------------------------
// Laws

/// Whether a substring matcher accepts a path depends on the path's lowercase
/// form alone.
pub proof fn law_substring_ignores_case(needle: Seq<char>, a: Seq<char>, b: Seq<char>)
    requires
        text::lowercase(a) == text::lowercase(b),
    ensures
        accepts(MatcherView::Substring(needle), a) == accepts(MatcherView::Substring(needle), b),
{
}

/// No matcher, no match.
pub proof fn law_no_matchers(path: Seq<char>)
    ensures
        !some_accepts(seq![], path),
{
}

/// A pattern is a glob exactly where it holds an asterisk, a question mark, or
/// a bracket or brace of either side.
pub proof fn law_glob_patterns(pattern: Seq<char>)
    ensures
        is_glob(pattern) <==> pattern.contains('*') || pattern.contains('?') || pattern.contains(
            '[',
        ) || pattern.contains(']') || pattern.contains('{') || pattern.contains('}'),
{
    if is_glob(pattern) {
        let i = choose|i: int| 0 <= i < pattern.len() && is_metachar(#[trigger] pattern[i]);
        assert(pattern.contains(pattern[i]));
    }
    assert forall|c: char| is_metachar(c) && #[trigger] pattern.contains(c) implies is_glob(
        pattern,
    ) by {
        let i = choose|i: int| 0 <= i < pattern.len() && pattern[i] == c;
        assert(is_metachar(pattern[i]));
    }
}

/// A substring matcher accepts exactly the paths whose lowercase form is the
/// text with something before it and something behind it.
pub proof fn law_substring(needle: Seq<char>, path: Seq<char>)
    ensures
        accepts(MatcherView::Substring(needle), path) <==> exists|i: int|
            0 <= i <= text::lowercase(path).len() - needle.len() && text::lowercase(path)
                == text::lowercase(path).take(i) + needle + #[trigger] text::lowercase(path).skip(
                i + needle.len(),
            ),
{
    let low = text::lowercase(path);
    text::law_occurs(low, needle, seq![], seq![]);
    if exists|i: int|
        0 <= i <= low.len() - needle.len() && low == low.take(i) + needle + #[trigger] low.skip(
            i + needle.len(),
        ) {
        let i = choose|i: int|
            0 <= i <= low.len() - needle.len() && low == low.take(i) + needle
                + #[trigger] low.skip(i + needle.len());
        text::law_occurs(low, needle, low.take(i), low.skip(i + needle.len()));
    }
}

/// One matcher that accepts a path is enough, wherever it stands.
pub proof fn law_any_matcher(
    before: Seq<PathMatcher>,
    m: PathMatcher,
    after: Seq<PathMatcher>,
    path: Seq<char>,
)
    ensures
        some_accepts(before.push(m) + after, path) <==> some_accepts(before, path) || accepts(
            m@,
            path,
        ) || some_accepts(after, path),
{
    let all = before.push(m) + after;
    let n = before.len() as int;
    assert(all[n] == m);
    assert forall|i: int| 0 <= i < n implies #[trigger] before[i] == all[i] by {}
    assert forall|i: int| 0 <= i < after.len() implies #[trigger] after[i] == all[n + 1 + i] by {}
    if some_accepts(all, path) {
        let i = choose|i: int| 0 <= i < all.len() && accepts((#[trigger] all[i])@, path);
        if i < n {
            assert(accepts(before[i]@, path));
        } else if i > n {
            assert(accepts(after[i - n - 1]@, path));
        }
    }
    if some_accepts(before, path) {
        let i = choose|i: int| 0 <= i < n && accepts((#[trigger] before[i])@, path);
        assert(accepts(all[i]@, path));
    }
    if some_accepts(after, path) {
        let i = choose|i: int| 0 <= i < after.len() && accepts((#[trigger] after[i])@, path);
        assert(accepts(all[n + 1 + i]@, path));
    }
}

/// Every pattern of at most a thousand characters without a backslash means
/// the same on every platform.
pub proof fn law_portable_patterns(pattern: Seq<char>)
    ensures
        is_portable(pattern) <==> pattern.len() <= 1000 && !pattern.contains('\\'),
{
    if pattern.len() <= 1000 && !pattern.contains('\\') {
        assert forall|i: int| 0 <= i < pattern.len() implies #[trigger] pattern[i] != '\\' by {
            assert(pattern.contains(pattern[i]));
        }
    }
}

} // verus!
