//! Where a persistent cache of CDN resources keeps them.
//!
//! Only content-addressed resources are cached (URLs whose last segment is a
//! 32-digit hexadecimal hash, optionally with `.index`): those are immutable.
//! Discovery endpoints (`versions`, `cdns`) change over time and always pass
//! through. No other component of a URL reaches the path of a cache file:
//! hosts and CDN paths come from mutable discovery documents and are
//! untrusted.

use vstd::prelude::*;
use vstd::string::*;

use crate::error;
use crate::error::CascError;
use crate::error::ErrorView;
use crate::http;
use crate::text;

verus! {

/// What a cache entry holds: a whole resource or a part of one.
#[derive(Debug, Clone, Copy)]
pub enum CacheKind {
    Whole,
    Range { offset: u64, len: u64 },
}

/// One hexadecimal digit, in either case.
pub open spec fn is_hex_digit(c: char) -> bool {
    '0' <= c <= '9' || 'a' <= c <= 'f' || 'A' <= c <= 'F'
}

/// The last segment of a URL.
pub open spec fn last_segment(url: Seq<char>) -> Seq<char> {
    url.subrange(text::last_index(url, '/') + 1, url.len() as int)
}

/// The text ends with `tail`.
pub open spec fn has_tail(s: Seq<char>, tail: Seq<char>) -> bool {
    s.len() >= tail.len() && s.subrange(s.len() - tail.len(), s.len() as int) == tail
}

/// A content address: 32 hexadecimal digits.
pub open spec fn is_address(s: Seq<char>) -> bool {
    s.len() == 32 && forall|i: int| 0 <= i < s.len() ==> is_hex_digit(#[trigger] s[i])
}

/// The segments of the cache file, relative to the cache directory, of a
/// resource whose URL has the given last segment.
pub open spec fn segment_file(last: Seq<char>, kind: CacheKind) -> Option<Seq<Seq<char>>> {
    let index = has_tail(last, ".index"@);
    let stem = if index {
        last.subrange(0, last.len() - ".index"@.len())
    } else {
        last
    };
    let hash = text::ascii_lowered(stem);
    let placed = |dir: Seq<char>, name: Seq<char>| -> Option<Seq<Seq<char>>>
        { Some(seq![dir, hash.subrange(0, 2), hash.subrange(2, 4), name]) };
    if !is_address(stem) {
        None
    } else {
        match kind {
            CacheKind::Whole => if index {
                placed("indices"@, hash + ".index"@)
            } else {
                placed("content"@, hash)
            },
            CacheKind::Range { offset, len } => if index {
                None
            } else {
                placed(
                    "ranges"@,
                    hash + ".r"@ + text::dec(offset as nat) + "-"@ + text::dec(len as nat),
                )
            },
        }
    }
}

/// The segments of the cache file of `url`, relative to the cache directory,
/// or `None` where the resource is not cached.
pub open spec fn cache_file(url: Seq<char>, kind: CacheKind) -> Option<Seq<Seq<char>>> {
    segment_file(last_segment(url), kind)
}

/// A list of segments that may be absent, taken by its views.
pub open spec fn segments_view(r: Option<Vec<String>>) -> Option<Seq<Seq<char>>> {
    match r {
        Some(v) => Some(text::texts(v@)),
        None => None,
    }
}

/// A copy of an address in lowercase, or `None` where `stem` is no address.
fn address_chars(stem: &[char]) -> (r: Option<Vec<char>>)
    ensures
        match r {
            Some(v) => is_address(stem@) && v@ == text::ascii_lowered(stem@),
            None => !is_address(stem@),
        },
{
    if stem.len() != 32 {
        return None;
    }
    let ghost lowered = text::ascii_lowered(stem@);
    let mut out: Vec<char> = Vec::new();
    let mut i: usize = 0;
    assert(out@ =~= lowered.subrange(0, 0));
    while i < stem.len()
        invariant
            0 <= i <= stem@.len(),
            stem@.len() == 32,
            lowered == text::ascii_lowered(stem@),
            out@ == lowered.subrange(0, i as int),
            forall|j: int| 0 <= j < i ==> is_hex_digit(#[trigger] stem@[j]),
        decreases stem@.len() - i,
    {
        let c = stem[i];
        if !(('0' <= c && c <= '9') || ('a' <= c && c <= 'f') || ('A' <= c && c <= 'F')) {
            assert(!is_hex_digit(stem@[i as int]));
            return None;
        }
        let ghost before = out@;
        out.push(text::ascii_lower_char(c));
        assert(out@ =~= before.push(lowered[i as int]));
        i += 1;
        assert(out@ =~= lowered.subrange(0, i as int));
    }
    assert(lowered.subrange(0, i as int) =~= lowered);
    Some(out)
}

fn placed(dir: &str, hash: &[char], name: String) -> (v: Vec<String>)
    requires
        hash@.len() == 32,
    ensures
        text::texts(v@) == seq![dir@, hash@.subrange(0, 2), hash@.subrange(2, 4), name@],
{
    let mut v: Vec<String> = Vec::new();
    v.push(dir.to_owned());
    v.push(text::string_of(text::cut(hash, 0, 2)));
    v.push(text::string_of(text::cut(hash, 2, 4)));
    v.push(name);
    assert(text::texts(v@) =~= seq![dir@, hash@.subrange(0, 2), hash@.subrange(2, 4), name@]);
    v
}

/// The cache file for `url`, as segments relative to the cache directory, or
/// `None` if its final segment is not a validated content address.
pub fn cache_path(url: &str, kind: CacheKind) -> (r: Option<Vec<String>>)
    ensures
        segments_view(r) == cache_file(url@, kind),
{
    let chars = text::chars_of(url);
    let total: usize = chars.len();
    proof {
        text::lemma_last_index(url@, '/');
    }
    let from: usize = match text::rfind_char(chars.as_slice(), '/') {
        Some(i) => i + 1,
        None => 0,
    };
    let last = text::cut(chars.as_slice(), from, total);
    let suffix = text::chars_of(".index");
    proof {
        reveal_strlit(".index");
    }
    let index = last.len() >= suffix.len() && text::same_chars(
        text::cut(last, last.len() - suffix.len(), last.len()),
        suffix.as_slice(),
    );
    let stem = if index {
        text::cut(last, 0, last.len() - suffix.len())
    } else {
        last
    };
    let hash = match address_chars(stem) {
        Some(h) => h,
        None => {
            return None;
        },
    };
    let hash_text = text::string_of(hash.as_slice());
    match kind {
        CacheKind::Whole => if index {
            let name = text::cat2(hash_text.as_str(), ".index");
            Some(placed("indices", hash.as_slice(), name))
        } else {
            Some(placed("content", hash.as_slice(), hash_text))
        },
        CacheKind::Range { offset, len } => if index {
            None
        } else {
            let from_text = text::dec_text(offset);
            let len_text = text::dec_text(len);
            let mut name = text::cat4(hash_text.as_str(), ".r", from_text.as_str(), "-");
            name.append(len_text.as_str());
            Some(placed("ranges", hash.as_slice(), name))
        },
    }
}

/// Whether a cache file of the given size may be read for a request that
/// retains at most `max_bytes`. The size is checked before anything is
/// reserved for it.
pub fn admits(file_len: u64, max_bytes: usize) -> (b: bool)
    ensures
        b == (file_len <= max_bytes),
{
    file_len <= max_bytes as u64
}

/// A request to a transport behind a cache.
#[derive(Debug, Clone, Copy)]
pub enum Request {
    Whole { max_bytes: usize },
    Range { offset: u64, len: u64 },
}

/// What to do next for a request.
#[derive(Debug)]
pub enum Action {
    /// Ask the transport, and answer as it does.
    Pass,
    /// Read the cache file, of which at most `limit` bytes are wanted.
    Look { file: Vec<String>, limit: usize },
    /// Remove the cache file, and ask the transport.
    Fetch { file: Vec<String> },
    /// Write the cache file, and answer with its bytes.
    Publish { file: Vec<String>, bytes: Vec<u8> },
    /// Answer.
    Answer(Result<Vec<u8>, CascError>),
}

/// What an [`Action`] stands for.
pub enum ActionView {
    Pass,
    Look { file: Seq<Seq<char>>, limit: nat },
    Fetch { file: Seq<Seq<char>> },
    Publish { file: Seq<Seq<char>>, bytes: Seq<u8> },
    Answer(Result<Seq<u8>, ErrorView>),
}

impl View for Action {
    type V = ActionView;

    open spec fn view(&self) -> ActionView {
        match *self {
            Action::Pass => ActionView::Pass,
            Action::Look { file, limit } => ActionView::Look {
                file: text::texts(file@),
                limit: limit as nat,
            },
            Action::Fetch { file } => ActionView::Fetch { file: text::texts(file@) },
            Action::Publish { file, bytes } => ActionView::Publish {
                file: text::texts(file@),
                bytes: bytes@,
            },
            Action::Answer(r) => ActionView::Answer(error::outcome(r)),
        }
    }
}

/// What the cache keeps for a request.
pub open spec fn kind_of(request: Request) -> CacheKind {
    match request {
        Request::Whole { .. } => CacheKind::Whole,
        Request::Range { offset, len } => CacheKind::Range { offset, len },
    }
}

/// The first action for a request: one that is not cached passes through,
/// one that is cached looks for its file. A range that does not fit in
/// memory is refused.
pub open spec fn first_action(url: Seq<char>, request: Request) -> ActionView {
    match cache_file(url, kind_of(request)) {
        None => ActionView::Pass,
        Some(file) => match request {
            Request::Whole { max_bytes } => ActionView::Look { file, limit: max_bytes as nat },
            Request::Range { len, .. } => if len <= usize::MAX {
                ActionView::Look { file, limit: len as nat }
            } else {
                ActionView::Answer(
                    Err(error::limit_view("CDN range response"@, usize::MAX as nat)),
                )
            },
        },
    }
}

/// Decides the first action for a request.
pub fn start(url: &str, request: Request) -> (a: Action)
    ensures
        a@ == first_action(url@, request),
{
    let kind = match request {
        Request::Whole { .. } => CacheKind::Whole,
        Request::Range { offset, len } => CacheKind::Range { offset, len },
    };
    let file = match cache_path(url, kind) {
        Some(f) => f,
        None => {
            return Action::Pass;
        },
    };
    match request {
        Request::Whole { max_bytes } => Action::Look { file, limit: max_bytes },
        Request::Range { len, .. } => if len <= usize::MAX as u64 {
            Action::Look { file, limit: len as usize }
        } else {
            Action::Answer(Err(CascError::limit("CDN range response", usize::MAX)))
        },
    }
}

/// Bytes answer a request: a whole resource is within its limit, a part has
/// exactly its length.
pub open spec fn fits(request: Request, bytes: Seq<u8>) -> bool {
    match request {
        Request::Whole { max_bytes } => bytes.len() <= max_bytes,
        Request::Range { len, .. } => bytes.len() == len,
    }
}

fn fit(request: Request, bytes: &Vec<u8>) -> (b: bool)
    ensures
        b == fits(request, bytes@),
{
    match request {
        Request::Whole { max_bytes } => bytes.len() <= max_bytes,
        Request::Range { len, .. } => bytes.len() as u64 == len,
    }
}

/// The action after the cache was looked at: a file that answers the request
/// is a hit. Any other is removed, so that a truncated one is no permanent
/// hit, and the transport is asked.
pub open spec fn looked_action(
    request: Request,
    file: Seq<Seq<char>>,
    found: Option<Seq<u8>>,
) -> ActionView {
    match found {
        Some(bytes) if fits(request, bytes) => ActionView::Answer(Ok(bytes)),
        _ => ActionView::Fetch { file },
    }
}

/// Bytes that may be absent, taken by their view.
pub open spec fn found_view(found: Option<Vec<u8>>) -> Option<Seq<u8>> {
    match found {
        Some(v) => Some(v@),
        None => None,
    }
}

/// Decides the action after the cache was looked at. `found` holds what the
/// file held, or nothing where it could not be read.
pub fn looked(request: Request, file: Vec<String>, found: Option<Vec<u8>>) -> (a: Action)
    ensures
        a@ == looked_action(request, text::texts(file@), found_view(found)),
{
    match found {
        Some(bytes) => if fit(request, &bytes) {
            Action::Answer(Ok(bytes))
        } else {
            Action::Fetch { file }
        },
        None => Action::Fetch { file },
    }
}

/// What an answer of the transport is checked to be.
pub open spec fn checked(url: Seq<char>, request: Request, bytes: Seq<u8>) -> Result<
    Seq<u8>,
    ErrorView,
> {
    match request {
        Request::Whole { max_bytes } => http::whole_body(bytes, max_bytes as nat),
        Request::Range { len, .. } => http::range_body(url, "range transport"@, bytes, len as nat),
    }
}

/// The action after the transport answered: bytes that answer the request
/// are published, any other answer is an error and leaves the cache alone.
pub open spec fn fetched_action(
    url: Seq<char>,
    request: Request,
    file: Seq<Seq<char>>,
    reply: Result<Seq<u8>, ErrorView>,
) -> ActionView {
    match reply {
        Err(e) => ActionView::Answer(Err(e)),
        Ok(bytes) => match checked(url, request, bytes) {
            Ok(good) => ActionView::Publish { file, bytes: good },
            Err(e) => ActionView::Answer(Err(e)),
        },
    }
}

/// Decides the action after the transport answered.
pub fn fetched(
    url: &str,
    request: Request,
    file: Vec<String>,
    reply: Result<Vec<u8>, CascError>,
) -> (a: Action)
    ensures
        a@ == fetched_action(url@, request, text::texts(file@), error::outcome(reply)),
{
    let bytes = match reply {
        Ok(b) => b,
        Err(e) => {
            return Action::Answer(Err(e));
        },
    };
    let good = match request {
        Request::Whole { max_bytes } => http::check_whole_body(bytes, max_bytes),
        Request::Range { len, .. } => http::check_range_body(url, "range transport", bytes, len),
    };
    match good {
        Ok(bytes) => Action::Publish { file, bytes },
        Err(e) => Action::Answer(Err(e)),
    }
}

// ---------------------------------------------------------------------
// Laws

/// One segment of a path that stays inside the directory it is joined to.
pub open spec fn is_safe_segment(s: Seq<char>) -> bool {
    &&& s.len() > 0
    &&& s[0] != '.'
    &&& forall|i: int| 0 <= i < s.len() ==> s[i] != '/' && s[i] != '\\' && #[trigger] s[i] != ':'
}

proof fn lemma_dec_safe(n: nat)
    ensures
        text::dec(n).len() > 0,
        forall|i: int|
            0 <= i < text::dec(n).len() ==> '0' <= #[trigger] text::dec(n)[i] <= '9',
    decreases n,
{
    if n >= 10 {
        lemma_dec_safe(n / 10);
    }
}

/// Whatever the URL is, its cache file lies below the cache directory: no
/// segment is empty, is a parent directory, or holds a separator or a drive.
pub proof fn law_cache_file_is_safe(url: Seq<char>, kind: CacheKind)
    ensures
        cache_file(url, kind) matches Some(segments) ==> segments.len() == 4 && forall|i: int|
            0 <= i < 4 ==> is_safe_segment(#[trigger] segments[i]),
{
    reveal_strlit("indices");
    reveal_strlit("content");
    reveal_strlit("ranges");
    reveal_strlit(".index");
    reveal_strlit(".r");
    reveal_strlit("-");
    match kind {
        CacheKind::Range { offset, len } => {
            lemma_dec_safe(offset as nat);
            lemma_dec_safe(len as nat);
        },
        CacheKind::Whole => {},
    }
    if let Some(segments) = cache_file(url, kind) {
        assert forall|i: int| 0 <= i < 4 implies is_safe_segment(#[trigger] segments[i]) by {}
    }
}

/// Only the last segment of a URL decides where it is cached: the host and
/// the path before it do not matter.
pub proof fn law_cache_file_by_address(a: Seq<char>, b: Seq<char>, kind: CacheKind)
    requires
        last_segment(a) == last_segment(b),
    ensures
        cache_file(a, kind) == cache_file(b, kind),
{
}

/// The answer to a request whose cache file held `found`, and for which the
/// transport replies with `reply`.
pub open spec fn served(
    url: Seq<char>,
    request: Request,
    found: Option<Seq<u8>>,
    reply: Result<Seq<u8>, ErrorView>,
) -> Result<Seq<u8>, ErrorView> {
    match first_action(url, request) {
        ActionView::Look { file, .. } => match looked_action(request, file, found) {
            ActionView::Fetch { file } => match fetched_action(url, request, file, reply) {
                ActionView::Publish { bytes, .. } => Ok(bytes),
                ActionView::Answer(r) => r,
                _ => reply,
            },
            ActionView::Answer(r) => r,
            _ => reply,
        },
        ActionView::Answer(r) => r,
        _ => reply,
    }
}

/// A request that is cached is answered with bytes of the right size only,
/// wherever they come from; a cached file of the right size is answered
/// without the transport; and only bytes of the right size are ever
/// published.
pub proof fn law_served(
    url: Seq<char>,
    request: Request,
    found: Option<Seq<u8>>,
    reply: Result<Seq<u8>, ErrorView>,
    file: Seq<Seq<char>>,
)
    requires
        cache_file(url, kind_of(request)) is Some,
    ensures
        served(url, request, found, reply) matches Ok(bytes) ==> fits(request, bytes),
        first_action(url, request) is Look && (found matches Some(bytes) && fits(request, bytes))
            ==> served(url, request, found, reply) == Ok::<Seq<u8>, ErrorView>(found->0),
        fetched_action(url, request, file, reply) matches ActionView::Publish { bytes, .. }
            ==> fits(request, bytes) && reply == Ok::<Seq<u8>, ErrorView>(bytes),
{
}

/// A request that is not cached is answered as the transport replies.
pub proof fn law_passed(
    url: Seq<char>,
    request: Request,
    found: Option<Seq<u8>>,
    reply: Result<Seq<u8>, ErrorView>,
)
    requires
        cache_file(url, kind_of(request)) is None,
    ensures
        served(url, request, found, reply) == reply,
{
}

/// A resource with a content address behind the last slash of its URL is
/// cached under the address in lowercase, below its first two and its next
/// two digits: whole ones among the contents, or among the indices where
/// `.index` follows the address, and parts among the ranges, with the offset
/// and the length in their name. Parts of an index are not cached.
pub proof fn law_cache_layout(
    prefix: Seq<char>,
    address: Seq<char>,
    lower: Seq<char>,
    offset: u64,
    len: u64,
)
    requires
        address.len() == 32,
        lower.len() == 32,
        forall|i: int|
            0 <= i < 32 ==> ('0' <= #[trigger] lower[i] <= '9' || 'a' <= lower[i] <= 'f') && (
            address[i] == lower[i] || ('A' <= address[i] <= 'F' && lower[i] as int
                == address[i] as int + 32)),
    ensures
        ({
            let url = prefix + seq!['/'] + address;
            let index = url + ".index"@;
            let part = CacheKind::Range { offset, len };
            let a = seq![lower[0], lower[1]];
            let b = seq![lower[2], lower[3]];
            let bounds = ".r"@ + text::dec(offset as nat) + "-"@ + text::dec(len as nat);
            &&& cache_file(url, CacheKind::Whole) == Some(seq!["content"@, a, b, lower])
            &&& cache_file(index, CacheKind::Whole) == Some(
                seq!["indices"@, a, b, lower + ".index"@],
            )
            &&& cache_file(url, part) == Some(seq!["ranges"@, a, b, lower + bounds])
            &&& cache_file(index, part) is None
        }),
{
    reveal_strlit(".index");
    reveal_strlit(".r");
    reveal_strlit("-");
    let url = prefix + seq!['/'] + address;
    let index = url + ".index"@;
    assert(text::ascii_lowered(address) =~= lower) by {
        assert forall|i: int| 0 <= i < 32 implies text::ascii_lowered(address)[i] == lower[i] by {
            text::law_ascii_lower(address[i]);
            assert('0' <= lower[i] <= '9' || 'a' <= lower[i] <= 'f');
        }
    }
    assert(is_address(address)) by {
        assert forall|i: int| 0 <= i < 32 implies is_hex_digit(#[trigger] address[i]) by {
            assert('0' <= lower[i] <= '9' || 'a' <= lower[i] <= 'f');
        }
    }
    lemma_last_segment(prefix, address);
    lemma_last_segment(prefix, address + ".index"@);
    assert(index =~= prefix + seq!['/'] + (address + ".index"@));
    assert(!has_tail(address, ".index"@)) by {
        assert(is_hex_digit(address[26]));
        assert(address.subrange(26, 32)[0] == address[26]);
        assert(".index"@[0] == '.');
    }
    let last = address + ".index"@;
    assert(last.subrange(32, 38) =~= ".index"@);
    assert(last.subrange(0, 32) =~= address);
    assert(lower.subrange(0, 2) =~= seq![lower[0], lower[1]]);
    assert(lower.subrange(2, 4) =~= seq![lower[2], lower[3]]);
    assert(lower + ".r"@ + text::dec(offset as nat) + "-"@ + text::dec(len as nat) =~= lower + (
    ".r"@ + text::dec(offset as nat) + "-"@ + text::dec(len as nat)));
}

proof fn lemma_last_segment(prefix: Seq<char>, last: Seq<char>)
    requires
        forall|i: int| 0 <= i < last.len() ==> #[trigger] last[i] != '/',
    ensures
        last_segment(prefix + seq!['/'] + last) == last,
{
    let url = prefix + seq!['/'] + last;
    let n = prefix.len() as int;
    text::lemma_last_index(url, '/');
    assert(url[n] == '/');
    let k = text::last_index(url, '/');
    if k > n {
        assert(url[k] == last[k - n - 1]);
    }
    assert(url.subrange(n + 1, url.len() as int) =~= last);
}

/// Nothing is cached but what has 32 hexadecimal digits, with or without
/// `.index`, behind the last slash of its URL.
pub proof fn law_only_addresses_are_cached(
    prefix: Seq<char>,
    last: Seq<char>,
    kind: CacheKind,
    i: int,
)
    requires
        forall|i: int| 0 <= i < last.len() ==> #[trigger] last[i] != '/',
        ({
            ||| last.len() != 32 && last.len() != 38
            ||| last.len() == 38 && last.skip(32) != ".index"@
            ||| 0 <= i < 32 && !('0' <= last[i] <= '9') && !('a' <= last[i] <= 'f') && !('A'
                <= last[i] <= 'F')
        }),
    ensures
        cache_file(prefix + seq!['/'] + last, kind) is None,
{
    reveal_strlit(".index");
    lemma_last_segment(prefix, last);
    let index = has_tail(last, ".index"@);
    let stem = if index {
        last.subrange(0, last.len() - 6)
    } else {
        last
    };
    if is_address(stem) {
        if index {
            assert(last.skip(32) =~= last.subrange(32, 38));
        }
        if 0 <= i < 32 {
            assert(is_hex_digit(stem[i]));
            assert(stem[i] == last[i]);
        }
    }
}

/// Two parts of a resource are cached in one file only where they are the
/// same part.
pub proof fn law_parts_stay_apart(url: Seq<char>, a: u64, m: u64, b: u64, n: u64)
    requires
        cache_file(url, CacheKind::Range { offset: a, len: m }) is Some,
        cache_file(url, CacheKind::Range { offset: a, len: m }) == cache_file(
            url,
            CacheKind::Range { offset: b, len: n },
        ),
    ensures
        a == b && m == n,
{
    let last = last_segment(url);
    let x = cache_file(url, CacheKind::Range { offset: a, len: m })->0;
    let y = cache_file(url, CacheKind::Range { offset: b, len: n })->0;
    let hash = text::ascii_lowered(last);
    let head = hash + ".r"@;
    let k = head.len() as int;
    assert(x[3] =~= head + http::interval(a as nat, m as nat));
    assert(y[3] =~= head + http::interval(b as nat, n as nat));
    assert(http::interval(a as nat, m as nat) =~= x[3].skip(k));
    assert(http::interval(b as nat, n as nat) =~= y[3].skip(k));
    http::law_interval(a as nat, m as nat, b as nat, n as nat);
}

/// A whole resource is answered from a cache file of at most the accepted
/// size, and a part from one of exactly its length; otherwise the transport
/// is asked, and what it gives is published and answered where its size is
/// right, and refused where it is not.
pub proof fn law_cached_answers(
    url: Seq<char>,
    max_bytes: usize,
    offset: u64,
    len: u64,
    found: Seq<u8>,
    reply: Seq<u8>,
    file: Seq<Seq<char>>,
)
    requires
        len <= usize::MAX,
    ensures
        ({
            let whole = Request::Whole { max_bytes };
            cache_file(url, CacheKind::Whole) == Some(file) ==> {
                &&& first_action(url, whole) == (ActionView::Look { file, limit: max_bytes as nat })
                &&& found.len() <= max_bytes ==> looked_action(whole, file, Some(found))
                    == ActionView::Answer(Ok(found))
                &&& found.len() > max_bytes ==> looked_action(whole, file, Some(found))
                    == (ActionView::Fetch { file })
                &&& looked_action(whole, file, None) == (ActionView::Fetch { file })
                &&& reply.len() <= max_bytes ==> fetched_action(url, whole, file, Ok(reply)) == (
                ActionView::Publish { file, bytes: reply })
                &&& reply.len() > max_bytes ==> (fetched_action(url, whole, file, Ok(reply))
                    matches ActionView::Answer(r) && r is Err)
            }
        }),
        ({
            let part = Request::Range { offset, len };
            cache_file(url, CacheKind::Range { offset, len }) == Some(file) ==> {
                &&& first_action(url, part) == (ActionView::Look { file, limit: len as nat })
                &&& found.len() == len ==> looked_action(part, file, Some(found))
                    == ActionView::Answer(Ok(found))
                &&& found.len() != len ==> looked_action(part, file, Some(found)) == (
                ActionView::Fetch { file })
                &&& looked_action(part, file, None) == (ActionView::Fetch { file })
                &&& reply.len() == len ==> fetched_action(url, part, file, Ok(reply)) == (
                ActionView::Publish { file, bytes: reply })
                &&& reply.len() != len ==> (fetched_action(url, part, file, Ok(reply))
                    matches ActionView::Answer(r) && r is Err)
            }
        }),
{
}

/// An error of the transport is answered as it is, and nothing is published.
pub proof fn law_failed_fetch(
    url: Seq<char>,
    request: Request,
    file: Seq<Seq<char>>,
    e: ErrorView,
)
    ensures
        fetched_action(url, request, file, Err(e)) == ActionView::Answer(Err(e)),
{
}

} // verus!
