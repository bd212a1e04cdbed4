//! The rules of CDN requests over HTTP: which range is asked for, and which
//! answers are accepted.
//!
//! A server that ignores a range request, or that answers another range, must
//! not be taken at its word: for a 1 GiB archive that has to be an error, not
//! a fallback.

use vstd::prelude::*;
use vstd::string::*;

use crate::error;
use crate::error::CascError;
use crate::error::ErrorView;
use crate::text;

verus! {

/// The transport error for a URL.
pub open spec fn transport_view(url: Seq<char>, reason: Seq<char>) -> ErrorView {
    ErrorView::Transport { url, reason }
}

fn transport_error(url: &str, reason: &str) -> (e: CascError)
    ensures
        e@ == transport_view(url@, reason@),
{
    CascError::Transport { url: url.to_owned(), reason: reason.to_owned() }
}

/// What a request for `len` bytes at `offset` asks of the server: nothing
/// where `len` is zero, else the last byte of the range and the number of
/// bytes at which reading the body stops. HTTP range ends are inclusive, and
/// one byte of slack tells an overrun from an exact answer.
pub open spec fn planned_range(url: Seq<char>, offset: nat, len: nat) -> Result<
    Option<(nat, nat)>,
    ErrorView,
> {
    if len == 0 {
        Ok(None)
    } else if offset + (len - 1) > u64::MAX {
        Err(transport_view(url, "range end overflows u64"@))
    } else if len + 1 > u64::MAX {
        Err(transport_view(url, "range response limit overflows u64"@))
    } else {
        Ok(Some(((offset + (len - 1)) as nat, len + 1)))
    }
}

/// Plans a range request.
pub fn plan_range(url: &str, offset: u64, len: u64) -> (r: Result<Option<(u64, u64)>, CascError>)
    ensures
        match r {
            Ok(None) => planned_range(url@, offset as nat, len as nat) == Ok::<
                Option<(nat, nat)>,
                ErrorView,
            >(None),
            Ok(Some((end, limit))) => planned_range(url@, offset as nat, len as nat) == Ok::<
                Option<(nat, nat)>,
                ErrorView,
            >(Some((end as nat, limit as nat))),
            Err(e) => planned_range(url@, offset as nat, len as nat) == Err::<
                Option<(nat, nat)>,
                ErrorView,
            >(e@),
        },
{
    if len == 0 {
        return Ok(None);
    }
    if len - 1 > u64::MAX - offset {
        return Err(transport_error(url, "range end overflows u64"));
    }
    if len == u64::MAX {
        return Err(transport_error(url, "range response limit overflows u64"));
    }
    Ok(Some((offset + (len - 1), len + 1)))
}

/// The bounds of a range, as requests and answers spell them.
pub open spec fn interval(offset: nat, end: nat) -> Seq<char> {
    text::dec(offset) + "-"@ + text::dec(end)
}

fn interval_text(offset: u64, end: u64) -> (s: String)
    ensures
        s@ == interval(offset as nat, end as nat),
{
    let from = text::dec_text(offset);
    let to = text::dec_text(end);
    text::cat3(from.as_str(), "-", to.as_str())
}

/// The value of the `Range` header of a request.
pub fn range_header(offset: u64, end: u64) -> (s: String)
    ensures
        s@ == "bytes="@ + interval(offset as nat, end as nat),
{
    let i = interval_text(offset, end);
    text::cat2("bytes=", i.as_str())
}

/// A `Content-Range` header identifies exactly the bytes from `offset` to
/// `end`: a unit of bytes in any case, the interval, and a total that is
/// unknown or beyond the interval.
pub open spec fn identifies(value: Seq<char>, offset: nat, end: nat) -> bool {
    let space = text::first_index(value, ' ');
    let rest = value.subrange(space + 1, value.len() as int);
    let slash = text::first_index(rest, '/');
    let total = rest.subrange(slash + 1, rest.len() as int);
    &&& space < value.len()
    &&& slash < rest.len()
    &&& text::ascii_lowered(value.subrange(0, space)) == "bytes"@
    &&& rest.subrange(0, slash) == interval(offset, end)
    &&& total == "*"@ || (text::number(total, u64::MAX as nat) matches Some(n) && end < n)
}

fn is_bytes_unit(unit: &[char]) -> (b: bool)
    ensures
        b == (text::ascii_lowered(unit@) == "bytes"@),
{
    let want = text::chars_of("bytes");
    let ghost lowered = text::ascii_lowered(unit@);
    if unit.len() != want.len() {
        assert(lowered.len() != want@.len());
        return false;
    }
    let mut i: usize = 0;
    while i < unit.len()
        invariant
            0 <= i <= unit@.len(),
            unit@.len() == want@.len(),
            want@ == "bytes"@,
            lowered == text::ascii_lowered(unit@),
            forall|j: int| 0 <= j < i ==> lowered[j] == want@[j],
        decreases unit@.len() - i,
    {
        let c = text::ascii_lower_char(unit[i]);
        assert(lowered[i as int] == c);
        if c != want[i] {
            return false;
        }
        i += 1;
    }
    assert(lowered =~= want@);
    true
}

/// Whether a `Content-Range` header identifies the requested interval.
pub fn content_range_matches(value: &str, offset: u64, end: u64) -> (b: bool)
    ensures
        b == identifies(value@, offset as nat, end as nat),
{
    let chars = text::chars_of(value);
    let space: usize = text::find_char(chars.as_slice(), ' ');
    proof {
        text::lemma_first_index(value@, ' ');
    }
    if space >= chars.len() {
        return false;
    }
    let rest = text::cut(chars.as_slice(), space + 1, chars.len());
    let slash: usize = text::find_char(rest, '/');
    proof {
        text::lemma_first_index(rest@, '/');
    }
    if slash >= rest.len() {
        return false;
    }
    if !is_bytes_unit(text::cut(chars.as_slice(), 0, space)) {
        return false;
    }
    let want = interval_text(offset, end);
    let want_chars = text::chars_of(want.as_str());
    if !text::same_chars(text::cut(rest, 0, slash), want_chars.as_slice()) {
        return false;
    }
    let total = text::cut(rest, slash + 1, rest.len());
    let star = text::chars_of("*");
    if text::same_chars(total, star.as_slice()) {
        return true;
    }
    match text::parse_number(total, u64::MAX) {
        Some(n) => end < n,
        None => false,
    }
}

/// What the head of an answer to a range request gives: `status` is the
/// status code, `shown` the status as it is shown to a user.
pub open spec fn range_head_status(
    url: Seq<char>,
    status: int,
    shown: Seq<char>,
    content_range: Option<Seq<char>>,
    offset: nat,
    end: nat,
) -> Result<(), ErrorView> {
    if status != 206 {
        Err(transport_view(url, "expected 206 Partial Content, got "@ + shown))
    } else if content_range matches Some(value) && identifies(value, offset, end) {
        Ok(())
    } else {
        Err(transport_view(url, "missing or inconsistent Content-Range header"@))
    }
}

/// A text that may be absent.
pub open spec fn str_view(v: Option<&str>) -> Option<Seq<char>> {
    match v {
        Some(s) => Some(s@),
        None => None,
    }
}

/// Checks the head of an answer to a range request.
pub fn check_range_head(
    url: &str,
    status: u16,
    shown: &str,
    content_range: Option<&str>,
    offset: u64,
    end: u64,
) -> (r: Result<(), CascError>)
    ensures
        error::status(r) == range_head_status(
            url@,
            status as int,
            shown@,
            str_view(content_range),
            offset as nat,
            end as nat,
        ),
{
    if status != 206 {
        let reason = text::cat2("expected 206 Partial Content, got ", shown);
        return Err(transport_error(url, reason.as_str()));
    }
    let valid = match content_range {
        Some(value) => content_range_matches(value, offset, end),
        None => false,
    };
    if !valid {
        return Err(transport_error(url, "missing or inconsistent Content-Range header"));
    }
    Ok(())
}

/// What the body of an answer to a range request gives: a body of any other
/// length than the range is refused. `who` names what gave the body.
pub open spec fn range_body(url: Seq<char>, who: Seq<char>, body: Seq<u8>, len: nat) -> Result<
    Seq<u8>,
    ErrorView,
> {
    if body.len() == len {
        Ok(body)
    } else {
        Err(
            transport_view(
                url,
                who + " returned "@ + text::dec(body.len()) + " bytes, wanted "@ + text::dec(len),
            ),
        )
    }
}

/// Checks the body of an answer to a range request.
pub fn check_range_body(url: &str, who: &str, body: Vec<u8>, len: u64) -> (r: Result<
    Vec<u8>,
    CascError,
>)
    ensures
        error::outcome(r) == range_body(url@, who@, body@, len as nat),
{
    if body.len() as u64 == len {
        Ok(body)
    } else {
        let got = text::dec_text(body.len() as u64);
        let want = text::dec_text(len);
        let mut reason = text::cat3(who, " returned ", got.as_str());
        reason.append(" bytes, wanted ");
        reason.append(want.as_str());
        Err(transport_error(url, reason.as_str()))
    }
}

/// What the body of an answer to a request for a whole resource gives.
pub open spec fn whole_body(body: Seq<u8>, max: nat) -> Result<Seq<u8>, ErrorView> {
    if body.len() <= max {
        Ok(body)
    } else {
        Err(error::limit_view("CDN response body"@, max))
    }
}

/// Checks the body of an answer to a request for a whole resource.
pub fn check_whole_body(body: Vec<u8>, max_bytes: usize) -> (r: Result<Vec<u8>, CascError>)
    ensures
        error::outcome(r) == whole_body(body@, max_bytes as nat),
{
    if body.len() <= max_bytes {
        Ok(body)
    } else {
        Err(CascError::limit("CDN response body", max_bytes))
    }
}

/// The number of bytes at which reading a whole body stops: one byte of
/// slack permits exactly `max_bytes`.
pub fn whole_read_limit(max_bytes: usize) -> (n: u64)
    ensures
        n == if max_bytes + 1 <= u64::MAX {
            max_bytes + 1
        } else {
            u64::MAX as int
        },
{
    if max_bytes as u64 == u64::MAX {
        u64::MAX
    } else {
        max_bytes as u64 + 1
    }
}

/// What a failed request gives: `status` is the status code, where the
/// server answered with one. A clean 404 says that the resource does not
/// exist.
pub open spec fn request_failure(
    url: Seq<char>,
    status: Option<u16>,
    reason: Seq<char>,
) -> ErrorView {
    if status == Some(404u16) {
        ErrorView::NotFound(url)
    } else {
        transport_view(url, reason)
    }
}

/// The error for a failed request.
pub fn request_error(url: &str, status: Option<u16>, reason: &str) -> (e: CascError)
    ensures
        e@ == request_failure(url@, status, reason@),
{
    match status {
        Some(404) => CascError::NotFound(url.to_owned()),
        _ => transport_error(url, reason),
    }
}

/// The error for a body that could not be read.
pub fn body_error(url: &str, reason: &str) -> (e: CascError)
    ensures
        e@ == transport_view(url@, "reading body: "@ + reason@),
{
    let s = text::cat2("reading body: ", reason);
    transport_error(url, s.as_str())
}

/// An accepted range answer holds exactly the bytes that were asked for, and
/// its head names exactly their interval.
pub proof fn law_range_answer(
    url: Seq<char>,
    status: int,
    shown: Seq<char>,
    content_range: Option<Seq<char>>,
    offset: nat,
    len: nat,
    who: Seq<char>,
    body: Seq<u8>,
)
    requires
        planned_range(url, offset, len) matches Ok(Some((end, _))) && range_head_status(
            url,
            status,
            shown,
            content_range,
            offset,
            end,
        ) is Ok,
        range_body(url, who, body, len) is Ok,
    ensures
        status == 206,
        content_range matches Some(v) && identifies(v, offset, (offset + len - 1) as nat),
        body.len() == len,
{
}

/// A request asks for the bytes from `offset` up to and with the last of
/// `len`, and reading stops one byte behind them; nothing is asked for where
/// no byte is wanted, and a range that ends beyond the last address is
/// refused.
pub proof fn law_range_request(url: Seq<char>, offset: nat, len: nat)
    ensures
        planned_range(url, offset, len) == Ok::<Option<(nat, nat)>, ErrorView>(None) <==> len == 0,
        planned_range(url, offset, len) matches Ok(Some((end, limit))) ==> end + 1 == offset + len
            && limit == len + 1,
        planned_range(url, offset, len) is Err <==> len > 0 && (offset + len
            > 0x1_0000_0000_0000_0000 || len >= 0xffff_ffff_ffff_ffff),
{
}

/// The bounds of a range are spelled as the two numbers with one hyphen
/// between them, and no two ranges are spelled alike.
pub proof fn law_interval(a: nat, b: nat, c: nat, d: nat)
    ensures
        interval(a, b) == text::dec(a) + seq!['-'] + text::dec(b),
        interval(a, b) == interval(c, d) ==> a == c && b == d,
{
    reveal_strlit("-");
    assert("-"@ =~= seq!['-']);
    let x = interval(a, b);
    let y = interval(c, d);
    text::law_digits_alone(a, c);
    text::law_digits_alone(c, a);
    text::law_digits_alone(b, d);
    let n = text::dec(a).len() as int;
    let m = text::dec(c).len() as int;
    if x == y {
        assert(x[n] == '-');
        assert(y[m] == '-');
        if n < m {
            assert(y[n] == text::dec(c)[n]);
        }
        if m < n {
            assert(x[m] == text::dec(a)[m]);
        }
        assert(text::dec(a) =~= x.take(n));
        assert(text::dec(c) =~= y.take(n));
        assert(text::dec(b) =~= x.skip(n + 1));
        assert(text::dec(d) =~= y.skip(n + 1));
    }
}

/// A unit of bytes in any case, a blank, the two bounds with a hyphen between
/// them, a slash, and a total beyond the last byte, or an asterisk for an
/// unknown one: that is how an answer names the bytes from `offset` to `end`.
pub proof fn law_content_range(unit: Seq<char>, offset: nat, end: nat, total: nat)
    requires
        text::ascii_lowered(unit) == seq!['b', 'y', 't', 'e', 's'],
    ensures
        ({
            let head = unit + seq![' '] + text::dec(offset) + seq!['-'] + text::dec(end)
                + seq!['/'];
            &&& identifies(head + seq!['*'], offset, end)
            &&& identifies(head + text::dec(total), offset, end) == (end < total <= u64::MAX)
        }),
{
    reveal_strlit("bytes");
    reveal_strlit("*");
    assert("bytes"@ =~= seq!['b', 'y', 't', 'e', 's']);
    assert("*"@ =~= seq!['*']);
    text::law_number_is_read_back(total, u64::MAX as nat);
    text::law_digits_alone(total, total);
    text::law_decimal(total);
    lemma_parts(unit, offset, end, seq!['*']);
    lemma_parts(unit, offset, end, text::dec(total));
    assert(text::dec(total) != seq!['*']) by {
        assert(text::dec(total)[0] != '*');
    }
}

proof fn lemma_parts(unit: Seq<char>, offset: nat, end: nat, total: Seq<char>)
    requires
        text::ascii_lowered(unit) == "bytes"@,
        "bytes"@ == seq!['b', 'y', 't', 'e', 's'],
    ensures
        ({
            let value = unit + seq![' '] + text::dec(offset) + seq!['-'] + text::dec(end)
                + seq!['/'] + total;
            identifies(value, offset, end) == (total == "*"@ || (text::number(
                total,
                u64::MAX as nat,
            ) matches Some(n) && end < n))
        }),
{
    let value = unit + seq![' '] + text::dec(offset) + seq!['-'] + text::dec(end) + seq!['/']
        + total;
    let i = interval(offset, end);
    law_interval(offset, end, offset, end);
    text::law_digits_alone(offset, offset);
    text::law_digits_alone(end, end);
    assert(text::ascii_lowered(unit).len() == unit.len());
    assert forall|j: int| 0 <= j < unit.len() implies value[j] != ' ' by {
        assert(value[j] == unit[j]);
        assert(text::ascii_lowered(unit)[j] == text::ascii_lower(unit[j]));
        assert("bytes"@[j] != ' ');
    }
    assert(value[unit.len() as int] == ' ');
    text::lemma_first_index_is(value, ' ', unit.len() as int);
    let rest = value.subrange(unit.len() as int + 1, value.len() as int);
    assert(rest =~= i + seq!['/'] + total);
    assert forall|j: int| 0 <= j < i.len() implies rest[j] != '/' by {
        assert(rest[j] == i[j]);
        let n = text::dec(offset).len() as int;
        if j < n {
            assert(i[j] == text::dec(offset)[j]);
        } else if j > n {
            assert(i[j] == text::dec(end)[j - n - 1]);
        }
    }
    assert(rest[i.len() as int] == '/');
    text::lemma_first_index_is(rest, '/', i.len() as int);
    assert(value.subrange(0, unit.len() as int) =~= unit);
    assert(rest.subrange(0, i.len() as int) =~= i);
    assert(rest.subrange(i.len() as int + 1, rest.len() as int) =~= total);
}

/// An answer names one interval only.
pub proof fn law_one_interval(value: Seq<char>, a: nat, b: nat, c: nat, d: nat)
    requires
        identifies(value, a, b),
        identifies(value, c, d),
    ensures
        a == c && b == d,
{
    law_interval(a, b, c, d);
}

/// The head of an answer is accepted exactly where the status is 206 and it
/// names the interval; its body exactly where it has the length that was
/// asked for, and then unchanged. A whole body is accepted exactly within its
/// limit, and then unchanged.
pub proof fn law_accepted_answers(
    url: Seq<char>,
    status: int,
    shown: Seq<char>,
    value: Seq<char>,
    offset: nat,
    end: nat,
    who: Seq<char>,
    body: Seq<u8>,
    n: nat,
)
    ensures
        range_head_status(url, status, shown, Some(value), offset, end) is Ok <==> status == 206
            && identifies(value, offset, end),
        range_head_status(url, status, shown, None, offset, end) is Err,
        range_body(url, who, body, n) is Ok <==> body.len() == n,
        range_body(url, who, body, n) matches Ok(b) ==> b == body,
        whole_body(body, n) is Ok <==> body.len() <= n,
        whole_body(body, n) matches Ok(b) ==> b == body,
        range_head_status(url, status, shown, Some(value), offset, end) matches Err(e) ==> e
            matches ErrorView::Transport { url: u, .. } && u == url,
        range_body(url, who, body, n) matches Err(e) ==> e matches ErrorView::Transport {
            url: u,
            ..
        } && u == url,
        whole_body(body, n) matches Err(e) ==> e matches ErrorView::LimitExceeded { limit, .. }
            && limit == n,
{
}

/// Only the status 404 says that a resource does not exist; any other failure
/// is one of the transport, with its reason.
pub proof fn law_not_found(url: Seq<char>, status: Option<u16>, reason: Seq<char>)
    ensures
        request_failure(url, Some(404u16), reason) == ErrorView::NotFound(url),
        status != Some(404u16) ==> request_failure(url, status, reason) == (ErrorView::Transport {
            url,
            reason,
        }),
{
}

} // verus!
