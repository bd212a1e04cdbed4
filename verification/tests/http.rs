//! The HTTP side of a CDN transport.

use broodcasc::http::{
    body_error, check_range_body, check_range_head, check_whole_body, content_range_matches,
    plan_range, range_header, request_error, whole_read_limit,
};
use broodcasc::CascError;

const URL: &str = "http://127.0.0.1:1/archive";

fn reason_of(err: CascError) -> String {
    match err {
        CascError::Transport { url, reason } => {
            assert_eq!(url, URL);
            reason
        }
        other => panic!("expected a transport error, got {other:?}"),
    }
}

#[test]
fn range_end_overflow_is_rejected_before_request() {
    let err = plan_range("http://127.0.0.1:1/archive", u64::MAX, 2).unwrap_err();
    assert!(
        matches!(err, CascError::Transport { reason, .. } if reason.contains("range end overflows"))
    );
}

#[test]
fn range_limit_overflow_is_rejected_before_request() {
    let err = plan_range("http://127.0.0.1:1/archive", 0, u64::MAX).unwrap_err();
    assert!(
        matches!(err, CascError::Transport { reason, .. } if reason.contains("range response limit overflows"))
    );
}

#[test]
fn content_range_must_identify_the_requested_interval() {
    assert!(content_range_matches("bytes 10-19/100", 10, 19));
    assert!(content_range_matches("Bytes 10-19/*", 10, 19));
    assert!(!content_range_matches("bytes 0-9/100", 10, 19));
    assert!(!content_range_matches("bytes 10-19/19", 10, 19));
    assert!(!content_range_matches("garbage", 10, 19));
}

#[test]
fn content_range_details() {
    assert!(content_range_matches("BYTES 0-0/1", 0, 0));
    assert!(content_range_matches("bytes 10-19/20", 10, 19));
    assert!(content_range_matches("bytes 10-19/+20", 10, 19));
    assert!(!content_range_matches("items 10-19/100", 10, 19));
    assert!(!content_range_matches("bytes 10-19", 10, 19));
    assert!(!content_range_matches("bytes 10-19/", 10, 19));
    assert!(!content_range_matches("bytes 10-19/x", 10, 19));
    assert!(!content_range_matches("bytes  10-19/100", 10, 19));
    assert!(!content_range_matches("bytes 010-19/100", 10, 19));
    assert!(!content_range_matches("", 10, 19));
}

#[test]
fn ranges_are_planned_with_an_inclusive_end() {
    assert_eq!(plan_range(URL, 5, 0).unwrap(), None);
    assert_eq!(plan_range(URL, 5, 1).unwrap(), Some((5, 2)));
    assert_eq!(plan_range(URL, 77, 10).unwrap(), Some((86, 11)));
    assert_eq!(plan_range(URL, u64::MAX, 1).unwrap(), Some((u64::MAX, 2)));
    assert_eq!(range_header(77, 86), "bytes=77-86");
    assert_eq!(range_header(0, u64::MAX), "bytes=0-18446744073709551615");
}

#[test]
fn range_heads_are_checked() {
    let good = Some("bytes 4-6/100");
    assert!(check_range_head(URL, 206, "206 Partial Content", good, 4, 6).is_ok());
    assert_eq!(
        reason_of(check_range_head(URL, 200, "200 OK", good, 4, 6).unwrap_err()),
        "expected 206 Partial Content, got 200 OK"
    );
    for bad in [None, Some("bytes 0-2/100")] {
        assert_eq!(
            reason_of(check_range_head(URL, 206, "206 Partial Content", bad, 4, 6).unwrap_err()),
            "missing or inconsistent Content-Range header"
        );
    }
}

#[test]
fn bodies_are_checked_against_what_was_asked() {
    assert_eq!(
        check_range_body(URL, "range response", vec![7, 8, 9], 3).unwrap(),
        [7, 8, 9]
    );
    for (body, text) in [
        (vec![7, 8], "range response returned 2 bytes, wanted 3"),
        (vec![7, 8, 9, 10], "range response returned 4 bytes, wanted 3"),
    ] {
        assert_eq!(
            reason_of(check_range_body(URL, "range response", body, 3).unwrap_err()),
            text
        );
    }
    assert_eq!(check_whole_body(vec![1, 2], 2).unwrap(), [1, 2]);
    assert!(matches!(
        check_whole_body(vec![1, 2, 3], 2),
        Err(CascError::LimitExceeded {
            what: "CDN response body",
            limit: 2
        })
    ));
    assert_eq!(whole_read_limit(0), 1);
    assert_eq!(whole_read_limit(41), 42);
    assert_eq!(whole_read_limit(usize::MAX), u64::MAX);
}

#[test]
fn failed_requests_tell_a_missing_resource_from_other_failures() {
    assert!(matches!(
        request_error(URL, Some(404), "http status: 404"),
        CascError::NotFound(url) if url == URL
    ));
    assert_eq!(
        reason_of(request_error(URL, Some(503), "http status: 503")),
        "http status: 503"
    );
    assert_eq!(reason_of(request_error(URL, None, "timeout")), "timeout");
    assert_eq!(reason_of(body_error(URL, "reset")), "reading body: reset");
}
