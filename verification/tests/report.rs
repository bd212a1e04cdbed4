//! Listings, summaries and pinned builds.

use broodcasc::report::{
    cdn_label, extracted_line, info_lines, list_line, local_label, pinned_keys, version_label,
    ShownSize,
};

#[test]
fn lines_of_a_listing() {
    assert_eq!(list_line("SD/a.txt", ShownSize::Hidden), "SD/a.txt");
    assert_eq!(list_line("SD/a.txt", ShownSize::Unknown), "SD/a.txt\t?");
    assert_eq!(list_line("SD/a.txt", ShownSize::Known(0)), "SD/a.txt\t0");
    assert_eq!(
        list_line("SD/a.txt", ShownSize::Known(u64::MAX)),
        "SD/a.txt\t18446744073709551615"
    );
}

#[test]
fn lines_of_a_summary() {
    assert_eq!(
        info_lines(&cdn_label("s1", "eu"), None, 12, None),
        ["source:  CDN (s1, region eu)", "files:   12"]
    );
    assert_eq!(
        info_lines(&local_label("/games/sc"), Some("1.23"), 12, Some((7, 12))),
        [
            "source:  local install at /games/sc",
            "version: 1.23",
            "files:   12",
            "installed: 7/12"
        ]
    );
    assert_eq!(extracted_line(3, 10), "extracted 3 file(s), skipped 10");
}

#[test]
fn live_version_name_comes_before_the_build_name() {
    assert_eq!(version_label(Some("live"), Some("build")), Some("live"));
    assert_eq!(version_label(None, Some("build")), Some("build"));
    assert_eq!(version_label(None, None), None);
}

#[test]
fn pinned_builds_name_both_configs() {
    let build = "864772b9ff94f6d372aa4ee90ee2f8ab";
    let cdn = "00112233445566778899AABBCCDDEEFF";
    let (b, c) = pinned_keys(build, cdn).unwrap();
    assert_eq!(b.to_string(), build);
    assert_eq!(c.to_string(), cdn.to_lowercase());

    assert_eq!(
        pinned_keys("8647", cdn).unwrap_err().message(),
        "invalid --build-config hash: \"8647\": malformed content key: wrong hex length"
    );
    assert_eq!(
        pinned_keys(build, "\t").unwrap_err().message(),
        "invalid --cdn-config hash: \"\\t\": malformed content key: wrong hex length"
    );
    assert_eq!(
        pinned_keys("", "").unwrap_err().message(),
        "invalid --build-config hash: \"\": malformed content key: wrong hex length"
    );
}
