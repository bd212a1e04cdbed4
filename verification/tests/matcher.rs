//! Path matching.

use broodcasc::matcher::{any_match, is_glob_pattern, PathMatcher};

#[test]
fn plain_text_is_substring_match() {
    let m = PathMatcher::new("tileset").unwrap();
    assert!(m.is_match("SD/tileset/jungle.wpe"));
    assert!(m.is_match("SD/TileSet/jungle.wpe"), "case-insensitive");
    assert!(!m.is_match("SD/sprites/jungle.wpe"));
}

#[test]
fn substring_match_is_case_insensitive_on_both_sides() {
    let m = PathMatcher::new("JUNGLE").unwrap();
    assert!(m.is_match("sd/tileset/jungle.wpe"));
}

#[test]
fn glob_metachars_trigger_glob_matching() {
    let m = PathMatcher::new("*.wpe").unwrap();
    assert!(m.is_match("SD/tileset/jungle.wpe"));
    assert!(!m.is_match("SD/tileset/jungle.chk"));
}

#[test]
fn glob_is_case_insensitive() {
    let m = PathMatcher::new("*.WPE").unwrap();
    assert!(m.is_match("SD/tileset/jungle.wpe"));
}

#[test]
fn glob_star_does_not_cross_path_separators_by_default() {
    // globset's `*` matches within a single path component only when
    // `literal_separator` is set; we explicitly disabled that (`false`)
    // so `*` can cross `/`, matching users' intuitive "substring-ish"
    // glob usage over full catalog paths.
    let m = PathMatcher::new("SD/*jungle*").unwrap();
    assert!(m.is_match("SD/tileset/jungle.wpe"));
}

#[test]
fn glob_bracket_class() {
    let m = PathMatcher::new("*.[wW][pP][eE]").unwrap();
    assert!(m.is_match("SD/tileset/jungle.wpe"));
    assert!(!m.is_match("SD/tileset/jungle.chk"));
}

#[test]
fn invalid_glob_pattern_errors() {
    assert!(PathMatcher::new("[unterminated").is_err());
}

#[test]
fn any_match_across_multiple_patterns() {
    let matchers = vec![
        PathMatcher::new("*.wpe").unwrap(),
        PathMatcher::new("scenario").unwrap(),
    ];
    assert!(any_match(&matchers, "SD/tileset/jungle.wpe"));
    assert!(any_match(&matchers, "SD/campaign/scenario.chk"));
    assert!(!any_match(&matchers, "SD/sound/misc/button.wav"));
}

#[test]
fn any_match_empty_matches_nothing() {
    assert!(!any_match(&[], "anything"));
}

#[test]
fn substring_match_lowercases_beyond_ascii() {
    let m = PathMatcher::new("\u{00DC}BER").unwrap();
    assert!(m.is_match("locales/\u{00FC}ber.txt"));
    assert!(m.is_match("LOCALES/\u{00DC}ber.txt"));
    assert!(!m.is_match("locales/uber.txt"));
}

#[test]
fn globs_have_alternatives_and_single_characters() {
    let m = PathMatcher::new("sd/{tileset,sound}/?utton.*").unwrap();
    assert!(m.is_match("SD/sound/Button.wav"));
    assert!(!m.is_match("SD/music/button.wav"));
    assert!(!m.is_match("SD/sound/utton.wav"));
}

#[test]
fn only_metacharacters_make_a_glob() {
    for pattern in ["a*", "?", "[a]", "]", "{a", "}"] {
        assert!(is_glob_pattern(pattern), "{pattern}");
    }
    for pattern in ["", "a.b", "a/b\\c", "!^$()|+"] {
        assert!(!is_glob_pattern(pattern), "{pattern}");
    }
}

#[test]
fn invalid_glob_pattern_says_so() {
    let err = match PathMatcher::new("[unterminated") {
        Ok(_) => panic!("the pattern is not a glob"),
        Err(e) => e,
    };
    assert_eq!(err.pattern, "[unterminated");
    assert_eq!(
        err.message(),
        format!("invalid glob pattern: \"[unterminated\": {}", err.reason)
    );
    assert!(err.reason.contains("unclosed character class"));
}

#[test]
fn empty_pattern_matches_everything() {
    let m = PathMatcher::new("").unwrap();
    assert!(m.is_match(""));
    assert!(m.is_match("anything"));
}
