//! Choosing files for an extraction.

use broodcasc::matcher::PathMatcher;
use broodcasc::select::{
    after_read, check_names, check_no_duplicate_basenames, destination, plan_extraction, select_paths,
    ExtractError,
};
use broodcasc::CascError;

const PATHS: [&str; 4] = [
    "SD/tileset/jungle.wpe",
    "HD/tileset/Jungle.wpe",
    "SD/sound/button.wav",
    "HD/tileset/jungle.wpe",
];

fn matchers(patterns: &[&str]) -> Vec<PathMatcher> {
    patterns
        .iter()
        .map(|p| PathMatcher::new(p).unwrap())
        .collect()
}

fn strings(patterns: &[&str]) -> Vec<String> {
    patterns.iter().map(|p| p.to_string()).collect()
}

#[test]
fn selected_paths_keep_their_order() {
    let paths = PATHS.to_vec();
    assert_eq!(
        select_paths(&matchers(&["button", "sd/*.wpe"]), &paths),
        ["SD/tileset/jungle.wpe", "SD/sound/button.wav"]
    );
    assert_eq!(select_paths(&matchers(&["*"]), &paths), PATHS);
    assert!(select_paths(&[], &paths).is_empty());
}

#[test]
fn no_match_is_refused() {
    let patterns = ["*.bin", "nothing"];
    let err = plan_extraction(
        &matchers(&patterns),
        &strings(&patterns),
        &PATHS.to_vec(),
        false,
    )
    .unwrap_err();
    assert_eq!(
        err.message(),
        "no catalog files matched pattern(s): *.bin, nothing"
    );
    assert!(matches!(err, ExtractError::NoMatch { .. }));
}

#[test]
fn flat_extraction_refuses_equal_names() {
    let patterns = ["jungle"];
    let paths = PATHS.to_vec();
    let plan = |flat: bool| {
        plan_extraction(&matchers(&patterns), &strings(&patterns), &paths, flat)
    };
    assert_eq!(plan(false).unwrap().len(), 3);
    let err = plan(true).unwrap_err();
    assert!(matches!(
        &err,
        ExtractError::Collision { first, second, name }
            if first == "SD/tileset/jungle.wpe"
                && second == "HD/tileset/Jungle.wpe"
                && name == "Jungle.wpe"
    ));
    assert_eq!(
        err.message(),
        "--flat would collide: \"SD/tileset/jungle.wpe\" and \"HD/tileset/Jungle.wpe\" both have basename \"Jungle.wpe\""
    );
}

#[test]
fn names_collide_in_any_case() {
    assert!(check_no_duplicate_basenames(&["a/x.txt", "b/X.txt"]).is_err());
    assert!(check_no_duplicate_basenames(&["a/x.txt", "b/y.txt"]).is_ok());
    assert!(check_no_duplicate_basenames(&[]).is_ok());
    assert!(check_no_duplicate_basenames(&["a/x.txt", "x.txt"]).is_err());
}

#[test]
fn destinations_stay_below_the_output_directory() {
    assert_eq!(
        destination("SD/tileset/jungle.wpe", false).unwrap(),
        ["SD", "tileset", "jungle.wpe"]
    );
    assert_eq!(
        destination("SD/tileset/jungle.wpe", true).unwrap(),
        ["jungle.wpe"]
    );
    assert_eq!(destination("../x", false), None);
}

#[test]
fn flat_destinations_are_file_names() {
    let name = |path: &str| {
        destination(path, true).map(|segments| {
            assert_eq!(segments.len(), 1);
            segments[0].clone()
        })
    };
    assert_eq!(name("jungle.wpe").as_deref(), Some("jungle.wpe"));
    assert_eq!(name("SD/tileset/").as_deref(), Some("tileset"));
    assert_eq!(name("SD/tileset/.").as_deref(), Some("tileset"));
    assert_eq!(name("./a//b").as_deref(), Some("b"));
    assert_eq!(name("/etc").as_deref(), Some("etc"));
    for nameless in ["", ".", "..", "/", "a/..", "./."] {
        assert_eq!(name(nameless), None, "{nameless:?}");
    }
    // Any other path goes by the platform's rules.
    for path in [r"SD\tileset\jungle.wpe", "C:x", "//server/share/x"] {
        let expected = std::path::Path::new(path)
            .file_name()
            .map(|n| n.to_str().unwrap().to_string());
        assert_eq!(name(path), expected, "{path:?}");
    }
}

#[test]
fn names_are_checked_as_given() {
    let names = |list: &[&str]| -> Vec<String> { list.iter().map(|n| n.to_string()).collect() };
    assert!(check_names(&["a", "b"], &names(&["x", "y"])).is_ok());
    assert!(check_names(&[], &names(&[])).is_ok());
    assert!(matches!(
        check_names(&["a", "b", "c"], &names(&["x", "y", "X"])),
        Err(ExtractError::Collision { first, second, name })
            if first == "a" && second == "c" && name == "X"
    ));
    // Paths without a file name share the empty one.
    assert!(check_no_duplicate_basenames(&["..", "a/.."]).is_err());
}

#[test]
fn files_that_are_not_installed_are_skipped() {
    assert_eq!(after_read(Ok(vec![1])).unwrap(), Some(vec![1]));
    let missing = Err(CascError::NotInstalled("x".to_string()));
    assert_eq!(after_read(missing).unwrap(), None);
    let unknown = Err(CascError::NotFound("x".to_string()));
    assert!(matches!(after_read(unknown), Err(CascError::NotFound(_))));
}
