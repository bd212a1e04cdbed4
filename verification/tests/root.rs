//! Root files.

use broodcasc::root::RootFile;

const SAMPLE: &str = "locales/enUS/Assets/campaign/EXPZerg/Zerg08/staredit/wav/zovtra01.ogg|316b0274bf2dabaa8db60c3ff1270c85\r\n\
    locales/zhCN/Assets/sound/terran/ghost/tghdth01.wav|6637ed776bd22089e083b8b0b2c0374c\r\n\
    SD/campaign/Starcraft/SWAR/staredit/scenario.chk|d41d8cd98f00b204e9800998ecf8427e\r\n";

#[test]
fn parses_real_shaped_records() {
    let root = RootFile::parse(SAMPLE.as_bytes()).unwrap();
    assert_eq!(root.len(), 3);
    assert_eq!(
        root.entries()[0].path,
        "locales/enUS/Assets/campaign/EXPZerg/Zerg08/staredit/wav/zovtra01.ogg"
    );
    assert_eq!(
        root.entries()[2].ckey.to_string(),
        "d41d8cd98f00b204e9800998ecf8427e"
    );
}

#[test]
fn lookup_is_case_insensitive_and_separator_agnostic() {
    let root = RootFile::parse(SAMPLE.as_bytes()).unwrap();
    let entry = root
        .lookup(r"sd\Campaign\starcraft\swar\STAREDIT\scenario.chk")
        .expect("should find the entry");
    // Original casing is preserved in the returned entry.
    assert_eq!(
        entry.path,
        "SD/campaign/Starcraft/SWAR/staredit/scenario.chk"
    );
    assert!(root.lookup("sd/campaign/missing.chk").is_none());
}

#[test]
fn skips_malformed_lines() {
    let text = "no separator line\n\
        short/hash.wav|abcd\n\
        bad/hash.wav|zzzzzzzzzzzzzzzzzzzzzzzzzzzzzzzz\n\
        good/file.wav|316b0274bf2dabaa8db60c3ff1270c85\n";
    let root = RootFile::parse(text.as_bytes()).unwrap();
    assert_eq!(root.len(), 1);
    assert_eq!(root.entries()[0].path, "good/file.wav");
}

#[test]
fn tolerates_third_column() {
    let text = "some/file.wav|316b0274bf2dabaa8db60c3ff1270c85|extra\n";
    let root = RootFile::parse(text.as_bytes()).unwrap();
    assert_eq!(root.len(), 1);
    assert!(root.lookup("some/file.wav").is_some());
}

#[test]
fn bare_lf_is_accepted() {
    let text =
        "a/b.wav|316b0274bf2dabaa8db60c3ff1270c85\nc/d.wav|6637ed776bd22089e083b8b0b2c0374c\n";
    let root = RootFile::parse(text.as_bytes()).unwrap();
    assert_eq!(root.len(), 2);
}

#[test]
fn rejects_inputs_with_no_records() {
    assert!(RootFile::parse(b"").is_err());
    assert!(RootFile::parse(b"BLTE\x00\x01\x02").is_err());
    assert!(RootFile::parse(&[0xFF, 0xFE, 0x00]).is_err());
}

#[test]
fn a_clone_finds_what_its_source_finds() {
    let text = "A/b.wav|316b0274bf2dabaa8db60c3ff1270c85\n\
        c/d.wav|6637ed776bd22089e083b8b0b2c0374c\n\
        a/B.wav|00000000000000000000000000000001\n";
    let root = RootFile::parse(text.as_bytes()).unwrap();
    let copy = root.clone();
    assert_eq!(copy.entries(), root.entries());
    assert_eq!(copy.lookup("a\\b.WAV"), root.lookup("a\\b.WAV"));
    assert_eq!(copy.lookup("a/b.wav").unwrap().path, "a/B.wav");
    assert_eq!(copy.lookup("missing"), None);
}
