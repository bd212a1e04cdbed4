//! Build info tables and build configs.

use broodcasc::config::{BuildConfig, BuildInfo};

const BUILD_INFO_SAMPLE: &str = "Branch!STRING:0|Active!DEC:1|Build Key!HEX:16|CDN Key!HEX:16|Install Key!HEX:16|IM Size!DEC:4|CDN Path!STRING:0|CDN Hosts!STRING:0|CDN Servers!STRING:0|Tags!STRING:0|Armadillo!STRING:0|Last Activated!STRING:0|Version!STRING:0|KeyRing!HEX:16|Product!STRING:0\nus|1|864772b9ff94f6d372aa4ee90ee2f8ab|bd4a0f876fdbf39666f0fae661e54974|||tpr/sc1live|level3.blizzard.com us.cdn.blizzard.com|http://...|Windows noigr...|||1.23.10.13515||\n";

const BUILD_CONFIG_SAMPLE: &str = "\
# Build Configuration

root = b96213f265684e16db5a8552eba1be09
install = 507094afe0cfb221bcd106f26e288cfa 311e6a69ea379077313e68b06d9126ed
install-size = 105144 100737
download = 45886a5df9c96d8d5ab6b46a93f60680 f04fd2ace1b4b204eb0b9baf05678e80
download-size = 1093564 948966
size = 996dba1b304873d353413d015ec54272 958428bb9ce4416ccfafde3b961a830f
size-size = 705785 616121
encoding = 6f0a25d319069d1b09bc4034820e5ae0 b135dde729b026904eeb4b7e76332750
encoding-size = 2757673 2757842
patch-index = df4c0ae0d32fe2a538936d2956b8ac09 55b3cbccbdf39e72afb934250933f6d7
patch-index-size = 5598 4805
patch = 155d14754816b49d2a6914f37122a718
patch-size = 9261
patch-config = 44c6c6219e2d1e94b9e2b815eddd0579
build-name = 1.23.10.13515-retail
build-uid = s1
build-product = StarCraft1
build-comments = prod build for new 2025 wildcard cert
build-playbuild-installer = ngdptool_casc2
";

// --- BuildInfo ---

#[test]
fn build_info_parses_real_sample() {
    let info = BuildInfo::parse(BUILD_INFO_SAMPLE).unwrap();
    assert_eq!(info.records().len(), 1);

    let record = &info.records()[0];
    assert_eq!(record.branch(), Some("us"));
    assert_eq!(record.get("Active"), Some("1"));
    assert_eq!(record.version(), Some("1.23.10.13515"));
    assert_eq!(
        record.build_key().unwrap().to_string(),
        "864772b9ff94f6d372aa4ee90ee2f8ab"
    );
    assert_eq!(
        record.get("CDN Hosts"),
        Some("level3.blizzard.com us.cdn.blizzard.com")
    );
}

#[test]
fn build_info_empty_values_are_none() {
    let info = BuildInfo::parse(BUILD_INFO_SAMPLE).unwrap();
    let record = &info.records()[0];
    // Install Key, IM Size, Armadillo, Last Activated, KeyRing, Product
    // are all empty in the sample.
    assert_eq!(record.get("Install Key"), None);
    assert_eq!(record.get("Armadillo"), None);
    assert_eq!(record.product(), None);
}

#[test]
fn build_info_missing_column_is_none() {
    let info = BuildInfo::parse(BUILD_INFO_SAMPLE).unwrap();
    let record = &info.records()[0];
    assert_eq!(record.get("Nonexistent"), None);
}

#[test]
fn build_info_active_record_selection() {
    let text = "Branch!STRING:0|Active!DEC:1|Build Key!HEX:16\n\
                 eu|0|aaaaaaaaaaaaaaaaaaaaaaaaaaaaaaaa\n\
                 us|1|bbbbbbbbbbbbbbbbbbbbbbbbbbbbbbbb\n\
                 kr|0|cccccccccccccccccccccccccccccccc\n";
    let info = BuildInfo::parse(text).unwrap();
    assert_eq!(info.records().len(), 3);
    let active = info.active_record().expect("should have an active record");
    assert_eq!(active.branch(), Some("us"));
    assert_eq!(
        active.build_key().unwrap().to_string(),
        "bbbbbbbbbbbbbbbbbbbbbbbbbbbbbbbb"
    );
}

#[test]
fn build_info_no_active_record() {
    let text = "Branch!STRING:0|Active!DEC:1\neu|0\n";
    let info = BuildInfo::parse(text).unwrap();
    assert!(info.active_record().is_none());
}

#[test]
fn build_info_record_with_fewer_fields_than_header() {
    let text = "Branch!STRING:0|Active!DEC:1|Build Key!HEX:16\nus|1\n";
    let info = BuildInfo::parse(text).unwrap();
    let record = &info.records()[0];
    assert_eq!(record.branch(), Some("us"));
    assert_eq!(record.get("Active"), Some("1"));
    assert_eq!(record.get("Build Key"), None);
    assert!(record.build_key().is_err());
}

#[test]
fn build_info_tolerates_trailing_blank_lines_and_crlf() {
    let text = "Branch!STRING:0|Active!DEC:1\r\nus|1\r\n\r\n\r\n";
    let info = BuildInfo::parse(text).unwrap();
    assert_eq!(info.records().len(), 1);
    assert_eq!(info.records()[0].branch(), Some("us"));
}

#[test]
fn build_info_skips_seqn_comment_line() {
    let text = "Branch!STRING:0|Active!DEC:1\n## seqn = 11111\nus|1\n";
    let info = BuildInfo::parse(text).unwrap();
    assert_eq!(info.records().len(), 1);
    assert_eq!(info.records()[0].branch(), Some("us"));
}

#[test]
fn build_info_rejects_empty_input() {
    assert!(BuildInfo::parse("").is_err());
    assert!(BuildInfo::parse("\n\n\r\n").is_err());
}

#[test]
fn build_info_rejects_header_missing_bang() {
    let text = "Branch|Active!DEC:1\nus|1\n";
    assert!(BuildInfo::parse(text).is_err());
}

#[test]
fn build_info_rejects_record_with_too_many_fields() {
    let text = "Branch!STRING:0|Active!DEC:1\nus|1|extra\n";
    assert!(BuildInfo::parse(text).is_err());
}

// --- BuildConfig ---

#[test]
fn build_config_parses_real_sample() {
    let config = BuildConfig::parse(BUILD_CONFIG_SAMPLE).unwrap();

    assert_eq!(
        config.root().unwrap().to_string(),
        "b96213f265684e16db5a8552eba1be09"
    );

    let (ckey, ekey) = config.encoding().unwrap();
    assert_eq!(ckey.to_string(), "6f0a25d319069d1b09bc4034820e5ae0");
    assert_eq!(ekey.to_string(), "b135dde729b026904eeb4b7e76332750");

    assert_eq!(config.encoding_size(), Some((2757673, 2757842)));
    assert_eq!(config.build_uid(), Some("s1"));
    assert_eq!(config.build_name(), Some("1.23.10.13515-retail"));

    let (install_ckey, install_ekey) = config.install().unwrap();
    assert_eq!(install_ckey.to_string(), "507094afe0cfb221bcd106f26e288cfa");
    assert_eq!(
        install_ekey.unwrap().to_string(),
        "311e6a69ea379077313e68b06d9126ed"
    );

    assert_eq!(config.get("build-product"), Some("StarCraft1"));
    assert_eq!(
        config.get("build-comments"),
        Some("prod build for new 2025 wildcard cert")
    );
}

#[test]
fn build_config_ignores_comments_and_blanks() {
    let text =
        "# comment\n\n  # indented comment\n\nroot = b96213f265684e16db5a8552eba1be09\n\n";
    let config = BuildConfig::parse(text).unwrap();
    assert_eq!(config.get("root"), Some("b96213f265684e16db5a8552eba1be09"));
    assert_eq!(config.len(), 1);
}

#[test]
fn build_config_crlf() {
    let text = "root = b96213f265684e16db5a8552eba1be09\r\nbuild-uid = s1\r\n";
    let config = BuildConfig::parse(text).unwrap();
    assert_eq!(config.build_uid(), Some("s1"));
}

#[test]
fn build_config_install_with_only_ckey() {
    let text = "install = 507094afe0cfb221bcd106f26e288cfa\n";
    let config = BuildConfig::parse(text).unwrap();
    let (ckey, ekey) = config.install().unwrap();
    assert_eq!(ckey.to_string(), "507094afe0cfb221bcd106f26e288cfa");
    assert_eq!(ekey, None);
}

#[test]
fn build_config_missing_keys_are_none_or_err() {
    let config = BuildConfig::parse("build-uid = s1\n").unwrap();
    assert!(config.root().is_err());
    assert!(config.encoding().is_err());
    assert_eq!(config.encoding_size(), None);
    assert_eq!(config.install(), None);
    assert_eq!(config.build_name(), None);
}

#[test]
fn build_config_malformed_hex_errors() {
    let config = BuildConfig::parse("root = not-valid-hex\n").unwrap();
    assert!(config.root().is_err());

    let config = BuildConfig::parse("encoding = not-valid-hex alsobad\n").unwrap();
    assert!(config.encoding().is_err());
}

#[test]
fn build_config_encoding_missing_second_hash_errors() {
    let config = BuildConfig::parse(
        "encoding = 6f0a25d319069d1b09bc4034820e5ae0\n"
    ).unwrap();
    assert!(config.encoding().is_err());
}

#[test]
fn build_config_rejects_line_without_equals() {
    assert!(BuildConfig::parse("this line has no equals sign\n").is_err());
}

#[test]
fn build_config_keeps_keys_apart_and_the_last_value() {
    let config = BuildConfig::parse(
        "build = 1\nbuild-name = 2\nb = 3\n = empty\nbuild = 4\nbüild = 5\n",
    )
    .unwrap();
    assert_eq!(config.len(), 5);
    assert_eq!(config.get("build"), Some("4"));
    assert_eq!(config.get("build-name"), Some("2"));
    assert_eq!(config.get("b"), Some("3"));
    assert_eq!(config.get(""), Some("empty"));
    assert_eq!(config.get("büild"), Some("5"));
    assert_eq!(config.get("bu"), None);
    assert_eq!(config.get("build-names"), None);
    assert_eq!(config.clone().get("build"), Some("4"));
}

/// The time to parse a config grows with its length, not with its square.
#[test]
fn build_config_with_many_keys_is_parsed() {
    let text: String = (0..40_000).map(|n| format!("key-{n} = {}\n", n * 2)).collect();
    let config = BuildConfig::parse(&text).unwrap();
    assert_eq!(config.len(), 40_000);
    assert_eq!(config.get("key-39999"), Some("79998"));
    assert_eq!(config.get("key-40000"), None);
}
