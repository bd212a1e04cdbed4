//! Discovery responses and URLs.

use broodcasc::tact::{
    cdn_file_url, cdns_url, validate_cdn_location, validate_discovery_identifier, versions_url,
    CdnPathKind, Cdns, Versions,
};

const VERSIONS_SAMPLE: &str = "Region!STRING:0|BuildConfig!HEX:16|CDNConfig!HEX:16|KeyRing!HEX:16|BuildId!DEC:4|VersionsName!String:0|ProductConfig!HEX:16\n\
## seqn = 2575619\n\
us|864772b9ff94f6d372aa4ee90ee2f8ab|bd4a0f876fdbf39666f0fae661e54974||13515|1.23.10.13515|c61fc45c039ea8dfd98febbc5b6e73b8\n\
eu|864772b9ff94f6d372aa4ee90ee2f8ab|bd4a0f876fdbf39666f0fae661e54974||13515|1.23.10.13515|c61fc45c039ea8dfd98febbc5b6e73b8\n\
cn|4f29e696409f060a27d9bb716a87ab2b|bd4a0f876fdbf39666f0fae661e54974||11269|1.23.10.11269|c61fc45c039ea8dfd98febbc5b6e73b8\n";

const CDNS_SAMPLE: &str = "Name!STRING:0|Path!STRING:0|Hosts!STRING:0|Servers!STRING:0|ConfigPath!STRING:0\n\
## seqn = 3437954\n\
us|tpr/sc1live|level3.blizzard.com us.cdn.blizzard.com|http://level3.blizzard.com/?maxhosts=4 http://us.cdn.blizzard.com/?maxhosts=4 https://level3.ssl.blizzard.com/?maxhosts=4&fallback=1 https://us.cdn.blizzard.com/?maxhosts=4&fallback=1|tpr/configs/data\n";

// --- Versions ---

#[test]
fn versions_parses_real_sample() {
    let versions = Versions::parse(VERSIONS_SAMPLE).unwrap();
    assert_eq!(versions.entries().len(), 3);

    let us = versions.region("us").expect("us region present");
    assert_eq!(us.region, "us");
    assert_eq!(
        us.build_config.to_string(),
        "864772b9ff94f6d372aa4ee90ee2f8ab"
    );
    assert_eq!(
        us.cdn_config.to_string(),
        "bd4a0f876fdbf39666f0fae661e54974"
    );
    assert_eq!(us.build_id, Some(13515));
    assert_eq!(us.versions_name.as_deref(), Some("1.23.10.13515"));
}

#[test]
fn versions_cn_row_differs() {
    let versions = Versions::parse(VERSIONS_SAMPLE).unwrap();
    let cn = versions.region("cn").expect("cn region present");
    assert_eq!(
        cn.build_config.to_string(),
        "4f29e696409f060a27d9bb716a87ab2b"
    );
    assert_eq!(cn.build_id, Some(11269));
    assert_eq!(cn.versions_name.as_deref(), Some("1.23.10.11269"));
    // Shares the same CDN config as us/eu.
    assert_eq!(
        cn.cdn_config.to_string(),
        "bd4a0f876fdbf39666f0fae661e54974"
    );
}

#[test]
fn versions_region_hit_and_miss() {
    let versions = Versions::parse(VERSIONS_SAMPLE).unwrap();
    assert!(versions.region("eu").is_some());
    assert!(versions.region("kr").is_none());
}

#[test]
fn versions_missing_build_config_errors() {
    let text = "Region!STRING:0|BuildConfig!HEX:16|CDNConfig!HEX:16\n\
                 us||bd4a0f876fdbf39666f0fae661e54974\n";
    assert!(Versions::parse(text).is_err());
}

#[test]
fn versions_missing_cdn_config_errors() {
    let text = "Region!STRING:0|BuildConfig!HEX:16|CDNConfig!HEX:16\n\
                 us|864772b9ff94f6d372aa4ee90ee2f8ab|\n";
    assert!(Versions::parse(text).is_err());
}

#[test]
fn versions_missing_region_errors() {
    let text = "Region!STRING:0|BuildConfig!HEX:16|CDNConfig!HEX:16\n\
                 |864772b9ff94f6d372aa4ee90ee2f8ab|bd4a0f876fdbf39666f0fae661e54974\n";
    assert!(Versions::parse(text).is_err());
}

#[test]
fn versions_invalid_hex_errors() {
    let text = "Region!STRING:0|BuildConfig!HEX:16|CDNConfig!HEX:16\n\
                 us|not-valid-hex|bd4a0f876fdbf39666f0fae661e54974\n";
    assert!(Versions::parse(text).is_err());
}

// --- Cdns ---

#[test]
fn cdns_parses_real_sample() {
    let cdns = Cdns::parse(CDNS_SAMPLE).unwrap();
    assert_eq!(cdns.entries().len(), 1);

    let us = cdns.region("us").expect("us region present");
    assert_eq!(us.name, "us");
    assert_eq!(us.path, "tpr/sc1live");
    assert_eq!(us.hosts, vec!["level3.blizzard.com", "us.cdn.blizzard.com"]);
}

#[test]
fn cdns_region_hit_and_miss() {
    let cdns = Cdns::parse(CDNS_SAMPLE).unwrap();
    assert!(cdns.region("us").is_some());
    assert!(cdns.region("eu").is_none());
}

#[test]
fn cdns_hosts_splitting_preserves_order() {
    let text = "Name!STRING:0|Path!STRING:0|Hosts!STRING:0\n\
                 eu|tpr/sc1live|a.cdn.example b.cdn.example c.cdn.example\n";
    let cdns = Cdns::parse(text).unwrap();
    let eu = cdns.region("eu").unwrap();
    assert_eq!(
        eu.hosts,
        vec!["a.cdn.example", "b.cdn.example", "c.cdn.example"]
    );
}

#[test]
fn cdns_skips_row_with_empty_path() {
    let text = "Name!STRING:0|Path!STRING:0|Hosts!STRING:0\n\
                 kr||host.example\n\
                 us|tpr/sc1live|host.example\n";
    let cdns = Cdns::parse(text).unwrap();
    assert_eq!(cdns.entries().len(), 1);
    assert!(cdns.region("kr").is_none());
    assert!(cdns.region("us").is_some());
}

#[test]
fn cdns_skips_row_with_no_hosts() {
    let text = "Name!STRING:0|Path!STRING:0|Hosts!STRING:0\n\
                 kr|tpr/sc1live|\n\
                 us|tpr/sc1live|host.example\n";
    let cdns = Cdns::parse(text).unwrap();
    assert_eq!(cdns.entries().len(), 1);
    assert!(cdns.region("kr").is_none());
}

#[test]
fn cdns_all_rows_skipped_is_error() {
    let text = "Name!STRING:0|Path!STRING:0|Hosts!STRING:0\n\
                 kr||\n\
                 tw|tpr/sc1live|\n";
    assert!(Cdns::parse(text).is_err());
}

// --- URLs ---

#[test]
fn versions_url_construction() {
    assert_eq!(
        versions_url("us", "s1"),
        "http://us.patch.battle.net:1119/s1/versions"
    );
}

#[test]
fn cdns_url_construction() {
    assert_eq!(
        cdns_url("eu", "s1"),
        "http://eu.patch.battle.net:1119/s1/cdns"
    );
}

#[test]
fn cdn_file_url_config_no_index() {
    let url = cdn_file_url(
        "us.cdn.blizzard.com",
        "tpr/sc1live",
        CdnPathKind::Config,
        "864772b9ff94f6d372aa4ee90ee2f8ab",
        false,
    );
    assert_eq!(
        url,
        "http://us.cdn.blizzard.com/tpr/sc1live/config/86/47/864772b9ff94f6d372aa4ee90ee2f8ab"
    );
}

#[test]
fn cdn_file_url_data_with_index() {
    let url = cdn_file_url(
        "level3.blizzard.com",
        "tpr/sc1live",
        CdnPathKind::Data,
        "b135dde729b026904eeb4b7e76332750",
        true,
    );
    assert_eq!(
        url,
        "http://level3.blizzard.com/tpr/sc1live/data/b1/35/b135dde729b026904eeb4b7e76332750.index"
    );
}

#[test]
fn discovery_identifiers_are_plain_names() {
    for good in ["s1", "us", "wow_classic", "a-b"] {
        assert!(validate_discovery_identifier(good, "product").is_ok());
    }
    for bad in ["", "a/b", "..", "a b", "eu\n", "\u{00E4}"] {
        assert_eq!(
            validate_discovery_identifier(bad, "region")
                .unwrap_err()
                .message(),
            "malformed discovery identifier: invalid region"
        );
    }
}

#[test]
fn cdn_locations_are_blizzards() {
    let hosts = |names: &[&str]| -> Vec<String> { names.iter().map(|n| n.to_string()).collect() };
    let check = |names: &[&str], path: &str| {
        validate_cdn_location(&hosts(names), path).map_err(|e| e.message())
    };
    assert_eq!(
        check(&["level3.blizzard.com", "x.battle.net"], "tpr/sc1live"),
        Ok(())
    );
    let host = Err("malformed CDN location: host is not a Blizzard host".to_string());
    assert_eq!(check(&[], "tpr"), host);
    assert_eq!(check(&["level3.blizzard.com", "evil.example"], "tpr"), host);
    assert_eq!(check(&["evilblizzard.com"], "tpr"), host);
    assert_eq!(check(&["evil.example/x.blizzard.com"], "tpr"), host);
    let path = Err("malformed CDN location: invalid path".to_string());
    for bad in ["", "/tpr", "tpr//x", "tpr/../x", "tpr/x?y", "."] {
        assert_eq!(check(&["level3.blizzard.com"], bad), path, "{bad:?}");
    }
}
