use lib::update::{download_url, is_newer, parse_tag_name, release_binary_name, tag_version};

#[test]
fn finds_the_tag_name() {
    let json = r#"{"url": "x", "tag_name": "v1.4.2", "name": "Release 1.4.2"}"#;
    assert_eq!(parse_tag_name(json), Some("v1.4.2".to_string()));
}

#[test]
fn tag_name_allows_white_space_after_the_colon() {
    assert_eq!(parse_tag_name("{\"tag_name\" :\n\t \"v2.0.0\"}"), Some("v2.0.0".to_string()));
    assert_eq!(parse_tag_name("{\"tag_name\":\"\"}"), Some(String::new()));
}

#[test]
fn tag_name_missing_or_malformed() {
    assert_eq!(parse_tag_name("{}"), None);
    assert_eq!(parse_tag_name("{\"name\": \"v1\"}"), None);
    assert_eq!(parse_tag_name("{\"tag_name\" 1}"), None);
    assert_eq!(parse_tag_name("{\"tag_name\": 12}"), None);
    assert_eq!(parse_tag_name("{\"tag_name\": \"v1.0"), None);
}

#[test]
fn newer_versions() {
    assert!(is_newer("1.2.4", "1.2.3"));
    assert!(is_newer("2.0.0", "1.9.9"));
    assert!(is_newer("1.10.0", "1.9.0"));
    assert!(!is_newer("1.2.3", "1.2.3"));
    assert!(!is_newer("1.2.2", "1.2.3"));
    assert!(!is_newer("0.9", "1.0.0"));
}

#[test]
fn missing_or_bad_components_count_as_zero() {
    assert!(is_newer("1", "0.9.9"));
    assert!(!is_newer("1", "1.0.0"));
    assert!(is_newer("1.0.1", "1"));
    assert!(!is_newer("x.y.z", "0.0.0"));
    assert!(is_newer("1.2.3.4", "1.2.2.9"));
    assert!(!is_newer("1.2.3-beta", "1.2.0"));
    assert!(is_newer("1.3.0-beta", "1.2.0"));
}

#[test]
fn tag_version_drops_leading_vs() {
    assert_eq!(tag_version("v1.2.3"), "1.2.3");
    assert_eq!(tag_version("vv0.1"), "0.1");
    assert_eq!(tag_version("1.0"), "1.0");
    assert_eq!(tag_version("v"), "");
    assert_eq!(tag_version("1.v2"), "1.v2");
}

#[test]
fn release_binary_names() {
    assert_eq!(release_binary_name("linux", "x86_64", false), "piadazip-linux-x86_64");
    assert_eq!(release_binary_name("macos", "aarch64", false), "piadazip-macos-aarch64");
    assert_eq!(release_binary_name("windows", "x86_64", true), "piadazip-windows-x86_64.exe");
}

#[test]
fn download_urls() {
    assert_eq!(
        download_url("v1.4.2", "piadazip-linux-x86_64"),
        "https://github.com/Tnnienn/piadazip/releases/download/v1.4.2/piadazip-linux-x86_64"
    );
}

#[test]
fn components_parse_like_u32() {
    assert!(is_newer("+2.0.0", "1.0.0"));
    assert!(!is_newer("4294967296.0.0", "0.0.1"));
    assert!(is_newer("4294967295.0.0", "0.0.1"));
    assert!(!is_newer("1..", "1.0.0"));
}
