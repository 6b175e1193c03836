use chatgpt_linux_desktop::extract::{
    find_x64_inner, payload_kind, sanitize, version_from_xml, ManifestError, PayloadKind,
};

#[test]
fn version_from_xml_reads_identity_version() {
    let xml = r#"<Package><Identity Name="ChatGPT" Version="1.2.3.4"/></Package>"#;
    assert_eq!(version_from_xml(xml).unwrap(), "1.2.3.4");
}

#[test]
fn version_from_xml_rejects_missing_identity() {
    let err = version_from_xml(r#"<Package/>"#).unwrap_err().message();
    assert!(err.contains("no <Identity>"));
}

#[test]
fn version_from_xml_rejects_missing_version() {
    let err = version_from_xml(r#"<Identity Name="ChatGPT"/>"#)
        .unwrap_err()
        .message();
    assert!(err.contains("no Version"));
}

#[test]
fn version_from_xml_rejects_unclosed_version() {
    let err = version_from_xml(r#"<Identity Version="1.2.3"#)
        .unwrap_err()
        .message();
    assert!(err.contains("unclosed"));
}

#[test]
fn sanitize_accepts_plain_relative_paths() {
    assert_eq!(
        sanitize("app/resources/app.asar").unwrap(),
        "app/resources/app.asar".to_string()
    );
}

#[test]
fn sanitize_rejects_traversal_and_absolute_paths() {
    assert!(sanitize("../escape").is_err());
    assert!(sanitize("/absolute").is_err());
}

#[test]
fn sanitize_cases_of_components() {
    assert!(sanitize("a/./b").is_ok());
    assert!(sanitize("a/b/").is_ok());
    assert!(sanitize("a//b").is_ok());
    assert!(sanitize("").is_ok());
    assert!(sanitize(".hidden/file").is_ok());
    assert!(sanitize("a/..b").is_ok());
    assert!(sanitize(".").is_err());
    assert!(sanitize("./a").is_err());
    assert!(sanitize("a/../b").is_err());
    assert!(sanitize("a/..").is_err());
    let e = sanitize("/x").unwrap_err();
    assert_eq!(e.name, "/x");
    assert_eq!(e.message(), "invalid zip entry path: /x");
}

#[test]
fn version_from_xml_uses_first_identity_and_empty_version() {
    let xml = r#"<Properties Version="9"/><Identity Version=""/><Identity Version="2"/>"#;
    assert_eq!(version_from_xml(xml).unwrap(), "");
    let xml = r#"<Identity Name="x"/><Other Version="7.0"/>"#;
    assert_eq!(version_from_xml(xml).unwrap(), "7.0");
    assert_eq!(
        version_from_xml("no tag at all"),
        Err(ManifestError::NoIdentity)
    );
    assert_eq!(
        ManifestError::UnclosedVersion.message(),
        "unclosed Version attribute"
    );
}

#[test]
fn find_x64_inner_picks_first_x64_package_ignoring_case() {
    let names = vec![
        "AppxMetadata/AppxBundleManifest.xml".to_string(),
        "ChatGPT_1.0_arm64.msix".to_string(),
        "ChatGPT_1.0_X64.MSIX".to_string(),
        "ChatGPT_1.0_x64.appx".to_string(),
    ];
    assert_eq!(find_x64_inner(&names), Some(2));
    let names = vec!["a_arm64.msix".to_string(), "b_x64.msixbundle".to_string()];
    assert_eq!(find_x64_inner(&names), None);
}

#[test]
fn payload_kind_by_extension() {
    assert_eq!(payload_kind("msixbundle"), Ok(PayloadKind::Bundle));
    assert_eq!(payload_kind("AppxBundle"), Ok(PayloadKind::Bundle));
    assert_eq!(payload_kind("MSIX"), Ok(PayloadKind::Single));
    assert_eq!(payload_kind("appx"), Ok(PayloadKind::Single));
    assert_eq!(payload_kind("ZIP"), Err("zip".to_string()));
    assert_eq!(payload_kind(""), Err(String::new()));
}
