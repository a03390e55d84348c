use arp::error::ArpError;
use arp::uid::validate_path_component;
use arp::uid::ResourceIdentifier;

#[test]
fn parse_simple_identifier() {
    let id = ResourceIdentifier::parse("mypackage:images/logo").unwrap();
    assert_eq!(id.namespace, "mypackage");
    assert_eq!(id.components, vec!["images".to_string(), "logo".to_string()]);
}

#[test]
fn parse_single_component() {
    let id = ResourceIdentifier::parse("ns:a.txt").unwrap();
    assert_eq!(id.namespace, "ns");
    assert_eq!(id.components, vec!["a.txt".to_string()]);
}

#[test]
fn format_and_parse_round_trip() {
    let cases = vec![
        "ns:a",
        "ns:a/b/c",
        "some_pkg:dir/sub/file.ext",
        "n:x/y",
    ];
    for text in cases {
        let id = ResourceIdentifier::parse(text).unwrap();
        assert_eq!(id.to_string(), text);
        let again = ResourceIdentifier::parse(&id.to_string()).unwrap();
        assert_eq!(again, id);
    }
}

#[test]
fn round_trip_from_parts() {
    let id = ResourceIdentifier::new(
        "pkg".to_string(),
        vec!["a".to_string(), "b.bin".to_string()],
    );
    let text = id.to_string();
    assert_eq!(text, "pkg:a/b.bin");
    let parsed = ResourceIdentifier::parse(&text).unwrap();
    assert_eq!(parsed, id);
}

#[test]
fn parse_rejects_missing_separator() {
    assert_eq!(
        ResourceIdentifier::parse("no_separator_here").unwrap_err(),
        ArpError::MissingNamespaceSeparator
    );
}

#[test]
fn parse_rejects_second_separator() {
    assert_eq!(
        ResourceIdentifier::parse("ns:a:b").unwrap_err(),
        ArpError::ExtraNamespaceSeparator
    );
}

#[test]
fn parse_rejects_path_separator_in_namespace() {
    assert_eq!(
        ResourceIdentifier::parse("n/s:a").unwrap_err(),
        ArpError::NamespaceHasPathSeparator
    );
}

#[test]
fn parse_rejects_empty_components() {
    assert_eq!(
        ResourceIdentifier::parse("ns:").unwrap_err(),
        ArpError::EmptyPathComponent
    );
    assert_eq!(
        ResourceIdentifier::parse("ns:/a").unwrap_err(),
        ArpError::EmptyPathComponent
    );
    assert_eq!(
        ResourceIdentifier::parse("ns:a/").unwrap_err(),
        ArpError::EmptyPathComponent
    );
    assert_eq!(
        ResourceIdentifier::parse("ns:a//b").unwrap_err(),
        ArpError::EmptyPathComponent
    );
}

#[test]
fn parse_allows_empty_namespace() {
    let id = ResourceIdentifier::parse(":a").unwrap();
    assert_eq!(id.namespace, "");
    assert_eq!(id.components, vec!["a".to_string()]);
}

#[test]
fn identifier_clone_is_equal() {
    let id = ResourceIdentifier::parse("ns:a/b").unwrap();
    let copy = id.clone();
    assert_eq!(copy, id);
}

#[test]
fn path_component_validation() {
    assert!(validate_path_component("plain-name_01.txt").is_ok());
    assert_eq!(
        validate_path_component("has/slash").unwrap_err(),
        ArpError::PathComponentReservedChar
    );
    assert_eq!(
        validate_path_component("has\\backslash").unwrap_err(),
        ArpError::PathComponentReservedChar
    );
    assert_eq!(
        validate_path_component("has:colon").unwrap_err(),
        ArpError::PathComponentReservedChar
    );
    assert_eq!(
        validate_path_component("has\ttab").unwrap_err(),
        ArpError::PathComponentControlChar
    );
    assert_eq!(
        validate_path_component("del\u{7f}char").unwrap_err(),
        ArpError::PathComponentControlChar
    );
}
