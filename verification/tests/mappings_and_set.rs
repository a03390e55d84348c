use arp::error::ArpError;
use arp::mappings::load_arp_builtin_media_types;
use arp::mappings::load_media_types_from_csv;
use arp::mappings::MediaTypeTable;
use arp::pack::create_arp_from_tree;
use arp::pack::default_media_type;
use arp::pack::FsEntry;
use arp::pack::FsEntryKind;
use arp::pack::PackingOptions;
use arp::package::Package;
use arp::set::PackageSet;
use arp::uid::ResourceIdentifier;

#[test]
fn csv_parses_trimmed_lines_and_skips_the_rest() {
    let table = load_media_types_from_csv(
        "txt,text/plain\n\n  md,text/markdown  \nnocomma\npng,image/png\n",
    );
    assert_eq!(table.lookup("txt"), Some("text/plain".to_string()));
    assert_eq!(table.lookup("md"), Some("text/markdown"
        .to_string()));
    assert_eq!(table.lookup("png"), Some("image/png".to_string()));
    assert_eq!(table.lookup("nocomma"), None);
    assert_eq!(table.lookup("gif"), None);
}

#[test]
fn csv_splits_at_the_first_comma_only() {
    let table = load_media_types_from_csv("weird,one,two");
    assert_eq!(table.lookup("weird"), Some("one,two".to_string()));
}

#[test]
fn csv_trims_whole_lines_not_fields() {
    // Only the line is trimmed; spaces around the comma stay in the fields.
    let table = load_media_types_from_csv("  xml , application/xml  ");
    assert_eq!(table.lookup("xml"), None);
    assert_eq!(table.lookup("xml "), Some(" application/xml".to_string()));
}

#[test]
fn later_entries_take_precedence() {
    let mut table = load_media_types_from_csv("x,first");
    table.extend(&load_media_types_from_csv("x,second"));
    assert_eq!(table.lookup("x"), Some("second".to_string()));
}

#[test]
fn builtin_table_knows_common_types() {
    let table = load_arp_builtin_media_types();
    assert_eq!(table.lookup("txt"), Some("text/plain".to_string()));
    assert_eq!(table.lookup("png"), Some("image/png".to_string()));
    assert_eq!(table.lookup("definitely-unknown"), None);
    assert_eq!(default_media_type(), "application/octet-stream");
}

#[test]
fn user_mappings_override_builtin_ones() {
    let arena = vec![
        FsEntry {
            kind: FsEntryKind::Directory,
            name: String::new(),
            extension: String::new(),
            data: Vec::new(),
            children: vec![1],
        },
        FsEntry {
            kind: FsEntryKind::File,
            name: "a".to_string(),
            extension: "txt".to_string(),
            data: b"x".to_vec(),
            children: Vec::new(),
        },
    ];
    let user = load_media_types_from_csv("txt,application/x-custom");
    let options = PackingOptions::new_v1(
        "p".to_string(),
        "ns".to_string(),
        None,
        None,
        Some(user),
    )
    .unwrap();
    let vols = create_arp_from_tree(&arena, &options).unwrap();
    let package = Package::load_from_memory(vols[0].clone()).unwrap();
    let desc = package
        .find_resource(&ResourceIdentifier::parse("ns:a.txt").unwrap())
        .unwrap();
    assert_eq!(desc.media_type, "application/x-custom");
}

fn tiny_package(namespace: &str, payload: &[u8]) -> std::sync::Arc<Package> {
    let arena = vec![
        FsEntry {
            kind: FsEntryKind::Directory,
            name: String::new(),
            extension: String::new(),
            data: Vec::new(),
            children: vec![1],
        },
        FsEntry {
            kind: FsEntryKind::File,
            name: "data".to_string(),
            extension: "bin".to_string(),
            data: payload.to_vec(),
            children: Vec::new(),
        },
    ];
    let options = PackingOptions::new_v1(
        "p".to_string(),
        namespace.to_string(),
        None,
        None,
        None,
    )
    .unwrap();
    let vols = create_arp_from_tree(&arena, &options).unwrap();
    Package::load_from_memory(vols[0].clone()).unwrap()
}

#[test]
fn package_set_finds_by_namespace() {
    let first = tiny_package("one", b"first payload");
    let second = tiny_package("two", b"second payload");
    let mut set = PackageSet::new(vec![first]);
    set.add_package(second);
    assert_eq!(set.get_packages().len(), 2);

    let from_two = set
        .find_resource(&ResourceIdentifier::parse("two:data.bin").unwrap())
        .unwrap();
    assert_eq!(from_two.load().unwrap(), b"second payload".to_vec());
    let from_one = set
        .find_resource(&ResourceIdentifier::parse("one:data.bin").unwrap())
        .unwrap();
    assert_eq!(from_one.load().unwrap(), b"first payload".to_vec());

    assert_eq!(
        set.find_resource(&ResourceIdentifier::parse("three:data.bin").unwrap())
            .unwrap_err(),
        ArpError::NotFoundInSet
    );
    assert_eq!(
        set.find_resource(&ResourceIdentifier::parse("one:missing").unwrap())
            .unwrap_err(),
        ArpError::NotFoundInSet
    );
}

#[test]
fn first_matching_package_wins() {
    let first = tiny_package("same", b"from the first");
    let second = tiny_package("same", b"from the second");
    let set = PackageSet::new(vec![first, second]);
    let found = set
        .find_resource(&ResourceIdentifier::parse("same:data.bin").unwrap())
        .unwrap();
    assert_eq!(found.load().unwrap(), b"from the first".to_vec());
    let packages: Vec<_> = set.into_packages();
    assert_eq!(packages.len(), 2);
}

#[test]
fn empty_table_finds_nothing() {
    let table = MediaTypeTable::new();
    assert_eq!(table.lookup("txt"), None);
}
