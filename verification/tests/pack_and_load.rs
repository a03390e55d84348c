use arp::error::ArpError;
use arp::pack::create_arp_from_tree;
use arp::pack::volume_file_name;
use arp::pack::FsEntry;
use arp::pack::FsEntryKind;
use arp::pack::PackingOptions;
use arp::package::Package;
use arp::uid::ResourceIdentifier;

fn dir(name: &str, children: Vec<usize>) -> FsEntry {
    FsEntry {
        kind: FsEntryKind::Directory,
        name: name.to_string(),
        extension: String::new(),
        data: Vec::new(),
        children,
    }
}

fn file(name: &str, ext: &str, data: Vec<u8>) -> FsEntry {
    FsEntry {
        kind: FsEntryKind::File,
        name: name.to_string(),
        extension: ext.to_string(),
        data,
        children: Vec::new(),
    }
}

/// The tree `root/a.txt` ("hello"), `root/sub/b.bin` (`b_len` zero bytes).
fn sample_tree(b_len: usize) -> Vec<FsEntry> {
    vec![
        dir("", vec![1, 2]),
        file("a", "txt", b"hello".to_vec()),
        dir("sub", vec![3]),
        file("b", "bin", vec![0u8; b_len]),
    ]
}

fn options(
    max_part_len: Option<u64>,
    compression: Option<&str>,
) -> PackingOptions {
    PackingOptions::new_v1(
        "root".to_string(),
        "ns".to_string(),
        max_part_len,
        compression.map(|s| s.to_string()),
        None,
    )
    .unwrap()
}

#[test]
fn pack_unbounded_single_volume_scenario() {
    let vols = create_arp_from_tree(&sample_tree(1000), &options(None, None)).unwrap();
    assert_eq!(vols.len(), 1);
    assert_eq!(volume_file_name("root", 1, 1), "root.arp");

    let package = Package::load_from_memory(vols[0].clone()).unwrap();
    assert_eq!(package.get_namespace(), "ns");
    assert!(package.is_in_memory());

    let a = package
        .find_resource(&ResourceIdentifier::parse("ns:a.txt").unwrap())
        .unwrap();
    assert_eq!(a.size, 5);
    assert_eq!(a.name, "a");
    assert_eq!(a.extension, "txt");
    assert_eq!(a.media_type, "text/plain");
    assert_eq!(a.load().unwrap(), b"hello".to_vec());

    let b = package
        .find_resource(&ResourceIdentifier::parse("ns:sub/b.bin").unwrap())
        .unwrap();
    assert_eq!(b.size, 1000);
    assert_eq!(b.media_type, "application/octet-stream");
    assert_eq!(b.load().unwrap(), vec![0u8; 1000]);

    assert_eq!(
        package
            .find_resource(&ResourceIdentifier::parse("ns:missing").unwrap())
            .unwrap_err(),
        ArpError::ResourceNotFound
    );
    assert_eq!(
        package
            .find_resource(&ResourceIdentifier::parse("other:a.txt").unwrap())
            .unwrap_err(),
        ArpError::NamespaceMismatch
    );
}

#[test]
fn pack_forced_split_scenario() {
    // With a 4096-byte cap, a 4000-byte payload no longer fits behind the
    // header, catalogue and the smaller payloads of the first part, but does
    // fit in a continuation part of its own.
    let vols = create_arp_from_tree(&sample_tree(4000), &options(Some(4096), None)).unwrap();
    assert_eq!(vols.len(), 2);
    assert_eq!(volume_file_name("root", 1, 2), "root.part001.arp");
    assert_eq!(volume_file_name("root", 2, 2), "root.part002.arp");
    assert!(vols[0].len() <= 4096);
    assert!(vols[1].len() <= 4096);
    // The continuation part opens with the part magic and its 1-based index.
    assert_eq!(&vols[1][0..8], &[0x1B, 0x41, 0x52, 0x47, 0x55, 0x53, 0x50, 0x54]);
    assert_eq!(vols[1][8], 2);

    let package = Package::load_from_volumes(vols, Some("root".to_string())).unwrap();
    assert!(!package.is_in_memory());
    assert_eq!(package.get_base_file_name(), Some("root"));

    let b = package
        .find_resource(&ResourceIdentifier::parse("ns:sub/b.bin").unwrap())
        .unwrap();
    assert_eq!(b.load().unwrap(), vec![0u8; 4000]);
    let a = package
        .find_resource(&ResourceIdentifier::parse("ns:a.txt").unwrap())
        .unwrap();
    assert_eq!(a.load().unwrap(), b"hello".to_vec());
}

#[test]
fn volume_cap_is_respected_across_many_splits() {
    // Several resources of varied sizes: no emitted volume may exceed the cap.
    let mut arena = vec![dir("", vec![1, 2, 3, 4, 5])];
    for (i, len) in [900usize, 2500, 3000, 1200, 2000].iter().enumerate() {
        let name = format!("f{}", i);
        arena.push(file(&name, "bin", vec![i as u8; *len]));
    }
    let vols = create_arp_from_tree(&arena, &options(Some(4096), None)).unwrap();
    assert!(vols.len() >= 2);
    for v in &vols {
        assert!(v.len() <= 4096);
    }
    let package = Package::load_from_volumes(vols, None).unwrap();
    for (i, len) in [900usize, 2500, 3000, 1200, 2000].iter().enumerate() {
        let uid = ResourceIdentifier::parse(&format!("ns:f{}.bin", i)).unwrap();
        let data = package.find_resource(&uid).unwrap().load().unwrap();
        assert_eq!(data, vec![i as u8; *len]);
    }
}

#[test]
fn oversized_resource_is_a_configuration_error() {
    let vols = create_arp_from_tree(&sample_tree(5000), &options(Some(4096), None));
    assert_eq!(vols.unwrap_err(), ArpError::OversizedResource);
}

#[test]
fn deflate_round_trip() {
    let mut tree = sample_tree(1000);
    // Compressible payload so the stored bytes genuinely shrink.
    tree.push(file("c", "txt", b"abcabcabcabc".repeat(200).to_vec()));
    tree[0].children.push(4);
    let vols = create_arp_from_tree(&tree, &options(None, Some("df"))).unwrap();
    assert_eq!(vols.len(), 1);
    assert_eq!(&vols[0][10..12], b"df");

    let package = Package::load_from_memory(vols[0].clone()).unwrap();
    let c = package
        .find_resource(&ResourceIdentifier::parse("ns:c.txt").unwrap())
        .unwrap();
    assert_eq!(c.size, 2400);
    assert_eq!(c.load().unwrap(), b"abcabcabcabc".repeat(200).to_vec());
    let a = package
        .find_resource(&ResourceIdentifier::parse("ns:a.txt").unwrap())
        .unwrap();
    assert_eq!(a.load().unwrap(), b"hello".to_vec());
}

#[test]
fn corruption_in_payload_is_detected() {
    let vols = create_arp_from_tree(&sample_tree(1000), &options(None, None)).unwrap();
    let image = vols[0].clone();
    // The body holds, in order: the root payload (8 bytes), sub's payload
    // (4 bytes), a.txt's 5 bytes, then b.bin's 1000 zero bytes. Flipping any
    // byte of a stored resource payload must fail the load with a checksum
    // mismatch, never return altered data.
    let body_off = image.len() - 8 - 4 - 5 - 1000;
    for pos in body_off + 12..image.len() {
        let mut corrupted = image.clone();
        corrupted[pos] ^= 0x40;
        let package = Package::load_from_memory(corrupted).unwrap();
        let uid = if pos < body_off + 17 { "ns:a.txt" } else { "ns:sub/b.bin" };
        let desc = package
            .find_resource(&ResourceIdentifier::parse(uid).unwrap())
            .unwrap();
        assert_eq!(desc.load().unwrap_err(), ArpError::CrcMismatch);
    }
}

#[test]
fn whole_tree_round_trips_exactly() {
    // Round trip: every file's bytes and every directory relationship come
    // back out of the packed image, with and without compression.
    let mut arena = vec![dir("", vec![1, 2])];
    arena.push(dir("alpha", vec![3, 4]));
    arena.push(file("top", "dat", (0u8..200).collect()));
    arena.push(dir("beta", vec![5]));
    arena.push(file("inner", "", b"no extension here".to_vec()));
    arena.push(file("deep", "txt", b"deepest".to_vec()));
    for compression in [None, Some("df")] {
        let vols = create_arp_from_tree(&arena, &options(None, compression)).unwrap();
        let package = Package::load_from_memory(vols[0].clone()).unwrap();
        let cases: Vec<(&str, Vec<u8>)> = vec![
            ("ns:top.dat", (0u8..200).collect()),
            ("ns:alpha/inner", b"no extension here".to_vec()),
            ("ns:alpha/beta/deep.txt", b"deepest".to_vec()),
        ];
        for (uid, expected) in cases {
            let desc = package
                .find_resource(&ResourceIdentifier::parse(uid).unwrap())
                .unwrap();
            assert_eq!(desc.load().unwrap(), expected, "at {}", uid);
        }
    }
}

#[test]
fn enumeration_yields_every_resource() {
    let vols = create_arp_from_tree(&sample_tree(1000), &options(None, None)).unwrap();
    let package = Package::load_from_memory(vols[0].clone()).unwrap();
    let mut uids: Vec<String> = package
        .get_all_resource_descriptors()
        .iter()
        .map(|d| d.identifier.to_string())
        .collect();
    uids.sort();
    assert_eq!(uids, vec!["ns:a.txt".to_string(), "ns:sub/b.bin".to_string()]);
}

#[test]
fn load_rejects_corrupted_header() {
    let vols = create_arp_from_tree(&sample_tree(10), &options(None, None)).unwrap();
    let image = vols[0].clone();

    let mut bad_magic = image.clone();
    bad_magic[0] ^= 0xFF;
    assert_eq!(Package::load_from_memory(bad_magic).unwrap_err(), ArpError::BadMagic);

    let mut bad_version = image.clone();
    bad_version[8] = 2;
    assert_eq!(Package::load_from_memory(bad_version).unwrap_err(), ArpError::UnsupportedVersion);

    let mut bad_type = image.clone();
    bad_type[256 + 2] = 9;
    assert_eq!(Package::load_from_memory(bad_type).unwrap_err(), ArpError::UnknownNodeType);

    assert_eq!(
        Package::load_from_memory(image[..100].to_vec()).unwrap_err(),
        ArpError::TruncatedPackage
    );
}

#[test]
fn load_from_memory_rejects_multi_part() {
    let vols = create_arp_from_tree(&sample_tree(4000), &options(Some(4096), None)).unwrap();
    assert_eq!(vols.len(), 2);
    assert_eq!(
        Package::load_from_memory(vols[0].clone()).unwrap_err(),
        ArpError::InMemoryMultiPart
    );
}

#[test]
fn packing_options_are_validated() {
    let err = |r: Result<PackingOptions, ArpError>| r.unwrap_err();
    assert_eq!(
        err(PackingOptions::new_v1("".to_string(), "ns".to_string(), None, None, None)),
        ArpError::EmptyName
    );
    assert_eq!(
        err(PackingOptions::new_v1("p".to_string(), "".to_string(), None, None, None)),
        ArpError::EmptyNamespace
    );
    assert_eq!(
        err(PackingOptions::new_v1("p".to_string(), "n".repeat(49), None, None, None)),
        ArpError::NamespaceTooLong
    );
    assert_eq!(
        err(PackingOptions::new_v1("p".to_string(), "n/s".to_string(), None, None, None)),
        ArpError::PathComponentReservedChar
    );
    assert_eq!(
        err(PackingOptions::new_v1("p".to_string(), "n\u{1}s".to_string(), None, None, None)),
        ArpError::PathComponentControlChar
    );
    assert_eq!(
        err(PackingOptions::new_v1("p".to_string(), "ns".to_string(), Some(4095), None, None)),
        ArpError::PartLenTooSmall
    );
    assert_eq!(
        err(PackingOptions::new_v1(
            "p".to_string(),
            "ns".to_string(),
            None,
            Some("zz".to_string()),
            None
        )),
        ArpError::UnrecognizedCompression
    );
    assert!(PackingOptions::new_v1(
        "p".to_string(),
        "ns".to_string(),
        Some(4096),
        Some("df".to_string()),
        None
    )
    .is_ok());
}

#[test]
fn volume_file_names_are_three_digit_padded() {
    assert_eq!(volume_file_name("pkg", 1, 1), "pkg.arp");
    assert_eq!(volume_file_name("pkg", 1, 2), "pkg.part001.arp");
    assert_eq!(volume_file_name("pkg", 12, 40), "pkg.part012.arp");
    assert_eq!(volume_file_name("pkg", 999, 999), "pkg.part999.arp");
}

#[test]
fn error_messages_are_human_readable() {
    assert_eq!(ArpError::CrcMismatch.message(), "CRC mismatch");
    assert_eq!(
        ArpError::ResourceNotFound.message(),
        "No resource exists with the given identifier"
    );
    assert_eq!(
        ArpError::OversizedResource.message(),
        "Max part size is smaller than largest resource"
    );
}

#[test]
fn empty_media_type_defaults_on_load() {
    // A hand-built package whose resource record carries a zero-length media
    // type: the loader substitutes the default media type.
    let node = arp::layout::NodeDesc {
        kind: arp::layout::NodeKind::Resource,
        part: 1,
        data_off: 0,
        packed_len: 2,
        unpacked_len: 2,
        crc: arp::crc32c::crc32c(b"hi"),
        name: "x".to_string(),
        ext: "q".to_string(),
        media_type: String::new(),
    };
    let record = arp::layout::encode_node_desc(&node);
    let meta = arp::layout::PackageMeta {
        major_version: 1,
        compression_type: None,
        namespace: "ns".to_string(),
        total_parts: 1,
        cat_off: 256,
        cat_len: record.len() as u64,
        node_count: 1,
        directory_count: 0,
        resource_count: 1,
        body_off: 256 + record.len() as u64,
        body_len: 2,
    };
    let mut image = arp::layout::encode_header(&meta);
    image.extend_from_slice(&record);
    image.extend_from_slice(b"hi");
    let package = Package::load_from_memory(image).unwrap();
    let descs = package.get_all_resource_descriptors();
    // The lone resource hangs off no directory, so enumeration from the
    // root yields nothing; read the node table directly instead.
    assert!(descs.is_empty());
    match &package.catalogue.nodes[0] {
        arp::package::CatalogueNode::Resource(rn) => {
            assert_eq!(rn.media_type, "application/octet-stream");
        }
        arp::package::CatalogueNode::Directory(_) => panic!("expected a resource node"),
    }
}
