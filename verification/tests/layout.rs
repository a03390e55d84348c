use arp::error::ArpError;
use arp::layout::encode_header;
use arp::layout::encode_index_list;
use arp::layout::encode_node_desc;
use arp::layout::encode_part_header;
use arp::layout::parse_header;
use arp::layout::parse_index_list;
use arp::layout::parse_node_desc;
use arp::layout::validate_package_meta;
use arp::layout::NodeDesc;
use arp::layout::NodeKind;
use arp::layout::PackageMeta;
use arp::types::CompressionType;

fn sample_meta(compression: Option<CompressionType>) -> PackageMeta {
    PackageMeta {
        major_version: 1,
        compression_type: compression,
        namespace: "testing".to_string(),
        total_parts: 3,
        cat_off: 256,
        cat_len: 123,
        node_count: 7,
        directory_count: 2,
        resource_count: 5,
        body_off: 379,
        body_len: 4096,
    }
}

#[test]
fn header_round_trips_uncompressed() {
    let meta = sample_meta(None);
    let bytes = encode_header(&meta);
    assert_eq!(bytes.len(), 256);
    let parsed = parse_header(&bytes).unwrap();
    assert_eq!(parsed.major_version, 1);
    assert_eq!(parsed.compression_type, None);
    assert_eq!(parsed.namespace, "testing");
    assert_eq!(parsed.total_parts, 3);
    assert_eq!(parsed.cat_off, 256);
    assert_eq!(parsed.cat_len, 123);
    assert_eq!(parsed.node_count, 7);
    assert_eq!(parsed.directory_count, 2);
    assert_eq!(parsed.resource_count, 5);
    assert_eq!(parsed.body_off, 379);
    assert_eq!(parsed.body_len, 4096);
}

#[test]
fn header_round_trips_compressed() {
    let meta = sample_meta(Some(CompressionType::Deflate));
    let bytes = encode_header(&meta);
    assert_eq!(&bytes[10..12], b"df");
    let parsed = parse_header(&bytes).unwrap();
    assert_eq!(parsed.compression_type, Some(CompressionType::Deflate));
}

#[test]
fn header_rejects_bad_magic() {
    let meta = sample_meta(None);
    let mut bytes = encode_header(&meta);
    bytes[0] ^= 0xFF;
    assert_eq!(parse_header(&bytes).unwrap_err(), ArpError::BadMagic);
}

#[test]
fn header_rejects_unknown_compression_magic() {
    let meta = sample_meta(None);
    let mut bytes = encode_header(&meta);
    bytes[10] = b'z';
    bytes[11] = b'z';
    assert_eq!(parse_header(&bytes).unwrap_err(), ArpError::BadCompressionMagic);
}

#[test]
fn meta_validation_checks_version_and_parts() {
    let mut meta = sample_meta(None);
    assert!(validate_package_meta(&meta).is_ok());
    meta.major_version = 2;
    assert_eq!(validate_package_meta(&meta).unwrap_err(), ArpError::UnsupportedVersion);
    meta.major_version = 1;
    meta.total_parts = 1000;
    assert_eq!(validate_package_meta(&meta).unwrap_err(), ArpError::PartCountExceeded);
}

#[test]
fn node_descriptor_round_trips() {
    let desc = NodeDesc {
        kind: NodeKind::Resource,
        part: 2,
        data_off: 1234,
        packed_len: 55,
        unpacked_len: 99,
        crc: 0xCAFEBABE,
        name: "logo".to_string(),
        ext: "png".to_string(),
        media_type: "image/png".to_string(),
    };
    let bytes = encode_node_desc(&desc);
    assert_eq!(bytes.len(), 0x24 + 4 + 3 + 9);
    let (parsed, next) = parse_node_desc(&bytes, 0).unwrap();
    assert_eq!(next, bytes.len());
    assert_eq!(parsed.kind, NodeKind::Resource);
    assert_eq!(parsed.part, 2);
    assert_eq!(parsed.data_off, 1234);
    assert_eq!(parsed.packed_len, 55);
    assert_eq!(parsed.unpacked_len, 99);
    assert_eq!(parsed.crc, 0xCAFEBABE);
    assert_eq!(parsed.name, "logo");
    assert_eq!(parsed.ext, "png");
    assert_eq!(parsed.media_type, "image/png");
}

#[test]
fn directory_descriptor_round_trips() {
    let desc = NodeDesc {
        kind: NodeKind::Directory,
        part: 1,
        data_off: 0,
        packed_len: 8,
        unpacked_len: 8,
        crc: 7,
        name: "".to_string(),
        ext: "".to_string(),
        media_type: "".to_string(),
    };
    let bytes = encode_node_desc(&desc);
    assert_eq!(bytes.len(), 0x24);
    assert_eq!(bytes[2], 1);
    let (parsed, _) = parse_node_desc(&bytes, 0).unwrap();
    assert_eq!(parsed.kind, NodeKind::Directory);
    assert_eq!(parsed.name, "");
}

#[test]
fn node_descriptor_rejects_unknown_type() {
    let desc = NodeDesc {
        kind: NodeKind::Resource,
        part: 1,
        data_off: 0,
        packed_len: 0,
        unpacked_len: 0,
        crc: 0,
        name: "x".to_string(),
        ext: "".to_string(),
        media_type: "".to_string(),
    };
    let mut bytes = encode_node_desc(&desc);
    bytes[2] = 9;
    assert_eq!(parse_node_desc(&bytes, 0).unwrap_err(), ArpError::UnknownNodeType);
}

#[test]
fn node_descriptor_rejects_truncation() {
    let bytes = vec![0u8; 1];
    assert_eq!(parse_node_desc(&bytes, 0).unwrap_err(), ArpError::TruncatedPackage);
    // A declared record length reaching past the buffer is also truncation.
    let bytes = vec![0xFF, 0xFF, 0, 0];
    assert_eq!(parse_node_desc(&bytes, 0).unwrap_err(), ArpError::TruncatedPackage);
}

#[test]
fn index_list_round_trips() {
    let idxs = vec![0u32, 1, 2, 0xDEADBEEF, 42];
    let bytes = encode_index_list(&idxs);
    assert_eq!(bytes.len(), 20);
    let parsed = parse_index_list(&bytes).unwrap();
    assert_eq!(parsed, idxs);
}

#[test]
fn index_list_rejects_ragged_payload() {
    let bytes = vec![0u8; 7];
    assert_eq!(parse_index_list(&bytes).unwrap_err(), ArpError::MalformedDirectoryPayload);
}

#[test]
fn part_header_layout() {
    let bytes = encode_part_header(7);
    assert_eq!(bytes.len(), 16);
    assert_eq!(&bytes[0..8], &[0x1B, 0x41, 0x52, 0x47, 0x55, 0x53, 0x50, 0x54]);
    assert_eq!(bytes[8], 7);
    assert_eq!(bytes[9], 0);
    assert_eq!(&bytes[10..16], &[0, 0, 0, 0, 0, 0]);
}

#[test]
fn compression_magic_round_trips() {
    let magic = CompressionType::Deflate.get_magic();
    assert_eq!(&magic, b"df");
    assert_eq!(CompressionType::from_magic(&magic), Some(CompressionType::Deflate));
    assert_eq!(CompressionType::from_magic(b"zz"), None);
}

#[test]
fn header_namespace_decodes_lossily() {
    // A namespace field that is not valid UTF-8 still parses; the offending
    // byte becomes the replacement character.
    let meta = sample_meta(None);
    let mut bytes = encode_header(&meta);
    bytes[12] = 0xFF;
    let parsed = parse_header(&bytes).unwrap();
    assert!(parsed.namespace.starts_with('\u{FFFD}'));
    assert!(parsed.namespace.ends_with("esting"));
}

#[test]
fn meta_validation_checks_namespace() {
    let mut meta = sample_meta(None);
    meta.namespace = String::new();
    assert_eq!(validate_package_meta(&meta).unwrap_err(), ArpError::EmptyNamespace);
    meta.namespace = "bad/ns".to_string();
    assert_eq!(
        validate_package_meta(&meta).unwrap_err(),
        ArpError::PathComponentReservedChar
    );
}
