use vstd::prelude::*;

verus! {

/// Every failure the library can report, grouped by the stage that raises it:
/// packing configuration, on-disk format, payload integrity, and lookup.
#[derive(Clone, Copy, Debug, PartialEq, Eq, Structural)]
pub enum ArpError {
    /// Packing: the package name is empty.
    EmptyName,
    /// Packing: the package namespace is empty.
    EmptyNamespace,
    /// Packing: the namespace exceeds the 48-byte header field.
    NamespaceTooLong,
    /// Packing: a name or namespace holds a control character.
    PathComponentControlChar,
    /// Packing: a name or namespace holds a reserved separator character.
    PathComponentReservedChar,
    /// Identifier: the text has no namespace separator.
    MissingNamespaceSeparator,
    /// Identifier: the text holds a second namespace separator.
    ExtraNamespaceSeparator,
    /// Identifier: the namespace holds a path separator.
    NamespaceHasPathSeparator,
    /// Identifier: a path component is empty.
    EmptyPathComponent,
    /// Packing: the requested maximum part length is below the floor.
    PartLenTooSmall,
    /// Packing: the compression magic is not a known one.
    UnrecognizedCompression,
    /// Packing: a single node's payload does not fit in one part.
    OversizedResource,
    /// Packing: more parts would be needed than the format allows.
    TooManyParts,
    /// Packing: a node name, extension or media type exceeds 255 bytes.
    NameTooLong,
    /// Packing: the input tree references some entry twice, or out of range.
    MalformedTree,
    /// Loading: the buffer is shorter than the region a header declares.
    TruncatedPackage,
    /// Loading: the package magic does not match.
    BadMagic,
    /// Loading: the format major version is not supported.
    UnsupportedVersion,
    /// Loading: the compression magic stored in the header is unknown.
    BadCompressionMagic,
    /// Loading: the declared part count exceeds the format's ceiling.
    PartCountExceeded,
    /// Loading: a single buffer declares more than one part.
    InMemoryMultiPart,
    /// Loading: a catalogue record carries an unrecognized node type tag.
    UnknownNodeType,
    /// Loading: a stored name, extension, media type or namespace is not UTF-8.
    BadUtf8,
    /// Loading: a directory payload length is not a multiple of four.
    MalformedDirectoryPayload,
    /// Loading: a directory payload references an index with no node.
    UnknownChildIndex,
    /// Access: the stored checksum does not match the stored bytes.
    CrcMismatch,
    /// Access: the compressed stream is not decodable.
    DecompressionFailed,
    /// Access: the stream ended before the declared unpacked length.
    PrematureStreamEnd,
    /// Access: the stream continued past the declared unpacked length.
    MissingStreamEnd,
    /// Lookup: the identifier's namespace is not this package's.
    NamespaceMismatch,
    /// Lookup: no resource exists under the identifier.
    ResourceNotFound,
    /// Lookup: no package of a set has the resource.
    NotFoundInSet,
}

impl ArpError {
    /// The human-readable cause carried by the failure.
    pub fn message(&self) -> String {
        match self {
            ArpError::EmptyName => String::from_str("Package name cannot be empty"),
            ArpError::EmptyNamespace => String::from_str("Package namespace cannot be empty"),
            ArpError::NamespaceTooLong => String::from_str("Package namespace is too long"),
            ArpError::PathComponentControlChar => String::from_str(
                "Path component cannot contain control characters",
            ),
            ArpError::PathComponentReservedChar => String::from_str(
                "Path component cannot contain reserved characters",
            ),
            ArpError::MissingNamespaceSeparator => String::from_str(
                "Resource UID must contain namespace",
            ),
            ArpError::ExtraNamespaceSeparator => String::from_str(
                "Resource UID contains more than one namespace separator",
            ),
            ArpError::NamespaceHasPathSeparator => String::from_str(
                "Resource UID namespace cannot contain path separator",
            ),
            ArpError::EmptyPathComponent => String::from_str(
                "Resource UID contains empty path component",
            ),
            ArpError::PartLenTooSmall => String::from_str("Max part length is too small"),
            ArpError::UnrecognizedCompression => String::from_str("Unrecognized compression type"),
            ArpError::OversizedResource => String::from_str(
                "Max part size is smaller than largest resource",
            ),
            ArpError::TooManyParts => String::from_str("Part count would exceed maximum"),
            ArpError::NameTooLong => String::from_str("Node name is too long"),
            ArpError::MalformedTree => String::from_str("Input tree is malformed"),
            ArpError::TruncatedPackage => String::from_str("Package data is truncated"),
            ArpError::BadMagic => String::from_str("Format magic is incorrect"),
            ArpError::UnsupportedVersion => String::from_str("Unsupported format version"),
            ArpError::BadCompressionMagic => String::from_str("Compression magic not recognized"),
            ArpError::PartCountExceeded => String::from_str("Package contains too many parts"),
            ArpError::InMemoryMultiPart => String::from_str(
                "In-memory packages cannot contain multiple parts",
            ),
            ArpError::UnknownNodeType => String::from_str("Encountered unrecognized node type"),
            ArpError::BadUtf8 => String::from_str("Stored text is not valid UTF-8"),
            ArpError::MalformedDirectoryPayload => String::from_str(
                "Directory payload is malformed",
            ),
            ArpError::UnknownChildIndex => String::from_str(
                "Directory payload references an unknown node",
            ),
            ArpError::CrcMismatch => String::from_str("CRC mismatch"),
            ArpError::DecompressionFailed => String::from_str("Compressed data is invalid"),
            ArpError::PrematureStreamEnd => String::from_str(
                "Encountered premature end of DEFLATE stream",
            ),
            ArpError::MissingStreamEnd => String::from_str("Expected end of DEFLATE stream"),
            ArpError::NamespaceMismatch => String::from_str("Namespace does not match"),
            ArpError::ResourceNotFound => String::from_str(
                "No resource exists with the given identifier",
            ),
            ArpError::NotFoundInSet => String::from_str("Resource not found in package set"),
        }
    }
}

} // verus!
