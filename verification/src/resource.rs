//! Resource access: a descriptor resolved by lookup, and the load path that
//! reads the stored bytes, verifies their checksum, and undoes compression.

use std::sync::Arc;
use vstd::prelude::*;
use vstd::slice::slice_subrange;
use vstd::slice::slice_to_vec;

use crate::crc32c::crc32c;
use crate::crc32c::spec_crc32c;
use crate::error::ArpError;
use crate::pack::inflate_of;
use crate::package::CatalogueNode;
use crate::package::Package;
use crate::package::ResourceNode;
use crate::types::CompressionType;
use crate::uid::ResourceIdentifier;

verus! {

/// A loaded resource: its descriptor and its logical bytes.
#[derive(Debug)]
pub struct Resource {
    /// The descriptor the bytes were loaded through.
    pub descriptor: ResourceDescriptor,
    /// The resource's logical (unpacked) bytes.
    pub data: Vec<u8>,
}

/// A resolved, package-bound handle to one resource node.
#[derive(Debug)]
pub struct ResourceDescriptor {
    /// The package the resource lives in; the descriptor keeps it alive.
    pub package: Arc<Package>,
    /// The identifier the descriptor was resolved from.
    pub identifier: ResourceIdentifier,
    /// The resource's name without extension.
    pub name: String,
    /// The resource's extension.
    pub extension: String,
    /// The resource's media type.
    pub media_type: String,
    /// The resource's logical size in bytes.
    pub size: u64,
    /// The resource's catalogue index.
    pub index: u32,
}

/// The bytes stored for a resource node: the recorded slice of the recorded
/// part, measured past the body offset in part 1 and past the part header in
/// every other part; nothing if the recorded region lies outside the part.
pub open spec fn spec_resource_region(p: Package, rn: ResourceNode) -> Option<Seq<u8>> {
    let part = rn.data_part as int;
    if 1 <= part <= p.volumes@.len() {
        let base: int = if part == 1 {
            p.meta.body_off as int
        } else {
            16
        };
        let v = p.volumes@[part - 1]@;
        if base + rn.data_off + rn.data_len_packed <= v.len() {
            Some(v.subrange(base + rn.data_off, base + rn.data_off + rn.data_len_packed))
        } else {
            None
        }
    } else {
        None
    }
}

/// What loading a resource node from a package gives: the stored bytes after
/// a checksum match when uncompressed; the decompressed bytes after both the
/// checksum match and a whole stream of exactly the declared length when
/// compressed; the precise failure otherwise.
pub open spec fn spec_load_result(p: Package, rn: ResourceNode) -> Result<Seq<u8>, ArpError> {
    match spec_resource_region(p, rn) {
        None => Err(ArpError::TruncatedPackage),
        Some(stored) => {
            if spec_crc32c(stored) != rn.crc {
                Err(ArpError::CrcMismatch)
            } else {
                match p.meta.compression_type {
                    None => Ok(stored),
                    Some(CompressionType::Deflate) => match inflate_of(stored) {
                        None => Err(ArpError::DecompressionFailed),
                        Some(out) => {
                            if out.len() < rn.data_len_unpacked {
                                Err(ArpError::PrematureStreamEnd)
                            } else if out.len() > rn.data_len_unpacked {
                                Err(ArpError::MissingStreamEnd)
                            } else {
                                Ok(out)
                            }
                        },
                    },
                }
            }
        },
    }
}

/// Relies on miniz_oxide's `decompress_to_vec_zlib`: a pure function of its
/// input, decoding a whole zlib stream or failing.
#[verifier::external_body]
fn deflate_decompress(data: &Vec<u8>) -> (r: Option<Vec<u8>>)
    ensures
        match r {
            Some(v) => inflate_of(data@) == Some(v@),
            None => inflate_of(data@) is None,
        },
{
    match miniz_oxide::inflate::decompress_to_vec_zlib(data.as_slice()) {
        Ok(v) => Some(v),
        Err(_) => None,
    }
}

impl ResourceDescriptor {
    /// Loads the resource's logical bytes: reads exactly the stored slice,
    /// verifies its CRC32C against the recorded one, and, if the package is
    /// compressed, decompresses to exactly the declared unpacked length.
    /// Gives exactly what `spec_load_result` says of the descriptor's node.
    pub fn load(&self) -> (r: Result<Vec<u8>, ArpError>)
        ensures
            ({
                let nodes = self.package.catalogue.nodes@;
                if self.index < nodes.len() {
                    match nodes[self.index as int] {
                        CatalogueNode::Resource(rn) => match r {
                            Ok(v) => spec_load_result(*self.package, rn) == Ok::<Seq<u8>, ArpError>(
                                v@,
                            ),
                            Err(e) => spec_load_result(*self.package, rn) == Err::<
                                Seq<u8>,
                                ArpError,
                            >(e),
                        },
                        CatalogueNode::Directory(_) => r == Err::<Vec<u8>, ArpError>(
                            ArpError::ResourceNotFound,
                        ),
                    }
                } else {
                    r == Err::<Vec<u8>, ArpError>(ArpError::ResourceNotFound)
                }
            }),
    {
        let nodes = &self.package.catalogue.nodes;
        if self.index as usize >= nodes.len() {
            return Err(ArpError::ResourceNotFound);
        }
        let rn = match &nodes[self.index as usize] {
            CatalogueNode::Resource(rn) => rn,
            CatalogueNode::Directory(_) => {
                return Err(ArpError::ResourceNotFound);
            },
        };
        let part = rn.data_part;
        if part < 1 || part as usize > self.package.volumes.len() {
            return Err(ArpError::TruncatedPackage);
        }
        let vol = &self.package.volumes[part as usize - 1];
        let base: u64 = if part == 1 {
            self.package.meta.body_off
        } else {
            crate::layout::PACKAGE_PART_HEADER_LEN as u64
        };
        let vlen = vol.len() as u64;
        if base > vlen || rn.data_off > vlen - base || rn.data_len_packed > vlen - base
            - rn.data_off {
            return Err(ArpError::TruncatedPackage);
        }
        let start = (base + rn.data_off) as usize;
        let end = (base + rn.data_off + rn.data_len_packed) as usize;
        let stored = slice_to_vec(slice_subrange(vol.as_slice(), start, end));
        let actual_crc = crc32c(stored.as_slice());
        if actual_crc != rn.crc {
            return Err(ArpError::CrcMismatch);
        }
        match self.package.meta.compression_type {
            None => Ok(stored),
            Some(CompressionType::Deflate) => {
                let unpacked = match deflate_decompress(&stored) {
                    Some(v) => v,
                    None => {
                        return Err(ArpError::DecompressionFailed);
                    },
                };
                let got = unpacked.len() as u64;
                if got < rn.data_len_unpacked {
                    return Err(ArpError::PrematureStreamEnd);
                }
                if got > rn.data_len_unpacked {
                    return Err(ArpError::MissingStreamEnd);
                }
                Ok(unpacked)
            },
        }
    }
}

} // verus!
