//! The compression kinds a package may declare.

use vstd::prelude::*;

verus! {

/// The two-byte magic that tags DEFLATE compression in a package header.
pub open spec fn spec_deflate_magic() -> Seq<u8> {
    seq![0x64u8, 0x66u8]
}

/// A compression kind supported by the format.
#[derive(Clone, Copy, Debug, PartialEq, Eq, Structural)]
pub enum CompressionType {
    Deflate,
}

impl CompressionType {
    /// Classifies a two-byte compression magic from a package header.
    pub fn from_magic(magic: &[u8; 2]) -> (r: Option<CompressionType>)
        ensures
            r == (if magic@ == spec_deflate_magic() {
                Some(CompressionType::Deflate)
            } else {
                None::<CompressionType>
            }),
    {
        if magic[0] == 0x64 && magic[1] == 0x66 {
            proof {
                assert(magic@ =~= spec_deflate_magic());
            }
            Some(CompressionType::Deflate)
        } else {
            proof {
                assert(magic@ != spec_deflate_magic());
            }
            None
        }
    }

    /// The two-byte magic under which this kind is stored.
    pub fn get_magic(&self) -> (r: [u8; 2])
        ensures
            r@ == spec_deflate_magic(),
    {
        let r: [u8; 2] = [0x64, 0x66];
        proof {
            assert(r@ =~= spec_deflate_magic());
        }
        r
    }
}

} // verus!
