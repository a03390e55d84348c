//! The exact binary layout of a package: the 256-byte package header, the
//! 16-byte part header, and the variable-length node descriptor records of
//! the catalogue. Both the encoder and the decoder are proved against the
//! same byte-level spec functions, and parsing an encoding is proved to give
//! back what was encoded.

use vstd::bytes::*;
use vstd::prelude::*;
use vstd::slice::*;
use vstd::utf8::*;

use crate::error::ArpError;
use crate::trusted::bytes_to_string;
use crate::types::spec_deflate_magic;
use crate::types::CompressionType;

verus! {

/// Length of the package header, always at the start of the first part.
pub const PACKAGE_HEADER_LEN: usize = 256;

/// Length of the header at the start of every continuation part.
pub const PACKAGE_PART_HEADER_LEN: usize = 16;

/// Length of a node descriptor before its three trailing strings.
pub const NODE_DESC_BASE_LEN: usize = 0x24;

/// Node type tag of a resource.
pub const PACK_NODE_TYPE_RESOURCE: u8 = 0;

/// Node type tag of a directory.
pub const PACK_NODE_TYPE_DIRECTORY: u8 = 1;

/// The most parts a package may consist of.
pub const PARTS_MAX: u16 = 999;

/// The smallest maximum part length a packing configuration may request.
pub const PART_LEN_MIN: u64 = 4096;

/// The width of the zero-padded namespace field in the package header.
pub const NAMESPACE_MAX_LEN: usize = 48;

/// The eight magic bytes that open a package header.
pub open spec fn spec_format_magic() -> Seq<u8> {
    seq![0x1Bu8, 0x41u8, 0x52u8, 0x47u8, 0x55u8, 0x53u8, 0x52u8, 0x50u8]
}

/// The eight magic bytes that open a continuation part header.
pub open spec fn spec_part_magic() -> Seq<u8> {
    seq![0x1Bu8, 0x41u8, 0x52u8, 0x47u8, 0x55u8, 0x53u8, 0x50u8, 0x54u8]
}

/// A run of `n` zero bytes.
pub open spec fn zero_bytes(n: nat) -> Seq<u8> {
    Seq::new(n, |i: int| 0u8)
}

/// Appends `n` zero bytes.
pub fn push_zero_bytes(buf: &mut Vec<u8>, n: usize)
    ensures
        final(buf)@ == old(buf)@ + zero_bytes(n as nat),
{
    let mut i: usize = 0;
    while i < n
        invariant
            i <= n,
            buf@ == old(buf)@ + zero_bytes(i as nat),
        decreases n - i,
    {
        buf.push(0);
        proof {
            assert(old(buf)@ + zero_bytes((i + 1) as nat) =~= (old(buf)@ + zero_bytes(
                i as nat,
            )).push(0u8));
        }
        i += 1;
    }
    proof {
        assert(buf@ =~= old(buf)@ + zero_bytes(n as nat));
    }
}

/// Appends the package format magic.
pub fn push_format_magic(buf: &mut Vec<u8>)
    ensures
        final(buf)@ == old(buf)@ + spec_format_magic(),
{
    buf.push(0x1B);
    buf.push(0x41);
    buf.push(0x52);
    buf.push(0x47);
    buf.push(0x55);
    buf.push(0x53);
    buf.push(0x52);
    buf.push(0x50);
    proof {
        assert(buf@ =~= old(buf)@ + spec_format_magic());
    }
}

/// Appends the continuation part magic.
pub fn push_part_magic(buf: &mut Vec<u8>)
    ensures
        final(buf)@ == old(buf)@ + spec_part_magic(),
{
    buf.push(0x1B);
    buf.push(0x41);
    buf.push(0x52);
    buf.push(0x47);
    buf.push(0x55);
    buf.push(0x53);
    buf.push(0x50);
    buf.push(0x54);
    proof {
        assert(buf@ =~= old(buf)@ + spec_part_magic());
    }
}

/// Appends a `u16` in little-endian order.
pub fn push_u16_le(buf: &mut Vec<u8>, val: u16)
    ensures
        final(buf)@ == old(buf)@ + spec_u16_to_le_bytes(val),
{
    let mut b = u16_to_le_bytes(val);
    buf.append(&mut b);
}

/// Appends a `u32` in little-endian order.
pub fn push_u32_le(buf: &mut Vec<u8>, val: u32)
    ensures
        final(buf)@ == old(buf)@ + spec_u32_to_le_bytes(val),
{
    let mut b = u32_to_le_bytes(val);
    buf.append(&mut b);
}

/// Appends a `u64` in little-endian order.
pub fn push_u64_le(buf: &mut Vec<u8>, val: u64)
    ensures
        final(buf)@ == old(buf)@ + spec_u64_to_le_bytes(val),
{
    let mut b = u64_to_le_bytes(val);
    buf.append(&mut b);
}

/// Reads a little-endian `u16` at `off`.
pub fn read_u16_le(buf: &[u8], off: usize) -> (r: u16)
    requires
        off + 2 <= buf.len(),
    ensures
        r == spec_u16_from_le_bytes(buf@.subrange(off as int, off + 2)),
{
    u16_from_le_bytes(slice_subrange(buf, off, off + 2))
}

/// Reads a little-endian `u32` at `off`.
pub fn read_u32_le(buf: &[u8], off: usize) -> (r: u32)
    requires
        off + 4 <= buf.len(),
    ensures
        r == spec_u32_from_le_bytes(buf@.subrange(off as int, off + 4)),
{
    u32_from_le_bytes(slice_subrange(buf, off, off + 4))
}

/// Reads a little-endian `u64` at `off`.
pub fn read_u64_le(buf: &[u8], off: usize) -> (r: u64)
    requires
        off + 8 <= buf.len(),
    ensures
        r == spec_u64_from_le_bytes(buf@.subrange(off as int, off + 8)),
{
    u64_from_le_bytes(slice_subrange(buf, off, off + 8))
}

/// The mathematical content of a package header.
pub ghost struct HeaderModel {
    pub major_version: u16,
    pub compression: Option<CompressionType>,
    pub namespace: Seq<char>,
    pub total_parts: u16,
    pub cat_off: u64,
    pub cat_len: u64,
    pub node_count: u32,
    pub directory_count: u32,
    pub resource_count: u32,
    pub body_off: u64,
    pub body_len: u64,
}

/// The parsed package header.
#[derive(Debug)]
pub struct PackageMeta {
    /// Format major version; only 1 is supported.
    pub major_version: u16,
    /// The package's compression kind, if any.
    pub compression_type: Option<CompressionType>,
    /// The package's namespace.
    pub namespace: String,
    /// How many part files the package consists of.
    pub total_parts: u16,
    /// Offset of the catalogue within the first part.
    pub cat_off: u64,
    /// Length of the catalogue in bytes.
    pub cat_len: u64,
    /// How many nodes the catalogue holds.
    pub node_count: u32,
    /// How many of the nodes are directories.
    pub directory_count: u32,
    /// How many of the nodes are resources.
    pub resource_count: u32,
    /// Offset of the body region within the first part.
    pub body_off: u64,
    /// Length of the body region of the first part.
    pub body_len: u64,
}

impl View for PackageMeta {
    type V = HeaderModel;

    open spec fn view(&self) -> HeaderModel {
        HeaderModel {
            major_version: self.major_version,
            compression: self.compression_type,
            namespace: self.namespace@,
            total_parts: self.total_parts,
            cat_off: self.cat_off,
            cat_len: self.cat_len,
            node_count: self.node_count,
            directory_count: self.directory_count,
            resource_count: self.resource_count,
            body_off: self.body_off,
            body_len: self.body_len,
        }
    }
}

/// The two compression bytes of a header: all zero, or a compression magic.
pub open spec fn spec_compression_field(c: Option<CompressionType>) -> Seq<u8> {
    match c {
        Some(CompressionType::Deflate) => spec_deflate_magic(),
        None => zero_bytes(2),
    }
}

/// The namespace fits its zero-padded header field: at most 48 UTF-8 bytes,
/// none of them zero.
pub open spec fn wf_header_namespace(ns: Seq<char>) -> bool {
    &&& encode_utf8(ns).len() <= NAMESPACE_MAX_LEN
    &&& forall|i: int| 0 <= i < encode_utf8(ns).len() ==> encode_utf8(ns)[i] != 0
}

/// The 256 bytes a header model encodes to.
pub open spec fn spec_header_bytes(m: HeaderModel) -> Seq<u8>
    recommends
        encode_utf8(m.namespace).len() <= NAMESPACE_MAX_LEN,
{
    spec_format_magic() + spec_u16_to_le_bytes(m.major_version) + spec_compression_field(
        m.compression,
    ) + encode_utf8(m.namespace) + zero_bytes(
        (NAMESPACE_MAX_LEN - encode_utf8(m.namespace).len()) as nat,
    ) + spec_u16_to_le_bytes(m.total_parts) + spec_u64_to_le_bytes(m.cat_off)
        + spec_u64_to_le_bytes(m.cat_len) + spec_u32_to_le_bytes(m.node_count)
        + spec_u32_to_le_bytes(m.directory_count) + spec_u32_to_le_bytes(m.resource_count)
        + spec_u64_to_le_bytes(m.body_off) + spec_u64_to_le_bytes(m.body_len) + zero_bytes(150)
}

/// The longest zero-free prefix of a byte sequence.
pub open spec fn take_until_zero(s: Seq<u8>) -> Seq<u8>
    decreases s.len(),
{
    if s.len() == 0 {
        s
    } else if s[0] == 0 {
        Seq::empty()
    } else {
        seq![s[0]] + take_until_zero(s.drop_first())
    }
}

/// If the first `n` bytes are nonzero and byte `n` (if any) is zero, the
/// zero-free prefix is exactly the first `n` bytes.
pub proof fn lemma_take_until_zero_prefix(s: Seq<u8>, n: int)
    requires
        0 <= n <= s.len(),
        forall|k: int| 0 <= k < n ==> s[k] != 0,
        n == s.len() || s[n] == 0,
    ensures
        take_until_zero(s) == s.subrange(0, n),
    decreases s.len(),
{
    if s.len() == 0 {
        assert(take_until_zero(s) =~= s.subrange(0, n));
    } else if s[0] == 0 {
        assert(n == 0);
        assert(take_until_zero(s) =~= s.subrange(0, n));
    } else {
        assert(n > 0);
        lemma_take_until_zero_prefix(s.drop_first(), n - 1);
        assert(seq![s[0]] + s.drop_first().subrange(0, n - 1) =~= s.subrange(0, n));
    }
}

/// A concatenation splits into its two parts by subrange.
pub proof fn lemma_concat_parts<A>(a: Seq<A>, c: Seq<A>)
    ensures
        (a + c).subrange(0, a.len() as int) == a,
        (a + c).subrange(a.len() as int, (a + c).len() as int) == c,
{
    let d = a + c;
    assert forall|i: int| 0 <= i < a.len() implies d.subrange(0, a.len() as int)[i] == a[i] by {
        assert(d[i] == a[i]);
    }
    assert(d.subrange(0, a.len() as int) =~= a);
    assert forall|i: int| 0 <= i < c.len() implies d.subrange(a.len() as int, d.len() as int)[i]
        == c[i] by {
        assert(d[a.len() + i] == c[i]);
    }
    assert(d.subrange(a.len() as int, d.len() as int) =~= c);
}

/// A subrange of an embedded sequence is the matching subrange of the
/// embedding.
pub proof fn lemma_embedded_subrange<A>(b: Seq<A>, d: Seq<A>, pos: int, x: int, y: int)
    requires
        0 <= pos,
        pos + d.len() <= b.len(),
        b.subrange(pos, pos + d.len()) == d,
        0 <= x <= y <= d.len(),
    ensures
        b.subrange(pos + x, pos + y) == d.subrange(x, y),
{
    assert forall|i: int| 0 <= i < y - x implies b.subrange(pos + x, pos + y)[i] == d.subrange(
        x,
        y,
    )[i] by {
        assert(b.subrange(pos, pos + d.len())[x + i] == b[pos + (x + i)]);
        assert(d[x + i] == b[pos + (x + i)]);
        assert(b.subrange(pos + x, pos + y)[i] == b[(pos + x) + i]);
        assert(b[(pos + x) + i] == b[pos + (x + i)]);
        assert(d.subrange(x, y)[i] == d[x + i]);
    }
    assert(b.subrange(pos + x, pos + y) =~= d.subrange(x, y));
}

/// What parsing 256 header bytes gives: the model, or the failure.
pub open spec fn spec_parse_header(b: Seq<u8>) -> Result<HeaderModel, ArpError>
    recommends
        b.len() == PACKAGE_HEADER_LEN,
{
    if b.subrange(0, 8) != spec_format_magic() {
        Err(ArpError::BadMagic)
    } else if b[10] != 0 && b.subrange(10, 12) != spec_deflate_magic() {
        Err(ArpError::BadCompressionMagic)
    } else {
        Ok(
            HeaderModel {
                major_version: spec_u16_from_le_bytes(b.subrange(8, 10)),
                compression: if b[10] == 0 {
                    None
                } else {
                    Some(CompressionType::Deflate)
                },
                namespace: if valid_utf8(take_until_zero(b.subrange(12, 60))) {
                    decode_utf8(take_until_zero(b.subrange(12, 60)))
                } else {
                    crate::trusted::lossy_of(take_until_zero(b.subrange(12, 60)))
                },
                total_parts: spec_u16_from_le_bytes(b.subrange(60, 62)),
                cat_off: spec_u64_from_le_bytes(b.subrange(62, 70)),
                cat_len: spec_u64_from_le_bytes(b.subrange(70, 78)),
                node_count: spec_u32_from_le_bytes(b.subrange(78, 82)),
                directory_count: spec_u32_from_le_bytes(b.subrange(82, 86)),
                resource_count: spec_u32_from_le_bytes(b.subrange(86, 90)),
                body_off: spec_u64_from_le_bytes(b.subrange(90, 98)),
                body_len: spec_u64_from_le_bytes(b.subrange(98, 106)),
            },
        )
    }
}

/// True exactly when the buffer opens with the package format magic.
fn check_format_magic(h: &[u8]) -> (r: bool)
    requires
        h.len() >= 8,
    ensures
        r == (h@.subrange(0, 8) == spec_format_magic()),
{
    let r = h[0] == 0x1B && h[1] == 0x41 && h[2] == 0x52 && h[3] == 0x47 && h[4] == 0x55 && h[5]
        == 0x53 && h[6] == 0x52 && h[7] == 0x50;
    proof {
        let s = h@.subrange(0, 8);
        assert(s[0] == h@[0] && s[1] == h@[1] && s[2] == h@[2] && s[3] == h@[3] && s[4] == h@[4]
            && s[5] == h@[5] && s[6] == h@[6] && s[7] == h@[7]);
        if r {
            assert(s =~= spec_format_magic());
        } else {
            assert(s != spec_format_magic());
        }
    }
    r
}

/// Serializes a header into its exact 256-byte layout.
pub fn encode_header(meta: &PackageMeta) -> (r: Vec<u8>)
    requires
        encode_utf8(meta.namespace@).len() <= NAMESPACE_MAX_LEN,
    ensures
        r@ == spec_header_bytes(meta@),
        r@.len() == PACKAGE_HEADER_LEN,
{
    let mut buf: Vec<u8> = Vec::new();
    push_format_magic(&mut buf);
    push_u16_le(&mut buf, meta.major_version);
    match &meta.compression_type {
        Some(c) => {
            let m = c.get_magic();
            buf.push(m[0]);
            buf.push(m[1]);
        },
        None => {
            buf.push(0);
            buf.push(0);
        },
    }
    proof {
        assert(buf@ =~= spec_format_magic() + spec_u16_to_le_bytes(meta.major_version)
            + spec_compression_field(meta.compression_type));
    }
    let ghost prefix = buf@;
    let mut ns_bytes = meta.namespace.as_str().as_bytes_vec();
    let ns_len = ns_bytes.len();
    buf.append(&mut ns_bytes);
    push_zero_bytes(&mut buf, NAMESPACE_MAX_LEN - ns_len);
    push_u16_le(&mut buf, meta.total_parts);
    push_u64_le(&mut buf, meta.cat_off);
    push_u64_le(&mut buf, meta.cat_len);
    push_u32_le(&mut buf, meta.node_count);
    push_u32_le(&mut buf, meta.directory_count);
    push_u32_le(&mut buf, meta.resource_count);
    push_u64_le(&mut buf, meta.body_off);
    push_u64_le(&mut buf, meta.body_len);
    push_zero_bytes(&mut buf, 150);
    proof {
        lemma_auto_spec_u16_to_from_le_bytes();
        lemma_auto_spec_u32_to_from_le_bytes();
        lemma_auto_spec_u64_to_from_le_bytes();
        assert(buf@ =~= spec_header_bytes(meta@));
    }
    buf
}

/// Parses the 256 header bytes, giving exactly what `spec_parse_header` says.
pub fn parse_header(h: &[u8]) -> (r: Result<PackageMeta, ArpError>)
    requires
        h.len() == PACKAGE_HEADER_LEN,
    ensures
        match r {
            Ok(m) => spec_parse_header(h@) == Ok::<HeaderModel, ArpError>(m@),
            Err(e) => spec_parse_header(h@) == Err::<HeaderModel, ArpError>(e),
        },
{
    if !check_format_magic(h) {
        return Err(ArpError::BadMagic);
    }
    let major_version = read_u16_le(h, 8);
    let compression_type = if h[10] == 0 {
        None
    } else if h[10] == 0x64 && h[11] == 0x66 {
        proof {
            assert(h@.subrange(10, 12) =~= spec_deflate_magic());
        }
        Some(CompressionType::Deflate)
    } else {
        proof {
            let s = h@.subrange(10, 12);
            assert(s[0] == h@[10] && s[1] == h@[11]);
            assert(s != spec_deflate_magic());
        }
        return Err(ArpError::BadCompressionMagic);
    };
    let mut ns_len: usize = 0;
    while ns_len < NAMESPACE_MAX_LEN && h[12 + ns_len] != 0
        invariant
            h.len() == PACKAGE_HEADER_LEN,
            ns_len <= NAMESPACE_MAX_LEN,
            forall|k: int| 0 <= k < ns_len ==> #[trigger] h@[12 + k] != 0,
        decreases NAMESPACE_MAX_LEN - ns_len,
    {
        ns_len += 1;
    }
    proof {
        let s = h@.subrange(12, 60);
        assert(forall|k: int| 0 <= k < ns_len ==> #[trigger] s[k] == h@[12 + k]);
        if ns_len < NAMESPACE_MAX_LEN {
            assert(s[ns_len as int] == h@[12 + ns_len]);
        }
        lemma_take_until_zero_prefix(s, ns_len as int);
        assert(s.subrange(0, ns_len as int) =~= h@.subrange(12, 12 + ns_len));
    }
    let ns_bytes = slice_to_vec(slice_subrange(h, 12, 12 + ns_len));
    let namespace = crate::trusted::bytes_to_string_lossy(&ns_bytes);
    let meta = PackageMeta {
        major_version,
        compression_type,
        namespace,
        total_parts: read_u16_le(h, 60),
        cat_off: read_u64_le(h, 62),
        cat_len: read_u64_le(h, 70),
        node_count: read_u32_le(h, 78),
        directory_count: read_u32_le(h, 82),
        resource_count: read_u32_le(h, 86),
        body_off: read_u64_le(h, 90),
        body_len: read_u64_le(h, 98),
    };
    Ok(meta)
}

/// A header a reader accepts: version 1, the part count within the ceiling,
/// and a nonempty namespace free of control and reserved characters.
pub open spec fn spec_meta_valid(m: HeaderModel) -> bool {
    &&& m.major_version == 1
    &&& m.total_parts <= PARTS_MAX
    &&& m.namespace.len() > 0
    &&& crate::uid::valid_path_component(m.namespace)
}

/// Checks the loaded header against the limits a reader enforces: version 1,
/// the part-count ceiling, and the namespace invariant (nonempty, free of
/// control and reserved characters).
pub fn validate_package_meta(meta: &PackageMeta) -> (r: Result<(), ArpError>)
    ensures
        r is Ok <==> spec_meta_valid(meta@),
        meta.major_version != 1 ==> r == Err::<(), ArpError>(ArpError::UnsupportedVersion),
        meta.major_version == 1 && meta.total_parts > PARTS_MAX ==> r == Err::<(), ArpError>(
            ArpError::PartCountExceeded,
        ),
        meta.major_version == 1 && meta.total_parts <= PARTS_MAX && meta.namespace@.len() == 0
            ==> r == Err::<(), ArpError>(ArpError::EmptyNamespace),
        meta.major_version == 1 && meta.total_parts <= PARTS_MAX && meta.namespace@.len() > 0
            && !crate::uid::valid_path_component(meta.namespace@) ==> r == Err::<(), ArpError>(
            crate::uid::spec_component_err(meta.namespace@),
        ),
{
    if meta.major_version != 1 {
        return Err(ArpError::UnsupportedVersion);
    }
    if meta.total_parts > PARTS_MAX {
        return Err(ArpError::PartCountExceeded);
    }
    if meta.namespace.as_str().is_empty() {
        return Err(ArpError::EmptyNamespace);
    }
    match crate::uid::validate_path_component(meta.namespace.as_str()) {
        Ok(()) => {},
        Err(e) => {
            return Err(e);
        },
    }
    Ok(())
}

/// Parsing an encoded header yields the encoded model: the header layout
/// round-trips for every model whose namespace fits its field.
pub proof fn lemma_header_round_trip(m: HeaderModel)
    requires
        wf_header_namespace(m.namespace),
    ensures
        spec_parse_header(spec_header_bytes(m)) == Ok::<HeaderModel, ArpError>(m),
{
    lemma_auto_spec_u16_to_from_le_bytes();
    lemma_auto_spec_u32_to_from_le_bytes();
    lemma_auto_spec_u64_to_from_le_bytes();
    let b = spec_header_bytes(m);
    let nsb = encode_utf8(m.namespace);
    let nsl = nsb.len() as int;
    assert(b.len() == 256);
    assert(b.subrange(0, 8) =~= spec_format_magic());
    assert(b.subrange(8, 10) =~= spec_u16_to_le_bytes(m.major_version));
    assert(b.subrange(10, 12) =~= spec_compression_field(m.compression));
    assert(b.subrange(12, 12 + nsl) =~= nsb);
    assert(b.subrange(60, 62) =~= spec_u16_to_le_bytes(m.total_parts));
    assert(b.subrange(62, 70) =~= spec_u64_to_le_bytes(m.cat_off));
    assert(b.subrange(70, 78) =~= spec_u64_to_le_bytes(m.cat_len));
    assert(b.subrange(78, 82) =~= spec_u32_to_le_bytes(m.node_count));
    assert(b.subrange(82, 86) =~= spec_u32_to_le_bytes(m.directory_count));
    assert(b.subrange(86, 90) =~= spec_u32_to_le_bytes(m.resource_count));
    assert(b.subrange(90, 98) =~= spec_u64_to_le_bytes(m.body_off));
    assert(b.subrange(98, 106) =~= spec_u64_to_le_bytes(m.body_len));
    lemma_auto_spec_u16_to_from_le_bytes();
    lemma_auto_spec_u32_to_from_le_bytes();
    lemma_auto_spec_u64_to_from_le_bytes();
    let ns_field = b.subrange(12, 60);
    assert(forall|k: int| 0 <= k < nsl ==> #[trigger] ns_field[k] == nsb[k]);
    if nsl < 48 {
        assert(ns_field[nsl] == 0);
    }
    lemma_take_until_zero_prefix(ns_field, nsl);
    assert(ns_field.subrange(0, nsl) =~= nsb);
    encode_utf8_valid_utf8(m.namespace);
    encode_utf8_decode_utf8(m.namespace);
    match m.compression {
        Some(CompressionType::Deflate) => {
            assert(b[10] == 0x64);
        },
        None => {
            assert(b[10] == 0);
        },
    }
    assert(take_until_zero(b.subrange(12, 60)) == nsb);
    assert(valid_utf8(nsb));
    let parsed = spec_parse_header(b);
    assert(parsed is Ok);
    let pm = parsed->Ok_0;
    assert(spec_u16_to_le_bytes(m.major_version).len() == 2);
    assert(spec_u16_to_le_bytes(m.total_parts).len() == 2);
    assert(spec_u64_to_le_bytes(m.cat_off).len() == 8);
    assert(spec_u64_to_le_bytes(m.cat_len).len() == 8);
    assert(spec_u32_to_le_bytes(m.node_count).len() == 4);
    assert(spec_u32_to_le_bytes(m.directory_count).len() == 4);
    assert(spec_u32_to_le_bytes(m.resource_count).len() == 4);
    assert(spec_u64_to_le_bytes(m.body_off).len() == 8);
    assert(spec_u64_to_le_bytes(m.body_len).len() == 8);
    assert(pm.major_version == m.major_version);
    assert(pm.compression == m.compression);
    assert(pm.namespace == m.namespace);
    assert(pm.total_parts == m.total_parts);
    assert(pm.cat_off == m.cat_off);
    assert(pm.cat_len == m.cat_len);
    assert(pm.node_count == m.node_count);
    assert(pm.directory_count == m.directory_count);
    assert(pm.resource_count == m.resource_count);
    assert(pm.body_off == m.body_off);
    assert(pm.body_len == m.body_len);
}


/// No byte of the UTF-8 encoding of a scalar at or above 0x20 is zero.
proof fn lemma_encode_scalar_no_zero(c: char)
    requires
        c as u32 >= 0x20,
    ensures
        forall|i: int|
            0 <= i < encode_scalar(c as u32).len() ==> #[trigger] encode_scalar(c as u32)[i] != 0,
{
    char_is_scalar(c);
    let s = c as u32;
    let e = encode_scalar(s);
    if has_width_1_encoding(s) {
        assert(leading_byte_width_1(s) != 0) by (bit_vector)
            requires
                0x20 <= s <= 0x7F,
        ;
        assert(forall|i: int| 0 <= i < e.len() ==> #[trigger] e[i] == leading_byte_width_1(s));
    } else {
        assert(leading_byte_width_2(s) != 0) by (bit_vector);
        assert(leading_byte_width_3(s) != 0) by (bit_vector);
        assert(leading_byte_width_4(s) != 0) by (bit_vector);
        assert(last_continuation_byte(s) != 0) by (bit_vector);
        assert(second_last_continuation_byte(s) != 0) by (bit_vector);
        assert(third_last_continuation_byte(s) != 0) by (bit_vector);
    }
}

/// No byte of the UTF-8 encoding of a text free of control characters is
/// zero: such a text always fits the header's zero-terminated reading.
pub proof fn lemma_encode_utf8_no_zero(ns: Seq<char>)
    requires
        forall|k: int| 0 <= k < ns.len() ==> (#[trigger] ns[k]) as u32 >= 0x20,
    ensures
        forall|i: int| 0 <= i < encode_utf8(ns).len() ==> #[trigger] encode_utf8(ns)[i] != 0,
    decreases ns.len(),
{
    if ns.len() > 0 {
        let c = ns[0];
        let e0 = encode_scalar(c as u32);
        let rest = ns.drop_first();
        assert(forall|k: int| 0 <= k < rest.len() ==> (#[trigger] rest[k]) as u32 >= 0x20) by {
            assert(forall|k: int|
                0 <= k < rest.len() ==> #[trigger] rest[k] == ns[k + 1] && ns[k + 1] as u32
                    >= 0x20);
        }
        lemma_encode_scalar_no_zero(c);
        lemma_encode_utf8_no_zero(rest);
        let e = encode_utf8(ns);
        assert(e == e0 + encode_utf8(rest));
        assert forall|i: int| 0 <= i < e.len() implies #[trigger] e[i] != 0 by {
            if i < e0.len() {
                assert(e[i] == e0[i]);
            } else {
                assert(e[i] == encode_utf8(rest)[i - e0.len()]);
            }
        }
    }
}

/// A namespace free of control and reserved characters that fits the header
/// field is well-formed for the header layout: the header of a package
/// written with a validated namespace always parses back to what was written.
pub proof fn lemma_validated_header_round_trip(m: HeaderModel)
    requires
        crate::uid::valid_path_component(m.namespace),
        encode_utf8(m.namespace).len() <= NAMESPACE_MAX_LEN,
    ensures
        wf_header_namespace(m.namespace),
        spec_parse_header(spec_header_bytes(m)) == Ok::<HeaderModel, ArpError>(m),
{
    assert(forall|k: int| 0 <= k < m.namespace.len() ==> (#[trigger] m.namespace[k]) as u32
        >= 0x20) by {
        assert(forall|k: int|
            0 <= k < m.namespace.len() ==> !crate::uid::is_control_char(#[trigger] m.namespace[k]));
    }
    lemma_encode_utf8_no_zero(m.namespace);
    lemma_header_round_trip(m);
}

/// What a catalogue node is: a directory of children, or a resource.
#[derive(Clone, Copy, Debug, PartialEq, Eq, Structural)]
pub enum NodeKind {
    /// A leaf holding payload bytes.
    Resource,
    /// An inner node whose payload lists its children's indices.
    Directory,
}

/// The type tag under which a node kind is stored.
pub open spec fn spec_kind_tag(k: NodeKind) -> u8 {
    match k {
        NodeKind::Resource => PACK_NODE_TYPE_RESOURCE,
        NodeKind::Directory => PACK_NODE_TYPE_DIRECTORY,
    }
}

/// The mathematical content of one catalogue record.
pub ghost struct NodeDescModel {
    pub kind: NodeKind,
    pub part: u16,
    pub data_off: u64,
    pub packed_len: u64,
    pub unpacked_len: u64,
    pub crc: u32,
    pub name: Seq<char>,
    pub ext: Seq<char>,
    pub media_type: Seq<char>,
}

/// One parsed catalogue record.
#[derive(Debug)]
pub struct NodeDesc {
    /// Directory or resource.
    pub kind: NodeKind,
    /// The 1-based part holding the node's payload.
    pub part: u16,
    /// Offset of the payload within that part's body.
    pub data_off: u64,
    /// Length of the payload as stored.
    pub packed_len: u64,
    /// Length of the payload once unpacked.
    pub unpacked_len: u64,
    /// CRC32C of the stored payload bytes.
    pub crc: u32,
    /// The node's name; empty only for the root directory.
    pub name: String,
    /// The node's extension; empty for directories.
    pub ext: String,
    /// The node's media type; empty for directories.
    pub media_type: String,
}

impl View for NodeDesc {
    type V = NodeDescModel;

    open spec fn view(&self) -> NodeDescModel {
        NodeDescModel {
            kind: self.kind,
            part: self.part,
            data_off: self.data_off,
            packed_len: self.packed_len,
            unpacked_len: self.unpacked_len,
            crc: self.crc,
            name: self.name@,
            ext: self.ext@,
            media_type: self.media_type@,
        }
    }
}

/// A record's three strings each fit their one-byte length field.
pub open spec fn wf_desc_model(m: NodeDescModel) -> bool {
    &&& encode_utf8(m.name).len() <= 255
    &&& encode_utf8(m.ext).len() <= 255
    &&& encode_utf8(m.media_type).len() <= 255
}

/// The total record length: the fixed part plus the three strings.
pub open spec fn spec_desc_len(m: NodeDescModel) -> int {
    NODE_DESC_BASE_LEN + encode_utf8(m.name).len() + encode_utf8(m.ext).len() + encode_utf8(
        m.media_type,
    ).len()
}

/// The bytes one record encodes to.
pub open spec fn spec_desc_bytes(m: NodeDescModel) -> Seq<u8>
    recommends
        wf_desc_model(m),
{
    spec_u16_to_le_bytes(spec_desc_len(m) as u16) + seq![spec_kind_tag(m.kind)]
        + spec_u16_to_le_bytes(m.part) + spec_u64_to_le_bytes(m.data_off) + spec_u64_to_le_bytes(
        m.packed_len,
    ) + spec_u64_to_le_bytes(m.unpacked_len) + spec_u32_to_le_bytes(m.crc) + seq![
        encode_utf8(m.name).len() as u8,
        encode_utf8(m.ext).len() as u8,
        encode_utf8(m.media_type).len() as u8,
    ] + encode_utf8(m.name) + encode_utf8(m.ext) + encode_utf8(m.media_type)
}

/// What parsing one record at `pos` gives: the model and the next position,
/// or the failure.
pub open spec fn spec_parse_desc(b: Seq<u8>, pos: int) -> Result<(NodeDescModel, int), ArpError>
    recommends
        0 <= pos <= b.len(),
{
    if pos + 2 > b.len() {
        Err(ArpError::TruncatedPackage)
    } else {
        let rec_len = spec_u16_from_le_bytes(b.subrange(pos, pos + 2)) as int;
        if rec_len < NODE_DESC_BASE_LEN || pos + rec_len > b.len() {
            Err(ArpError::TruncatedPackage)
        } else {
            let nl = b[pos + 0x21] as int;
            let el = b[pos + 0x22] as int;
            let ml = b[pos + 0x23] as int;
            if NODE_DESC_BASE_LEN + nl + el + ml > rec_len {
                Err(ArpError::TruncatedPackage)
            } else {
                let name_b = b.subrange(pos + 0x24, pos + 0x24 + nl);
                let ext_b = b.subrange(pos + 0x24 + nl, pos + 0x24 + nl + el);
                let mt_b = b.subrange(pos + 0x24 + nl + el, pos + 0x24 + nl + el + ml);
                if !valid_utf8(name_b) || !valid_utf8(ext_b) || !valid_utf8(mt_b) {
                    Err(ArpError::BadUtf8)
                } else if b[pos + 2] != PACK_NODE_TYPE_RESOURCE && b[pos + 2]
                    != PACK_NODE_TYPE_DIRECTORY {
                    Err(ArpError::UnknownNodeType)
                } else {
                    Ok(
                        (
                            NodeDescModel {
                                kind: if b[pos + 2] == PACK_NODE_TYPE_DIRECTORY {
                                    NodeKind::Directory
                                } else {
                                    NodeKind::Resource
                                },
                                part: spec_u16_from_le_bytes(b.subrange(pos + 3, pos + 5)),
                                data_off: spec_u64_from_le_bytes(b.subrange(pos + 5, pos + 13)),
                                packed_len: spec_u64_from_le_bytes(b.subrange(pos + 13, pos + 21)),
                                unpacked_len: spec_u64_from_le_bytes(
                                    b.subrange(pos + 21, pos + 29),
                                ),
                                crc: spec_u32_from_le_bytes(b.subrange(pos + 29, pos + 33)),
                                name: decode_utf8(name_b),
                                ext: decode_utf8(ext_b),
                                media_type: decode_utf8(mt_b),
                            },
                            pos + rec_len,
                        ),
                    )
                }
            }
        }
    }
}

/// Serializes one catalogue record.
pub fn encode_node_desc(d: &NodeDesc) -> (r: Vec<u8>)
    requires
        wf_desc_model(d@),
    ensures
        r@ == spec_desc_bytes(d@),
        r@.len() == spec_desc_len(d@),
{
    let mut name_b = d.name.as_str().as_bytes_vec();
    let mut ext_b = d.ext.as_str().as_bytes_vec();
    let mut mt_b = d.media_type.as_str().as_bytes_vec();
    let name_len = name_b.len();
    let ext_len = ext_b.len();
    let mt_len = mt_b.len();
    let rec_len = (NODE_DESC_BASE_LEN + name_len + ext_len + mt_len) as u16;
    let mut buf: Vec<u8> = Vec::new();
    push_u16_le(&mut buf, rec_len);
    buf.push(match d.kind {
        NodeKind::Resource => PACK_NODE_TYPE_RESOURCE,
        NodeKind::Directory => PACK_NODE_TYPE_DIRECTORY,
    });
    push_u16_le(&mut buf, d.part);
    push_u64_le(&mut buf, d.data_off);
    push_u64_le(&mut buf, d.packed_len);
    push_u64_le(&mut buf, d.unpacked_len);
    push_u32_le(&mut buf, d.crc);
    buf.push(name_len as u8);
    buf.push(ext_len as u8);
    buf.push(mt_len as u8);
    buf.append(&mut name_b);
    buf.append(&mut ext_b);
    buf.append(&mut mt_b);
    proof {
        lemma_auto_spec_u16_to_from_le_bytes();
        lemma_auto_spec_u32_to_from_le_bytes();
        lemma_auto_spec_u64_to_from_le_bytes();
        assert(buf@ =~= spec_desc_bytes(d@));
    }
    buf
}

/// Parses the record at `pos`, giving exactly what `spec_parse_desc` says.
pub fn parse_node_desc(buf: &[u8], pos: usize) -> (r: Result<(NodeDesc, usize), ArpError>)
    requires
        pos <= buf.len(),
    ensures
        match r {
            Ok((d, next)) => spec_parse_desc(buf@, pos as int) == Ok::<(NodeDescModel, int),
                ArpError,
            >((d@, next as int)),
            Err(e) => spec_parse_desc(buf@, pos as int) == Err::<(NodeDescModel, int), ArpError>(e),
        },
{
    let n = buf.len();
    if n - pos < 2 {
        return Err(ArpError::TruncatedPackage);
    }
    let rec_len = read_u16_le(buf, pos) as usize;
    if rec_len < NODE_DESC_BASE_LEN || rec_len > n - pos {
        return Err(ArpError::TruncatedPackage);
    }
    let name_len = buf[pos + 0x21] as usize;
    let ext_len = buf[pos + 0x22] as usize;
    let mt_len = buf[pos + 0x23] as usize;
    if name_len + ext_len + mt_len > rec_len - NODE_DESC_BASE_LEN {
        return Err(ArpError::TruncatedPackage);
    }
    let name_start = pos + NODE_DESC_BASE_LEN;
    let name_b = slice_to_vec(slice_subrange(buf, name_start, name_start + name_len));
    let ext_b = slice_to_vec(
        slice_subrange(buf, name_start + name_len, name_start + name_len + ext_len),
    );
    let mt_b = slice_to_vec(
        slice_subrange(
            buf,
            name_start + name_len + ext_len,
            name_start + name_len + ext_len + mt_len,
        ),
    );
    let name = match bytes_to_string(name_b) {
        Some(s) => s,
        None => {
            return Err(ArpError::BadUtf8);
        },
    };
    let ext = match bytes_to_string(ext_b) {
        Some(s) => s,
        None => {
            return Err(ArpError::BadUtf8);
        },
    };
    let media_type = match bytes_to_string(mt_b) {
        Some(s) => s,
        None => {
            return Err(ArpError::BadUtf8);
        },
    };
    let ty = buf[pos + 2];
    let kind = if ty == PACK_NODE_TYPE_DIRECTORY {
        NodeKind::Directory
    } else if ty == PACK_NODE_TYPE_RESOURCE {
        NodeKind::Resource
    } else {
        return Err(ArpError::UnknownNodeType);
    };
    let d = NodeDesc {
        kind,
        part: read_u16_le(buf, pos + 3),
        data_off: read_u64_le(buf, pos + 5),
        packed_len: read_u64_le(buf, pos + 13),
        unpacked_len: read_u64_le(buf, pos + 21),
        crc: read_u32_le(buf, pos + 29),
        name,
        ext,
        media_type,
    };
    Ok((d, pos + rec_len))
}

/// Parsing an encoded record embedded in a larger buffer yields the encoded
/// model and steps past exactly its bytes.
pub proof fn lemma_desc_round_trip(m: NodeDescModel, b: Seq<u8>, pos: int)
    requires
        wf_desc_model(m),
        0 <= pos,
        pos + spec_desc_len(m) <= b.len(),
        b.subrange(pos, pos + spec_desc_len(m)) == spec_desc_bytes(m),
    ensures
        spec_parse_desc(b, pos) == Ok::<(NodeDescModel, int), ArpError>(
            (m, pos + spec_desc_len(m)),
        ),
{
    lemma_auto_spec_u16_to_from_le_bytes();
    lemma_auto_spec_u32_to_from_le_bytes();
    lemma_auto_spec_u64_to_from_le_bytes();
    let d = spec_desc_bytes(m);
    let len = spec_desc_len(m);
    let nl = encode_utf8(m.name).len() as int;
    let el = encode_utf8(m.ext).len() as int;
    let ml = encode_utf8(m.media_type).len() as int;
    let s1 = spec_u16_to_le_bytes(len as u16);
    let s2 = seq![spec_kind_tag(m.kind)];
    let s3 = spec_u16_to_le_bytes(m.part);
    let s4 = spec_u64_to_le_bytes(m.data_off);
    let s5 = spec_u64_to_le_bytes(m.packed_len);
    let s6 = spec_u64_to_le_bytes(m.unpacked_len);
    let s7 = spec_u32_to_le_bytes(m.crc);
    let s8 = seq![
        encode_utf8(m.name).len() as u8,
        encode_utf8(m.ext).len() as u8,
        encode_utf8(m.media_type).len() as u8,
    ];
    let s9 = encode_utf8(m.name);
    let s10 = encode_utf8(m.ext);
    let s11 = encode_utf8(m.media_type);
    assert(s1.len() == 2 && s3.len() == 2 && s4.len() == 8 && s5.len() == 8 && s6.len() == 8
        && s7.len() == 4);
    let p2 = s1 + s2;
    let p3 = p2 + s3;
    let p4 = p3 + s4;
    let p5 = p4 + s5;
    let p6 = p5 + s6;
    let p7 = p6 + s7;
    let p8 = p7 + s8;
    let p9 = p8 + s9;
    let p10 = p9 + s10;
    assert(d == p10 + s11);
    assert(d.len() == len);
    lemma_concat_parts(p10, s11);
    lemma_concat_parts(p9, s10);
    lemma_concat_parts(p8, s9);
    lemma_concat_parts(p7, s8);
    lemma_concat_parts(p6, s7);
    lemma_concat_parts(p5, s6);
    lemma_concat_parts(p4, s5);
    lemma_concat_parts(p3, s4);
    lemma_concat_parts(p2, s3);
    lemma_concat_parts(s1, s2);
    lemma_embedded_subrange(d, p10, 0, p9.len() as int, p10.len() as int);
    lemma_embedded_subrange(d, p10, 0, 0, p9.len() as int);
    lemma_embedded_subrange(d, p9, 0, p8.len() as int, p9.len() as int);
    lemma_embedded_subrange(d, p9, 0, 0, p8.len() as int);
    lemma_embedded_subrange(d, p8, 0, p7.len() as int, p8.len() as int);
    lemma_embedded_subrange(d, p8, 0, 0, p7.len() as int);
    lemma_embedded_subrange(d, p7, 0, p6.len() as int, p7.len() as int);
    lemma_embedded_subrange(d, p7, 0, 0, p6.len() as int);
    lemma_embedded_subrange(d, p6, 0, p5.len() as int, p6.len() as int);
    lemma_embedded_subrange(d, p6, 0, 0, p5.len() as int);
    lemma_embedded_subrange(d, p5, 0, p4.len() as int, p5.len() as int);
    lemma_embedded_subrange(d, p5, 0, 0, p4.len() as int);
    lemma_embedded_subrange(d, p4, 0, p3.len() as int, p4.len() as int);
    lemma_embedded_subrange(d, p4, 0, 0, p3.len() as int);
    lemma_embedded_subrange(d, p3, 0, p2.len() as int, p3.len() as int);
    lemma_embedded_subrange(d, p3, 0, 0, p2.len() as int);
    lemma_embedded_subrange(d, p2, 0, 2, 3);
    lemma_embedded_subrange(d, p2, 0, 0, 2);
    assert(d.subrange(0, 2) == s1);
    assert(d.subrange(2, 3) == s2);
    assert(d.subrange(3, 5) == s3);
    assert(d.subrange(5, 13) == s4);
    assert(d.subrange(13, 21) == s5);
    assert(d.subrange(21, 29) == s6);
    assert(d.subrange(29, 33) == s7);
    assert(d.subrange(33, 36) == s8);
    assert(d.subrange(36, 36 + nl) == s9);
    assert(d.subrange(36 + nl, 36 + nl + el) == s10);
    assert(d.subrange(36 + nl + el, 36 + nl + el + ml) == s11);
    lemma_embedded_subrange(b, d, pos, 0, 2);
    lemma_embedded_subrange(b, d, pos, 2, 3);
    lemma_embedded_subrange(b, d, pos, 3, 5);
    lemma_embedded_subrange(b, d, pos, 5, 13);
    lemma_embedded_subrange(b, d, pos, 13, 21);
    lemma_embedded_subrange(b, d, pos, 21, 29);
    lemma_embedded_subrange(b, d, pos, 29, 33);
    lemma_embedded_subrange(b, d, pos, 33, 36);
    lemma_embedded_subrange(b, d, pos, 36, 36 + nl);
    lemma_embedded_subrange(b, d, pos, 36 + nl, 36 + nl + el);
    lemma_embedded_subrange(b, d, pos, 36 + nl + el, 36 + nl + el + ml);
    assert(b.subrange(pos, pos + 2) == s1);
    assert(spec_u16_from_le_bytes(b.subrange(pos, pos + 2)) as int == len);
    assert(b[pos + 2] == b.subrange(pos + 2, pos + 3)[0]);
    assert(b[pos + 2] == spec_kind_tag(m.kind));
    assert(b[pos + 0x21] == b.subrange(pos + 33, pos + 36)[0]);
    assert(b[pos + 0x22] == b.subrange(pos + 33, pos + 36)[1]);
    assert(b[pos + 0x23] == b.subrange(pos + 33, pos + 36)[2]);
    assert(b[pos + 0x21] as int == nl && b[pos + 0x22] as int == el && b[pos + 0x23] as int == ml);
    assert(b.subrange(pos + 0x24, pos + 0x24 + nl) == s9);
    assert(b.subrange(pos + 0x24 + nl, pos + 0x24 + nl + el) == s10);
    assert(b.subrange(pos + 0x24 + nl + el, pos + 0x24 + nl + el + ml) == s11);
    encode_utf8_valid_utf8(m.name);
    encode_utf8_valid_utf8(m.ext);
    encode_utf8_valid_utf8(m.media_type);
    encode_utf8_decode_utf8(m.name);
    encode_utf8_decode_utf8(m.ext);
    encode_utf8_decode_utf8(m.media_type);
    assert(b.subrange(pos + 3, pos + 5) == s3);
    assert(b.subrange(pos + 5, pos + 13) == s4);
    assert(b.subrange(pos + 13, pos + 21) == s5);
    assert(b.subrange(pos + 21, pos + 29) == s6);
    assert(b.subrange(pos + 29, pos + 33) == s7);
    let parsed = spec_parse_desc(b, pos);
    assert(parsed is Ok);
    let (pm, next) = parsed->Ok_0;
    assert(next == pos + len);
    match m.kind {
        NodeKind::Directory => {
            assert(b[pos + 2] == PACK_NODE_TYPE_DIRECTORY);
        },
        NodeKind::Resource => {
            assert(b[pos + 2] == PACK_NODE_TYPE_RESOURCE);
        },
    }
    assert(pm.kind == m.kind);
    assert(pm.part == m.part);
    assert(pm.data_off == m.data_off);
    assert(pm.packed_len == m.packed_len);
    assert(pm.unpacked_len == m.unpacked_len);
    assert(pm.crc == m.crc);
    assert(pm.name == m.name);
    assert(pm.ext == m.ext);
    assert(pm.media_type == m.media_type);
}

/// The concatenated records of a whole catalogue.
pub open spec fn spec_catalogue_bytes(ms: Seq<NodeDescModel>) -> Seq<u8>
    decreases ms.len(),
{
    if ms.len() == 0 {
        Seq::empty()
    } else {
        spec_desc_bytes(ms.first()) + spec_catalogue_bytes(ms.drop_first())
    }
}

/// What parsing `count` records starting at `pos` gives.
pub open spec fn spec_parse_catalogue(b: Seq<u8>, pos: int, count: int) -> Result<
    Seq<NodeDescModel>,
    ArpError,
>
    decreases count,
{
    if count <= 0 {
        Ok(Seq::empty())
    } else {
        match spec_parse_desc(b, pos) {
            Err(e) => Err(e),
            Ok((m, next)) => match spec_parse_catalogue(b, next, count - 1) {
                Err(e) => Err(e),
                Ok(rest) => Ok(seq![m] + rest),
            },
        }
    }
}

/// Parsing an encoded catalogue embedded in a larger buffer yields exactly
/// the encoded records: the catalogue layout round-trips.
pub proof fn lemma_catalogue_round_trip(ms: Seq<NodeDescModel>, b: Seq<u8>, pos: int)
    requires
        forall|i: int| 0 <= i < ms.len() ==> wf_desc_model(#[trigger] ms[i]),
        0 <= pos,
        pos + spec_catalogue_bytes(ms).len() <= b.len(),
        b.subrange(pos, pos + spec_catalogue_bytes(ms).len()) == spec_catalogue_bytes(ms),
    ensures
        spec_parse_catalogue(b, pos, ms.len() as int) == Ok::<Seq<NodeDescModel>, ArpError>(ms),
    decreases ms.len(),
{
    if ms.len() == 0 {
        assert(spec_parse_catalogue(b, pos, 0) =~= Ok::<Seq<NodeDescModel>, ArpError>(
            Seq::empty(),
        ));
        assert(ms =~= Seq::<NodeDescModel>::empty());
    } else {
        let m0 = ms.first();
        let rest = ms.drop_first();
        let cb = spec_catalogue_bytes(ms);
        let l0 = spec_desc_len(m0);
        assert(spec_desc_bytes(m0).len() == l0) by {
            lemma_auto_spec_u16_to_from_le_bytes();
            lemma_auto_spec_u32_to_from_le_bytes();
            lemma_auto_spec_u64_to_from_le_bytes();
        }
        assert(cb == spec_desc_bytes(m0) + spec_catalogue_bytes(rest));
        lemma_concat_parts(spec_desc_bytes(m0), spec_catalogue_bytes(rest));
        lemma_embedded_subrange(b, cb, pos, 0, l0);
        assert(b.subrange(pos, pos + l0) == spec_desc_bytes(m0));
        lemma_desc_round_trip(m0, b, pos);
        lemma_embedded_subrange(b, cb, pos, l0, cb.len() as int);
        assert(b.subrange(pos + l0, pos + l0 + spec_catalogue_bytes(rest).len())
            == spec_catalogue_bytes(rest));
        assert(forall|i: int| 0 <= i < rest.len() ==> wf_desc_model(#[trigger] rest[i])) by {
            assert(forall|i: int|
                0 <= i < rest.len() ==> #[trigger] rest[i] == ms[i + 1] && wf_desc_model(
                    ms[i + 1],
                ));
        }
        lemma_catalogue_round_trip(rest, b, pos + l0);
        assert(seq![m0] + rest =~= ms);
    }
}

/// The concatenated 4-byte little-endian encodings of a child index list.
pub open spec fn spec_index_list_bytes(idxs: Seq<u32>) -> Seq<u8>
    decreases idxs.len(),
{
    if idxs.len() == 0 {
        Seq::empty()
    } else {
        spec_u32_to_le_bytes(idxs.first()) + spec_index_list_bytes(idxs.drop_first())
    }
}

/// The indices a directory payload holds, one per 4-byte group.
pub open spec fn spec_parse_index_list(b: Seq<u8>) -> Seq<u32>
    recommends
        b.len() % 4 == 0,
{
    Seq::new(b.len() / 4, |i: int| spec_u32_from_le_bytes(b.subrange(4 * i, 4 * i + 4)))
}

/// Serializes a child index list.
pub fn encode_index_list(idxs: &Vec<u32>) -> (r: Vec<u8>)
    ensures
        r@ == spec_index_list_bytes(idxs@),
        r@.len() == 4 * idxs@.len(),
{
    proof {
        lemma_index_list_bytes_len(idxs@);
    }
    let mut buf: Vec<u8> = Vec::new();
    let mut i: usize = 0;
    while i < idxs.len()
        invariant
            i <= idxs@.len(),
            buf@ == spec_index_list_bytes(idxs@.subrange(0, i as int)),
            buf@.len() == 4 * i,
        decreases idxs@.len() - i,
    {
        push_u32_le(&mut buf, idxs[i]);
        proof {
            lemma_auto_spec_u32_to_from_le_bytes();
            lemma_index_list_bytes_snoc(idxs@.subrange(0, i as int), idxs@[i as int]);
            assert(idxs@.subrange(0, i as int).push(idxs@[i as int]) =~= idxs@.subrange(
                0,
                i + 1 as int,
            ));
        }
        i += 1;
    }
    proof {
        assert(idxs@.subrange(0, idxs@.len() as int) =~= idxs@);
    }
    buf
}

/// The byte length of an encoded index list is four per index.
pub proof fn lemma_index_list_bytes_len(idxs: Seq<u32>)
    ensures
        spec_index_list_bytes(idxs).len() == 4 * idxs.len(),
    decreases idxs.len(),
{
    lemma_auto_spec_u32_to_from_le_bytes();
    if idxs.len() > 0 {
        lemma_index_list_bytes_len(idxs.drop_first());
    }
}

/// Appending one index appends its four bytes.
pub proof fn lemma_index_list_bytes_snoc(idxs: Seq<u32>, x: u32)
    ensures
        spec_index_list_bytes(idxs.push(x)) == spec_index_list_bytes(idxs) + spec_u32_to_le_bytes(
            x,
        ),
    decreases idxs.len(),
{
    lemma_auto_spec_u32_to_from_le_bytes();
    let p = idxs.push(x);
    if idxs.len() == 0 {
        assert(p.first() == x);
        assert(p.drop_first() =~= Seq::<u32>::empty());
        assert(p.drop_first().len() == 0);
        assert(spec_index_list_bytes(p.drop_first()) == Seq::<u8>::empty());
        assert(spec_index_list_bytes(p) == spec_u32_to_le_bytes(x) + Seq::<u8>::empty());
        assert(spec_index_list_bytes(p) =~= spec_u32_to_le_bytes(x));
        assert(spec_index_list_bytes(idxs) + spec_u32_to_le_bytes(x) =~= spec_u32_to_le_bytes(x));
    } else {
        assert(p.first() == idxs.first());
        assert(p.drop_first() =~= idxs.drop_first().push(x));
        lemma_index_list_bytes_snoc(idxs.drop_first(), x);
        assert(spec_index_list_bytes(p) == spec_u32_to_le_bytes(p.first())
            + spec_index_list_bytes(p.drop_first()));
        assert(spec_u32_to_le_bytes(idxs.first()) + (spec_index_list_bytes(idxs.drop_first())
            + spec_u32_to_le_bytes(x)) =~= (spec_u32_to_le_bytes(idxs.first())
            + spec_index_list_bytes(idxs.drop_first())) + spec_u32_to_le_bytes(x));
    }
}

/// Decodes a directory payload into its child index list; the payload length
/// must be a multiple of four.
pub fn parse_index_list(b: &[u8]) -> (r: Result<Vec<u32>, ArpError>)
    ensures
        b@.len() % 4 != 0 ==> r == Err::<Vec<u32>, ArpError>(ArpError::MalformedDirectoryPayload),
        b@.len() % 4 == 0 ==> (r matches Ok(v) && v@ == spec_parse_index_list(b@)),
{
    let n = b.len();
    if n % 4 != 0 {
        return Err(ArpError::MalformedDirectoryPayload);
    }
    let count = n / 4;
    let mut v: Vec<u32> = Vec::new();
    let mut i: usize = 0;
    while i < count
        invariant
            i <= count,
            count == b@.len() / 4,
            b@.len() % 4 == 0,
            b@.len() <= usize::MAX,
            v@.len() == i,
            forall|k: int|
                0 <= k < i ==> #[trigger] v@[k] == spec_u32_from_le_bytes(
                    b@.subrange(4 * k, 4 * k + 4),
                ),
        decreases count - i,
    {
        proof {
            assert(4 * (i + 1) <= 4 * count == b@.len()) by (nonlinear_arith)
                requires
                    i + 1 <= count,
                    4 * count == b@.len(),
            ;
        }
        let x = read_u32_le(b, 4 * i);
        v.push(x);
        i += 1;
    }
    proof {
        assert(v@ =~= spec_parse_index_list(b@));
    }
    Ok(v)
}

/// Parsing an encoded index list yields the encoded indices.
pub proof fn lemma_index_list_round_trip(idxs: Seq<u32>)
    ensures
        spec_parse_index_list(spec_index_list_bytes(idxs)) == idxs,
    decreases idxs.len(),
{
    lemma_auto_spec_u32_to_from_le_bytes();
    lemma_index_list_bytes_len(idxs);
    let b = spec_index_list_bytes(idxs);
    if idxs.len() == 0 {
        assert(spec_parse_index_list(b) =~= idxs);
    } else {
        let rest = idxs.drop_first();
        lemma_index_list_round_trip(rest);
        lemma_index_list_bytes_len(rest);
        let rb = spec_index_list_bytes(rest);
        let f = spec_u32_to_le_bytes(idxs.first());
        assert(b == f + rb);
        lemma_concat_parts(f, rb);
        assert(b.subrange(0, 4) == f);
        assert(b.subrange(4, b.len() as int) == rb);
        assert forall|i: int| 0 <= i < idxs.len() implies #[trigger] spec_parse_index_list(b)[i]
            == idxs[i] by {
            if i == 0 {
                assert(spec_parse_index_list(b)[0] == spec_u32_from_le_bytes(b.subrange(0, 4)));
            } else {
                lemma_embedded_subrange(b, rb, 4, 4 * (i - 1), 4 * (i - 1) + 4);
                assert(b.subrange(4 + 4 * (i - 1), 4 + (4 * (i - 1) + 4)) == rb.subrange(
                    4 * (i - 1),
                    4 * (i - 1) + 4,
                ));
                assert(4 + 4 * (i - 1) == 4 * i);
                assert(b.subrange(4 * i, 4 * i + 4) == rb.subrange(4 * (i - 1), 4 * (i - 1) + 4));
                assert(spec_parse_index_list(rb)[i - 1] == rest[i - 1]);
                assert(spec_parse_index_list(rb)[i - 1] == spec_u32_from_le_bytes(
                    rb.subrange(4 * (i - 1), 4 * (i - 1) + 4),
                ));
                assert(spec_parse_index_list(b)[i] == spec_u32_from_le_bytes(
                    b.subrange(4 * i, 4 * i + 4),
                ));
                assert(rest[i - 1] == idxs[i]);
            }
        }
        assert(spec_parse_index_list(b) =~= idxs);
    }
}

/// The 16 bytes of a continuation part header.
pub open spec fn spec_part_header_bytes(index: u16) -> Seq<u8> {
    spec_part_magic() + spec_u16_to_le_bytes(index) + zero_bytes(6)
}

/// Serializes a continuation part header.
pub fn encode_part_header(index: u16) -> (r: Vec<u8>)
    ensures
        r@ == spec_part_header_bytes(index),
        r@.len() == PACKAGE_PART_HEADER_LEN,
{
    let mut buf: Vec<u8> = Vec::new();
    push_part_magic(&mut buf);
    push_u16_le(&mut buf, index);
    push_zero_bytes(&mut buf, 6);
    proof {
        lemma_auto_spec_u16_to_from_le_bytes();
        assert(buf@ =~= spec_part_header_bytes(index));
    }
    buf
}

} // verus!
