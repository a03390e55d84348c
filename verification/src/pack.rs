//! The encoder: turns an in-memory directory tree into the one or more
//! part-file images of a package. Directories are enumerated breadth-first
//! and indexed before any file, each directory's payload lists its children's
//! final indices, payloads are split across size-bounded parts, and the
//! header and catalogue are spliced in front of the first part's body.

use vstd::prelude::*;
use vstd::utf8::encode_utf8;

use crate::error::ArpError;
use crate::layout::NodeKind;
use crate::mappings::load_arp_builtin_media_types;
use crate::mappings::spec_lookup;
use crate::mappings::table_view;
use crate::mappings::MediaTypeTable;
use crate::types::CompressionType;
use crate::uid::str_eq;
use crate::uid::valid_path_component;
use crate::uid::validate_path_component;

verus! {

/// The media type of a resource no table entry matches.
pub open spec fn spec_default_media_type() -> Seq<char> {
    "application/octet-stream"@
}

/// The default media type, `application/octet-stream`.
pub fn default_media_type() -> (r: String)
    ensures
        r@ == spec_default_media_type(),
{
    String::from_str("application/octet-stream")
}

/// The media type resolution the encoder applies: no extension or no match
/// falls back to the default media type.
pub open spec fn spec_resolved_media_type(
    tv: Seq<(Seq<char>, Seq<char>)>,
    ext: Seq<char>,
) -> Seq<char> {
    if ext.len() == 0 {
        spec_default_media_type()
    } else {
        match spec_lookup(tv, ext) {
            Some(mt) => mt,
            None => spec_default_media_type(),
        }
    }
}

/// Resolves a file extension against a lookup table, falling back to the
/// default media type.
pub fn resolve_media_type(table: &MediaTypeTable, ext: &str) -> (r: String)
    ensures
        r@ == spec_resolved_media_type(table_view(table.entries@), ext@),
{
    if ext.is_empty() {
        return default_media_type();
    }
    match table.lookup(ext) {
        Some(mt) => mt,
        None => default_media_type(),
    }
}

/// What kind of filesystem entry a tree node stands for.
#[derive(Clone, Copy, Debug, PartialEq, Eq, Structural)]
pub enum FsEntryKind {
    /// A directory; its `children` index other entries of the tree.
    Directory,
    /// A regular file; its `data` holds the file's bytes.
    File,
}

/// One entry of an in-memory directory tree, held in a flat arena: entry 0 is
/// the root directory, and directory entries list their children by arena
/// index, subdirectories and files in enumeration order.
#[derive(Debug)]
pub struct FsEntry {
    /// Directory or regular file.
    pub kind: FsEntryKind,
    /// The entry's name without extension; empty only for the root.
    pub name: String,
    /// The file extension without its dot; empty for none.
    pub extension: String,
    /// The file's contents; empty for directories.
    pub data: Vec<u8>,
    /// Arena indices of the entry's children; empty for files.
    pub children: Vec<usize>,
}

/// A validated packing configuration.
#[derive(Debug)]
pub struct PackingOptions {
    /// Format major version to write.
    pub version: u16,
    /// The package name, used to derive the part file names.
    pub name: String,
    /// The package namespace.
    pub namespace: String,
    /// The largest a part file may grow, if bounded.
    pub max_part_len: Option<u64>,
    /// The compression to apply to file payloads, if any.
    pub compression_type: Option<CompressionType>,
    /// Extension mappings overriding the built-in table.
    pub media_types: MediaTypeTable,
}

impl PackingOptions {
    /// Validates a version-1 packing configuration: the name and namespace
    /// must be nonempty, the namespace must fit its header field and be free
    /// of control and reserved characters, a part-length bound must be at
    /// least the floor, and a compression magic must be a known one.
    pub fn new_v1(
        name: String,
        namespace: String,
        max_part_len: Option<u64>,
        compression_type: Option<String>,
        media_types: Option<MediaTypeTable>,
    ) -> (r: Result<PackingOptions, ArpError>)
        ensures
            name@.len() == 0 ==> r == Err::<PackingOptions, ArpError>(ArpError::EmptyName),
            name@.len() > 0 && namespace@.len() == 0 ==> r == Err::<PackingOptions, ArpError>(
                ArpError::EmptyNamespace,
            ),
            name@.len() > 0 && namespace@.len() > 0 && encode_utf8(namespace@).len()
                > crate::layout::NAMESPACE_MAX_LEN ==> r == Err::<PackingOptions, ArpError>(
                ArpError::NamespaceTooLong,
            ),
            name@.len() > 0 && namespace@.len() > 0 && encode_utf8(namespace@).len()
                <= crate::layout::NAMESPACE_MAX_LEN && !valid_path_component(namespace@) ==> r
                is Err,
            r matches Ok(o) ==> {
                &&& name@.len() > 0
                &&& namespace@.len() > 0
                &&& encode_utf8(namespace@).len() <= crate::layout::NAMESPACE_MAX_LEN
                &&& valid_path_component(namespace@)
                &&& (max_part_len matches Some(m) ==> m >= crate::layout::PART_LEN_MIN)
                &&& o.version == 1
                &&& o.name == name
                &&& o.namespace == namespace
                &&& o.max_part_len == max_part_len
                &&& (o.compression_type == Some(CompressionType::Deflate) <==> (
                compression_type matches Some(c) && c@ == "df"@))
                &&& (o.compression_type is None <==> compression_type is None)
            },
            max_part_len matches Some(m) && m < crate::layout::PART_LEN_MIN && name@.len() > 0
                && namespace@.len() > 0 && encode_utf8(namespace@).len()
                <= crate::layout::NAMESPACE_MAX_LEN && valid_path_component(namespace@) ==> r
                == Err::<PackingOptions, ArpError>(ArpError::PartLenTooSmall),
            compression_type matches Some(c) && c@ != "df"@ && name@.len() > 0 && namespace@.len()
                > 0 && encode_utf8(namespace@).len() <= crate::layout::NAMESPACE_MAX_LEN
                && valid_path_component(namespace@) && (max_part_len matches Some(m) ==> m
                >= crate::layout::PART_LEN_MIN) ==> r == Err::<PackingOptions, ArpError>(
                ArpError::UnrecognizedCompression,
            ),
            name@.len() > 0 && namespace@.len() > 0 && encode_utf8(namespace@).len()
                <= crate::layout::NAMESPACE_MAX_LEN && valid_path_component(namespace@) && (
            max_part_len matches Some(m) ==> m >= crate::layout::PART_LEN_MIN) && (
            compression_type matches Some(c) ==> c@ == "df"@) ==> r is Ok,
    {
        if name.as_str().is_empty() {
            return Err(ArpError::EmptyName);
        }
        if namespace.as_str().is_empty() {
            return Err(ArpError::EmptyNamespace);
        }
        if namespace.as_str().as_bytes().len() > crate::layout::NAMESPACE_MAX_LEN {
            return Err(ArpError::NamespaceTooLong);
        }
        match validate_path_component(namespace.as_str()) {
            Ok(()) => {},
            Err(e) => {
                return Err(e);
            },
        }
        match max_part_len {
            Some(m) => {
                if m < crate::layout::PART_LEN_MIN {
                    return Err(ArpError::PartLenTooSmall);
                }
            },
            None => {},
        }
        let compression = match &compression_type {
            Some(c) => {
                if str_eq(c.as_str(), "df") {
                    proof {
                        reveal_strlit("df");
                    }
                    Some(CompressionType::Deflate)
                } else {
                    proof {
                        reveal_strlit("df");
                    }
                    return Err(ArpError::UnrecognizedCompression);
                }
            },
            None => None,
        };
        let media_types = match media_types {
            Some(t) => t,
            None => MediaTypeTable::new(),
        };
        Ok(
            PackingOptions {
                version: 1,
                name,
                namespace,
                max_part_len,
                compression_type: compression,
                media_types,
            },
        )
    }

    /// The package name the configuration carries.
    pub fn get_name(&self) -> (r: &str)
        ensures
            r@ == self.name@,
    {
        self.name.as_str()
    }
}

/// How many of the flags are set.
pub open spec fn count_trues(s: Seq<bool>) -> int
    decreases s.len(),
{
    if s.len() == 0 {
        0
    } else {
        count_trues(s.drop_last()) + if s.last() {
            1int
        } else {
            0int
        }
    }
}

/// No more flags are set than there are flags.
pub proof fn lemma_count_trues_le(s: Seq<bool>)
    ensures
        0 <= count_trues(s) <= s.len(),
    decreases s.len(),
{
    if s.len() > 0 {
        lemma_count_trues_le(s.drop_last());
    }
}

/// Setting a clear flag raises the count by one.
pub proof fn lemma_count_trues_set(s: Seq<bool>, i: int)
    requires
        0 <= i < s.len(),
        !s[i],
    ensures
        count_trues(s.update(i, true)) == count_trues(s) + 1,
    decreases s.len(),
{
    let u = s.update(i, true);
    if i == s.len() - 1 {
        assert(u.drop_last() =~= s.drop_last());
        assert(u.last());
        assert(!s.last());
    } else {
        assert(u.drop_last() =~= s.drop_last().update(i, true));
        lemma_count_trues_set(s.drop_last(), i);
        assert(u.last() == s.last());
    }
}

/// One node ready to be streamed into a package: its descriptor fields and
/// its raw (not yet compressed) payload.
#[derive(Debug)]
pub struct PackNode {
    /// Directory or resource.
    pub kind: NodeKind,
    /// The node's name; empty only for the root directory.
    pub name: String,
    /// The node's extension; empty for directories.
    pub ext: String,
    /// The node's media type; empty for directories.
    pub media_type: String,
    /// The raw payload: file bytes, or a directory's child index list.
    pub data: Vec<u8>,
}

/// A pack node's strings each fit their one-byte descriptor fields.
pub open spec fn wf_pack_node(n: PackNode) -> bool {
    &&& encode_utf8(n.name@).len() <= 255
    &&& encode_utf8(n.ext@).len() <= 255
    &&& encode_utf8(n.media_type@).len() <= 255
}

/// The node carries some tree entry's identity and payload.
pub open spec fn node_has_source(
    nd: PackNode,
    arena: Seq<FsEntry>,
    tv: Seq<(Seq<char>, Seq<char>)>,
) -> bool {
    exists|x: int| 0 <= x < arena.len() && #[trigger] node_matches_entry(nd, arena[x], tv)
}

/// Every node carries some tree entry's identity and payload.
pub open spec fn nodes_match_arena(
    nodes: Seq<PackNode>,
    arena: Seq<FsEntry>,
    tv: Seq<(Seq<char>, Seq<char>)>,
) -> bool {
    forall|k: int|
        0 <= k < nodes.len() ==> node_has_source(#[trigger] nodes[k], arena, tv)
}

/// A node carries one tree entry's identity and payload: a directory keeps
/// its name and gets a four-bytes-per-child index payload; a file keeps its
/// name, extension and bytes, and gets its resolved media type.
pub open spec fn node_matches_entry(
    nd: PackNode,
    e: FsEntry,
    tv: Seq<(Seq<char>, Seq<char>)>,
) -> bool {
    match e.kind {
        FsEntryKind::Directory => {
            &&& nd.kind == NodeKind::Directory
            &&& nd.name@ == e.name@
            &&& nd.ext@.len() == 0
            &&& nd.media_type@.len() == 0
            &&& nd.data@.len() == 4 * e.children@.len()
            &&& exists|idxs: Seq<u32>|
                nd.data@ == #[trigger] crate::layout::spec_index_list_bytes(idxs) && idxs.len()
                    == e.children@.len()
        },
        FsEntryKind::File => {
            &&& nd.kind == NodeKind::Resource
            &&& nd.name@ == e.name@
            &&& nd.ext@ == e.extension@
            &&& nd.media_type@ == spec_resolved_media_type(tv, e.extension@)
            &&& nd.data@ == e.data@
        },
    }
}

/// All children of the directory at arena index `d` are in range and seen.
pub open spec fn all_children_seen(arena: Seq<FsEntry>, d: int, visited: Seq<bool>, n: int) -> bool {
    forall|ci: int|
        0 <= ci < arena[d].children@.len() ==> (#[trigger] arena[d].children@[ci]) < n && visited[
            arena[d].children@[ci] as int
        ]
}

/// The seen-flags with only the root marked.
pub open spec fn spec_init_visited(n: int) -> Seq<bool> {
    Seq::new(n as nat, |i: int| i == 0)
}

/// The order indices as mathematical integers.
pub open spec fn order_ints(s: Seq<usize>) -> Seq<int> {
    Seq::new(s.len(), |i: int| s[i] as int)
}

/// The index is listed in one of the two enumeration orders.
pub open spec fn in_orders(dirs: Seq<usize>, files: Seq<usize>, x: int) -> bool {
    ||| exists|j: int| 0 <= j < dirs.len() && (#[trigger] dirs[j]) as int == x
    ||| exists|j: int| 0 <= j < files.len() && (#[trigger] files[j]) as int == x
}

/// Growing either order keeps every listed index listed.
proof fn lemma_in_orders_push(dirs: Seq<usize>, files: Seq<usize>, x: int, y: usize, to_dirs: bool)
    requires
        in_orders(dirs, files, x),
    ensures
        to_dirs ==> in_orders(dirs.push(y), files, x),
        !to_dirs ==> in_orders(dirs, files.push(y), x),
{
    if exists|j: int| 0 <= j < dirs.len() && (#[trigger] dirs[j]) as int == x {
        let j = choose|j: int| 0 <= j < dirs.len() && (#[trigger] dirs[j]) as int == x;
        assert(dirs.push(y)[j] == dirs[j]);
    } else {
        let j = choose|j: int| 0 <= j < files.len() && (#[trigger] files[j]) as int == x;
        assert(files.push(y)[j] == files[j]);
    }
}

/// Scanning the children of the directory at arena index `d` from child
/// `ci` on: unseen directories join the directory order and unseen files the
/// file order, each marked seen; a child out of range or seen twice is the
/// malformed-tree error.
pub open spec fn spec_bfs_children(
    arena: Seq<FsEntry>,
    dirs: Seq<int>,
    files: Seq<int>,
    visited: Seq<bool>,
    d: int,
    ci: int,
) -> Result<(Seq<int>, Seq<int>, Seq<bool>), ArpError>
    decreases arena[d].children@.len() - ci,
{
    if !(0 <= d < arena.len()) || !(0 <= ci < arena[d].children@.len()) {
        Ok((dirs, files, visited))
    } else {
        let ch = arena[d].children@[ci] as int;
        if ch >= arena.len() {
            Err(ArpError::MalformedTree)
        } else if visited[ch] {
            Err(ArpError::MalformedTree)
        } else {
            match arena[ch].kind {
                FsEntryKind::Directory => spec_bfs_children(
                    arena,
                    dirs.push(ch),
                    files,
                    visited.update(ch, true),
                    d,
                    ci + 1,
                ),
                FsEntryKind::File => spec_bfs_children(
                    arena,
                    dirs,
                    files.push(ch),
                    visited.update(ch, true),
                    d,
                    ci + 1,
                ),
            }
        }
    }
}

/// The breadth-first enumeration from the `c`-th queued directory on: each
/// queued directory's children are scanned in order, newly seen directories
/// extending the queue. The fuel only bounds the recursion; it never runs
/// out, since the queue holds distinct indices.
pub open spec fn spec_bfs(
    arena: Seq<FsEntry>,
    dirs: Seq<int>,
    files: Seq<int>,
    visited: Seq<bool>,
    c: int,
    fuel: nat,
) -> Result<(Seq<int>, Seq<int>), ArpError>
    decreases fuel,
{
    if c >= dirs.len() {
        Ok((dirs, files))
    } else if fuel == 0 {
        Err(ArpError::MalformedTree)
    } else {
        match spec_bfs_children(arena, dirs, files, visited, dirs[c], 0) {
            Err(e) => Err(e),
            Ok((dirs2, files2, visited2)) => spec_bfs(
                arena,
                dirs2,
                files2,
                visited2,
                c + 1,
                (fuel - 1) as nat,
            ),
        }
    }
}

/// Every enumerated entry's strings fit their one-byte descriptor fields,
/// file media types after resolution against the table.
pub open spec fn spec_names_ok(
    arena: Seq<FsEntry>,
    tv: Seq<(Seq<char>, Seq<char>)>,
    dirs: Seq<int>,
    files: Seq<int>,
) -> bool {
    &&& forall|j: int|
        0 <= j < dirs.len() ==> encode_utf8(arena[#[trigger] dirs[j]].name@).len() <= 255
    &&& forall|j: int|
        0 <= j < files.len() ==> {
            let e = arena[#[trigger] files[j]];
            &&& encode_utf8(e.name@).len() <= 255
            &&& encode_utf8(e.extension@).len() <= 255
            &&& encode_utf8(spec_resolved_media_type(tv, e.extension@)).len() <= 255
        }
}

/// What building the node list from a tree gives: the breadth-first
/// directory and file orders when the arena is a well-formed tree whose
/// names fit, or the exact failure: a malformed tree (empty, a non-directory
/// root, too many entries, a child out of range or with two parents, or
/// entries no directory reaches), or a name that does not fit its field.
pub open spec fn spec_build_outcome(arena: Seq<FsEntry>, tv: Seq<(Seq<char>, Seq<char>)>) -> Result<
    (Seq<int>, Seq<int>),
    ArpError,
> {
    if arena.len() == 0 || arena.len() > 0xFFFF_FFFF || arena[0].kind != FsEntryKind::Directory {
        Err(ArpError::MalformedTree)
    } else {
        match spec_bfs(
            arena,
            seq![0int],
            Seq::empty(),
            spec_init_visited(arena.len() as int),
            0,
            arena.len() as nat,
        ) {
            Err(e) => Err(e),
            Ok((dirs, files)) => {
                if dirs.len() + files.len() != arena.len() {
                    Err(ArpError::MalformedTree)
                } else if !spec_names_ok(arena, tv, dirs, files) {
                    Err(ArpError::NameTooLong)
                } else {
                    Ok((dirs, files))
                }
            },
        }
    }
}

/// The position of the first occurrence of `x` in the order, or -1.
pub open spec fn pos_in(order: Seq<int>, x: int) -> int
    decreases order.len(),
{
    if order.len() == 0 {
        -1
    } else if order[0] == x {
        0
    } else if pos_in(order.drop_first(), x) == -1 {
        -1
    } else {
        1 + pos_in(order.drop_first(), x)
    }
}

/// Where `x` is found is either nowhere, or a position holding `x`.
pub proof fn lemma_pos_in_bounds(order: Seq<int>, x: int)
    ensures
        pos_in(order, x) == -1 || (0 <= pos_in(order, x) < order.len() && order[pos_in(order, x)]
            == x),
    decreases order.len(),
{
    if order.len() > 0 && order[0] != x {
        lemma_pos_in_bounds(order.drop_first(), x);
    }
}

/// An absent element has no position.
pub proof fn lemma_pos_in_none(order: Seq<int>, x: int)
    requires
        forall|k: int| 0 <= k < order.len() ==> order[k] != x,
    ensures
        pos_in(order, x) == -1,
    decreases order.len(),
{
    if order.len() > 0 {
        assert(forall|k: int|
            0 <= k < order.drop_first().len() ==> #[trigger] order.drop_first()[k] == order[k
                + 1]);
        lemma_pos_in_none(order.drop_first(), x);
    }
}

/// In an order without duplicates, each element's position is its index.
pub proof fn lemma_pos_in_at(order: Seq<int>, j: int)
    requires
        0 <= j < order.len(),
        forall|k1: int, k2: int| 0 <= k1 < k2 < order.len() ==> order[k1] != order[k2],
    ensures
        pos_in(order, order[j]) == j,
    decreases order.len(),
{
    if j > 0 {
        let d = order.drop_first();
        assert(forall|k: int| 0 <= k < d.len() ==> #[trigger] d[k] == order[k + 1]);
        lemma_pos_in_at(d, j - 1);
        assert(order[0] != order[j]);
    }
}

/// The final node index of arena entry `x` under the enumeration orders:
/// its position among the directories, or past them among the files.
pub open spec fn spec_final_index(dirs: Seq<int>, files: Seq<int>, x: int) -> u32 {
    if pos_in(dirs, x) >= 0 {
        pos_in(dirs, x) as u32
    } else {
        (dirs.len() + pos_in(files, x)) as u32
    }
}

/// The indices among `cs` whose arena entries are of the kind, in order.
pub open spec fn spec_kind_children(
    arena: Seq<FsEntry>,
    cs: Seq<usize>,
    kind: FsEntryKind,
) -> Seq<usize>
    decreases cs.len(),
{
    if cs.len() == 0 {
        Seq::empty()
    } else {
        let rest = spec_kind_children(arena, cs.drop_last(), kind);
        if 0 <= (cs.last() as int) < arena.len() && arena[cs.last() as int].kind == kind {
            rest.push(cs.last())
        } else {
            rest
        }
    }
}

/// The payload a directory node carries: the final indices of its children,
/// subdirectories first then files, each in child order, 4 bytes each.
pub open spec fn spec_dir_payload(
    arena: Seq<FsEntry>,
    dirs: Seq<int>,
    files: Seq<int>,
    d: int,
) -> Seq<u8> {
    let parts = spec_kind_children(arena, arena[d].children@, FsEntryKind::Directory)
        + spec_kind_children(arena, arena[d].children@, FsEntryKind::File);
    crate::layout::spec_index_list_bytes(
        Seq::new(parts.len(), |q: int| spec_final_index(dirs, files, parts[q] as int)),
    )
}

/// Assigns every tree entry its final node index and builds the node list:

/// directories breadth-first from the root, then files in the order their
/// parent directories were enumerated; every directory's payload holds its
/// children's final indices, subdirectories first.
#[verifier::loop_isolation(false)]
#[verifier::rlimit(100)]
pub fn build_nodes(arena: &Vec<FsEntry>, media_types: &MediaTypeTable) -> (r: Result<
    Vec<PackNode>,
    ArpError,
>)
    ensures
        r matches Err(e) ==> e == ArpError::MalformedTree || e == ArpError::NameTooLong,
        match spec_build_outcome(arena@, table_view(media_types.entries@)) {
            Err(e) => r == Err::<Vec<PackNode>, ArpError>(e),
            Ok(orders) => r matches Ok(nodes) && {
                let (dirs, files) = orders;
                &&& nodes@.len() == dirs.len() + files.len()
                &&& forall|k: int|
                    0 <= k < dirs.len() ==> 0 <= #[trigger] dirs[k] < arena@.len()
                        && arena@[dirs[k]].kind == FsEntryKind::Directory
                &&& forall|k: int|
                    0 <= k < files.len() ==> 0 <= #[trigger] files[k] < arena@.len()
                        && arena@[files[k]].kind == FsEntryKind::File
                &&& forall|k: int|
                    0 <= k < dirs.len() ==> node_matches_entry(
                        #[trigger] nodes@[k],
                        arena@[dirs[k]],
                        table_view(media_types.entries@),
                    )
                &&& forall|k: int|
                    0 <= k < files.len() ==> node_matches_entry(
                        #[trigger] nodes@[dirs.len() + k],
                        arena@[files[k]],
                        table_view(media_types.entries@),
                    )
                &&& forall|k: int|
                    0 <= k < dirs.len() ==> (#[trigger] nodes@[k]).data@ == spec_dir_payload(
                        arena@,
                        dirs,
                        files,
                        dirs[k],
                    )
            },
        },
        r matches Ok(nodes) ==> {
            &&& nodes@.len() == arena@.len()
            &&& 1 <= nodes@.len() <= 0xFFFF_FFFF
            &&& nodes@[0].kind == NodeKind::Directory
            &&& forall|k: int| 0 <= k < nodes@.len() ==> wf_pack_node(#[trigger] nodes@[k])
            &&& dirs_before_files(nodes@)
            &&& nodes_match_arena(nodes@, arena@, table_view(media_types.entries@))
        },
{
    let ghost tv = table_view(media_types.entries@);
    let n = arena.len();
    if n == 0 {
        return Err(ArpError::MalformedTree);
    }
    if n > 0xFFFF_FFFF {
        return Err(ArpError::MalformedTree);
    }
    match arena[0].kind {
        FsEntryKind::Directory => {},
        FsEntryKind::File => {
            return Err(ArpError::MalformedTree);
        },
    }
    let mut visited: Vec<bool> = Vec::new();
    let mut i: usize = 0;
    while i < n
        invariant
            i <= n,
            visited@.len() == i,
            forall|k: int| 0 <= k < i ==> !(#[trigger] visited@[k]),
        decreases n - i,
    {
        visited.push(false);
        i += 1;
    }
    proof {
        lemma_count_trues_all_false(visited@);
    }
    let mut dir_order: Vec<usize> = Vec::new();
    let mut file_order: Vec<usize> = Vec::new();
    proof {
        lemma_count_trues_set(visited@, 0);
        lemma_count_trues_le(visited@.update(0, true));
    }
    visited.set(0, true);
    dir_order.push(0);
    proof {
        assert(visited@ =~= spec_init_visited(n as int));
        assert(order_ints(dir_order@) =~= seq![0int]);
        assert(order_ints(file_order@) =~= Seq::<int>::empty());
        assert(in_orders(dir_order@, file_order@, 0)) by {
            assert(dir_order@[0] as int == 0);
        }
        assert(forall|x: int|
            0 <= x < n && #[trigger] visited@[x] ==> x == 0 && in_orders(
                dir_order@,
                file_order@,
                x,
            ));
    }
    let mut c: usize = 0;
    while c < dir_order.len()
        invariant
            n == arena@.len(),
            visited@.len() == n,
            dir_order@.len() >= 1,
            c <= dir_order@.len(),
            dir_order@.len() + file_order@.len() == count_trues(visited@),
            count_trues(visited@) <= n,
            forall|j: int| 0 <= j < dir_order@.len() ==> (#[trigger] dir_order@[j]) < n,
            forall|j: int| 0 <= j < file_order@.len() ==> (#[trigger] file_order@[j]) < n,
            forall|j: int|
                0 <= j < dir_order@.len() ==> arena@[(#[trigger] dir_order@[j]) as int].kind
                    == FsEntryKind::Directory,
            forall|j: int|
                0 <= j < file_order@.len() ==> arena@[(#[trigger] file_order@[j]) as int].kind
                    == FsEntryKind::File,
            spec_bfs(
                arena@,
                seq![0int],
                Seq::<int>::empty(),
                spec_init_visited(n as int),
                0,
                n as nat,
            ) == spec_bfs(
                arena@,
                order_ints(dir_order@),
                order_ints(file_order@),
                visited@,
                c as int,
                (n - c) as nat,
            ),
            forall|x: int|
                0 <= x < n && #[trigger] visited@[x] ==> in_orders(dir_order@, file_order@, x),
            forall|j: int|
                0 <= j < c ==> all_children_seen(
                    arena@,
                    (#[trigger] dir_order@[j]) as int,
                    visited@,
                    n as int,
                ),
            forall|j: int|
                0 <= j < dir_order@.len() ==> visited@[(#[trigger] dir_order@[j]) as int],
            forall|j: int|
                0 <= j < file_order@.len() ==> visited@[(#[trigger] file_order@[j]) as int],
            forall|j1: int, j2: int|
                0 <= j1 < j2 < dir_order@.len() ==> dir_order@[j1] != dir_order@[j2],
            forall|j1: int, j2: int|
                0 <= j1 < j2 < file_order@.len() ==> file_order@[j1] != file_order@[j2],
            forall|j1: int, j2: int|
                0 <= j1 < dir_order@.len() && 0 <= j2 < file_order@.len() ==> dir_order@[j1]
                    != file_order@[j2],
        decreases n - c,
    {
        let d = dir_order[c];
        let ghost dirs_in = order_ints(dir_order@);
        let ghost files_in = order_ints(file_order@);
        let ghost visited_in = visited@;
        proof {
            assert(dirs_in[c as int] == d as int);
            assert(c < dirs_in.len());
            assert(dirs_in.len() <= n);
        }
        let child_count = arena[d].children.len();
        let mut ci: usize = 0;
        while ci < child_count
            invariant
                n == arena@.len(),
                visited@.len() == n,
                dir_order@.len() >= 1,
                d < n,
                child_count == arena@[d as int].children@.len(),
                ci <= child_count,
                c < dir_order@.len(),
                dir_order@[c as int] == d,
                dir_order@.len() + file_order@.len() == count_trues(visited@),
                count_trues(visited@) <= n,
                forall|j: int| 0 <= j < dir_order@.len() ==> (#[trigger] dir_order@[j]) < n,
                forall|j: int| 0 <= j < file_order@.len() ==> (#[trigger] file_order@[j]) < n,
                forall|j: int|
                    0 <= j < dir_order@.len() ==> arena@[(#[trigger] dir_order@[j]) as int].kind
                        == FsEntryKind::Directory,
                forall|j: int|
                    0 <= j < file_order@.len() ==> arena@[(#[trigger] file_order@[j]) as int].kind
                        == FsEntryKind::File,
                spec_bfs_children(arena@, dirs_in, files_in, visited_in, d as int, 0)
                    == spec_bfs_children(
                    arena@,
                    order_ints(dir_order@),
                    order_ints(file_order@),
                    visited@,
                    d as int,
                    ci as int,
                ),
                forall|x: int|
                    0 <= x < n && #[trigger] visited@[x] ==> in_orders(dir_order@, file_order@, x),
                forall|j: int|
                    0 <= j < c ==> all_children_seen(
                        arena@,
                        (#[trigger] dir_order@[j]) as int,
                        visited@,
                        n as int,
                    ),
                forall|k: int|
                    0 <= k < ci ==> (#[trigger] arena@[d as int].children@[k]) < n && visited@[
                        arena@[d as int].children@[k] as int
                    ],
                forall|j: int|
                    0 <= j < dir_order@.len() ==> visited@[(#[trigger] dir_order@[j]) as int],
                forall|j: int|
                    0 <= j < file_order@.len() ==> visited@[(#[trigger] file_order@[j]) as int],
                forall|j1: int, j2: int|
                    0 <= j1 < j2 < dir_order@.len() ==> dir_order@[j1] != dir_order@[j2],
                forall|j1: int, j2: int|
                    0 <= j1 < j2 < file_order@.len() ==> file_order@[j1] != file_order@[j2],
                forall|j1: int, j2: int|
                    0 <= j1 < dir_order@.len() && 0 <= j2 < file_order@.len() ==> dir_order@[j1]
                        != file_order@[j2],
            decreases child_count - ci,
        {
            let ch = arena[d].children[ci];
            if ch >= n {
                proof {
                    assert(spec_bfs_children(
                        arena@,
                        order_ints(dir_order@),
                        order_ints(file_order@),
                        visited@,
                        d as int,
                        ci as int,
                    ) == Err::<(Seq<int>, Seq<int>, Seq<bool>), ArpError>(ArpError::MalformedTree));
                    assert(spec_bfs(
                        arena@,
                        dirs_in,
                        files_in,
                        visited_in,
                        c as int,
                        (n - c) as nat,
                    ) == Err::<(Seq<int>, Seq<int>), ArpError>(ArpError::MalformedTree));
                    assert(spec_build_outcome(arena@, tv) == Err::<(Seq<int>, Seq<int>), ArpError>(
                        ArpError::MalformedTree,
                    ));
                }
                return Err(ArpError::MalformedTree);
            }
            if visited[ch] {
                proof {
                    assert(spec_bfs_children(
                        arena@,
                        order_ints(dir_order@),
                        order_ints(file_order@),
                        visited@,
                        d as int,
                        ci as int,
                    ) == Err::<(Seq<int>, Seq<int>, Seq<bool>), ArpError>(ArpError::MalformedTree));
                    assert(spec_bfs(
                        arena@,
                        dirs_in,
                        files_in,
                        visited_in,
                        c as int,
                        (n - c) as nat,
                    ) == Err::<(Seq<int>, Seq<int>), ArpError>(ArpError::MalformedTree));
                    assert(spec_build_outcome(arena@, tv) == Err::<(Seq<int>, Seq<int>), ArpError>(
                        ArpError::MalformedTree,
                    ));
                }
                return Err(ArpError::MalformedTree);
            }
            proof {
                lemma_count_trues_set(visited@, ch as int);
                lemma_count_trues_le(visited@.update(ch as int, true));
            }
            let ghost ov = visited@;
            let ghost od = dir_order@;
            let ghost of_ = file_order@;
            visited.set(ch, true);
            let is_dir_child = match arena[ch].kind {
                FsEntryKind::Directory => {
                    dir_order.push(ch);
                    true
                },
                FsEntryKind::File => {
                    file_order.push(ch);
                    false
                },
            };
            proof {
                if is_dir_child {
                    assert(order_ints(dir_order@) =~= order_ints(od).push(ch as int));
                    assert(order_ints(file_order@) == order_ints(of_));
                } else {
                    assert(order_ints(file_order@) =~= order_ints(of_).push(ch as int));
                    assert(order_ints(dir_order@) == order_ints(od));
                }
                assert(spec_bfs_children(arena@, dirs_in, files_in, visited_in, d as int, 0)
                    == spec_bfs_children(
                    arena@,
                    order_ints(dir_order@),
                    order_ints(file_order@),
                    visited@,
                    d as int,
                    ci + 1,
                ));
                assert forall|x: int| 0 <= x < n && #[trigger] visited@[x] implies in_orders(
                    dir_order@,
                    file_order@,
                    x,
                ) by {
                    if x == ch {
                        if is_dir_child {
                            assert(dir_order@[dir_order@.len() - 1] as int == x);
                        } else {
                            assert(file_order@[file_order@.len() - 1] as int == x);
                        }
                    } else {
                        assert(ov[x]);
                        assert(in_orders(od, of_, x));
                        lemma_in_orders_push(od, of_, x, ch, is_dir_child);
                    }
                }
                assert forall|j: int| 0 <= j < c implies all_children_seen(
                    arena@,
                    (#[trigger] dir_order@[j]) as int,
                    visited@,
                    n as int,
                ) by {
                    assert(dir_order@[j] == od[j]);
                    assert(all_children_seen(arena@, od[j] as int, ov, n as int));
                    let dd = od[j] as int;
                    assert forall|k: int| 0 <= k < arena@[dd].children@.len() implies (
                    #[trigger] arena@[dd].children@[k]) < n && visited@[arena@[dd].children@[k] as int] by {
                        assert(arena@[dd].children@[k] < n && ov[arena@[dd].children@[k] as int]);
                    }
                }
                assert(!ov[ch as int]);
                assert forall|j: int| 0 <= j < dir_order@.len() implies visited@[(
                #[trigger] dir_order@[j]) as int] by {
                    if j < od.len() {
                        assert(dir_order@[j] == od[j]);
                        assert(ov[od[j] as int]);
                    } else {
                        assert(dir_order@[j] == ch);
                    }
                }
                assert forall|j: int| 0 <= j < file_order@.len() implies visited@[(
                #[trigger] file_order@[j]) as int] by {
                    if j < of_.len() {
                        assert(file_order@[j] == of_[j]);
                        assert(ov[of_[j] as int]);
                    } else {
                        assert(file_order@[j] == ch);
                    }
                }
                assert forall|j1: int, j2: int|
                    0 <= j1 < j2 < dir_order@.len() implies dir_order@[j1] != dir_order@[j2] by {
                    if j2 == dir_order@.len() - 1 && is_dir_child {
                        assert(dir_order@[j1] == od[j1] && ov[od[j1] as int]);
                        assert(dir_order@[j2] == ch);
                    }
                }
                assert forall|j1: int, j2: int|
                    0 <= j1 < j2 < file_order@.len() implies file_order@[j1] != file_order@[j2] by {
                    if j2 == file_order@.len() - 1 && !is_dir_child {
                        assert(file_order@[j1] == of_[j1] && ov[of_[j1] as int]);
                        assert(file_order@[j2] == ch);
                    }
                }
                assert forall|j1: int, j2: int|
                    0 <= j1 < dir_order@.len() && 0 <= j2 < file_order@.len() implies dir_order@[j1]
                    != file_order@[j2] by {
                    if is_dir_child {
                        if j1 == dir_order@.len() - 1 {
                            assert(dir_order@[j1] == ch);
                            assert(file_order@[j2] == of_[j2] && ov[of_[j2] as int]);
                        }
                    } else {
                        if j2 == file_order@.len() - 1 {
                            assert(file_order@[j2] == ch);
                            assert(dir_order@[j1] == od[j1] && ov[od[j1] as int]);
                        }
                    }
                }
            }
            ci += 1;
        }
        proof {
            assert(spec_bfs_children(
                arena@,
                order_ints(dir_order@),
                order_ints(file_order@),
                visited@,
                d as int,
                child_count as int,
            ) == Ok::<(Seq<int>, Seq<int>, Seq<bool>), ArpError>((
                order_ints(dir_order@),
                order_ints(file_order@),
                visited@,
            )));
            assert(spec_bfs(
                arena@,
                seq![0int],
                Seq::<int>::empty(),
                spec_init_visited(n as int),
                0,
                n as nat,
            ) == spec_bfs(
                arena@,
                order_ints(dir_order@),
                order_ints(file_order@),
                visited@,
                c + 1,
                (n - (c + 1)) as nat,
            ));
            assert(all_children_seen(arena@, d as int, visited@, n as int));
            assert(dir_order@[c as int] == d);
        }
        c += 1;
    }
    let dir_count = dir_order.len();
    let file_count = file_order.len();
    proof {
        assert(spec_bfs(
            arena@,
            seq![0int],
            Seq::<int>::empty(),
            spec_init_visited(n as int),
            0,
            n as nat,
        ) == Ok::<(Seq<int>, Seq<int>), ArpError>((
            order_ints(dir_order@),
            order_ints(file_order@),
        )));
    }
    if dir_count + file_count != n {
        proof {
            assert(spec_build_outcome(arena@, tv) == Err::<(Seq<int>, Seq<int>), ArpError>(
                ArpError::MalformedTree,
            ));
        }
        return Err(ArpError::MalformedTree);
    }
    let ghost sdirs = order_ints(dir_order@);
    let ghost sfiles = order_ints(file_order@);
    proof {
        assert forall|j1: int, j2: int| 0 <= j1 < j2 < sdirs.len() implies sdirs[j1]
            != sdirs[j2] by {
            assert(dir_order@[j1] != dir_order@[j2]);
        }
        assert forall|j1: int, j2: int| 0 <= j1 < j2 < sfiles.len() implies sfiles[j1]
            != sfiles[j2] by {
            assert(file_order@[j1] != file_order@[j2]);
        }
    }
    // Final index of each arena entry: directories first, then files.
    let mut final_index: Vec<u32> = Vec::new();
    let mut assigned: Vec<bool> = Vec::new();
    let mut i2: usize = 0;
    while i2 < n
        invariant
            i2 <= n,
            final_index@.len() == i2,
            assigned@.len() == i2,
        decreases n - i2,
    {
        final_index.push(0);
        assigned.push(false);
        i2 += 1;
    }
    let mut j: usize = 0;
    while j < dir_count
        invariant
            n == arena@.len(),
            dir_count == dir_order@.len(),
            forall|k: int| 0 <= k < dir_order@.len() ==> (#[trigger] dir_order@[k]) < n,
            final_index@.len() == n,
            assigned@.len() == n,
            j <= dir_count,
            forall|k: int| 0 <= k < j ==> assigned@[(#[trigger] dir_order@[k]) as int],
            forall|k: int|
                0 <= k < j ==> final_index@[(#[trigger] dir_order@[k]) as int] == k as u32,
        decreases dir_count - j,
    {
        let x = dir_order[j];
        final_index.set(x, j as u32);
        assigned.set(x, true);
        j += 1;
    }
    let mut j2: usize = 0;
    while j2 < file_count
        invariant
            n == arena@.len(),
            file_count == file_order@.len(),
            dir_count + file_count == n,
            forall|k: int| 0 <= k < file_order@.len() ==> (#[trigger] file_order@[k]) < n,
            final_index@.len() == n,
            assigned@.len() == n,
            j2 <= file_count,
            forall|k: int|
                0 <= k < dir_order@.len() ==> assigned@[(#[trigger] dir_order@[k]) as int],
            forall|k: int| 0 <= k < j2 ==> assigned@[(#[trigger] file_order@[k]) as int],
            forall|k: int|
                0 <= k < dir_order@.len() ==> final_index@[(#[trigger] dir_order@[k]) as int] == (
                k as u32),
            forall|k: int|
                0 <= k < j2 ==> final_index@[(#[trigger] file_order@[k]) as int] == ((dir_count
                    + k) as u32),
        decreases file_count - j2,
    {
        let x = file_order[j2];
        final_index.set(x, (dir_count + j2) as u32);
        assigned.set(x, true);
        j2 += 1;
    }
    // Build the node list: directories in enumeration order, then files.
    let mut nodes: Vec<PackNode> = Vec::new();
    let mut j3: usize = 0;
    while j3 < dir_count
        invariant
            n == arena@.len(),
            dir_count == dir_order@.len(),
            forall|k: int| 0 <= k < dir_order@.len() ==> (#[trigger] dir_order@[k]) < n,
            final_index@.len() == n,
            assigned@.len() == n,
            j3 <= dir_count,
            nodes@.len() == j3,
            forall|k: int|
                0 <= k < j3 ==> (#[trigger] nodes@[k]).kind == NodeKind::Directory && wf_pack_node(
                    nodes@[k],
                ),
            forall|j: int|
                0 <= j < dir_order@.len() ==> arena@[(#[trigger] dir_order@[j]) as int].kind
                    == FsEntryKind::Directory,
            forall|k: int|
                0 <= k < j3 ==> node_matches_entry(
                    #[trigger] nodes@[k],
                    arena@[dir_order@[k] as int],
                    tv,
                ),
            forall|k: int|
                0 <= k < j3 ==> (#[trigger] nodes@[k]).data@ == spec_dir_payload(
                    arena@,
                    sdirs,
                    sfiles,
                    sdirs[k],
                ),
        decreases dir_count - j3,
    {
        let d = dir_order[j3];
        let child_count = arena[d].children.len();
        let ghost cs = arena@[d as int].children@;
        let mut child_dir_finals: Vec<u32> = Vec::new();
        let mut child_file_finals: Vec<u32> = Vec::new();
        let mut ci: usize = 0;
        proof {
            assert(cs.subrange(0, 0) =~= Seq::<usize>::empty());
            assert(spec_kind_children(arena@, cs.subrange(0, 0), FsEntryKind::Directory)
                =~= Seq::<usize>::empty());
            assert(spec_kind_children(arena@, cs.subrange(0, 0), FsEntryKind::File) =~= Seq::<
                usize,
            >::empty());
        }
        while ci < child_count
            invariant
                n == arena@.len(),
                d < n,
                cs == arena@[d as int].children@,
                child_count == arena@[d as int].children@.len(),
                final_index@.len() == n,
                assigned@.len() == n,
                ci <= child_count,
                child_dir_finals@.len() + child_file_finals@.len() == ci,
                child_dir_finals@.len() == spec_kind_children(
                    arena@,
                    cs.subrange(0, ci as int),
                    FsEntryKind::Directory,
                ).len(),
                child_file_finals@.len() == spec_kind_children(
                    arena@,
                    cs.subrange(0, ci as int),
                    FsEntryKind::File,
                ).len(),
                forall|q: int|
                    0 <= q < child_dir_finals@.len() ==> #[trigger] child_dir_finals@[q]
                        == spec_final_index(
                        sdirs,
                        sfiles,
                        spec_kind_children(
                            arena@,
                            cs.subrange(0, ci as int),
                            FsEntryKind::Directory,
                        )[q] as int,
                    ),
                forall|q: int|
                    0 <= q < child_file_finals@.len() ==> #[trigger] child_file_finals@[q]
                        == spec_final_index(
                        sdirs,
                        sfiles,
                        spec_kind_children(
                            arena@,
                            cs.subrange(0, ci as int),
                            FsEntryKind::File,
                        )[q] as int,
                    ),
            decreases child_count - ci,
        {
            let ch = arena[d].children[ci];
            proof {
                assert(all_children_seen(arena@, d as int, visited@, n as int));
                assert(ch < n && visited@[ch as int]);
                assert(in_orders(dir_order@, file_order@, ch as int));
                if exists|k: int|
                    0 <= k < dir_order@.len() && (#[trigger] dir_order@[k]) as int == ch as int {
                    let k = choose|k: int|
                        0 <= k < dir_order@.len() && (#[trigger] dir_order@[k]) as int
                            == ch as int;
                    assert(assigned@[dir_order@[k] as int]);
                } else {
                    let k = choose|k: int|
                        0 <= k < file_order@.len() && (#[trigger] file_order@[k]) as int
                            == ch as int;
                    assert(assigned@[file_order@[k] as int]);
                }
                assert(assigned@[ch as int]);
                if arena@[ch as int].kind == FsEntryKind::Directory {
                    assert(exists|k: int|
                        0 <= k < dir_order@.len() && ((#[trigger] dir_order@[k]) as int)
                            == ch as int) by {
                        if !(exists|k: int|
                            0 <= k < dir_order@.len() && ((#[trigger] dir_order@[k]) as int)
                                == ch as int) {
                            let k = choose|k: int|
                                0 <= k < file_order@.len() && ((#[trigger] file_order@[k]) as int)
                                    == ch as int;
                            assert(arena@[file_order@[k] as int].kind == FsEntryKind::File);
                        }
                    }
                    let k = choose|k: int|
                        0 <= k < dir_order@.len() && ((#[trigger] dir_order@[k]) as int)
                            == ch as int;
                    lemma_pos_in_at(sdirs, k);
                    assert(sdirs[k] == ch as int);
                    assert(pos_in(sdirs, ch as int) == k);
                    assert(final_index@[ch as int] == k as u32);
                    assert(final_index@[ch as int] == spec_final_index(sdirs, sfiles, ch as int));
                } else {
                    assert(exists|k: int|
                        0 <= k < file_order@.len() && ((#[trigger] file_order@[k]) as int)
                            == ch as int) by {
                        if !(exists|k: int|
                            0 <= k < file_order@.len() && ((#[trigger] file_order@[k]) as int)
                                == ch as int) {
                            let k = choose|k: int|
                                0 <= k < dir_order@.len() && ((#[trigger] dir_order@[k]) as int)
                                    == ch as int;
                            assert(arena@[dir_order@[k] as int].kind == FsEntryKind::Directory);
                        }
                    }
                    let k = choose|k: int|
                        0 <= k < file_order@.len() && ((#[trigger] file_order@[k]) as int)
                            == ch as int;
                    assert(forall|q: int| 0 <= q < sdirs.len() ==> #[trigger] sdirs[q] != ch as int)
                        by {
                        assert(forall|q: int|
                            0 <= q < dir_order@.len() ==> arena@[(#[trigger] dir_order@[q]) as int].kind
                                == FsEntryKind::Directory);
                    }
                    lemma_pos_in_none(sdirs, ch as int);
                    lemma_pos_in_at(sfiles, k);
                    assert(sfiles[k] == ch as int);
                    assert(final_index@[ch as int] == (dir_count + k) as u32);
                    assert(final_index@[ch as int] == spec_final_index(sdirs, sfiles, ch as int));
                }
            }
            if ch >= n || !assigned[ch] {
                return Err(ArpError::MalformedTree);
            }
            let ghost old_dirf = child_dir_finals@;
            let ghost old_filef = child_file_finals@;
            match arena[ch].kind {
                FsEntryKind::Directory => {
                    child_dir_finals.push(final_index[ch]);
                },
                FsEntryKind::File => {
                    child_file_finals.push(final_index[ch]);
                },
            }
            proof {
                let pre = cs.subrange(0, ci as int);
                let cur = cs.subrange(0, ci + 1 as int);
                assert(cur.drop_last() =~= pre);
                assert(cur.last() == cs[ci as int]);
                assert(cs[ci as int] == ch);
                if arena@[ch as int].kind == FsEntryKind::Directory {
                    assert(spec_kind_children(arena@, cur, FsEntryKind::Directory)
                        == spec_kind_children(arena@, pre, FsEntryKind::Directory).push(ch));
                    assert(spec_kind_children(arena@, cur, FsEntryKind::File)
                        == spec_kind_children(arena@, pre, FsEntryKind::File));
                    assert(child_dir_finals@ == old_dirf.push(final_index@[ch as int]));
                } else {
                    assert(spec_kind_children(arena@, cur, FsEntryKind::File)
                        == spec_kind_children(arena@, pre, FsEntryKind::File).push(ch));
                    assert(spec_kind_children(arena@, cur, FsEntryKind::Directory)
                        == spec_kind_children(arena@, pre, FsEntryKind::Directory));
                    assert(child_file_finals@ == old_filef.push(final_index@[ch as int]));
                }
            }
            ci += 1;
        }
        let mut all_finals = child_dir_finals;
        let mut file_finals = child_file_finals;
        let ghost dirf = all_finals@;
        let ghost filef = file_finals@;
        all_finals.append(&mut file_finals);
        let payload = crate::layout::encode_index_list(&all_finals);
        proof {
            assert(all_finals@.len() == arena@[d as int].children@.len());
            assert(payload@ == crate::layout::spec_index_list_bytes(all_finals@));
            assert(cs.subrange(0, child_count as int) =~= cs);
            let dpart = spec_kind_children(arena@, cs, FsEntryKind::Directory);
            let fpart = spec_kind_children(arena@, cs, FsEntryKind::File);
            let parts = dpart + fpart;
            assert(all_finals@ == dirf + filef);
            assert forall|q: int| 0 <= q < parts.len() implies #[trigger] all_finals@[q]
                == spec_final_index(sdirs, sfiles, parts[q] as int) by {
                if q < dpart.len() {
                    assert(all_finals@[q] == dirf[q]);
                    assert(parts[q] == dpart[q]);
                } else {
                    assert(all_finals@[q] == filef[q - dpart.len()]);
                    assert(parts[q] == fpart[q - dpart.len()]);
                }
            }
            assert(all_finals@ =~= Seq::new(
                parts.len(),
                |q: int| spec_final_index(sdirs, sfiles, parts[q] as int),
            ));
            assert(payload@ == spec_dir_payload(arena@, sdirs, sfiles, d as int));
        }
        let name = arena[d].name.clone();
        if name.as_str().as_bytes().len() > 255 {
            proof {
                assert(sdirs[j3 as int] == d as int);
                assert(!spec_names_ok(arena@, tv, sdirs, sfiles));
                assert(spec_build_outcome(arena@, tv) == Err::<(Seq<int>, Seq<int>), ArpError>(
                    ArpError::NameTooLong,
                ));
            }
            return Err(ArpError::NameTooLong);
        }
        proof {
            assert(sdirs[j3 as int] == d as int);
        }
        nodes.push(
            PackNode {
                kind: NodeKind::Directory,
                name,
                ext: String::new(),
                media_type: String::new(),
                data: payload,
            },
        );
        j3 += 1;
    }
    let mut j4: usize = 0;
    while j4 < file_count
        invariant
            n == arena@.len(),
            file_count == file_order@.len(),
            dir_count + file_count == n,
            forall|k: int| 0 <= k < file_order@.len() ==> (#[trigger] file_order@[k]) < n,
            j4 <= file_count,
            nodes@.len() == dir_count + j4,
            dir_count == dir_order@.len(),
            forall|k: int|
                0 <= k < dir_count ==> (#[trigger] nodes@[k]).kind == NodeKind::Directory
                    && wf_pack_node(nodes@[k]),
            forall|k: int|
                dir_count <= k < nodes@.len() ==> (#[trigger] nodes@[k]).kind == NodeKind::Resource
                    && wf_pack_node(nodes@[k]),
            forall|j: int|
                0 <= j < dir_order@.len() ==> arena@[(#[trigger] dir_order@[j]) as int].kind
                    == FsEntryKind::Directory,
            forall|j: int|
                0 <= j < file_order@.len() ==> arena@[(#[trigger] file_order@[j]) as int].kind
                    == FsEntryKind::File,
            forall|k: int|
                0 <= k < j3 ==> node_matches_entry(
                    #[trigger] nodes@[k],
                    arena@[dir_order@[k] as int],
                    tv,
                ),
            forall|k: int|
                0 <= k < j3 ==> (#[trigger] nodes@[k]).data@ == spec_dir_payload(
                    arena@,
                    sdirs,
                    sfiles,
                    sdirs[k],
                ),
            j3 == dir_count,
            forall|k: int|
                0 <= k < j4 ==> node_matches_entry(
                    #[trigger] nodes@[dir_count + k],
                    arena@[file_order@[k] as int],
                    tv,
                ),
        decreases file_count - j4,
    {
        let f = file_order[j4];
        let name = arena[f].name.clone();
        let ext = arena[f].extension.clone();
        let media_type = resolve_media_type(media_types, ext.as_str());
        if name.as_str().as_bytes().len() > 255 || ext.as_str().as_bytes().len() > 255
            || media_type.as_str().as_bytes().len() > 255 {
            proof {
                assert(sfiles[j4 as int] == f as int);
                assert(!spec_names_ok(arena@, tv, sdirs, sfiles));
                assert(spec_build_outcome(arena@, tv) == Err::<(Seq<int>, Seq<int>), ArpError>(
                    ArpError::NameTooLong,
                ));
            }
            return Err(ArpError::NameTooLong);
        }
        let data = vstd::slice::slice_to_vec(arena[f].data.as_slice());
        nodes.push(PackNode { kind: NodeKind::Resource, name, ext, media_type, data });
        j4 += 1;
    }
    proof {
        assert(dir_order@.len() >= 1);
        assert(nodes@[0].kind == NodeKind::Directory);
        let dc = dir_count as int;
        assert(forall|k: int|
            0 <= k < nodes@.len() ==> ((#[trigger] nodes@[k]).kind == NodeKind::Directory <==> k
                < dc));
        assert(tv == table_view(media_types.entries@));
        assert forall|k: int| 0 <= k < nodes@.len() implies node_has_source(
            #[trigger] nodes@[k],
            arena@,
            table_view(media_types.entries@),
        ) by {
            if k < dc {
                assert(node_matches_entry(nodes@[k], arena@[dir_order@[k] as int], tv));
                assert(node_matches_entry(
                    nodes@[k],
                    arena@[dir_order@[k] as int],
                    table_view(media_types.entries@),
                ));
            } else {
                let k2 = k - dc;
                assert(node_matches_entry(
                    nodes@[dir_count + k2],
                    arena@[file_order@[k2] as int],
                    tv,
                ));
                assert(dir_count + k2 == k);
                assert(node_matches_entry(
                    nodes@[k],
                    arena@[file_order@[k2] as int],
                    table_view(media_types.entries@),
                ));
            }
        }
        assert(nodes_match_arena(nodes@, arena@, table_view(media_types.entries@)));
        assert forall|j: int| 0 <= j < sdirs.len() implies encode_utf8(
            arena@[#[trigger] sdirs[j]].name@,
        ).len() <= 255 by {
            assert(sdirs[j] == dir_order@[j] as int);
            assert(node_matches_entry(nodes@[j], arena@[dir_order@[j] as int], tv));
            assert(wf_pack_node(nodes@[j]));
        }
        assert forall|j: int| 0 <= j < sfiles.len() implies {
            let e = arena@[#[trigger] sfiles[j]];
            &&& encode_utf8(e.name@).len() <= 255
            &&& encode_utf8(e.extension@).len() <= 255
            &&& encode_utf8(spec_resolved_media_type(tv, e.extension@)).len() <= 255
        } by {
            assert(sfiles[j] == file_order@[j] as int);
            assert(node_matches_entry(
                nodes@[dir_count + j],
                arena@[file_order@[j] as int],
                tv,
            ));
            assert(wf_pack_node(nodes@[dir_count + j]));
        }
        assert(spec_names_ok(arena@, tv, sdirs, sfiles));
        assert(spec_build_outcome(arena@, tv) == Ok::<(Seq<int>, Seq<int>), ArpError>(
            (sdirs, sfiles),
        ));
        assert forall|k: int| 0 <= k < sdirs.len() implies node_matches_entry(
            #[trigger] nodes@[k],
            arena@[sdirs[k]],
            table_view(media_types.entries@),
        ) by {
            assert(node_matches_entry(nodes@[k], arena@[dir_order@[k] as int], tv));
            assert(sdirs[k] == dir_order@[k] as int);
            assert(node_matches_entry(
                nodes@[k],
                arena@[sdirs[k]],
                table_view(media_types.entries@),
            ));
        }
        assert forall|k: int| 0 <= k < sdirs.len() implies (#[trigger] nodes@[k]).data@
            == spec_dir_payload(arena@, sdirs, sfiles, sdirs[k]) by {
            assert(0 <= k < dir_count as int);
        }
        assert forall|k: int| 0 <= k < sdirs.len() implies 0 <= #[trigger] sdirs[k] < arena@.len()
            && arena@[sdirs[k]].kind == FsEntryKind::Directory by {
            assert(sdirs[k] == dir_order@[k] as int);
            assert(dir_order@[k] < n);
            assert(arena@[dir_order@[k] as int].kind == FsEntryKind::Directory);
        }
        assert forall|k: int| 0 <= k < sfiles.len() implies 0 <= #[trigger] sfiles[k]
            < arena@.len() && arena@[sfiles[k]].kind == FsEntryKind::File by {
            assert(sfiles[k] == file_order@[k] as int);
            assert(file_order@[k] < n);
            assert(arena@[file_order@[k] as int].kind == FsEntryKind::File);
        }
        assert forall|k: int| 0 <= k < sfiles.len() implies node_matches_entry(
            #[trigger] nodes@[sdirs.len() + k],
            arena@[sfiles[k]],
            table_view(media_types.entries@),
        ) by {
            assert(node_matches_entry(
                nodes@[dir_count + k],
                arena@[file_order@[k] as int],
                tv,
            ));
            assert(sdirs.len() == dir_count as int);
            assert(sfiles[k] == file_order@[k] as int);
            assert(node_matches_entry(
                nodes@[dir_count + k],
                arena@[sfiles[k]],
                table_view(media_types.entries@),
            ));
        }
    }
    Ok(nodes)
}

/// Every directory node stands before every resource node.
pub open spec fn dirs_before_files(nodes: Seq<PackNode>) -> bool {
    forall|k1: int, k2: int|
        0 <= k1 < k2 < nodes.len() && (#[trigger] nodes[k2]).kind == NodeKind::Directory ==> (
        #[trigger] nodes[k1]).kind == NodeKind::Directory
}

/// What the compressor emits for a byte sequence: a pure function of the
/// input, named because its value has no short description.
pub uninterp spec fn deflate_of(s: Seq<u8>) -> Seq<u8>;

/// What the decompressor gives back for a byte sequence: the decoded bytes,
/// or nothing when the sequence is not a valid stream. A pure function of
/// the input.
pub uninterp spec fn inflate_of(s: Seq<u8>) -> Option<Seq<u8>>;

/// Relies on miniz_oxide's `compress_to_vec_zlib` at the highest compression
/// level, and on `decompress_to_vec_zlib` decoding exactly what it encodes.
#[verifier::external_body]
fn deflate_compress(data: &Vec<u8>) -> (r: Vec<u8>)
    ensures
        r@ == deflate_of(data@),
        inflate_of(r@) == Some(data@),
{
    miniz_oxide::deflate::compress_to_vec_zlib(data.as_slice(), 9)
}

/// The bytes a node's payload is stored as: resource payloads pass through
/// the configured compression; directory payloads are stored raw.
pub open spec fn spec_stored_node(nd: PackNode, c: Option<CompressionType>) -> Seq<u8> {
    if nd.kind == NodeKind::Resource && c == Some(CompressionType::Deflate) {
        deflate_of(nd.data@)
    } else {
        nd.data@
    }
}

/// The descriptor length a pack node's record will have.
pub open spec fn spec_node_desc_len(nd: PackNode) -> int {
    crate::layout::NODE_DESC_BASE_LEN + encode_utf8(nd.name@).len() + encode_utf8(nd.ext@).len()
        + encode_utf8(nd.media_type@).len()
}

/// The total catalogue length of a node list.
pub open spec fn sum_desc_lens(s: Seq<PackNode>) -> int
    decreases s.len(),
{
    if s.len() == 0 {
        0
    } else {
        sum_desc_lens(s.drop_last()) + spec_node_desc_len(s.last())
    }
}

/// The length of one node's descriptor record.
pub fn compute_node_desc_len(node: &PackNode) -> (r: u16)
    requires
        wf_pack_node(*node),
    ensures
        r == spec_node_desc_len(*node),
{
    let name_len = node.name.as_str().as_bytes().len();
    let ext_len = node.ext.as_str().as_bytes().len();
    let mt_len = node.media_type.as_str().as_bytes().len();
    (crate::layout::NODE_DESC_BASE_LEN + name_len + ext_len + mt_len) as u16
}

/// The total length of the catalogue the node list will produce.
pub fn compute_catalogue_len(nodes: &Vec<PackNode>) -> (r: u64)
    requires
        forall|k: int| 0 <= k < nodes@.len() ==> wf_pack_node(#[trigger] nodes@[k]),
        nodes@.len() <= 0xFFFF_FFFF,
    ensures
        r == sum_desc_lens(nodes@),
        r <= 801 * nodes@.len(),
{
    let mut acc: u64 = 0;
    let mut k: usize = 0;
    while k < nodes.len()
        invariant
            k <= nodes@.len(),
            nodes@.len() <= 0xFFFF_FFFF,
            forall|j: int| 0 <= j < nodes@.len() ==> wf_pack_node(#[trigger] nodes@[j]),
            acc == sum_desc_lens(nodes@.subrange(0, k as int)),
            acc <= 801 * k,
        decreases nodes@.len() - k,
    {
        let dl = compute_node_desc_len(&nodes[k]);
        proof {
            assert(nodes@.subrange(0, k + 1 as int).drop_last() =~= nodes@.subrange(0, k as int));
            assert(nodes@.subrange(0, k + 1 as int).last() == nodes@[k as int]);
        }
        acc = acc + dl as u64;
        k += 1;
    }
    proof {
        assert(nodes@.subrange(0, nodes@.len() as int) =~= nodes@);
    }
    acc
}

/// How many of the nodes are directories.
pub open spec fn count_dir_nodes(s: Seq<PackNode>) -> int
    decreases s.len(),
{
    if s.len() == 0 {
        0
    } else {
        count_dir_nodes(s.drop_last()) + if s.last().kind == NodeKind::Directory {
            1int
        } else {
            0int
        }
    }
}

/// Appends a slice's bytes.
pub fn push_bytes(dst: &mut Vec<u8>, src: &[u8])
    ensures
        final(dst)@ == old(dst)@ + src@,
{
    let mut i: usize = 0;
    while i < src.len()
        invariant
            i <= src@.len(),
            dst@ == old(dst)@ + src@.subrange(0, i as int),
        decreases src@.len() - i,
    {
        dst.push(src[i]);
        proof {
            assert(old(dst)@ + src@.subrange(0, i + 1 as int) =~= (old(dst)@ + src@.subrange(
                0,
                i as int,
            )).push(src@[i as int]));
        }
        i += 1;
    }
    proof {
        assert(src@.subrange(0, src@.len() as int) =~= src@);
        assert(dst@ =~= old(dst)@ + src@);
    }
}

/// The record models of a descriptor list.
pub open spec fn descs_models(s: Seq<crate::layout::NodeDesc>) -> Seq<crate::layout::NodeDescModel> {
    Seq::new(s.len(), |i: int| s[i]@)
}

/// Appending one record appends its bytes to the catalogue.
pub proof fn lemma_catalogue_bytes_snoc(
    ms: Seq<crate::layout::NodeDescModel>,
    m: crate::layout::NodeDescModel,
)
    ensures
        crate::layout::spec_catalogue_bytes(ms.push(m)) == crate::layout::spec_catalogue_bytes(ms)
            + crate::layout::spec_desc_bytes(m),
    decreases ms.len(),
{
    let p = ms.push(m);
    if ms.len() == 0 {
        assert(p.first() == m);
        assert(p.drop_first() =~= Seq::<crate::layout::NodeDescModel>::empty());
        assert(crate::layout::spec_catalogue_bytes(p.drop_first()) == Seq::<u8>::empty());
        assert(crate::layout::spec_catalogue_bytes(p) =~= crate::layout::spec_desc_bytes(m));
        assert(crate::layout::spec_catalogue_bytes(ms) + crate::layout::spec_desc_bytes(m)
            =~= crate::layout::spec_desc_bytes(m));
    } else {
        assert(p.first() == ms.first());
        assert(p.drop_first() =~= ms.drop_first().push(m));
        lemma_catalogue_bytes_snoc(ms.drop_first(), m);
        assert(crate::layout::spec_desc_bytes(ms.first()) + (crate::layout::spec_catalogue_bytes(
            ms.drop_first(),
        ) + crate::layout::spec_desc_bytes(m)) =~= (crate::layout::spec_desc_bytes(ms.first())
            + crate::layout::spec_catalogue_bytes(ms.drop_first()))
            + crate::layout::spec_desc_bytes(m));
    }
}


/// The stored payload length of each node, in order.
pub open spec fn stored_lens(nodes: Seq<PackNode>, c: Option<CompressionType>) -> Seq<int> {
    Seq::new(nodes.len(), |k: int| spec_stored_node(nodes[k], c).len() as int)
}

/// What the greedy part splitting gives under a cap `max`, starting at node
/// `i` with `cur` body bytes in the current part (`has`: whether any node was
/// placed in it) and `closed` parts finished: the final part count, or the
/// configuration error. A node that does not fit is moved to a fresh part;
/// one that does not fit even there, or would need a thousandth part, is the
/// error.
pub open spec fn spec_pack_outcome(
    lens: Seq<int>,
    cat_len: int,
    max: int,
    i: int,
    cur: int,
    has: bool,
    closed: int,
) -> Result<int, ArpError>
    decreases lens.len() - i,
{
    if i < 0 || i >= lens.len() {
        Ok(closed + 1)
    } else {
        let overhead = if closed == 0 {
            256 + cat_len
        } else {
            16
        };
        if overhead + cur + lens[i] > max {
            if !(has) {
                Err(ArpError::OversizedResource)
            } else if closed + 1 >= 999 {
                Err(ArpError::TooManyParts)
            } else if 16 + lens[i] > max {
                Err(ArpError::OversizedResource)
            } else {
                spec_pack_outcome(lens, cat_len, max, i + 1, lens[i], true, closed + 1)
            }
        } else {
            spec_pack_outcome(lens, cat_len, max, i + 1, cur + lens[i], true, closed)
        }
    }
}

/// The greedy splitting fails only with the two configuration errors.
pub proof fn lemma_pack_outcome_errors(
    lens: Seq<int>,
    cat_len: int,
    max: int,
    i: int,
    cur: int,
    has: bool,
    closed: int,
)
    ensures
        spec_pack_outcome(lens, cat_len, max, i, cur, has, closed) matches Err(e) ==> e
            == ArpError::OversizedResource || e == ArpError::TooManyParts,
    decreases lens.len() - i,
{
    if 0 <= i < lens.len() {
        let overhead = if closed == 0 {
            256 + cat_len
        } else {
            16
        };
        if overhead + cur + lens[i] > max {
            lemma_pack_outcome_errors(lens, cat_len, max, i + 1, lens[i], true, closed + 1);
        } else {
            lemma_pack_outcome_errors(lens, cat_len, max, i + 1, cur + lens[i], true, closed);
        }
    }
}

/// The overhead in front of a part's body: the package header and catalogue
/// for the first part, the part header for every later one.
pub open spec fn spec_part_overhead(part0: int, cat_len: int) -> int {
    if part0 == 0 {
        256 + cat_len
    } else {
        16
    }
}

/// A descriptor records exactly its node's identity and stored payload: the
/// kind and strings carry over, the packed length and checksum are those of
/// the stored bytes, and the unpacked length is the raw payload's.
pub open spec fn desc_matches_node(
    d: crate::layout::NodeDescModel,
    nd: PackNode,
    c: Option<CompressionType>,
) -> bool {
    &&& d.kind == nd.kind
    &&& d.name == nd.name@
    &&& d.ext == nd.ext@
    &&& d.media_type == nd.media_type@
    &&& d.packed_len == spec_stored_node(nd, c).len()
    &&& d.unpacked_len == nd.data@.len()
    &&& d.crc == crate::crc32c::spec_crc32c(spec_stored_node(nd, c))
}

/// The header the writer emits, given what only the write determines: the
/// part count and the first part's body length.
pub open spec fn spec_written_header(
    options: PackingOptions,
    total_parts: u16,
    cat_len: u64,
    node_count: u32,
    dir_count: u32,
    body_len: u64,
) -> crate::layout::HeaderModel {
    crate::layout::HeaderModel {
        major_version: options.version,
        compression: options.compression_type,
        namespace: options.namespace@,
        total_parts,
        cat_off: 256,
        cat_len,
        node_count,
        directory_count: dir_count,
        resource_count: (node_count - dir_count) as u32,
        body_off: (256 + cat_len) as u64,
        body_len,
    }
}

/// Streams the nodes into size-bounded part images: each part's body holds
/// its nodes' stored payloads back to back, the first part opens with the
/// package header and the whole catalogue, and every later part opens with a
/// part header. On success it returns the part images together with one
/// descriptor per node saying exactly where its payload went; no image
/// exceeds a configured maximum part length.
#[verifier::loop_isolation(false)]
#[verifier::rlimit(100)]
pub fn write_package_to_volumes(nodes: &Vec<PackNode>, options: &PackingOptions) -> (r: Result<
    (Vec<Vec<u8>>, Vec<crate::layout::NodeDesc>),
    ArpError,
>)
    requires
        forall|k: int| 0 <= k < nodes@.len() ==> wf_pack_node(#[trigger] nodes@[k]),
        nodes@.len() <= 0xFFFF_FFFF,
        options.version == 1,
        encode_utf8(options.namespace@).len() <= crate::layout::NAMESPACE_MAX_LEN,
        options.max_part_len matches Some(m) ==> m >= crate::layout::PART_LEN_MIN,
    ensures
        options.max_part_len is None ==> (r matches Ok(p) && p.0@.len() == 1),
        options.max_part_len matches Some(m) ==> {
            let outcome = spec_pack_outcome(
                stored_lens(nodes@, options.compression_type),
                sum_desc_lens(nodes@),
                m as int,
                0,
                0,
                false,
                0,
            );
            match r {
                Ok(p) => outcome == Ok::<int, ArpError>(p.0@.len() as int),
                Err(e) => outcome == Err::<int, ArpError>(e),
            }
        },
        r matches Ok((vols, descs)) ==> {
            let models = descs_models(descs@);
            let cat = crate::layout::spec_catalogue_bytes(models);
            &&& descs@.len() == nodes@.len()
            &&& 1 <= vols@.len() <= crate::layout::PARTS_MAX
            &&& (options.max_part_len matches Some(m) ==> forall|i: int|
                0 <= i < vols@.len() ==> (#[trigger] vols@[i])@.len() <= m)
            &&& vols@[0]@.len() >= 256 + cat.len()
            &&& vols@[0]@.subrange(0, 256) == crate::layout::spec_header_bytes(
                spec_written_header(
                    *options,
                    vols@.len() as u16,
                    cat.len() as u64,
                    nodes@.len() as u32,
                    count_dir_nodes(nodes@) as u32,
                    (vols@[0]@.len() - 256 - cat.len()) as u64,
                ),
            )
            &&& vols@[0]@.subrange(256, 256 + cat.len() as int) == cat
            &&& (forall|i: int|
                1 <= i < vols@.len() ==> (#[trigger] vols@[i])@.len() >= 16 && vols@[i]@.subrange(
                    0,
                    16,
                ) == crate::layout::spec_part_header_bytes((i + 1) as u16))
            &&& (forall|k: int|
                0 <= k < descs@.len() ==> {
                    let d = (#[trigger] descs@[k])@;
                    let stored = spec_stored_node(nodes@[k], options.compression_type);
                    let base = spec_part_overhead(d.part - 1, cat.len() as int);
                    &&& desc_matches_node(d, nodes@[k], options.compression_type)
                    &&& 1 <= d.part <= vols@.len()
                    &&& base + d.data_off + d.packed_len <= vols@[d.part - 1]@.len()
                    &&& vols@[d.part - 1]@.subrange(
                        base + d.data_off,
                        base + d.data_off + d.packed_len,
                    ) == stored
                })
        },
{
    let n = nodes.len();
    let total_cat: u64 = compute_catalogue_len(nodes);
    let ghost tc = total_cat as int;
    let ghost lens = stored_lens(nodes@, options.compression_type);
    let mut body_bufs: Vec<Vec<u8>> = Vec::new();
    let mut cur_body: Vec<u8> = Vec::new();
    let mut cur_has_nodes: bool = false;
    let mut catalogue: Vec<u8> = Vec::new();
    let mut descs: Vec<crate::layout::NodeDesc> = Vec::new();
    let mut dir_count: u32 = 0;
    let mut i: usize = 0;
    proof {
        assert(descs_models(descs@) =~= Seq::<crate::layout::NodeDescModel>::empty());
        assert(nodes@.subrange(0, 0) =~= Seq::<PackNode>::empty());
    }
    while i < n
        invariant
            i <= n,
            descs@.len() == i,
            body_bufs@.len() <= 998,
            options.max_part_len is None ==> body_bufs@.len() == 0,
            catalogue@ == crate::layout::spec_catalogue_bytes(descs_models(descs@)),
            catalogue@.len() == sum_desc_lens(nodes@.subrange(0, i as int)),
            dir_count == count_dir_nodes(nodes@.subrange(0, i as int)),
            dir_count <= i,
            cur_has_nodes <==> i > 0,
            !cur_has_nodes ==> cur_body@.len() == 0 && body_bufs@.len() == 0,
            forall|k: int|
                0 <= k < i ==> desc_matches_node(
                    (#[trigger] descs@[k])@,
                    nodes@[k],
                    options.compression_type,
                ),
            forall|k: int|
                0 <= k < i ==> 1 <= (#[trigger] descs@[k])@.part <= body_bufs@.len() + 1,
            forall|k: int|
                0 <= k < i ==> {
                    let d = (#[trigger] descs@[k])@;
                    let stored = spec_stored_node(nodes@[k], options.compression_type);
                    if d.part <= body_bufs@.len() {
                        d.data_off + d.packed_len <= body_bufs@[d.part - 1]@.len()
                            && body_bufs@[d.part - 1]@.subrange(
                            d.data_off as int,
                            d.data_off + d.packed_len,
                        ) == stored
                    } else {
                        d.data_off + d.packed_len <= cur_body@.len() && cur_body@.subrange(
                            d.data_off as int,
                            d.data_off + d.packed_len,
                        ) == stored
                    }
                },
            options.max_part_len matches Some(m) ==> {
                &&& (forall|j: int|
                    0 <= j < body_bufs@.len() ==> spec_part_overhead(j, tc) + (
                    #[trigger] body_bufs@[j])@.len() <= m)
                &&& (cur_has_nodes ==> spec_part_overhead(body_bufs@.len() as int, tc)
                    + cur_body@.len() <= m)
                &&& spec_pack_outcome(lens, tc, m as int, 0, 0, false, 0) == spec_pack_outcome(
                    lens,
                    tc,
                    m as int,
                    i as int,
                    cur_body@.len() as int,
                    cur_has_nodes,
                    body_bufs@.len() as int,
                )
            },
        decreases n - i,
    {
        let node = &nodes[i];
        let is_resource = match node.kind {
            NodeKind::Resource => true,
            NodeKind::Directory => false,
        };
        let compress = is_resource && match options.compression_type {
            Some(CompressionType::Deflate) => true,
            None => false,
        };
        let stored: Vec<u8> = if compress {
            let st = deflate_compress(&node.data);
            proof {
                assert(st@ == deflate_of(nodes@[i as int].data@));
                assert(nodes@[i as int].kind == NodeKind::Resource);
                assert(options.compression_type == Some(CompressionType::Deflate));
            }
            st
        } else {
            let st = vstd::slice::slice_to_vec(node.data.as_slice());
            proof {
                assert(st@ == nodes@[i as int].data@);
                assert(!(nodes@[i as int].kind == NodeKind::Resource
                    && options.compression_type == Some(CompressionType::Deflate)));
            }
            st
        };
        proof {
            assert(stored@ == spec_stored_node(nodes@[i as int], options.compression_type));
        }
        let crc = crate::crc32c::crc32c(stored.as_slice());
        match options.max_part_len {
            Some(m) => {
                let overhead: u64 = if body_bufs.len() == 0 {
                    256 + total_cat
                } else {
                    16
                };
                let would: u128 = overhead as u128 + cur_body.len() as u128 + stored.len() as u128;
                if would > m as u128 {
                    if !cur_has_nodes {
                        return Err(ArpError::OversizedResource);
                    }
                    body_bufs.push(cur_body);
                    cur_body = Vec::new();
                    cur_has_nodes = false;
                    if body_bufs.len() >= crate::layout::PARTS_MAX as usize {
                        return Err(ArpError::TooManyParts);
                    }
                    let would2: u128 = 16 as u128 + stored.len() as u128;
                    if would2 > m as u128 {
                        return Err(ArpError::OversizedResource);
                    }
                }
            },
            None => {},
        }
        let desc = crate::layout::NodeDesc {
            kind: node.kind,
            part: (body_bufs.len() + 1) as u16,
            data_off: cur_body.len() as u64,
            packed_len: stored.len() as u64,
            unpacked_len: node.data.len() as u64,
            crc,
            name: node.name.clone(),
            ext: node.ext.clone(),
            media_type: node.media_type.clone(),
        };
        let mut desc_bytes = crate::layout::encode_node_desc(&desc);
        let ghost old_models = descs_models(descs@);
        let ghost old_cur = cur_body@;
        catalogue.append(&mut desc_bytes);
        descs.push(desc);
        push_bytes(&mut cur_body, stored.as_slice());
        cur_has_nodes = true;
        match node.kind {
            NodeKind::Directory => {
                dir_count = dir_count + 1;
            },
            NodeKind::Resource => {},
        }
        proof {
            let m_new = descs@.last()@;
            assert(descs_models(descs@) =~= old_models.push(m_new));
            lemma_catalogue_bytes_snoc(old_models, m_new);
            assert(nodes@.subrange(0, i + 1 as int).drop_last() =~= nodes@.subrange(0, i as int));
            assert(nodes@.subrange(0, i + 1 as int).last() == nodes@[i as int]);
            crate::layout::lemma_concat_parts(old_cur, stored@);
            assert forall|k: int| 0 <= k < i + 1 implies {
                let d = (#[trigger] descs@[k])@;
                let stored_k = spec_stored_node(nodes@[k], options.compression_type);
                if d.part <= body_bufs@.len() {
                    d.data_off + d.packed_len <= body_bufs@[d.part - 1]@.len() && body_bufs@[d.part
                        - 1]@.subrange(d.data_off as int, d.data_off + d.packed_len) == stored_k
                } else {
                    d.data_off + d.packed_len <= cur_body@.len() && cur_body@.subrange(
                        d.data_off as int,
                        d.data_off + d.packed_len,
                    ) == stored_k
                }
            } by {
                let d = descs@[k]@;
                if k < i {
                    if d.part > body_bufs@.len() {
                        crate::layout::lemma_embedded_subrange(
                            cur_body@,
                            old_cur,
                            0,
                            d.data_off as int,
                            d.data_off + d.packed_len,
                        );
                    }
                } else {
                    assert(d.data_off == old_cur.len());
                    assert(cur_body@.subrange(
                        old_cur.len() as int,
                        old_cur.len() + stored@.len() as int,
                    ) == stored@);
                }
            }
        }
        i += 1;
    }
    let ghost closed_parts = body_bufs@;
    let ghost last_body = cur_body@;
    body_bufs.push(cur_body);
    let total_parts = body_bufs.len();
    proof {
        assert(nodes@.subrange(0, n as int) =~= nodes@);
        if n > 0 {
            assert(cur_has_nodes);
        }
    }
    let meta = crate::layout::PackageMeta {
        major_version: options.version,
        compression_type: options.compression_type,
        namespace: options.namespace.clone(),
        total_parts: total_parts as u16,
        cat_off: 256,
        cat_len: total_cat,
        node_count: n as u32,
        directory_count: dir_count,
        resource_count: n as u32 - dir_count,
        body_off: 256 + total_cat,
        body_len: body_bufs[0].len() as u64,
    };
    let ghost models = descs_models(descs@);
    let ghost cat = catalogue@;
    let vols = assemble_volumes(&meta, &catalogue, &body_bufs);
    proof {
        let cat_i = cat.len() as int;
        assert(meta@ == spec_written_header(
            *options,
            vols@.len() as u16,
            cat.len() as u64,
            nodes@.len() as u32,
            count_dir_nodes(nodes@) as u32,
            (vols@[0]@.len() - 256 - cat.len()) as u64,
        ));
        assert forall|k: int| 0 <= k < descs@.len() implies {
            let d = (#[trigger] descs@[k])@;
            let stored = spec_stored_node(nodes@[k], options.compression_type);
            let base = spec_part_overhead(d.part - 1, cat_i);
            &&& 1 <= d.part <= vols@.len()
            &&& base + d.data_off + d.packed_len <= vols@[d.part - 1]@.len()
            &&& vols@[d.part - 1]@.subrange(base + d.data_off, base + d.data_off + d.packed_len)
                == stored
        } by {
            let d = descs@[k]@;
            let p0 = d.part - 1;
            if p0 == 0 {
                crate::layout::lemma_embedded_subrange(
                    vols@[0]@,
                    body_bufs@[0]@,
                    256 + cat_i,
                    d.data_off as int,
                    d.data_off + d.packed_len,
                );
            } else {
                crate::layout::lemma_embedded_subrange(
                    vols@[p0]@,
                    body_bufs@[p0]@,
                    16,
                    d.data_off as int,
                    d.data_off + d.packed_len,
                );
            }
        }
        match options.max_part_len {
            Some(m) => {
                assert forall|j: int| 0 <= j < vols@.len() implies (#[trigger] vols@[j])@.len()
                    <= m by {
                    assert(body_bufs@.len() == closed_parts.len() + 1);
                    if j < closed_parts.len() {
                        assert(body_bufs@[j] == closed_parts[j]);
                        assert(spec_part_overhead(j, tc) + closed_parts[j]@.len() <= m);
                    } else {
                        assert(body_bufs@[j]@ == last_body);
                        if cur_has_nodes {
                            assert(spec_part_overhead(j, tc) + last_body.len() <= m);
                        } else {
                            assert(n == 0);
                            assert(j == 0);
                            assert(last_body.len() == 0);
                            assert(cat.len() == 0);
                        }
                    }
                }
            },
            None => {},
        }
    }
    Ok((vols, descs))
}

/// Splices the header and catalogue in front of the first part's body, and a
/// part header in front of every later part's.
#[verifier::loop_isolation(false)]
fn assemble_volumes(
    meta: &crate::layout::PackageMeta,
    catalogue: &Vec<u8>,
    body_bufs: &Vec<Vec<u8>>,
) -> (vols: Vec<Vec<u8>>)
    requires
        encode_utf8(meta.namespace@).len() <= crate::layout::NAMESPACE_MAX_LEN,
        1 <= body_bufs@.len() <= 999,
    ensures
        vols@.len() == body_bufs@.len(),
        vols@[0]@.len() == 256 + catalogue@.len() + body_bufs@[0]@.len(),
        vols@[0]@.subrange(0, 256) == crate::layout::spec_header_bytes(meta@),
        vols@[0]@.subrange(256, 256 + catalogue@.len() as int) == catalogue@,
        vols@[0]@.subrange(256 + catalogue@.len() as int, vols@[0]@.len() as int)
            == body_bufs@[0]@,
        forall|j: int|
            1 <= j < vols@.len() ==> {
                let v = (#[trigger] vols@[j])@;
                &&& v.len() == 16 + body_bufs@[j]@.len()
                &&& v.subrange(0, 16) == crate::layout::spec_part_header_bytes((j + 1) as u16)
                &&& v.subrange(16, v.len() as int) == body_bufs@[j]@
            },
{
    let total_parts = body_bufs.len();
    let header = crate::layout::encode_header(meta);
    let mut vols: Vec<Vec<u8>> = Vec::new();
    let mut v0 = header;
    push_bytes(&mut v0, catalogue.as_slice());
    proof {
        crate::layout::lemma_concat_parts(
            crate::layout::spec_header_bytes(meta@),
            catalogue@,
        );
    }
    let ghost head_cat = v0@;
    push_bytes(&mut v0, body_bufs[0].as_slice());
    proof {
        crate::layout::lemma_concat_parts(head_cat, body_bufs@[0]@);
        crate::layout::lemma_embedded_subrange(v0@, head_cat, 0, 0, 256);
        crate::layout::lemma_embedded_subrange(v0@, head_cat, 0, 256, 256 + catalogue@.len() as int);
    }
    let ghost v0v = v0@;
    vols.push(v0);
    let mut pi: usize = 1;
    while pi < total_parts
        invariant
            1 <= pi <= total_parts,
            vols@.len() == pi,
            vols@[0]@ == v0v,
            forall|j: int|
                1 <= j < pi ==> (#[trigger] vols@[j])@ == crate::layout::spec_part_header_bytes(
                    (j + 1) as u16,
                ) + body_bufs@[j]@,
        decreases total_parts - pi,
    {
        let mut v = crate::layout::encode_part_header((pi + 1) as u16);
        push_bytes(&mut v, body_bufs[pi].as_slice());
        vols.push(v);
        pi += 1;
    }
    proof {
        assert forall|j: int|
            1 <= j < vols@.len() implies {
            let v = (#[trigger] vols@[j])@;
            &&& v.len() == 16 + body_bufs@[j]@.len()
            &&& v.subrange(0, 16) == crate::layout::spec_part_header_bytes((j + 1) as u16)
            &&& v.subrange(16, v.len() as int) == body_bufs@[j]@
        } by {
            vstd::bytes::lemma_auto_spec_u16_to_from_le_bytes();
            assert(crate::layout::spec_part_header_bytes((j + 1) as u16).len() == 16);
            crate::layout::lemma_concat_parts(
                crate::layout::spec_part_header_bytes((j + 1) as u16),
                body_bufs@[j]@,
            );
        }
    }
    vols
}

/// The character of one decimal digit.
pub open spec fn spec_digit_char(d: int) -> char {
    if d == 0 {
        '0'
    } else if d == 1 {
        '1'
    } else if d == 2 {
        '2'
    } else if d == 3 {
        '3'
    } else if d == 4 {
        '4'
    } else if d == 5 {
        '5'
    } else if d == 6 {
        '6'
    } else if d == 7 {
        '7'
    } else if d == 8 {
        '8'
    } else {
        '9'
    }
}

fn digit_char(d: u16) -> (r: char)
    requires
        d <= 9,
    ensures
        r == spec_digit_char(d as int),
{
    if d == 0 {
        '0'
    } else if d == 1 {
        '1'
    } else if d == 2 {
        '2'
    } else if d == 3 {
        '3'
    } else if d == 4 {
        '4'
    } else if d == 5 {
        '5'
    } else if d == 6 {
        '6'
    } else if d == 7 {
        '7'
    } else if d == 8 {
        '8'
    } else {
        '9'
    }
}

/// The file name a part image is stored under: `<name>.arp` for a single
/// part, `<name>.partNNN.arp` with a three-digit 1-based part number for
/// every part of a split package.
pub open spec fn spec_volume_file_name(name: Seq<char>, index: u16, total: u16) -> Seq<char> {
    if total == 1 {
        name + ".arp"@
    } else {
        name + ".part"@ + seq![
            spec_digit_char(index as int / 100),
            spec_digit_char((index as int / 10) % 10),
            spec_digit_char(index as int % 10),
        ] + ".arp"@
    }
}

/// Derives the file name of one part of a package.
pub fn volume_file_name(name: &str, index: u16, total: u16) -> (r: String)
    requires
        index <= 999,
    ensures
        r@ == spec_volume_file_name(name@, index, total),
{
    let mut out = String::new();
    out.append(name);
    if total == 1 {
        out.append(".arp");
        proof {
            assert(out@ == name@ + ".arp"@);
        }
        return out;
    }
    out.append(".part");
    let d1 = digit_char(index / 100);
    let d2 = digit_char((index / 10) % 10);
    let d3 = digit_char(index % 10);
    let ghost before = out@;
    push_char(&mut out, d1);
    push_char(&mut out, d2);
    push_char(&mut out, d3);
    out.append(".arp");
    proof {
        assert(before =~= name@ + ".part"@);
        assert(out@ =~= spec_volume_file_name(name@, index, total));
    }
    out
}

/// Relies on `String::push`: it appends exactly the one character.
#[verifier::external_body]
fn push_char(s: &mut String, c: char)
    ensures
        final(s)@ == old(s)@.push(c),
{
    s.push(c);
}

/// The record a directory at arena index `x` is written as, up to its
/// placement coordinates.
pub open spec fn dir_record_matches(
    arena: Seq<FsEntry>,
    dirs: Seq<int>,
    files: Seq<int>,
    m: crate::layout::NodeDescModel,
    x: int,
) -> bool {
    &&& m.kind == NodeKind::Directory
    &&& m.name == arena[x].name@
    &&& m.ext.len() == 0
    &&& m.media_type.len() == 0
    &&& m.packed_len == 4 * arena[x].children@.len()
    &&& m.unpacked_len == 4 * arena[x].children@.len()
    &&& m.crc == crate::crc32c::spec_crc32c(spec_dir_payload(arena, dirs, files, x))
}

/// The record a file at arena index `x` is written as, up to its placement
/// coordinates.
pub open spec fn file_record_matches(
    arena: Seq<FsEntry>,
    tv: Seq<(Seq<char>, Seq<char>)>,
    c: Option<CompressionType>,
    m: crate::layout::NodeDescModel,
    x: int,
) -> bool {
    let stored = if c == Some(CompressionType::Deflate) {
        deflate_of(arena[x].data@)
    } else {
        arena[x].data@
    };
    &&& m.kind == NodeKind::Resource
    &&& m.name == arena[x].name@
    &&& m.ext == arena[x].extension@
    &&& m.media_type == spec_resolved_media_type(tv, arena[x].extension@)
    &&& m.unpacked_len == arena[x].data@.len()
    &&& m.packed_len == stored.len()
    &&& m.crc == crate::crc32c::spec_crc32c(stored)
}

/// The stored payload length of each node the tree builds, in final order.
pub open spec fn spec_arena_stored_lens(
    arena: Seq<FsEntry>,
    dirs: Seq<int>,
    files: Seq<int>,
    c: Option<CompressionType>,
) -> Seq<int> {
    Seq::new(
        dirs.len() + files.len(),
        |k: int|
            if k < dirs.len() {
                4 * arena[dirs[k]].children@.len() as int
            } else if c == Some(CompressionType::Deflate) {
                deflate_of(arena[files[k - dirs.len()]].data@).len() as int
            } else {
                arena[files[k - dirs.len()]].data@.len() as int
            },
    )
}

/// The descriptor record length of each node the tree builds, in final order.
pub open spec fn spec_arena_desc_len(
    arena: Seq<FsEntry>,
    tv: Seq<(Seq<char>, Seq<char>)>,
    dirs: Seq<int>,
    files: Seq<int>,
    k: int,
) -> int {
    if k < dirs.len() {
        crate::layout::NODE_DESC_BASE_LEN + encode_utf8(arena[dirs[k]].name@).len()
    } else {
        let e = arena[files[k - dirs.len()]];
        crate::layout::NODE_DESC_BASE_LEN + encode_utf8(e.name@).len() + encode_utf8(
            e.extension@,
        ).len() + encode_utf8(spec_resolved_media_type(tv, e.extension@)).len()
    }
}

/// The catalogue length of the node lists: the sum of the sizes of the
/// first `upto` records.
pub open spec fn spec_arena_cat_len(
    arena: Seq<FsEntry>,
    tv: Seq<(Seq<char>, Seq<char>)>,
    dirs: Seq<int>,
    files: Seq<int>,
    upto: int,
) -> int
    decreases upto,
{
    if upto <= 0 {
        0
    } else {
        spec_arena_cat_len(arena, tv, dirs, files, upto - 1) + spec_arena_desc_len(
            arena,
            tv,
            dirs,
            files,
            upto - 1,
        )
    }
}

/// Node lists with pointwise-equal record lengths have equal catalogue sums.
pub proof fn lemma_sum_desc_lens_pointwise(
    nodes: Seq<PackNode>,
    arena: Seq<FsEntry>,
    tv: Seq<(Seq<char>, Seq<char>)>,
    dirs: Seq<int>,
    files: Seq<int>,
    upto: int,
)
    requires
        0 <= upto <= nodes.len(),
        forall|k: int|
            0 <= k < upto ==> spec_node_desc_len(#[trigger] nodes[k]) == spec_arena_desc_len(
                arena,
                tv,
                dirs,
                files,
                k,
            ),
    ensures
        sum_desc_lens(nodes.subrange(0, upto)) == spec_arena_cat_len(arena, tv, dirs, files, upto),
    decreases upto,
{
    if upto > 0 {
        lemma_sum_desc_lens_pointwise(nodes, arena, tv, dirs, files, upto - 1);
        assert(nodes.subrange(0, upto).drop_last() =~= nodes.subrange(0, upto - 1));
        assert(nodes.subrange(0, upto).last() == nodes[upto - 1]);
    }
}

/// A node list whose directories are exactly a prefix has that many.
pub proof fn lemma_count_dirs_prefix(s: Seq<PackNode>, dc: int)
    requires
        0 <= dc <= s.len(),
        forall|k: int| 0 <= k < s.len() ==> (((#[trigger] s[k]).kind == NodeKind::Directory) <==> k
            < dc),
    ensures
        count_dir_nodes(s) == dc,
    decreases s.len(),
{
    if s.len() > 0 {
        let d = s.drop_last();
        assert(forall|k: int| 0 <= k < d.len() ==> #[trigger] d[k] == s[k]);
        if dc == s.len() {
            lemma_count_dirs_prefix(d, dc - 1);
        } else {
            lemma_count_dirs_prefix(d, dc);
        }
    }
}

/// The first part image opens with a header carrying the configuration's
/// version, compression and namespace and the given counts, followed by
/// exactly the catalogue bytes of `models`.
pub open spec fn written_head_matches(
    vols: Seq<Vec<u8>>,
    options: PackingOptions,
    arena: Seq<FsEntry>,
    dirs: Seq<int>,
    files: Seq<int>,
    tv: Seq<(Seq<char>, Seq<char>)>,
    models: Seq<crate::layout::NodeDescModel>,
) -> bool {
    let cat = crate::layout::spec_catalogue_bytes(models);
    &&& models.len() == dirs.len() + files.len()
    &&& vols.len() >= 1
    &&& vols[0]@.len() >= 256 + cat.len()
    &&& vols[0]@.subrange(0, 256) == crate::layout::spec_header_bytes(
        spec_written_header(
            options,
            vols.len() as u16,
            cat.len() as u64,
            models.len() as u32,
            dirs.len() as u32,
            (vols[0]@.len() - 256 - cat.len()) as u64,
        ),
    )
    &&& vols[0]@.subrange(256, 256 + cat.len() as int) == cat
    &&& forall|k: int|
        0 <= k < dirs.len() ==> dir_record_matches(
            arena,
            dirs,
            files,
            #[trigger] models[k],
            dirs[k],
        )
    &&& forall|k: int|
        0 <= k < files.len() ==> file_record_matches(
            arena,
            tv,
            options.compression_type,
            #[trigger] models[dirs.len() + k],
            files[k],
        )
}

/// Some record list describes the first part image, record by record.
pub open spec fn spec_written_volume_head(
    vols: Seq<Vec<u8>>,
    options: PackingOptions,
    arena: Seq<FsEntry>,
    dirs: Seq<int>,
    files: Seq<int>,
    tv: Seq<(Seq<char>, Seq<char>)>,
) -> bool {
    exists|models: Seq<crate::layout::NodeDescModel>| #[trigger] written_head_matches(
        vols,
        options,
        arena,
        dirs,
        files,
        tv,
        models,
    )
}

/// A node list built positionally from the tree has the arena-level stored
/// payload lengths and catalogue length.
pub proof fn lemma_built_lens(
    arena: Seq<FsEntry>,
    tv: Seq<(Seq<char>, Seq<char>)>,
    dirs: Seq<int>,
    files: Seq<int>,
    nodes: Seq<PackNode>,
    c: Option<CompressionType>,
)
    requires
        nodes.len() == dirs.len() + files.len(),
        forall|k: int|
            0 <= k < dirs.len() ==> node_matches_entry(#[trigger] nodes[k], arena[dirs[k]], tv),
        forall|k: int|
            0 <= k < files.len() ==> node_matches_entry(
                #[trigger] nodes[dirs.len() + k],
                arena[files[k]],
                tv,
            ),
        forall|k: int|
            0 <= k < dirs.len() ==> 0 <= #[trigger] dirs[k] < arena.len() && arena[dirs[k]].kind
                == FsEntryKind::Directory,
        forall|k: int|
            0 <= k < files.len() ==> 0 <= #[trigger] files[k] < arena.len() && arena[files[k]].kind
                == FsEntryKind::File,
    ensures
        stored_lens(nodes, c) == spec_arena_stored_lens(arena, dirs, files, c),
        sum_desc_lens(nodes) == spec_arena_cat_len(
            arena,
            tv,
            dirs,
            files,
            (dirs.len() + files.len()) as int,
        ),
{
    let dl = dirs.len() as int;
    assert forall|k: int| 0 <= k < nodes.len() implies #[trigger] stored_lens(nodes, c)[k]
        == spec_arena_stored_lens(arena, dirs, files, c)[k] by {
        if k < dl {
            assert(node_matches_entry(nodes[k], arena[dirs[k]], tv));
        } else {
            let k2 = k - dl;
            assert(node_matches_entry(nodes[dirs.len() + k2], arena[files[k2]], tv));
            assert(nodes[k].data@ == arena[files[k2]].data@);
        }
    }
    assert(stored_lens(nodes, c) =~= spec_arena_stored_lens(arena, dirs, files, c));
    assert forall|k: int| 0 <= k < nodes.len() implies spec_node_desc_len(#[trigger] nodes[k])
        == spec_arena_desc_len(arena, tv, dirs, files, k) by {
        if k < dl {
            assert(node_matches_entry(nodes[k], arena[dirs[k]], tv));
            assert(nodes[k].ext@ =~= Seq::<char>::empty());
            assert(nodes[k].media_type@ =~= Seq::<char>::empty());
            assert(encode_utf8(nodes[k].ext@) =~= Seq::<u8>::empty());
            assert(encode_utf8(nodes[k].media_type@) =~= Seq::<u8>::empty());
        } else {
            let k2 = k - dl;
            assert(node_matches_entry(nodes[dirs.len() + k2], arena[files[k2]], tv));
        }
    }
    lemma_sum_desc_lens_pointwise(nodes, arena, tv, dirs, files, nodes.len() as int);
    assert(nodes.subrange(0, nodes.len() as int) =~= nodes);
}

/// Records written from a positionally built node list match the tree's
/// entries record by record, up to placement coordinates.
pub proof fn lemma_built_records(
    arena: Seq<FsEntry>,
    tv: Seq<(Seq<char>, Seq<char>)>,
    dirs: Seq<int>,
    files: Seq<int>,
    nodes: Seq<PackNode>,
    models: Seq<crate::layout::NodeDescModel>,
    c: Option<CompressionType>,
)
    requires
        nodes.len() == dirs.len() + files.len(),
        models.len() == nodes.len(),
        forall|k: int|
            0 <= k < nodes.len() ==> desc_matches_node(#[trigger] models[k], nodes[k], c),
        forall|k: int|
            0 <= k < dirs.len() ==> node_matches_entry(#[trigger] nodes[k], arena[dirs[k]], tv),
        forall|k: int|
            0 <= k < files.len() ==> node_matches_entry(
                #[trigger] nodes[dirs.len() + k],
                arena[files[k]],
                tv,
            ),
        forall|k: int|
            0 <= k < dirs.len() ==> (#[trigger] nodes[k]).data@ == spec_dir_payload(
                arena,
                dirs,
                files,
                dirs[k],
            ),
        forall|k: int|
            0 <= k < dirs.len() ==> 0 <= #[trigger] dirs[k] < arena.len() && arena[dirs[k]].kind
                == FsEntryKind::Directory,
        forall|k: int|
            0 <= k < files.len() ==> 0 <= #[trigger] files[k] < arena.len() && arena[files[k]].kind
                == FsEntryKind::File,
    ensures
        forall|k: int|
            0 <= k < dirs.len() ==> dir_record_matches(
                arena,
                dirs,
                files,
                #[trigger] models[k],
                dirs[k],
            ),
        forall|k: int|
            0 <= k < files.len() ==> file_record_matches(
                arena,
                tv,
                c,
                #[trigger] models[dirs.len() + k],
                files[k],
            ),
{
    let dl = dirs.len() as int;
    assert forall|k: int| 0 <= k < dirs.len() implies dir_record_matches(
        arena,
        dirs,
        files,
        #[trigger] models[k],
        dirs[k],
    ) by {
        assert(desc_matches_node(models[k], nodes[k], c));
        assert(node_matches_entry(nodes[k], arena[dirs[k]], tv));
        assert(nodes[k].data@ == spec_dir_payload(arena, dirs, files, dirs[k]));
        assert(spec_stored_node(nodes[k], c) == nodes[k].data@);
    }
    assert forall|k: int| 0 <= k < files.len() implies file_record_matches(
        arena,
        tv,
        c,
        #[trigger] models[dirs.len() + k],
        files[k],
    ) by {
        assert(desc_matches_node(models[dl + k], nodes[dl + k], c));
        assert(node_matches_entry(nodes[dirs.len() + k], arena[files[k]], tv));
        assert(nodes[dl + k].data@ == arena[files[k]].data@);
    }
}

/// Packs an in-memory directory tree into part images: builds the node list
/// with the built-in media types extended by the configuration's overrides,
/// then streams it into size-bounded parts. No part image exceeds a
/// configured maximum part length.
#[verifier::rlimit(100)]
pub fn create_arp_from_tree(arena: &Vec<FsEntry>, options: &PackingOptions) -> (r: Result<
    Vec<Vec<u8>>,
    ArpError,
>)
    requires
        options.version == 1,
        encode_utf8(options.namespace@).len() <= crate::layout::NAMESPACE_MAX_LEN,
        options.max_part_len matches Some(m) ==> m >= crate::layout::PART_LEN_MIN,
    ensures
        r matches Err(e) ==> e == ArpError::MalformedTree || e == ArpError::NameTooLong || e
            == ArpError::OversizedResource || e == ArpError::TooManyParts,
        match r {
            Ok(vols) => options.max_part_len is None ==> vols@.len() == 1,
            Err(_) => true,
        },
        options.max_part_len is None && r is Err ==> r == Err::<Vec<Vec<u8>>, ArpError>(
            ArpError::MalformedTree,
        ) || r == Err::<Vec<Vec<u8>>, ArpError>(ArpError::NameTooLong),
        match spec_build_outcome(
            arena@,
            crate::mappings::spec_builtin_table() + table_view(options.media_types.entries@),
        ) {
            Err(e) => r == Err::<Vec<Vec<u8>>, ArpError>(e),
            Ok(orders) => {
                let (dirs, files) = orders;
                let tv_all = crate::mappings::spec_builtin_table() + table_view(
                    options.media_types.entries@,
                );
                match options.max_part_len {
                    None => r matches Ok(vols) && spec_written_volume_head(
                        vols@,
                        *options,
                        arena@,
                        dirs,
                        files,
                        tv_all,
                    ),
                    Some(m) => {
                        let outcome = spec_pack_outcome(
                            spec_arena_stored_lens(arena@, dirs, files, options.compression_type),
                            spec_arena_cat_len(
                                arena@,
                                tv_all,
                                dirs,
                                files,
                                (dirs.len() + files.len()) as int,
                            ),
                            m as int,
                            0,
                            0,
                            false,
                            0,
                        );
                        match r {
                            Ok(vols) => outcome == Ok::<int, ArpError>(vols@.len() as int)
                                && spec_written_volume_head(
                                vols@,
                                *options,
                                arena@,
                                dirs,
                                files,
                                tv_all,
                            ),
                            Err(e) => outcome == Err::<int, ArpError>(e),
                        }
                    },
                }
            },
        },
        r matches Ok(vols) ==> {
            &&& 1 <= vols@.len() <= crate::layout::PARTS_MAX
            &&& (options.max_part_len matches Some(m) ==> forall|i: int|
                0 <= i < vols@.len() ==> (#[trigger] vols@[i])@.len() <= m)
            &&& vols@[0]@.len() >= 256
        },
{
    let mut all_media_types = load_arp_builtin_media_types();
    all_media_types.extend(&options.media_types);
    proof {
        assert(table_view(all_media_types.entries@) == crate::mappings::spec_builtin_table()
            + table_view(options.media_types.entries@));
    }
    let nodes = match build_nodes(arena, &all_media_types) {
        Ok(nodes) => nodes,
        Err(e) => {
            return Err(e);
        },
    };
    let ghost tv_all = crate::mappings::spec_builtin_table() + table_view(
        options.media_types.entries@,
    );
    proof {
        let outcome_b = spec_build_outcome(arena@, tv_all);
        let (dirs, files) = outcome_b->Ok_0;
        lemma_built_lens(arena@, tv_all, dirs, files, nodes@, options.compression_type);
    }
    let (vols, _descs) = match write_package_to_volumes(&nodes, options) {
        Ok(p) => p,
        Err(e) => {
            proof {
                match options.max_part_len {
                    Some(m) => {
                        lemma_pack_outcome_errors(
                            stored_lens(nodes@, options.compression_type),
                            sum_desc_lens(nodes@),
                            m as int,
                            0,
                            0,
                            false,
                            0,
                        );
                    },
                    None => {},
                }
            }
            return Err(e);
        },
    };
    proof {
        let outcome_b = spec_build_outcome(arena@, tv_all);
        let (dirs, files) = outcome_b->Ok_0;
        let dl = dirs.len() as int;
        let models = descs_models(_descs@);
        let cat = crate::layout::spec_catalogue_bytes(models);
        assert(models.len() == arena@.len());
        assert forall|k: int| 0 <= k < nodes@.len() implies (((#[trigger] nodes@[k]).kind
            == NodeKind::Directory) <==> k < dl) by {
            if k < dl {
                assert(node_matches_entry(nodes@[k], arena@[dirs[k]], tv_all));
                assert(arena@[dirs[k]].kind == FsEntryKind::Directory);
            } else {
                let k2 = k - dl;
                assert(node_matches_entry(nodes@[dirs.len() + k2], arena@[files[k2]], tv_all));
                assert(arena@[files[k2]].kind == FsEntryKind::File);
            }
        }
        lemma_count_dirs_prefix(nodes@, dl);
        assert(count_dir_nodes(nodes@) == dl);
        assert(vols@[0]@.len() >= 256 + cat.len());
        assert(vols@[0]@.subrange(0, 256) == crate::layout::spec_header_bytes(
            spec_written_header(
                *options,
                vols@.len() as u16,
                cat.len() as u64,
                arena@.len() as u32,
                count_dir_nodes(nodes@) as u32,
                (vols@[0]@.len() - 256 - cat.len()) as u64,
            ),
        ));
        assert(vols@[0]@.subrange(256, 256 + cat.len() as int) == cat);
        assert(forall|k: int|
            0 <= k < nodes@.len() ==> desc_matches_node(
                #[trigger] models[k],
                nodes@[k],
                options.compression_type,
            ));
        lemma_built_records(
            arena@,
            tv_all,
            dirs,
            files,
            nodes@,
            models,
            options.compression_type,
        );
        assert(written_head_matches(vols@, *options, arena@, dirs, files, tv_all, models));
        assert(spec_written_volume_head(vols@, *options, arena@, dirs, files, tv_all));
    }
    Ok(vols)
}

/// A fully clear flag vector has no set flags.
pub proof fn lemma_count_trues_all_false(s: Seq<bool>)
    requires
        forall|k: int| 0 <= k < s.len() ==> !(#[trigger] s[k]),
    ensures
        count_trues(s) == 0,
    decreases s.len(),
{
    if s.len() > 0 {
        lemma_count_trues_all_false(s.drop_last());
    }
}

} // verus!
