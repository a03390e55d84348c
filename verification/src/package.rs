//! The decoder: parses a package's header and catalogue out of its part
//! images, resolves every directory's raw child-index payload into a name
//! index, and answers identifier lookups against the result.

use std::sync::Arc;
use vstd::prelude::*;
use vstd::slice::slice_subrange;

use crate::error::ArpError;
use crate::layout::parse_header;
use crate::layout::parse_index_list;
use crate::layout::parse_node_desc;
use crate::layout::spec_parse_catalogue;
use crate::layout::spec_parse_header;
use crate::layout::validate_package_meta;
use crate::layout::HeaderModel;
use crate::layout::NodeDesc;
use crate::layout::NodeDescModel;
use crate::layout::NodeKind;
use crate::layout::PackageMeta;
use crate::layout::PACKAGE_HEADER_LEN;
use crate::pack::descs_models;
use crate::trusted::arc_clone;
use crate::uid::str_eq;
use crate::uid::ResourceIdentifier;

verus! {

/// A directory of a loaded catalogue: its own record fields, and its
/// children resolved into name and index pairs.
#[derive(Debug)]
pub struct DirectoryNode {
    /// The node's dense catalogue index.
    pub index: u32,
    /// The directory's name; empty only for the root.
    pub name: String,
    /// The 1-based part holding the child-index payload.
    pub data_part: u16,
    /// Offset of the payload within that part's body.
    pub data_off: u64,
    /// Length of the payload in bytes.
    pub data_len: u64,
    /// The children by name; later entries shadow earlier ones.
    pub children: Vec<(String, u32)>,
}

/// A resource of a loaded catalogue.
#[derive(Debug)]
pub struct ResourceNode {
    /// The node's dense catalogue index.
    pub index: u32,
    /// The resource's name without extension.
    pub name: String,
    /// The resource's extension.
    pub ext: String,
    /// The resource's media type.
    pub media_type: String,
    /// The 1-based part holding the payload.
    pub data_part: u16,
    /// Offset of the payload within that part's body.
    pub data_off: u64,
    /// Length of the payload as stored.
    pub data_len_packed: u64,
    /// Length of the payload once unpacked.
    pub data_len_unpacked: u64,
    /// CRC32C of the stored payload bytes.
    pub crc: u32,
}

/// One node of a loaded catalogue.
#[derive(Debug)]
pub enum CatalogueNode {
    /// A directory with resolved children.
    Directory(DirectoryNode),
    /// A resource.
    Resource(ResourceNode),
}

/// The flat node table of a loaded package, indexed by catalogue index.
#[derive(Debug)]
pub struct LoadedCatalogue {
    /// The nodes, in catalogue order.
    pub nodes: Vec<CatalogueNode>,
}

/// The name a node is addressed by from its parent: a directory's own name;
/// a resource's name joined to its extension by a dot, or its bare name when
/// it has no extension.
pub open spec fn spec_catnode_name(n: CatalogueNode) -> Seq<char> {
    match n {
        CatalogueNode::Directory(d) => d.name@,
        CatalogueNode::Resource(r) => if r.ext@.len() == 0 {
            r.name@
        } else {
            r.name@ + seq!['.'] + r.ext@
        },
    }
}

/// The name a node is addressed by, as a fresh string.
pub fn catnode_lookup_name(n: &CatalogueNode) -> (r: String)
    ensures
        r@ == spec_catnode_name(*n),
{
    match n {
        CatalogueNode::Directory(d) => d.name.clone(),
        CatalogueNode::Resource(rn) => {
            if rn.ext.as_str().is_empty() {
                rn.name.clone()
            } else {
                let mut full = rn.name.clone();
                full.append(".");
                full.append(rn.ext.as_str());
                proof {
                    reveal_strlit(".");
                    assert("."@ =~= seq!['.']);
                }
                full
            }
        },
    }
}

/// A loaded node carries its record's fields.
pub open spec fn catnode_matches_desc(n: CatalogueNode, m: NodeDescModel, index: int) -> bool {
    match n {
        CatalogueNode::Directory(d) => {
            &&& m.kind == NodeKind::Directory
            &&& d.index == index
            &&& d.name@ == m.name
            &&& d.data_part == m.part
            &&& d.data_off == m.data_off
            &&& d.data_len == m.packed_len
        },
        CatalogueNode::Resource(r) => {
            &&& m.kind == NodeKind::Resource
            &&& r.index == index
            &&& r.name@ == m.name
            &&& r.ext@ == m.ext
            &&& r.media_type@ == (if m.media_type.len() == 0 {
                crate::pack::spec_default_media_type()
            } else {
                m.media_type
            })
            &&& r.data_part == m.part
            &&& r.data_off == m.data_off
            &&& r.data_len_packed == m.packed_len
            &&& r.data_len_unpacked == m.unpacked_len
            &&& r.crc == m.crc
        },
    }
}

/// A node's child entries, if a directory, all point inside the table, each
/// at a node whose name the entry carries.
pub open spec fn wf_catnode(nodes: Seq<CatalogueNode>, n: CatalogueNode) -> bool {
    match n {
        CatalogueNode::Directory(d) => forall|j: int|
            0 <= j < d.children@.len() ==> {
                let (name, ci) = #[trigger] d.children@[j];
                ci < nodes.len() && name@ == spec_catnode_name(nodes[ci as int])
            },
        CatalogueNode::Resource(_) => true,
    }
}

/// A node's children, if a directory, are still unresolved.
pub open spec fn catnode_children_empty(n: CatalogueNode) -> bool {
    match n {
        CatalogueNode::Directory(d) => d.children@.len() == 0,
        CatalogueNode::Resource(_) => true,
    }
}

/// Every child entry of every directory points inside the table, at a node
/// whose name the entry carries.
pub open spec fn wf_catalogue(nodes: Seq<CatalogueNode>) -> bool {
    forall|k: int| 0 <= k < nodes.len() ==> wf_catnode(nodes, #[trigger] nodes[k])
}

/// Following child-list positions from `from`: the node a path of child
/// positions ends at, stepping only through directories and only to
/// children whose index has a node.
pub open spec fn spec_walk(nodes: Seq<CatalogueNode>, from: int, path: Seq<int>) -> Option<int>
    decreases path.len(),
{
    if !(0 <= from < nodes.len()) {
        None
    } else if path.len() == 0 {
        Some(from)
    } else {
        match nodes[from] {
            CatalogueNode::Directory(d) => {
                if 0 <= path[0] < d.children@.len() {
                    spec_walk(nodes, d.children@[path[0]].1 as int, path.drop_first())
                } else {
                    None
                }
            },
            CatalogueNode::Resource(_) => None,
        }
    }
}

/// The child names along a walk.
pub open spec fn spec_walk_names(nodes: Seq<CatalogueNode>, from: int, path: Seq<int>) -> Seq<
    Seq<char>,
>
    decreases path.len(),
{
    if !(0 <= from < nodes.len()) || path.len() == 0 {
        Seq::empty()
    } else {
        match nodes[from] {
            CatalogueNode::Directory(d) => {
                if 0 <= path[0] < d.children@.len() {
                    seq![d.children@[path[0]].0@] + spec_walk_names(
                        nodes,
                        d.children@[path[0]].1 as int,
                        path.drop_first(),
                    )
                } else {
                    Seq::empty()
                }
            },
            CatalogueNode::Resource(_) => Seq::empty(),
        }
    }
}

/// The node is reachable from the root through the children maps.
pub open spec fn spec_node_reachable(nodes: Seq<CatalogueNode>, x: int) -> bool {
    exists|path: Seq<int>| (#[trigger] spec_walk(nodes, 0, path)) == Some(x)
}

/// The descriptor's identifier records a walk from the root to its node:
/// its components are the child names along some path that reaches it.
pub open spec fn descriptor_on_walk(
    nodes: Seq<CatalogueNode>,
    d: crate::resource::ResourceDescriptor,
) -> bool {
    exists|path: Seq<int>|
        (#[trigger] spec_walk(nodes, 0, path)) == Some(d.index as int)
            && d.identifier.components.deep_view() == spec_walk_names(nodes, 0, path)
}

/// The descriptor carries its node's name, extension, media type and size.
pub open spec fn descriptor_matches_node(
    nodes: Seq<CatalogueNode>,
    d: crate::resource::ResourceDescriptor,
) -> bool {
    match nodes[d.index as int] {
        CatalogueNode::Resource(rn) => {
            &&& d.name@ == rn.name@
            &&& d.extension@ == rn.ext@
            &&& d.media_type@ == rn.media_type@
            &&& d.size == rn.data_len_unpacked
        },
        CatalogueNode::Directory(_) => false,
    }
}

/// Some result names the node.
pub open spec fn resource_listed(
    rs: Seq<crate::resource::ResourceDescriptor>,
    x: int,
) -> bool {
    exists|k: int| 0 <= k < rs.len() && ((#[trigger] rs[k]).index as int) == x
}

/// Some stack entry holds the node.
pub open spec fn stack_holds(st: Seq<(u32, Vec<String>, Ghost<Seq<int>>)>, x: int) -> bool {
    exists|k: int| 0 <= k < st.len() && ((#[trigger] st[k]).0 as int) == x
}

/// Every in-range child of the node, if a directory, is seen.
pub open spec fn dir_children_visited(
    nodes: Seq<CatalogueNode>,
    visited: Seq<bool>,
    y: int,
) -> bool {
    match nodes[y] {
        CatalogueNode::Directory(d) => forall|j: int|
            0 <= j < d.children@.len() && ((#[trigger] d.children@[j]).1 as int) < nodes.len()
                ==> visited[d.children@[j].1 as int],
        CatalogueNode::Resource(_) => true,
    }
}

/// Extending a walk that ends at a directory by one in-range child position
/// reaches that child and appends its name.
pub proof fn lemma_walk_snoc(
    nodes: Seq<CatalogueNode>,
    from: int,
    path: Seq<int>,
    y: int,
    j: int,
)
    requires
        spec_walk(nodes, from, path) == Some(y),
        0 <= y < nodes.len(),
        nodes[y] matches CatalogueNode::Directory(dn) && 0 <= j < dn.children@.len() && 0 <= (
        dn.children@[j].1 as int) < nodes.len(),
    ensures
        nodes[y] matches CatalogueNode::Directory(dn) ==> spec_walk(nodes, from, path.push(j))
            == Some(dn.children@[j].1 as int) && spec_walk_names(nodes, from, path.push(j))
            == spec_walk_names(nodes, from, path).push(dn.children@[j].0@),
    decreases path.len(),
{
    if path.len() == 0 {
        assert(from == y);
        let p = path.push(j);
        assert(p.len() == 1);
        assert(p[0] == j);
        assert(p.drop_first() =~= Seq::<int>::empty());
        match nodes[y] {
            CatalogueNode::Directory(dn) => {
                let t = dn.children@[j].1 as int;
                assert(spec_walk(nodes, t, p.drop_first()) == Some(t));
                assert(spec_walk(nodes, from, p) == Some(t));
                assert(spec_walk_names(nodes, t, p.drop_first()) =~= Seq::<Seq<char>>::empty());
                assert(spec_walk_names(nodes, from, p) == seq![dn.children@[j].0@]
                    + spec_walk_names(nodes, t, p.drop_first()));
                assert(spec_walk_names(nodes, from, path) =~= Seq::<Seq<char>>::empty());
                assert(spec_walk_names(nodes, from, p) =~= spec_walk_names(
                    nodes,
                    from,
                    path,
                ).push(dn.children@[j].0@));
            },
            CatalogueNode::Resource(_) => {},
        }
    } else {
        match nodes[from] {
            CatalogueNode::Directory(d0) => {
                let t = d0.children@[path[0]].1 as int;
                lemma_walk_snoc(nodes, t, path.drop_first(), y, j);
                assert(path.push(j)[0] == path[0]);
                assert(path.push(j).drop_first() =~= path.drop_first().push(j));
                match nodes[y] {
                    CatalogueNode::Directory(dn) => {
                        assert(seq![d0.children@[path[0]].0@] + spec_walk_names(
                            nodes,
                            t,
                            path.drop_first(),
                        ).push(dn.children@[j].0@) =~= (seq![d0.children@[path[0]].0@]
                            + spec_walk_names(nodes, t, path.drop_first())).push(
                            dn.children@[j].0@,
                        ));
                    },
                    CatalogueNode::Resource(_) => {},
                }
            },
            CatalogueNode::Resource(_) => {},
        }
    }
}

/// When every seen directory's in-range children are seen, a walk from a
/// seen node only meets seen nodes.
pub proof fn lemma_walk_visited(
    nodes: Seq<CatalogueNode>,
    visited: Seq<bool>,
    from: int,
    path: Seq<int>,
    x: int,
)
    requires
        visited.len() == nodes.len(),
        0 <= from < nodes.len(),
        visited[from],
        forall|y: int|
            0 <= y < nodes.len() && #[trigger] visited[y] ==> dir_children_visited(
                nodes,
                visited,
                y,
            ),
        spec_walk(nodes, from, path) == Some(x),
    ensures
        0 <= x < nodes.len() && visited[x],
    decreases path.len(),
{
    if path.len() > 0 {
        match nodes[from] {
            CatalogueNode::Directory(d) => {
                let t = d.children@[path[0]].1 as int;
                assert(spec_walk(nodes, t, path.drop_first()) == Some(x));
                assert(0 <= t < nodes.len());
                assert(dir_children_visited(nodes, visited, from));
                assert(visited[t]);
                lemma_walk_visited(nodes, visited, t, path.drop_first(), x);
            },
            CatalogueNode::Resource(_) => {},
        }
    }
}

/// The bytes a directory or resource record points at: the recorded slice of

/// the recorded part, measured past the body offset in part 1 and past the
/// part header in every other part.
pub open spec fn spec_dir_region(
    volumes: Seq<Vec<u8>>,
    h: HeaderModel,
    m: NodeDescModel,
) -> Seq<u8> {
    let part = m.part as int;
    let base: int = if part == 1 {
        h.body_off as int
    } else {
        16
    };
    volumes[part - 1]@.subrange(base + m.data_off, base + m.data_off + m.packed_len)
}

/// What reading a package's header and catalogue out of its part images
/// gives, before directory resolution: the parsed and validated header with
/// the parsed records, or the exact failure, in the order the loader checks.
pub open spec fn spec_load_stage(volumes: Seq<Vec<u8>>, in_memory: bool) -> Result<
    (HeaderModel, Seq<NodeDescModel>),
    ArpError,
> {
    if volumes.len() == 0 || volumes[0]@.len() < PACKAGE_HEADER_LEN {
        Err(ArpError::TruncatedPackage)
    } else {
        let v0 = volumes[0]@;
        match spec_parse_header(v0.subrange(0, PACKAGE_HEADER_LEN as int)) {
            Err(e) => Err(e),
            Ok(h) => {
                if in_memory && h.total_parts > 1 {
                    Err(ArpError::InMemoryMultiPart)
                } else if h.major_version != 1 {
                    Err(ArpError::UnsupportedVersion)
                } else if h.total_parts > crate::layout::PARTS_MAX {
                    Err(ArpError::PartCountExceeded)
                } else if h.namespace.len() == 0 {
                    Err(ArpError::EmptyNamespace)
                } else if !crate::uid::valid_path_component(h.namespace) {
                    Err(crate::uid::spec_component_err(h.namespace))
                } else if h.cat_off > v0.len() || h.cat_len > v0.len() - h.cat_off {
                    Err(ArpError::TruncatedPackage)
                } else {
                    match spec_parse_catalogue(
                        v0.subrange(h.cat_off as int, h.cat_off + h.cat_len),
                        0,
                        h.node_count as int,
                    ) {
                        Err(e) => Err(e),
                        Ok(models) => Ok((h, models)),
                    }
                }
            },
        }
    }
}

/// The failure resolving directory payloads reports, walking the records
/// from `k`: each directory's recorded region must lie inside its recorded
/// part, hold a whole number of 4-byte indices, and reference only indices
/// with nodes; nothing when every remaining directory resolves.
pub open spec fn spec_resolve_dirs_err(
    volumes: Seq<Vec<u8>>,
    h: HeaderModel,
    models: Seq<NodeDescModel>,
    k: int,
) -> Option<ArpError>
    decreases models.len() - k,
{
    if k < 0 || k >= models.len() {
        None
    } else {
        let m = models[k];
        if m.kind != NodeKind::Directory {
            spec_resolve_dirs_err(volumes, h, models, k + 1)
        } else {
            let part = m.part as int;
            if !(1 <= part <= volumes.len()) {
                Some(ArpError::TruncatedPackage)
            } else {
                let base: int = if part == 1 {
                    h.body_off as int
                } else {
                    16
                };
                let v = volumes[part - 1]@;
                if base > v.len() || m.data_off > v.len() - base || m.packed_len > v.len() - base
                    - m.data_off {
                    Some(ArpError::TruncatedPackage)
                } else if m.packed_len % 4 != 0 {
                    Some(ArpError::MalformedDirectoryPayload)
                } else {
                    let idxs = crate::layout::spec_parse_index_list(
                        spec_dir_region(volumes, h, m),
                    );
                    if exists|j: int| 0 <= j < idxs.len() && (#[trigger] idxs[j]) >= models.len() {
                        Some(ArpError::UnknownChildIndex)
                    } else {
                        spec_resolve_dirs_err(volumes, h, models, k + 1)
                    }
                }
            }
        }
    }
}

/// A directory's children are exactly the indices of its decoded payload, in
/// order, each paired with the name of the node it points at.
pub open spec fn children_resolved(
    nodes: Seq<CatalogueNode>,
    volumes: Seq<Vec<u8>>,
    h: HeaderModel,
    models: Seq<NodeDescModel>,
    k: int,
) -> bool {
    match nodes[k] {
        CatalogueNode::Directory(d) => {
            let idxs = crate::layout::spec_parse_index_list(
                spec_dir_region(volumes, h, models[k]),
            );
            &&& d.children@.len() == idxs.len()
            &&& forall|j: int|
                0 <= j < idxs.len() ==> (#[trigger] d.children@[j]).1 == idxs[j]
                    && d.children@[j].0@ == spec_catnode_name(nodes[idxs[j] as int])
        },
        CatalogueNode::Resource(_) => true,
    }
}

/// A loaded package: its header, its catalogue, and its part images.
#[derive(Debug)]
pub struct Package {
    /// The parsed and validated header.
    pub meta: PackageMeta,
    /// The parsed catalogue with resolved directory children.
    pub catalogue: LoadedCatalogue,
    /// The file stem the package was loaded under, if from files.
    pub base_file_name: Option<String>,
    /// The part images, in part order.
    pub volumes: Vec<Vec<u8>>,
    /// Whether the package was handed over as one in-memory buffer.
    pub in_memory: bool,
}

/// Parses `node_count` catalogue records from the start of a buffer, giving
/// exactly what `spec_parse_catalogue` says.
pub fn parse_catalogue(buf: &[u8], node_count: u32) -> (r: Result<Vec<NodeDesc>, ArpError>)
    ensures
        match r {
            Ok(v) => spec_parse_catalogue(buf@, 0, node_count as int) == Ok::<
                Seq<NodeDescModel>,
                ArpError,
            >(descs_models(v@)) && v@.len() == node_count,
            Err(e) => spec_parse_catalogue(buf@, 0, node_count as int) == Err::<
                Seq<NodeDescModel>,
                ArpError,
            >(e),
        },
{
    let mut descs: Vec<NodeDesc> = Vec::new();
    let mut pos: usize = 0;
    let mut i: u32 = 0;
    proof {
        assert(descs_models(descs@) =~= Seq::<NodeDescModel>::empty());
        assert(Seq::<NodeDescModel>::empty() + Seq::<NodeDescModel>::empty() =~= Seq::<
            NodeDescModel,
        >::empty());
    }
    while i < node_count
        invariant
            i <= node_count,
            pos <= buf.len(),
            descs@.len() == i,
            match spec_parse_catalogue(buf@, pos as int, node_count - i) {
                Ok(rest) => spec_parse_catalogue(buf@, 0, node_count as int) == Ok::<
                    Seq<NodeDescModel>,
                    ArpError,
                >(descs_models(descs@) + rest),
                Err(e) => spec_parse_catalogue(buf@, 0, node_count as int) == Err::<
                    Seq<NodeDescModel>,
                    ArpError,
                >(e),
            },
        decreases node_count - i,
    {
        let (d, next) = match parse_node_desc(buf, pos) {
            Ok(p) => p,
            Err(e) => {
                return Err(e);
            },
        };
        let ghost old_models = descs_models(descs@);
        descs.push(d);
        proof {
            assert(descs_models(descs@) =~= old_models.push(d@));
            let rest_r = spec_parse_catalogue(buf@, next as int, node_count - i - 1);
            match rest_r {
                Ok(rest) => {
                    assert(old_models + (seq![d@] + rest) =~= descs_models(descs@) + rest);
                },
                Err(_) => {},
            }
        }
        pos = next;
        i += 1;
    }
    proof {
        assert(spec_parse_catalogue(buf@, pos as int, 0) == Ok::<Seq<NodeDescModel>, ArpError>(
            Seq::empty(),
        ));
        assert(descs_models(descs@) + Seq::<NodeDescModel>::empty() =~= descs_models(descs@));
    }
    Ok(descs)
}

/// Reads the 256-byte header from the front of the first part image.
pub fn load_header_from(data: &[u8]) -> (r: Result<PackageMeta, ArpError>)
    ensures
        data@.len() < PACKAGE_HEADER_LEN ==> r == Err::<PackageMeta, ArpError>(
            ArpError::TruncatedPackage,
        ),
        data@.len() >= PACKAGE_HEADER_LEN ==> match r {
            Ok(m) => spec_parse_header(data@.subrange(0, PACKAGE_HEADER_LEN as int)) == Ok::<
                HeaderModel,
                ArpError,
            >(m@),
            Err(e) => spec_parse_header(data@.subrange(0, PACKAGE_HEADER_LEN as int)) == Err::<
                HeaderModel,
                ArpError,
            >(e),
        },
{
    if data.len() < PACKAGE_HEADER_LEN {
        return Err(ArpError::TruncatedPackage);
    }
    parse_header(slice_subrange(data, 0, PACKAGE_HEADER_LEN))
}

/// What a successful load owes: the package carries exactly the parsed and
/// validated header and records of its part images, with every directory's
/// children resolved from its payload; a failure is exactly the first
/// failing check's error.
pub open spec fn loaded_package_matches(
    r: Result<Arc<Package>, ArpError>,
    volumes: Seq<Vec<u8>>,
    base_file_name: Option<String>,
    in_memory: bool,
) -> bool {
    match r {
        Ok(p) => match spec_load_stage(volumes, in_memory) {
            Ok((h, models)) => {
                &&& p.meta@ == h
                &&& spec_resolve_dirs_err(volumes, h, models, 0) is None
                &&& p.catalogue.nodes@.len() == models.len()
                &&& p.catalogue.nodes@.len() == p.meta.node_count
                &&& (forall|k: int|
                    0 <= k < models.len() ==> catnode_matches_desc(
                        #[trigger] p.catalogue.nodes@[k],
                        models[k],
                        k,
                    ))
                &&& (forall|k: int|
                    #![trigger p.catalogue.nodes@[k]]
                    0 <= k < models.len() ==> children_resolved(
                        p.catalogue.nodes@,
                        volumes,
                        h,
                        models,
                        k,
                    ))
                &&& wf_catalogue(p.catalogue.nodes@)
                &&& p.volumes@ == volumes
                &&& p.base_file_name == base_file_name
                &&& p.in_memory == in_memory
                &&& p.meta.major_version == 1
                &&& p.meta.total_parts <= crate::layout::PARTS_MAX
                &&& (in_memory ==> p.meta.total_parts <= 1)
            },
            Err(_) => false,
        },
        Err(e) => match spec_load_stage(volumes, in_memory) {
            Ok((h, models)) => spec_resolve_dirs_err(volumes, h, models, 0) == Some(e),
            Err(e2) => e == e2,
        },
    }
}

/// Looks a child name up in a directory's resolved children; the last entry
/// under the name wins.
pub open spec fn spec_child_lookup(children: Seq<(String, u32)>, name: Seq<char>) -> Option<u32>
    decreases children.len(),
{
    if children.len() == 0 {
        None
    } else if children.last().0@ == name {
        Some(children.last().1)
    } else {
        spec_child_lookup(children.drop_last(), name)
    }
}

/// Walks identifier components through the catalogue from `cur`: each
/// component before the last must name a directory's child; the result is
/// whatever node the last component names.
pub open spec fn spec_resolve(
    nodes: Seq<CatalogueNode>,
    cur: int,
    comps: Seq<Seq<char>>,
    i: int,
) -> Option<int>
    decreases comps.len() - i,
{
    if !(0 <= cur < nodes.len()) {
        None
    } else if !(nodes[cur] is Directory) {
        None
    } else if !(0 <= i < comps.len()) {
        None
    } else {
        match spec_child_lookup(nodes[cur]->Directory_0.children@, comps[i]) {
            None => None,
            Some(ci) => {
                if i == comps.len() - 1 {
                    if ci < nodes.len() {
                        Some(ci as int)
                    } else {
                        None
                    }
                } else {
                    spec_resolve(nodes, ci as int, comps, i + 1)
                }
            },
        }
    }
}

/// Looks a child name up, giving exactly what `spec_child_lookup` says.
fn child_lookup(children: &Vec<(String, u32)>, name: &str) -> (r: Option<u32>)
    ensures
        r == spec_child_lookup(children@, name@),
{
    let ghost cv = children@;
    let n = children.len();
    let mut k: usize = n;
    proof {
        assert(cv.subrange(0, n as int) =~= cv);
    }
    while k > 0
        invariant
            k <= n,
            n == children@.len(),
            cv == children@,
            spec_child_lookup(cv, name@) == spec_child_lookup(cv.subrange(0, k as int), name@),
        decreases k,
    {
        let e = &children[k - 1];
        proof {
            assert(cv.subrange(0, k as int).last() == cv[k - 1]);
            assert(cv.subrange(0, k as int).drop_last() =~= cv.subrange(0, k - 1));
        }
        if str_eq(e.0.as_str(), name) {
            return Some(e.1);
        }
        k -= 1;
    }
    proof {
        assert(cv.subrange(0, 0) =~= Seq::<(String, u32)>::empty());
    }
    None
}

impl Package {
    /// The package's namespace.
    pub fn get_namespace(&self) -> (r: &str)
        ensures
            r@ == self.meta.namespace@,
    {
        self.meta.namespace.as_str()
    }

    /// The file stem the package was loaded under, if it came from files.
    pub fn get_base_file_name(&self) -> (r: Option<&str>)
        ensures
            match r {
                Some(s) => self.base_file_name matches Some(b) && s@ == b@,
                None => self.base_file_name is None,
            },
    {
        match &self.base_file_name {
            Some(s) => Some(s.as_str()),
            None => None,
        }
    }

    /// Whether the package was handed over as one in-memory buffer.
    pub fn is_in_memory(&self) -> (r: bool)
        ensures
            r == self.in_memory,
    {
        self.in_memory
    }

    /// Builds a package from its part images: parses and validates the
    /// header, parses the catalogue, and resolves every directory's children.
    /// Succeeds exactly on well-formed images, as `spec_load_stage` and
    /// `spec_resolve_dirs_err` say, and the loaded package carries exactly
    /// the parsed header and records.
    pub fn load_from_volumes(volumes: Vec<Vec<u8>>, base_file_name: Option<String>) -> (r: Result<
        Arc<Package>,
        ArpError,
    >)
        ensures
            loaded_package_matches(r, volumes@, base_file_name, false),
    {
        Self::load_impl(volumes, base_file_name, false)
    }

    /// Builds a package from one in-memory buffer; the buffer must be a
    /// whole, single-part package. Succeeds exactly on well-formed buffers,
    /// as `spec_load_stage` and `spec_resolve_dirs_err` say.
    pub fn load_from_memory(data: Vec<u8>) -> (r: Result<Arc<Package>, ArpError>)
        ensures
            loaded_package_matches(r, seq![data], None, true),
    {
        let mut volumes: Vec<Vec<u8>> = Vec::new();
        proof {
            assert(volumes@.push(data) =~= seq![data]);
        }
        volumes.push(data);
        Self::load_impl(volumes, None, true)
    }

    /// The shared loading path behind the file-set and in-memory entries.
    #[verifier::loop_isolation(false)]
    #[verifier::rlimit(100)]
    fn load_impl(volumes: Vec<Vec<u8>>, base_file_name: Option<String>, in_memory: bool) -> (r:
        Result<Arc<Package>, ArpError>)
        ensures
            loaded_package_matches(r, volumes@, base_file_name, in_memory),
    {
        if volumes.len() == 0 {
            return Err(ArpError::TruncatedPackage);
        }
        let first = &volumes[0];
        let meta = match load_header_from(first.as_slice()) {
            Ok(m) => m,
            Err(e) => {
                return Err(e);
            },
        };
        let ghost h = meta@;
        if in_memory && meta.total_parts > 1 {
            return Err(ArpError::InMemoryMultiPart);
        }
        match validate_package_meta(&meta) {
            Ok(()) => {},
            Err(e) => {
                return Err(e);
            },
        }
        let flen = first.len();
        if meta.cat_off > flen as u64 || meta.cat_len > flen as u64 - meta.cat_off {
            return Err(ArpError::TruncatedPackage);
        }
        let cat_start = meta.cat_off as usize;
        let cat_end = (meta.cat_off + meta.cat_len) as usize;
        let descs = match parse_catalogue(
            slice_subrange(first.as_slice(), cat_start, cat_end),
            meta.node_count,
        ) {
            Ok(d) => d,
            Err(e) => {
                return Err(e);
            },
        };
        let ghost models = descs_models(descs@);
        proof {
            assert(spec_load_stage(volumes@, in_memory) == Ok::<
                (HeaderModel, Seq<NodeDescModel>),
                ArpError,
            >((h, models)));
        }
        let mut nodes: Vec<CatalogueNode> = Vec::new();
        let mut k: usize = 0;
        while k < descs.len()
            invariant
                k <= descs@.len(),
                nodes@.len() == k,
                forall|j: int|
                    0 <= j < k ==> catnode_matches_desc(#[trigger] nodes@[j], models[j], j)
                        && catnode_children_empty(nodes@[j]),
            decreases descs@.len() - k,
        {
            let d = &descs[k];
            match d.kind {
                NodeKind::Directory => {
                    nodes.push(
                        CatalogueNode::Directory(
                            DirectoryNode {
                                index: k as u32,
                                name: d.name.clone(),
                                data_part: d.part,
                                data_off: d.data_off,
                                data_len: d.packed_len,
                                children: Vec::new(),
                            },
                        ),
                    );
                },
                NodeKind::Resource => {
                    let media_type = if d.media_type.as_str().is_empty() {
                        crate::pack::default_media_type()
                    } else {
                        d.media_type.clone()
                    };
                    nodes.push(
                        CatalogueNode::Resource(
                            ResourceNode {
                                index: k as u32,
                                name: d.name.clone(),
                                ext: d.ext.clone(),
                                media_type,
                                data_part: d.part,
                                data_off: d.data_off,
                                data_len_packed: d.packed_len,
                                data_len_unpacked: d.unpacked_len,
                                crc: d.crc,
                            },
                        ),
                    );
                },
            }
            k += 1;
        }
        // Resolve every directory's raw child-index payload against the
        // full node table.
        let node_count = nodes.len();
        let mut k2: usize = 0;
        while k2 < node_count
            invariant
                node_count == nodes@.len(),
                node_count == models.len(),
                k2 <= node_count,
                forall|k: int|
                    0 <= k < node_count ==> catnode_matches_desc(
                        #[trigger] nodes@[k],
                        models[k],
                        k,
                    ),
                forall|k: int|
                    #![trigger nodes@[k]]
                    0 <= k < k2 ==> children_resolved(nodes@, volumes@, h, models, k),
                forall|k: int| 0 <= k < k2 ==> wf_catnode(nodes@, #[trigger] nodes@[k]),
                forall|k: int|
                    k2 <= k < node_count ==> catnode_children_empty(#[trigger] nodes@[k]),
                spec_resolve_dirs_err(volumes@, h, models, 0) == spec_resolve_dirs_err(
                    volumes@,
                    h,
                    models,
                    k2 as int,
                ),
            decreases node_count - k2,
        {
            let (part, off, len, dname) = match &nodes[k2] {
                CatalogueNode::Directory(d) => (d.data_part, d.data_off, d.data_len, d.name.clone()),
                CatalogueNode::Resource(_) => {
                    k2 += 1;
                    continue ;
                },
            };
            if part < 1 || part as usize > volumes.len() {
                return Err(ArpError::TruncatedPackage);
            }
            let vol = &volumes[part as usize - 1];
            let base: u64 = if part == 1 {
                meta.body_off
            } else {
                crate::layout::PACKAGE_PART_HEADER_LEN as u64
            };
            let vlen = vol.len() as u64;
            if base > vlen || off > vlen - base || len > vlen - base - off {
                return Err(ArpError::TruncatedPackage);
            }
            let start = (base + off) as usize;
            let end = (base + off + len) as usize;
            let ghost region = spec_dir_region(volumes@, h, models[k2 as int]);
            proof {
                assert(vol@.subrange(start as int, end as int) == region);
            }
            let child_indices = match parse_index_list(
                slice_subrange(vol.as_slice(), start, end),
            ) {
                Ok(v) => v,
                Err(e) => {
                    return Err(e);
                },
            };
            let ghost idxs = crate::layout::spec_parse_index_list(region);
            let mut children: Vec<(String, u32)> = Vec::new();
            let mut ci: usize = 0;
            while ci < child_indices.len()
                invariant
                    ci <= child_indices@.len(),
                    child_indices@ == idxs,
                    children@.len() == ci,
                    forall|j: int|
                        0 <= j < ci ==> (#[trigger] child_indices@[j]) < node_count,
                    forall|j: int|
                        0 <= j < ci ==> {
                            let (name, cidx) = #[trigger] children@[j];
                            &&& cidx == child_indices@[j]
                            &&& cidx < nodes@.len()
                            &&& name@ == spec_catnode_name(nodes@[cidx as int])
                        },
                decreases child_indices@.len() - ci,
            {
                let cidx = child_indices[ci];
                if cidx as usize >= node_count {
                    proof {
                        assert(idxs[ci as int] >= models.len());
                    }
                    return Err(ArpError::UnknownChildIndex);
                }
                let child_name = catnode_lookup_name(&nodes[cidx as usize]);
                children.push((child_name, cidx));
                ci += 1;
            }
            proof {
                assert(!(exists|j: int|
                    0 <= j < idxs.len() && (#[trigger] idxs[j]) >= models.len()));
            }
            let ghost old_nodes = nodes@;
            nodes.set(
                k2,
                CatalogueNode::Directory(
                    DirectoryNode {
                        index: k2 as u32,
                        name: dname,
                        data_part: part,
                        data_off: off,
                        data_len: len,
                        children,
                    },
                ),
            );
            proof {
                assert(spec_catnode_name(nodes@[k2 as int]) == spec_catnode_name(
                    old_nodes[k2 as int],
                ));
                assert(forall|x: int|
                    0 <= x < node_count ==> spec_catnode_name(#[trigger] nodes@[x])
                        == spec_catnode_name(old_nodes[x]));
                assert(children_resolved(nodes@, volumes@, h, models, k2 as int));
                assert forall|k: int| #![trigger nodes@[k]] 0 <= k < k2 implies
                    children_resolved(nodes@, volumes@, h, models, k) by {
                    assert(old_nodes[k] == old_nodes[k]);
                    assert(children_resolved(old_nodes, volumes@, h, models, k));
                    assert(nodes@[k] == old_nodes[k]);
                }
                assert forall|k: int| 0 <= k < k2 + 1 implies wf_catnode(
                    nodes@,
                    #[trigger] nodes@[k],
                ) by {
                    if k < k2 {
                        assert(wf_catnode(old_nodes, old_nodes[k]));
                        assert(nodes@[k] == old_nodes[k]);
                    } else {
                        assert(children_resolved(nodes@, volumes@, h, models, k2 as int));
                    }
                }
            }
            k2 += 1;
        }
        proof {
            assert(spec_resolve_dirs_err(volumes@, h, models, 0) is None);
        }
        Ok(
            Arc::new(
                Package {
                    meta,
                    catalogue: LoadedCatalogue { nodes },
                    base_file_name,
                    volumes,
                    in_memory,
                },
            ),
        )
    }

    /// Finds the resource an identifier names: the namespace must match the
    /// package's, then the path components walk the directory tree from the
    /// root; exactly when the walk ends at a resource node, a descriptor of
    /// it is returned.
    pub fn find_resource(self: &Arc<Package>, uid: &ResourceIdentifier) -> (r: Result<
        crate::resource::ResourceDescriptor,
        ArpError,
    >)
        requires
            uid.components@.len() >= 1,
        ensures
            uid.namespace@ != self.meta.namespace@ ==> r == Err::<
                crate::resource::ResourceDescriptor,
                ArpError,
            >(ArpError::NamespaceMismatch),
            uid.namespace@ == self.meta.namespace@ ==> match r {
                Ok(d) => {
                    let nodes = self.catalogue.nodes@;
                    &&& spec_resolve(nodes, 0, uid.components.deep_view(), 0) == Some(
                        d.index as int,
                    )
                    &&& d.index < nodes.len()
                    &&& nodes[d.index as int] matches CatalogueNode::Resource(rn)
                    &&& d.name@ == rn.name@
                    &&& d.extension@ == rn.ext@
                    &&& d.media_type@ == rn.media_type@
                    &&& d.size == rn.data_len_unpacked
                    &&& d.package == *self
                    &&& d.identifier.namespace@ == uid.namespace@
                    &&& d.identifier.components.deep_view() == uid.components.deep_view()
                },
                Err(e) => {
                    let nodes = self.catalogue.nodes@;
                    &&& e == ArpError::ResourceNotFound
                    &&& match spec_resolve(nodes, 0, uid.components.deep_view(), 0) {
                        Some(ri) => !(nodes[ri] is Resource),
                        None => true,
                    }
                },
            },
    {
        if !str_eq(self.meta.namespace.as_str(), uid.namespace.as_str()) {
            return Err(ArpError::NamespaceMismatch);
        }
        let ghost comps = uid.components.deep_view();
        let nodes = &self.catalogue.nodes;
        let mut cur: usize = 0;
        let mut i: usize = 0;
        let comp_count = uid.components.len();
        loop
            invariant
                comps == uid.components.deep_view(),
                comp_count == comps.len(),
                comp_count >= 1,
                0 <= i < comp_count,
                nodes@ == self.catalogue.nodes@,
                uid.namespace@ == self.meta.namespace@,
                spec_resolve(nodes@, 0, comps, 0) == spec_resolve(nodes@, cur as int, comps, i as int),
            decreases comp_count - i,
        {
            if cur >= nodes.len() {
                return Err(ArpError::ResourceNotFound);
            }
            let children = match &nodes[cur] {
                CatalogueNode::Directory(d) => &d.children,
                CatalogueNode::Resource(_) => {
                    return Err(ArpError::ResourceNotFound);
                },
            };
            proof {
                assert(comps[i as int] == uid.components@[i as int]@);
            }
            let next = match child_lookup(children, uid.components[i].as_str()) {
                Some(ci) => ci,
                None => {
                    return Err(ArpError::ResourceNotFound);
                },
            };
            if i == comp_count - 1 {
                if next as usize >= nodes.len() {
                    return Err(ArpError::ResourceNotFound);
                }
                let rn = match &nodes[next as usize] {
                    CatalogueNode::Resource(rn) => rn,
                    CatalogueNode::Directory(_) => {
                        return Err(ArpError::ResourceNotFound);
                    },
                };
                return Ok(
                    crate::resource::ResourceDescriptor {
                        package: arc_clone(self),
                        identifier: uid.clone(),
                        name: rn.name.clone(),
                        extension: rn.ext.clone(),
                        media_type: rn.media_type.clone(),
                        size: rn.data_len_unpacked,
                        index: next,
                    },
                );
            }
            cur = next as usize;
            i += 1;
        }
    }

    /// Walks the whole directory tree from the root and yields exactly one
    /// descriptor per resource node reachable from the root through the
    /// children maps, under an identifier joining the child names along a
    /// walk that reaches it; unreachable nodes are silently skipped.
    #[verifier::loop_isolation(false)]
    #[verifier::rlimit(100)]
    pub fn get_all_resource_descriptors(self: &Arc<Package>) -> (r: Vec<
        crate::resource::ResourceDescriptor,
    >)
        ensures
            forall|k: int|
                0 <= k < r@.len() ==> {
                    let d = #[trigger] r@[k];
                    &&& d.index < self.catalogue.nodes@.len()
                    &&& self.catalogue.nodes@[d.index as int] is Resource
                    &&& d.package == *self
                    &&& d.identifier.namespace@ == self.meta.namespace@
                    &&& d.identifier.components@.len() >= 1
                    &&& descriptor_matches_node(self.catalogue.nodes@, d)
                    &&& descriptor_on_walk(self.catalogue.nodes@, d)
                    &&& spec_node_reachable(self.catalogue.nodes@, d.index as int)
                },
            forall|k1: int, k2: int|
                0 <= k1 < k2 < r@.len() ==> (#[trigger] r@[k1]).index != (#[trigger] r@[k2]).index,
            self.catalogue.nodes@.len() >= 1 && self.catalogue.nodes@[0] is Directory
                ==> forall|x: int|
                0 <= x < self.catalogue.nodes@.len() && self.catalogue.nodes@[x] is Resource
                    && #[trigger] spec_node_reachable(self.catalogue.nodes@, x)
                    ==> resource_listed(r@, x),
    {
        let nodes = &self.catalogue.nodes;
        let ghost nv = self.catalogue.nodes@;
        let n = nodes.len();
        let mut visited: Vec<bool> = Vec::new();
        let mut i: usize = 0;
        while i < n
            invariant
                i <= n,
                visited@.len() == i,
                forall|k: int| 0 <= k < i ==> !(#[trigger] visited@[k]),
            decreases n - i,
        {
            visited.push(false);
            i += 1;
        }
        let mut results: Vec<crate::resource::ResourceDescriptor> = Vec::new();
        let mut stack: Vec<(u32, Vec<String>, Ghost<Seq<int>>)> = Vec::new();
        if n == 0 {
            return results;
        }
        match &nodes[0] {
            CatalogueNode::Directory(_) => {},
            CatalogueNode::Resource(_) => {
                return results;
            },
        }
        proof {
            crate::pack::lemma_count_trues_all_false(visited@);
            crate::pack::lemma_count_trues_set(visited@, 0);
            crate::pack::lemma_count_trues_le(visited@.update(0, true));
        }
        visited.set(0, true);
        stack.push((0, Vec::new(), Ghost(Seq::empty())));
        proof {
            assert(spec_walk(nv, 0, Seq::empty()) == Some(0int));
            assert(stack@[0].1.deep_view() =~= spec_walk_names(nv, 0, Seq::empty()));
            assert(stack_holds(stack@, 0)) by {
                assert((stack@[0].0 as int) == 0int);
            }
        }
        loop
            invariant
                n == nv.len(),
                visited@.len() == n,
                nv[0] is Directory,
                n >= 1,
                visited@[0],
                stack@.len() <= crate::pack::count_trues(visited@),
                crate::pack::count_trues(visited@) <= n,
                forall|k: int|
                    0 <= k < stack@.len() ==> {
                        let e = #[trigger] stack@[k];
                        &&& (e.0 as int) < n
                        &&& nv[e.0 as int] is Directory
                        &&& visited@[e.0 as int]
                        &&& spec_walk(nv, 0, e.2@) == Some(e.0 as int)
                        &&& e.1.deep_view() == spec_walk_names(nv, 0, e.2@)
                    },
                forall|k: int|
                    0 <= k < results@.len() ==> {
                        let d = #[trigger] results@[k];
                        &&& d.index < n
                        &&& nv[d.index as int] is Resource
                        &&& d.package == *self
                        &&& d.identifier.namespace@ == self.meta.namespace@
                        &&& d.identifier.components@.len() >= 1
                        &&& descriptor_matches_node(nv, d)
                        &&& descriptor_on_walk(nv, d)
                        &&& spec_node_reachable(nv, d.index as int)
                        &&& visited@[d.index as int]
                    },
                forall|k1: int, k2: int|
                    0 <= k1 < k2 < results@.len() ==> (#[trigger] results@[k1]).index != (
                    #[trigger] results@[k2]).index,
                forall|x: int|
                    0 <= x < n && #[trigger] visited@[x] && nv[x] is Directory ==> stack_holds(
                        stack@,
                        x,
                    ) || dir_children_visited(nv, visited@, x),
                forall|x: int|
                    0 <= x < n && #[trigger] visited@[x] && nv[x] is Resource ==> resource_listed(
                        results@,
                        x,
                    ),
            decreases n - crate::pack::count_trues(visited@) + stack@.len(),
        {
            let ghost pre_stack = stack@;
            let (dir_idx, path, gpath) = match stack.pop() {
                Some(p) => p,
                None => {
                    break ;
                },
            };
            proof {
                assert(pre_stack[pre_stack.len() - 1].0 == dir_idx);
            }
            let children = match &nodes[dir_idx as usize] {
                CatalogueNode::Directory(d) => &d.children,
                CatalogueNode::Resource(_) => {
                    proof {
                        assert(nv[dir_idx as int] is Directory);
                    }
                    continue ;
                },
            };
            let ccount = children.len();
            let ghost diff0 = crate::pack::count_trues(visited@) - stack@.len();
            proof {
                assert forall|x: int|
                    0 <= x < n && #[trigger] visited@[x] && nv[x] is Directory && x
                        != dir_idx as int implies stack_holds(stack@, x) || dir_children_visited(
                    nv,
                    visited@,
                    x,
                ) by {
                    if stack_holds(pre_stack, x) {
                        let k = choose|k: int|
                            0 <= k < pre_stack.len() && ((#[trigger] pre_stack[k]).0 as int) == x;
                        assert(k < pre_stack.len() - 1);
                        assert((stack@[k].0 as int) == x);
                    }
                }
            }
            let mut j: usize = 0;
            while j < ccount
                invariant
                    dir_idx < n,
                    n >= 1,
                    visited@[0],
                    nv[dir_idx as int] is Directory,
                    ccount == nv[dir_idx as int]->Directory_0.children@.len(),
                    children == &nv[dir_idx as int]->Directory_0.children,
                    j <= ccount,
                    visited@.len() == n,
                    visited@[dir_idx as int],
                    spec_walk(nv, 0, gpath@) == Some(dir_idx as int),
                    path.deep_view() == spec_walk_names(nv, 0, gpath@),
                    stack@.len() <= crate::pack::count_trues(visited@),
                    crate::pack::count_trues(visited@) <= n,
                    crate::pack::count_trues(visited@) - stack@.len() >= diff0,
                    forall|k: int|
                        0 <= k < stack@.len() ==> {
                            let e = #[trigger] stack@[k];
                            &&& (e.0 as int) < n
                            &&& nv[e.0 as int] is Directory
                            &&& visited@[e.0 as int]
                            &&& spec_walk(nv, 0, e.2@) == Some(e.0 as int)
                            &&& e.1.deep_view() == spec_walk_names(nv, 0, e.2@)
                        },
                    forall|k: int|
                        0 <= k < results@.len() ==> {
                            let d = #[trigger] results@[k];
                            &&& d.index < n
                            &&& nv[d.index as int] is Resource
                            &&& d.package == *self
                            &&& d.identifier.namespace@ == self.meta.namespace@
                            &&& d.identifier.components@.len() >= 1
                            &&& descriptor_matches_node(nv, d)
                            &&& descriptor_on_walk(nv, d)
                            &&& spec_node_reachable(nv, d.index as int)
                            &&& visited@[d.index as int]
                        },
                    forall|k1: int, k2: int|
                        0 <= k1 < k2 < results@.len() ==> (#[trigger] results@[k1]).index != (
                        #[trigger] results@[k2]).index,
                    forall|x: int|
                        0 <= x < n && #[trigger] visited@[x] && nv[x] is Directory && x
                            != dir_idx as int ==> stack_holds(stack@, x) || dir_children_visited(
                            nv,
                            visited@,
                            x,
                        ),
                    forall|jj: int|
                        0 <= jj < j && ((#[trigger] nv[dir_idx as int]->Directory_0.children@[jj]).1
                            as int) < n ==> visited@[nv[dir_idx as int]->Directory_0.children@[jj].1
                            as int],
                    forall|x: int|
                        0 <= x < n && #[trigger] visited@[x] && nv[x] is Resource
                            ==> resource_listed(results@, x),
                decreases ccount - j,
            {
                let (child_name, child_idx) = {
                    let e = &children[j];
                    (e.0.clone(), e.1)
                };
                if (child_idx as usize) < n && !visited[child_idx as usize] {
                    proof {
                        crate::pack::lemma_count_trues_set(visited@, child_idx as int);
                        crate::pack::lemma_count_trues_le(
                            visited@.update(child_idx as int, true),
                        );
                        lemma_walk_snoc(nv, 0, gpath@, dir_idx as int, j as int);
                    }
                    let ghost old_visited = visited@;
                    let ghost old_stack = stack@;
                    let ghost old_results = results@;
                    visited.set(child_idx as usize, true);
                    let mut child_path = clone_string_vec(&path);
                    child_path.push(child_name);
                    proof {
                        assert(child_path.deep_view() =~= spec_walk_names(
                            nv,
                            0,
                            gpath@.push(j as int),
                        ));
                    }
                    match &nodes[child_idx as usize] {
                        CatalogueNode::Directory(_) => {
                            stack.push((child_idx, child_path, Ghost(gpath@.push(j as int))));
                            proof {
                                assert(stack_holds(stack@, child_idx as int)) by {
                                    assert((stack@[stack@.len() - 1].0 as int)
                                        == child_idx as int);
                                }
                            }
                        },
                        CatalogueNode::Resource(rn) => {
                            results.push(
                                crate::resource::ResourceDescriptor {
                                    package: arc_clone(self),
                                    identifier: ResourceIdentifier::new(
                                        self.meta.namespace.clone(),
                                        child_path,
                                    ),
                                    name: rn.name.clone(),
                                    extension: rn.ext.clone(),
                                    media_type: rn.media_type.clone(),
                                    size: rn.data_len_unpacked,
                                    index: child_idx,
                                },
                            );
                            proof {
                                let d = results@[results@.len() - 1];
                                assert(spec_walk(nv, 0, gpath@.push(j as int)) == Some(
                                    d.index as int,
                                ));
                                assert(descriptor_on_walk(nv, d));
                                assert(spec_node_reachable(nv, d.index as int));
                                assert(resource_listed(results@, child_idx as int)) by {
                                    assert((results@[results@.len() - 1].index as int)
                                        == child_idx as int);
                                }
                            }
                        },
                    }
                    proof {
                        assert forall|k: int| 0 <= k < stack@.len() implies {
                            let e = #[trigger] stack@[k];
                            &&& (e.0 as int) < n
                            &&& nv[e.0 as int] is Directory
                            &&& visited@[e.0 as int]
                            &&& spec_walk(nv, 0, e.2@) == Some(e.0 as int)
                            &&& e.1.deep_view() == spec_walk_names(nv, 0, e.2@)
                        } by {
                            if k < old_stack.len() {
                                assert(stack@[k] == old_stack[k]);
                            }
                        }
                        assert forall|x: int|
                            0 <= x < n && #[trigger] visited@[x] && nv[x] is Directory && x
                                != dir_idx as int implies stack_holds(stack@, x)
                            || dir_children_visited(nv, visited@, x) by {
                            if x == child_idx as int {
                                assert(stack_holds(stack@, x));
                            } else {
                                assert(old_visited[x]);
                                if stack_holds(old_stack, x) {
                                    let k = choose|k: int|
                                        0 <= k < old_stack.len() && ((
                                        #[trigger] old_stack[k]).0 as int) == x;
                                    assert((stack@[k].0 as int) == x);
                                    assert(stack_holds(stack@, x));
                                } else {
                                    assert(dir_children_visited(nv, old_visited, x));
                                    assert(dir_children_visited(nv, visited@, x)) by {
                                        match nv[x] {
                                            CatalogueNode::Directory(dd) => {
                                                assert(forall|q: int|
                                                    0 <= q < dd.children@.len() && ((
                                                    #[trigger] dd.children@[q]).1 as int) < n
                                                        ==> old_visited[dd.children@[q].1 as int]);
                                            },
                                            CatalogueNode::Resource(_) => {},
                                        }
                                    }
                                }
                            }
                        }
                        assert forall|x: int|
                            0 <= x < n && #[trigger] visited@[x] && nv[x] is Resource implies
                            resource_listed(results@, x) by {
                            if x == child_idx as int {
                            } else {
                                assert(old_visited[x]);
                                assert(resource_listed(old_results, x));
                                let k = choose|k: int|
                                    0 <= k < old_results.len() && ((
                                    #[trigger] old_results[k]).index as int) == x;
                                assert((results@[k].index as int) == x);
                            }
                        }
                    }
                }
                j += 1;
            }
            proof {
                assert(dir_children_visited(nv, visited@, dir_idx as int)) by {
                    match nv[dir_idx as int] {
                        CatalogueNode::Directory(dd) => {},
                        CatalogueNode::Resource(_) => {},
                    }
                }
            }
        }
        proof {
            assert forall|x: int|
                0 <= x < n && nv[x] is Resource && #[trigger] spec_node_reachable(nv, x) implies
                resource_listed(results@, x) by {
                let path = choose|path: Seq<int>| (#[trigger] spec_walk(nv, 0, path)) == Some(x);
                lemma_walk_visited(nv, visited@, 0, path, x);
            }
        }
        results
    }
}

/// Clones a vector of strings, keeping every element's characters.
pub fn clone_string_vec(v: &Vec<String>) -> (r: Vec<String>)
    ensures
        r.deep_view() == v.deep_view(),
{
    let mut out: Vec<String> = Vec::new();
    let mut k: usize = 0;
    while k < v.len()
        invariant
            k <= v@.len(),
            out@.len() == k,
            forall|j: int| 0 <= j < k ==> #[trigger] out@[j]@ == v@[j]@,
        decreases v@.len() - k,
    {
        let s = &v[k];
        out.push(s.clone());
        k += 1;
    }
    proof {
        assert(out.deep_view() =~= v.deep_view());
    }
    out
}

} // verus!
