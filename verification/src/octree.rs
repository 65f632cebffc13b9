//! The index of stored nodes: which nodes hold points, and how many.

use vstd::prelude::*;
use vstd::slice::slice_subrange;
use crate::blob::{
    batch_ok, blob_bytes, blob_fits, blob_points, encode_node, find_points, points_of, request_points,
    request_record, NodePoints, NodesToBlob, Point,
};
use crate::node_id::{is_name, path_of, valid_path, ChildIndex, NodeId};
use crate::visibility::{
    distinct_ids, find_projection, is_large_enough, large_enough, lemma_distinct_ids_reordered,
    lemma_same_elements, level_of_detail, listed,
    projection_of, sort_by_area, sorted_by_area, stride_for, Projection, UseLod, VisibleNode,
};

verus! {

/// The only format version that the loader accepts.
pub const CURRENT_VERSION: i32 = 6;

/// The version reported for an index that still carries the legacy marker.
pub const LEGACY_VERSION: i32 = 3;

/// Bytes that one point takes in a node's file: three 32-bit coordinates.
pub const BYTES_PER_STORED_POINT: u64 = 12;

/// Why loading or serializing failed.
#[derive(Clone, Copy, Debug, PartialEq, Eq)]
pub enum Error {
    /// The index has a format version other than the current one.
    InvalidVersion(i32),
    /// The metadata descriptor could not be read or parsed.
    Metadata,
    /// The points of a requested node could not be read.
    NodeRead,
}

/// An axis-aligned cube: its lower corner and its edge length, each a
/// 32-bit IEEE-754 bit pattern.
#[derive(Clone, Copy, Debug, PartialEq, Eq)]
pub struct BoundingCube {
    pub min_x: u32,
    pub min_y: u32,
    pub min_z: u32,
    pub edge_length: u32,
}

/// What the metadata descriptor holds.
#[derive(Clone, Copy, Debug, PartialEq, Eq)]
pub struct Meta {
    pub version: i32,
    pub bounding_cube: BoundingCube,
}

/// A regular file found below the index directory: its name without the
/// directories, and its length in bytes.
#[derive(Debug)]
pub struct NodeFile {
    pub name: Vec<u8>,
    pub num_bytes: u64,
}

/// The extension of a node's file: `.xyz`.
pub open spec fn node_file_extension() -> Seq<u8> {
    seq![46u8, 120u8, 121u8, 122u8]
}

/// Whether a file name is a node's canonical name followed by the extension.
pub open spec fn is_node_file_name(name: Seq<u8>) -> bool {
    &&& name.len() >= 4
    &&& name.subrange(name.len() - 4, name.len() as int) == node_file_extension()
    &&& is_name(name.subrange(0, name.len() - 4))
}

/// The path of the node that a node file's name stands for.
pub open spec fn node_file_path(name: Seq<u8>) -> Seq<u8> {
    path_of(name.subrange(0, name.len() - 4))
}

/// The mapping that a scan yields: every node file contributes its node
/// with the file's length divided by the size of a stored point; of two
/// files for one node the later counts.
pub open spec fn scanned(files: Seq<NodeFile>) -> Map<Seq<u8>, u64>
    decreases files.len(),
{
    if files.len() == 0 {
        Map::empty()
    } else {
        let rest = scanned(files.drop_last());
        let file = files.last();
        if is_node_file_name(file.name@) {
            rest.insert(node_file_path(file.name@), file.num_bytes / BYTES_PER_STORED_POINT)
        } else {
            rest
        }
    }
}

/// Reads a node file's name; `None` where the name is of another kind.
pub fn node_file_id(name: &[u8]) -> (r: Option<NodeId>)
    ensures
        r is Some <==> is_node_file_name(name@),
        r matches Some(id) ==> id@ == node_file_path(name@),
{
    let n: usize = name.len();
    if n < 4 {
        return None;
    }
    if name[n - 4] != 46u8 || name[n - 3] != 120u8 || name[n - 2] != 121u8 || name[n - 1]
        != 122u8 {
        proof {
            let tail = name@.subrange(n - 4, n as int);
            assert(tail[0] == name@[n - 4]);
            assert(tail[1] == name@[n - 3]);
            assert(tail[2] == name@[n - 2]);
            assert(tail[3] == name@[n - 1]);
        }
        return None;
    }
    assert(name@.subrange(n - 4, n as int) =~= node_file_extension());
    NodeId::from_bytes(slice_subrange(name, 0, n - 4))
}

#[derive(Debug)]
struct IndexEntry {
    id: NodeId,
    num_points: u64,
}

spec fn entries_map(entries: Seq<IndexEntry>) -> Map<Seq<u8>, u64>
    decreases entries.len(),
{
    if entries.len() == 0 {
        Map::empty()
    } else {
        entries_map(entries.drop_last()).insert(entries.last().id@, entries.last().num_points)
    }
}

proof fn lemma_entries_map_holds(entries: Seq<IndexEntry>, j: int)
    requires
        0 <= j < entries.len(),
    ensures
        entries_map(entries).contains_key(entries[j].id@),
    decreases entries.len(),
{
    if j < entries.len() - 1 {
        lemma_entries_map_holds(entries.drop_last(), j);
    }
}

proof fn lemma_entries_map_key(entries: Seq<IndexEntry>, id: Seq<u8>)
    requires
        entries_map(entries).contains_key(id),
    ensures
        exists|j: int| 0 <= j < entries.len() && (#[trigger] entries[j]).id@ == id,
    decreases entries.len(),
{
    if entries.len() > 0 {
        if entries.last().id@ == id {
            assert(entries[entries.len() - 1].id@ == id);
        } else {
            lemma_entries_map_key(entries.drop_last(), id);
            let j = choose|j: int|
                0 <= j < entries.drop_last().len() && (#[trigger] entries.drop_last()[j]).id@
                    == id;
            assert(entries[j].id@ == id);
        }
    }
}

spec fn pow9(k: nat) -> nat
    decreases k,
{
    if k == 0 {
        1
    } else {
        9 * pow9((k - 1) as nat)
    }
}

proof fn lemma_pow9_positive(k: nat)
    ensures
        pow9(k) >= 1,
    decreases k,
{
    if k > 0 {
        lemma_pow9_positive((k - 1) as nat);
    }
}

/// What is left to explore below the nodes on the stack, in a tree that
/// holds no data below `depth`.
spec fn stack_weight(stack: Seq<NodeId>, depth: int) -> nat
    decreases stack.len(),
{
    if stack.len() == 0 {
        0
    } else {
        stack_weight(stack.drop_last(), depth) + pow9((depth + 1 - stack.last()@.len()) as nat)
    }
}

/// Whether `a` is `b` or lies above it in the tree.
spec fn above(a: Seq<u8>, b: Seq<u8>) -> bool {
    a.len() <= b.len() && b.subrange(0, a.len() as int) == a
}

proof fn lemma_above_parent(a: Seq<u8>, octant: u8, b: Seq<u8>)
    requires
        above(a.push(octant), b),
    ensures
        above(a, b),
{
    assert(b.subrange(0, a.len() as int) =~= a.push(octant).subrange(0, a.len() as int));
    assert(a.push(octant).subrange(0, a.len() as int) =~= a);
}

proof fn lemma_above_child(a: Seq<u8>, b: Seq<u8>, octant: u8)
    requires
        above(a, b.push(octant)),
    ensures
        above(a, b) || a == b.push(octant),
{
    if a.len() <= b.len() {
        assert(b.subrange(0, a.len() as int) =~= b.push(octant).subrange(0, a.len() as int));
    } else {
        assert(b.push(octant).subrange(0, a.len() as int) =~= b.push(octant));
    }
}

/// Whether the stack holds `id` or one of its ancestors.
spec fn on_stack(stack: Seq<NodeId>, id: Seq<u8>) -> bool {
    exists|j: int, k: int|
        #![trigger stack[j], id.subrange(0, k)]
        0 <= j < stack.len() && 0 <= k <= id.len() && stack[j]@ == id.subrange(0, k)
}

/// The catalog of an index: the bounding cube of the root and, for every
/// node that has stored points, their number. It does not change once
/// loaded.
#[derive(Debug)]
pub struct Octree {
    entries: Vec<IndexEntry>,
    bounding_cube: BoundingCube,
}

impl Octree {
    /// The mapping from a node's path to the number of its stored points.
    pub closed spec fn nodes(&self) -> Map<Seq<u8>, u64> {
        entries_map(self.entries@)
    }

    /// The bounding cube of the root.
    pub closed spec fn cube(&self) -> BoundingCube {
        self.bounding_cube
    }

    /// Whether the points of a request can be had: the index knows the node
    /// and `store` holds its points.
    pub open spec fn readable(&self, request: NodesToBlob, store: Seq<NodePoints>) -> bool {
        self.nodes().contains_key(request.id@) && points_of(store, request.id@) is Some
    }

    /// Builds the index from what was found in its directory: whether the
    /// legacy marker is there, the metadata descriptor if it could be read
    /// and parsed, and the regular files below the directory.
    pub fn new(legacy_marker: bool, meta: Option<Meta>, files: &[NodeFile]) -> (r: Result<
        Octree,
        Error,
    >)
        ensures
            legacy_marker ==> r is Err && r->Err_0 == Error::InvalidVersion(LEGACY_VERSION),
            !legacy_marker && meta is None ==> r is Err && r->Err_0 == Error::Metadata,
            !legacy_marker && meta is Some && meta->Some_0.version != CURRENT_VERSION ==> r is Err
                && r->Err_0 == Error::InvalidVersion(meta->Some_0.version),
            !legacy_marker && meta is Some && meta->Some_0.version == CURRENT_VERSION ==> r is Ok
                && r->Ok_0.nodes() == scanned(files@) && r->Ok_0.cube()
                == meta->Some_0.bounding_cube,
    {
        if legacy_marker {
            return Err(Error::InvalidVersion(LEGACY_VERSION));
        }
        let meta: Meta = match meta {
            Some(meta) => meta,
            None => {
                return Err(Error::Metadata);
            },
        };
        if meta.version != CURRENT_VERSION {
            return Err(Error::InvalidVersion(meta.version));
        }
        let mut entries: Vec<IndexEntry> = Vec::new();
        let mut i: usize = 0;
        while i < files.len()
            invariant
                i <= files@.len(),
                entries_map(entries@) == scanned(files@.subrange(0, i as int)),
            decreases files@.len() - i,
        {
            let file: &NodeFile = &files[i];
            assert(files@.subrange(0, i + 1).drop_last() =~= files@.subrange(0, i as int));
            assert(files@.subrange(0, i + 1).last() == files@[i as int]);
            match node_file_id(file.name.as_slice()) {
                Some(id) => {
                    let ghost before = entries@;
                    entries.push(IndexEntry { id, num_points: file.num_bytes / BYTES_PER_STORED_POINT });
                    assert(entries@.drop_last() =~= before);
                },
                None => {},
            }
            i += 1;
        }
        assert(files@.subrange(0, i as int) =~= files@);
        Ok(Octree { entries, bounding_cube: meta.bounding_cube })
    }

    /// The bounding cube of the root.
    pub fn bounding_cube(&self) -> (r: BoundingCube)
        ensures
            r == self.cube(),
    {
        self.bounding_cube
    }

    /// The number of points stored for a node, or `None` where the index
    /// holds no data for it.
    pub fn num_points(&self, id: &NodeId) -> (r: Option<u64>)
        ensures
            r is Some <==> self.nodes().contains_key(id@),
            r matches Some(n) ==> n == self.nodes()[id@],
    {
        let mut i: usize = self.entries.len();
        assert(self.entries@.subrange(0, i as int) =~= self.entries@);
        while i > 0
            invariant
                i <= self.entries@.len(),
                self.nodes().contains_key(id@) == entries_map(
                    self.entries@.subrange(0, i as int),
                ).contains_key(id@),
                self.nodes().contains_key(id@) ==> self.nodes()[id@] == entries_map(
                    self.entries@.subrange(0, i as int),
                )[id@],
            decreases i,
        {
            let ghost upto = self.entries@.subrange(0, i as int);
            assert(upto.drop_last() =~= self.entries@.subrange(0, i - 1));
            assert(upto.last() == self.entries@[i - 1]);
            i -= 1;
            if self.entries[i].id.equals(id) {
                return Some(self.entries[i].num_points);
            }
        }
        None
    }

    /// The nodes that the index holds data for.
    pub fn node_ids(&self) -> (r: Vec<NodeId>)
        ensures
            forall|i: int| 0 <= i < r@.len() ==> self.nodes().contains_key((#[trigger] r@[i])@),
            forall|id: Seq<u8>| #[trigger]
                self.nodes().contains_key(id) ==> exists|i: int|
                    0 <= i < r@.len() && (#[trigger] r@[i])@ == id,
    {
        let mut ids: Vec<NodeId> = Vec::new();
        let mut i: usize = 0;
        while i < self.entries.len()
            invariant
                i <= self.entries@.len(),
                ids@.len() == i,
                forall|j: int| 0 <= j < i ==> (#[trigger] ids@[j])@ == self.entries@[j].id@,
            decreases self.entries@.len() - i,
        {
            ids.push(self.entries[i].id.clone());
            i += 1;
        }
        proof {
            assert forall|j: int| 0 <= j < ids@.len() implies self.nodes().contains_key(
                (#[trigger] ids@[j])@,
            ) by {
                lemma_entries_map_holds(self.entries@, j);
            }
            assert forall|id: Seq<u8>| #[trigger] self.nodes().contains_key(id) implies exists|
                i: int,
            |
                0 <= i < ids@.len() && (#[trigger] ids@[i])@ == id by {
                lemma_entries_map_key(self.entries@, id);
                let j = choose|j: int|
                    0 <= j < self.entries@.len() && (#[trigger] self.entries@[j]).id@ == id;
                assert(ids@[j]@ == id);
            }
        }
        ids
    }

    /// The deepest level at which the index holds a node; 0 for an index
    /// without nodes.
    pub fn max_level(&self) -> (r: usize)
        ensures
            forall|id: Seq<u8>| #[trigger]
                self.nodes().contains_key(id) ==> id.len() <= r && valid_path(id),
            r == 0 || exists|id: Seq<u8>| #[trigger] self.nodes().contains_key(id) && id.len() == r,
    {
        let mut deepest: usize = 0;
        let mut i: usize = 0;
        while i < self.entries.len()
            invariant
                i <= self.entries@.len(),
                forall|j: int|
                    0 <= j < i ==> (#[trigger] self.entries@[j]).id@.len() <= deepest
                        && valid_path(self.entries@[j].id@),
                deepest == 0 || exists|j: int|
                    0 <= j < i && (#[trigger] self.entries@[j]).id@.len() == deepest,
            decreases self.entries@.len() - i,
        {
            let level: usize = self.entries[i].id.level();
            if level > deepest {
                deepest = level;
            }
            i += 1;
        }
        proof {
            assert forall|id: Seq<u8>| #[trigger] self.nodes().contains_key(id) implies id.len()
                <= deepest && valid_path(id) by {
                lemma_entries_map_key(self.entries@, id);
            }
            if deepest != 0 {
                let j = choose|j: int|
                    0 <= j < self.entries@.len() && (#[trigger] self.entries@[j]).id@.len()
                        == deepest;
                lemma_entries_map_holds(self.entries@, j);
                assert(self.nodes().contains_key(self.entries@[j].id@));
            }
        }
        deepest
    }

    /// Whether a node passes on its own: it has stored points, its cube
    /// meets the frustum, and its projection is large enough.
    pub open spec fn admitted(&self, in_frustum: Seq<Projection>, id: Seq<u8>) -> bool {
        &&& self.nodes().contains_key(id)
        &&& projection_of(in_frustum, id) is Some
        &&& large_enough(projection_of(in_frustum, id)->Some_0.0, projection_of(in_frustum, id)->Some_0.1)
    }

    /// Whether a node is visible: it passes on its own, and so does every
    /// node above it.
    pub open spec fn visible(&self, in_frustum: Seq<Projection>, id: Seq<u8>) -> bool
        decreases id.len(),
    {
        self.admitted(in_frustum, id) && (id.len() == 0 || self.visible(
            in_frustum,
            id.drop_last(),
        ))
    }

    /// Whether a record is the one owed for its node: the node is visible,
    /// the extent is the one measured, and the stride is the one chosen for
    /// the node's stored points and that extent.
    pub open spec fn describes(
        &self,
        in_frustum: Seq<Projection>,
        use_lod: UseLod,
        node: VisibleNode,
    ) -> bool {
        &&& self.visible(in_frustum, node.id@)
        &&& projection_of(in_frustum, node.id@) == Some((node.width, node.height))
        &&& node.level_of_detail == stride_for(
            use_lod,
            self.nodes()[node.id@],
            node.width,
            node.height,
        )
    }

    /// Above a visible node every node is visible: a node that was pruned
    /// has no visible node below it.
    pub proof fn lemma_visible_ancestors(&self, in_frustum: Seq<Projection>, id: Seq<u8>, k: int)
        requires
            self.visible(in_frustum, id),
            0 <= k <= id.len(),
        ensures
            self.visible(in_frustum, id.subrange(0, k)),
        decreases id.len(),
    {
        if k == id.len() {
            assert(id.subrange(0, k) =~= id);
        } else {
            self.lemma_visible_ancestors(in_frustum, id.drop_last(), k);
            assert(id.drop_last().subrange(0, k) =~= id.subrange(0, k));
        }
    }

    /// Looks a node up and measures it: the number of its stored points and
    /// its projected extent, where the node passes on its own.
    pub fn inspect(&self, in_frustum: &[Projection], id: &NodeId) -> (r: Option<(u64, u32, u32)>)
        ensures
            r is Some <==> self.admitted(in_frustum@, id@),
            r matches Some((n, width, height)) ==> n == self.nodes()[id@] && projection_of(
                in_frustum@,
                id@,
            ) == Some((width, height)),
    {
        let num_points: u64 = match self.num_points(id) {
            Some(n) => n,
            None => {
                return None;
            },
        };
        let (width, height): (u32, u32) = match find_projection(in_frustum, id) {
            Some(extent) => extent,
            None => {
                return None;
            },
        };
        if !is_large_enough(width, height) {
            return None;
        }
        Some((num_points, width, height))
    }

    /// What holds of a walk between two steps, with `open` the nodes still
    /// to explore and `visible` the nodes recorded so far: what is open
    /// lies below visible nodes only; every record is the one owed; a
    /// visible node is recorded, or it or a node above it is open; nothing
    /// is recorded twice; and no open node lies above a recorded node or
    /// another open one.
    spec fn walk_inv(
        &self,
        in_frustum: Seq<Projection>,
        use_lod: UseLod,
        open: Seq<NodeId>,
        visible: Seq<VisibleNode>,
    ) -> bool {
        &&& forall|j: int|
            0 <= j < open.len() ==> (#[trigger] open[j])@.len() == 0 || self.visible(
                in_frustum,
                open[j]@.drop_last(),
            )
        &&& forall|i: int|
            0 <= i < visible.len() ==> self.describes(in_frustum, use_lod, #[trigger] visible[i])
        &&& forall|id: Seq<u8>| #[trigger]
            self.visible(in_frustum, id) ==> listed(visible, id) || on_stack(open, id)
        &&& distinct_ids(visible)
        &&& forall|j: int, i: int|
            #![trigger open[j], visible[i]]
            0 <= j < open.len() && 0 <= i < visible.len() ==> !above(open[j]@, visible[i].id@)
        &&& forall|j: int, k: int|
            #![trigger open[j], open[k]]
            0 <= j < open.len() && 0 <= k < open.len() && j != k ==> !above(open[j]@, open[k]@)
    }

    /// A walk may drop an open node that does not pass on its own.
    proof fn lemma_walk_prune(
        &self,
        in_frustum: Seq<Projection>,
        use_lod: UseLod,
        open: Seq<NodeId>,
        visible: Seq<VisibleNode>,
    )
        requires
            open.len() > 0,
            self.walk_inv(in_frustum, use_lod, open, visible),
            !self.admitted(in_frustum, open.last()@),
        ensures
            self.walk_inv(in_frustum, use_lod, open.drop_last(), visible),
    {
        let rest = open.drop_last();
        assert forall|j: int| 0 <= j < rest.len() implies rest[j] == open[j] by {}
        assert forall|id: Seq<u8>| #[trigger] self.visible(in_frustum, id) implies listed(
            visible,
            id,
        ) || on_stack(rest, id) by {
            if !listed(visible, id) {
                let (j, k) = choose|j: int, k: int|
                    #![trigger open[j], id.subrange(0, k)]
                    0 <= j < open.len() && 0 <= k <= id.len() && open[j]@ == id.subrange(0, k);
                if j == open.len() - 1 {
                    self.lemma_visible_ancestors(in_frustum, id, k);
                } else {
                    assert(rest[j]@ == id.subrange(0, k));
                }
            }
        }
    }

    /// A walk may replace an open node that passes on its own by its eight
    /// children, and record it.
    proof fn lemma_walk_expand(
        &self,
        in_frustum: Seq<Projection>,
        use_lod: UseLod,
        open_before: Seq<NodeId>,
        visible_before: Seq<VisibleNode>,
        open: Seq<NodeId>,
        found: VisibleNode,
    )
        requires
            open_before.len() > 0,
            self.walk_inv(in_frustum, use_lod, open_before, visible_before),
            forall|id: Seq<u8>| #[trigger] self.nodes().contains_key(id) ==> valid_path(id),
            found.id@ == open_before.last()@,
            self.admitted(in_frustum, found.id@),
            projection_of(in_frustum, found.id@) == Some((found.width, found.height)),
            found.level_of_detail == stride_for(
                use_lod,
                self.nodes()[found.id@],
                found.width,
                found.height,
            ),
            open.len() == open_before.len() + 7,
            forall|j: int| 0 <= j < open_before.len() - 1 ==> open[j] == open_before[j],
            forall|c: int|
                0 <= c < 8 ==> (#[trigger] open[open_before.len() - 1 + c])@ == found.id@.push(
                    c as u8,
                ),
        ensures
            self.walk_inv(in_frustum, use_lod, open, visible_before.push(found)),
    {
        let node = found.id@;
        let visible = visible_before.push(found);
        let fresh = visible_before.len() as int;
        let last = open_before.len() - 1;
        assert(open_before[last]@ == node);
        assert(above(node, node)) by {
            assert(node.subrange(0, node.len() as int) =~= node);
        }
        assert forall|i: int| 0 <= i < visible.len() implies self.describes(
            in_frustum,
            use_lod,
            #[trigger] visible[i],
        ) by {
            if i < fresh {
                assert(visible[i] == visible_before[i]);
            }
        }
        assert forall|j: int| 0 <= j < open.len() implies (#[trigger] open[j])@.len() == 0
            || self.visible(in_frustum, open[j]@.drop_last()) by {
            if j < last {
                assert(open[j] == open_before[j]);
            } else {
                let c = j - last;
                assert(open[last + c]@ == node.push(c as u8));
                assert(node.push(c as u8).drop_last() =~= node);
            }
        }
        assert forall|id: Seq<u8>| #[trigger] self.visible(in_frustum, id) implies listed(
            visible,
            id,
        ) || on_stack(open, id) by {
            if listed(visible_before, id) {
                let i = choose|i: int|
                    0 <= i < visible_before.len() && (#[trigger] visible_before[i]).id@ == id;
                assert(visible[i] == visible_before[i]);
            } else {
                let (j, k) = choose|j: int, k: int|
                    #![trigger open_before[j], id.subrange(0, k)]
                    0 <= j < open_before.len() && 0 <= k <= id.len() && open_before[j]@
                        == id.subrange(0, k);
                if j < last {
                    assert(open[j] == open_before[j]);
                    assert(open[j]@ == id.subrange(0, k));
                } else if k == id.len() {
                    assert(id.subrange(0, k) =~= id);
                    assert(visible[fresh].id@ == id);
                } else {
                    let c = id[k] as int;
                    assert(self.nodes().contains_key(id));
                    assert(valid_path(id));
                    assert(id[k] < 8);
                    assert(open[last + c]@ == node.push(c as u8));
                    assert(node.push(c as u8) =~= id.subrange(0, k + 1));
                    assert(open[last + c]@ == id.subrange(0, k + 1));
                }
            }
        }
        assert forall|a: int, b: int|
            #![trigger visible[a], visible[b]]
            0 <= a < visible.len() && 0 <= b < visible.len() && a != b implies visible[a].id@
            != visible[b].id@ by {
            if a < fresh && b < fresh {
                assert(visible[a] == visible_before[a]);
                assert(visible[b] == visible_before[b]);
            } else if a < fresh {
                assert(visible[a] == visible_before[a]);
                assert(!above(open_before[last]@, visible_before[a].id@));
            } else {
                assert(visible[b] == visible_before[b]);
                assert(!above(open_before[last]@, visible_before[b].id@));
            }
        }
        assert forall|j: int, i: int|
            #![trigger open[j], visible[i]]
            0 <= j < open.len() && 0 <= i < visible.len() implies !above(
            open[j]@,
            visible[i].id@,
        ) by {
            if j < last {
                assert(open[j] == open_before[j]);
                if i < fresh {
                    assert(visible[i] == visible_before[i]);
                    assert(!above(open_before[j]@, visible_before[i].id@));
                } else {
                    assert(!above(open_before[j]@, open_before[last]@));
                }
            } else {
                let c = j - last;
                assert(open[last + c]@ == node.push(c as u8));
                if i < fresh {
                    assert(visible[i] == visible_before[i]);
                    assert(!above(open_before[last]@, visible_before[i].id@));
                    if above(open[j]@, visible[i].id@) {
                        lemma_above_parent(node, c as u8, visible[i].id@);
                    }
                }
            }
        }
        assert forall|j: int, k: int|
            #![trigger open[j], open[k]]
            0 <= j < open.len() && 0 <= k < open.len() && j != k implies !above(
            open[j]@,
            open[k]@,
        ) by {
            if j < last {
                assert(open[j] == open_before[j]);
            }
            if k < last {
                assert(open[k] == open_before[k]);
            }
            if j < last && k < last {
                assert(!above(open_before[j]@, open_before[k]@));
            } else if j < last {
                let c = k - last;
                assert(open[last + c]@ == node.push(c as u8));
                assert(!above(open_before[j]@, open_before[last]@));
                assert(!above(open_before[last]@, open_before[j]@));
                if above(open[j]@, open[k]@) {
                    lemma_above_child(open[j]@, node, c as u8);
                    assert(node.push(c as u8).subrange(0, node.len() as int) =~= node);
                }
            } else if k < last {
                let c = j - last;
                assert(open[last + c]@ == node.push(c as u8));
                assert(!above(open_before[last]@, open_before[k]@));
                if above(open[j]@, open[k]@) {
                    lemma_above_parent(node, c as u8, open[k]@);
                }
            } else {
                let c = j - last;
                let d = k - last;
                assert(open[last + c]@ == node.push(c as u8));
                assert(open[last + d]@ == node.push(d as u8));
                if above(open[j]@, open[k]@) {
                    assert(open[k]@.subrange(0, open[j]@.len() as int) =~= open[k]@);
                    assert(node.push(c as u8).last() == c as u8);
                    assert(node.push(d as u8).last() == d as u8);
                }
            }
        }
    }

    /// Selects the nodes to display. `in_frustum` lists the nodes whose
    /// bounding cube meets the view frustum, each with its projected extent.
    /// The tree is walked from the root; below a node that has no stored
    /// points, is not listed in `in_frustum` or projects too small, nothing
    /// is looked at. The result holds every visible node once, ordered by
    /// projected area, the largest first.
    pub fn get_visible_nodes(&self, in_frustum: &[Projection], use_lod: UseLod) -> (r: Vec<
        VisibleNode,
    >)
        ensures
            forall|i: int|
                0 <= i < r@.len() ==> self.describes(in_frustum@, use_lod, #[trigger] r@[i]),
            forall|id: Seq<u8>| #[trigger] self.visible(in_frustum@, id) ==> listed(r@, id),
            sorted_by_area(r@),
            distinct_ids(r@),
            forall|i: int|
                0 <= i < r@.len() ==> (#[trigger] r@[i]).level_of_detail >= 1 && (use_lod is No
                    ==> r@[i].level_of_detail == 1),
            forall|i: int, k: int|
                0 <= i < r@.len() && 0 <= k <= r@[i].id@.len() ==> listed(
                    r@,
                    #[trigger] r@[i].id@.subrange(0, k),
                ),
    {
        let depth: usize = self.max_level();
        let mut open: Vec<NodeId> = Vec::new();
        open.push(NodeId::root());
        let mut visible: Vec<VisibleNode> = Vec::new();
        proof {
            assert forall|id: Seq<u8>| #[trigger]
                self.visible(in_frustum@, id) implies on_stack(open@, id) by {
                assert(open@[0]@ =~= id.subrange(0, 0));
            }
        }
        while open.len() > 0
            invariant
                forall|id: Seq<u8>| #[trigger]
                    self.nodes().contains_key(id) ==> id.len() <= depth && valid_path(id),
                forall|j: int| 0 <= j < open@.len() ==> (#[trigger] open@[j])@.len() <= depth + 1,
                self.walk_inv(in_frustum@, use_lod, open@, visible@),
            decreases stack_weight(open@, depth as int),
        {
            let ghost open_before = open@;
            let ghost visible_before = visible@;
            let node: NodeId = open.pop().unwrap();
            let ghost rest = open@;
            proof {
                assert(rest =~= open_before.drop_last());
                assert(node == open_before.last());
                lemma_pow9_positive((depth + 1 - node@.len()) as nat);
                assert(stack_weight(open_before, depth as int) == stack_weight(rest, depth as int)
                    + pow9((depth + 1 - node@.len()) as nat));
            }
            match self.inspect(in_frustum, &node) {
                None => {
                    proof {
                        self.lemma_walk_prune(in_frustum@, use_lod, open_before, visible@);
                    }
                },
                Some((num_points, width, height)) => {
                    let stride: i32 = level_of_detail(use_lod, num_points, width, height);
                    let mut octant: u8 = 0;
                    while octant < 8
                        invariant
                            octant <= 8,
                            node@.len() <= depth,
                            open@.len() == rest.len() + octant,
                            forall|j: int| 0 <= j < rest.len() ==> open@[j] == rest[j],
                            forall|c: int|
                                0 <= c < octant ==> (#[trigger] open@[rest.len() + c])@
                                    == node@.push(c as u8),
                            stack_weight(open@, depth as int) == stack_weight(rest, depth as int)
                                + octant * pow9((depth - node@.len()) as nat),
                        decreases 8 - octant,
                    {
                        let ghost pushed = open@;
                        let child: NodeId = node.child(ChildIndex::from_u8(octant));
                        open.push(child);
                        proof {
                            assert(open@.drop_last() =~= pushed);
                            assert((octant + 1) * pow9((depth - node@.len()) as nat) == octant
                                * pow9((depth - node@.len()) as nat) + pow9(
                                (depth - node@.len()) as nat,
                            )) by (nonlinear_arith);
                        }
                        octant += 1;
                    }
                    let found = VisibleNode { id: node, level_of_detail: stride, width, height };
                    proof {
                        assert forall|j: int| 0 <= j < rest.len() implies open@[j]
                            == open_before[j] by {
                            assert(open@[j] == rest[j]);
                            assert(rest[j] == open_before[j]);
                        }
                        self.lemma_walk_expand(
                            in_frustum@,
                            use_lod,
                            open_before,
                            visible_before,
                            open@,
                            found,
                        );
                        assert forall|j: int| 0 <= j < open@.len() implies (#[trigger] open@[j])@.len()
                            <= depth + 1 by {
                            if j >= rest.len() {
                                let c = j - rest.len();
                                assert(open@[rest.len() + c]@ == found.id@.push(c as u8));
                            }
                        }
                        assert(pow9((depth + 1 - found.id@.len()) as nat) == 9 * pow9(
                            (depth - found.id@.len()) as nat,
                        ));
                        lemma_pow9_positive((depth - found.id@.len()) as nat);
                        assert(stack_weight(open@, depth as int) < stack_weight(
                            open_before,
                            depth as int,
                        ));
                    }
                    visible.push(found);
                },
            }
        }
        proof {
            assert forall|id: Seq<u8>| #[trigger]
                self.visible(in_frustum@, id) implies listed(visible@, id) by {
                assert(!on_stack(open@, id));
            }
        }
        let sorted: Vec<VisibleNode> = sort_by_area(visible);
        proof {
            lemma_same_elements(sorted@, visible@);
            lemma_same_elements(visible@, sorted@);
            lemma_distinct_ids_reordered(visible@, sorted@);
            assert forall|i: int| 0 <= i < sorted@.len() implies self.describes(
                in_frustum@,
                use_lod,
                #[trigger] sorted@[i],
            ) by {
                assert(visible@.contains(sorted@[i]));
            }
            assert forall|id: Seq<u8>| #[trigger]
                self.visible(in_frustum@, id) implies listed(sorted@, id) by {
                let i = choose|i: int|
                    0 <= i < visible@.len() && (#[trigger] visible@[i]).id@ == id;
                assert(sorted@.contains(visible@[i]));
                let j = choose|j: int| 0 <= j < sorted@.len() && sorted@[j] == visible@[i];
                assert(sorted@[j].id@ == id);
            }
            assert forall|i: int, k: int|
                0 <= i < sorted@.len() && 0 <= k <= sorted@[i].id@.len() implies listed(
                sorted@,
                #[trigger] sorted@[i].id@.subrange(0, k),
            ) by {
                assert(self.describes(in_frustum@, use_lod, sorted@[i]));
                self.lemma_visible_ancestors(in_frustum@, sorted@[i].id@, k);
            }
        }
        sorted
    }

    /// Packs the points of the requested nodes, in the order of the
    /// requests, and returns how many points were retained and the bytes.
    /// `store` holds the points that were read for the nodes. A request
    /// whose node the index does not know, or whose points are not in
    /// `store`, fails the whole batch. Strides must be positive and the
    /// batch within the machine's limits, which `batch_fits` tests.
    pub fn get_nodes_as_binary_blob(&self, nodes: &[NodesToBlob], store: &[NodePoints]) -> (r:
        Result<(usize, Vec<u8>), Error>)
        requires
            batch_ok(nodes@, store@),
        ensures
            r is Ok <==> forall|i: int|
                0 <= i < nodes@.len() ==> self.readable(#[trigger] nodes@[i], store@),
            r matches Ok((count, buf)) ==> count == blob_points(nodes@, store@) && buf@
                == blob_bytes(nodes@, store@) && buf@.len() == 4 * nodes@.len() + 16 * count,
            r matches Err(e) ==> e == Error::NodeRead,
            nodes@.len() == 0 ==> r is Ok && r->Ok_0.0 == 0 && r->Ok_0.1@.len() == 0,
    {
        let mut num_points: usize = 0;
        let mut rv: Vec<u8> = Vec::new();
        let mut i: usize = 0;
        assert(nodes@.subrange(0, 0) =~= Seq::<NodesToBlob>::empty());
        while i < nodes.len()
            invariant
                i <= nodes@.len(),
                forall|j: int|
                    0 <= j < nodes@.len() ==> (#[trigger] nodes@[j]).level_of_detail >= 1,
                blob_fits(nodes@, store@),
                forall|j: int| 0 <= j < i ==> self.readable(#[trigger] nodes@[j], store@),
                num_points == blob_points(nodes@.subrange(0, i as int), store@),
                rv@ == blob_bytes(nodes@.subrange(0, i as int), store@),
                rv@.len() == 4 * i + 16 * num_points,
            decreases nodes@.len() - i,
        {
            let node: &NodesToBlob = &nodes[i];
            if self.num_points(&node.id).is_none() {
                return Err(Error::NodeRead);
            }
            let points: &Vec<Point> = match find_points(store, &node.id) {
                Some(points) => points,
                None => {
                    return Err(Error::NodeRead);
                },
            };
            proof {
                assert(nodes@.subrange(0, i + 1).drop_last() =~= nodes@.subrange(0, i as int));
                assert(nodes@.subrange(0, i + 1).last() == nodes@[i as int]);
                assert(16 * request_points(nodes@[i as int], store@) <= u32::MAX);
                assert(4 * (i + 1) + 16 * blob_points(nodes@.subrange(0, i + 1), store@)
                    <= usize::MAX);
                assert(request_record(nodes@[i as int], store@).len() == 4 + 16 * request_points(
                    nodes@[i as int],
                    store@,
                )) by {
                    crate::blob::lemma_node_record_layout(points@, node.level_of_detail as int);
                }
            }
            let kept: usize = encode_node(&mut rv, points, node.level_of_detail);
            num_points += kept;
            i += 1;
        }
        assert(nodes@.subrange(0, i as int) =~= nodes@);
        Ok((num_points, rv))
    }
}

} // verus!
