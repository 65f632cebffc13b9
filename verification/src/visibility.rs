//! Screen-space measures of nodes, the sampling stride chosen from them, and
//! the ordering of visible nodes by projected area.
//!
//! Extents on screen are in fixed point: one unit is 1/256 of a pixel, so
//! an area is in units of 1/65536 of a square pixel.

use vstd::prelude::*;
use vstd::multiset::Multiset;
use vstd::seq_lib::{to_multiset_build, to_multiset_insert};
use crate::node_id::NodeId;

verus! {

/// Units of extent per pixel.
pub const UNITS_PER_PIXEL: u32 = 256;

/// The least projected width and height of a visible node: 12 pixels.
pub const MIN_SIDE: u32 = 3072;

/// The least projected area of a visible node: 120 square pixels.
pub const MIN_AREA: u64 = 7864320;

/// Four square pixels, the area that one retained point is meant to cover.
pub const AREA_PER_POINT: u64 = 262144;

/// Whether strides are chosen from the projected area or are always 1.
#[derive(Clone, Copy, Debug, PartialEq, Eq)]
pub enum UseLod {
    No,
    Yes,
}

/// A node whose bounding cube meets the view frustum, with the width and
/// height of the rectangle that bounds its projected corners on screen.
#[derive(Debug)]
pub struct Projection {
    pub id: NodeId,
    pub width: u32,
    pub height: u32,
}

/// A node chosen for display, with its sampling stride and the projected
/// extent it was chosen for.
#[derive(Debug)]
pub struct VisibleNode {
    pub id: NodeId,
    pub level_of_detail: i32,
    pub width: u32,
    pub height: u32,
}

/// The projected area of a rectangle.
pub open spec fn area(width: u32, height: u32) -> int {
    width as int * height as int
}

/// Whether a projected rectangle is large enough to be shown: at least 12
/// pixels wide and high, and at least 120 square pixels.
pub open spec fn large_enough(width: u32, height: u32) -> bool {
    &&& width >= MIN_SIDE
    &&& height >= MIN_SIDE
    &&& area(width, height) >= MIN_AREA
}

/// The sampling stride of a node: 1 without level of detail; with it, the
/// number of stored points for every four square pixels of projected area,
/// rounded down, but at least 1 and at most `i32::MAX`.
pub open spec fn stride_for(use_lod: UseLod, num_points: u64, width: u32, height: u32) -> int {
    match use_lod {
        UseLod::No => 1,
        UseLod::Yes => {
            let per_area = if area(width, height) > 0 {
                (num_points as int * AREA_PER_POINT as int) / area(width, height)
            } else {
                0
            };
            if per_area < 1 {
                1
            } else if per_area > i32::MAX {
                i32::MAX as int
            } else {
                per_area
            }
        },
    }
}

/// The measure held for `id`: that of the first entry with that identifier.
pub open spec fn projection_of(measures: Seq<Projection>, id: Seq<u8>) -> Option<(u32, u32)>
    decreases measures.len(),
{
    if measures.len() == 0 {
        None
    } else if measures[0].id@ == id {
        Some((measures[0].width, measures[0].height))
    } else {
        projection_of(measures.drop_first(), id)
    }
}

/// Whether `id` is among the listed nodes.
pub open spec fn listed(nodes: Seq<VisibleNode>, id: Seq<u8>) -> bool {
    exists|i: int| 0 <= i < nodes.len() && (#[trigger] nodes[i]).id@ == id
}

/// Whether no node is listed twice.
pub open spec fn distinct_ids(nodes: Seq<VisibleNode>) -> bool {
    forall|a: int, b: int|
        #![trigger nodes[a], nodes[b]]
        0 <= a < nodes.len() && 0 <= b < nodes.len() && a != b ==> nodes[a].id@ != nodes[b].id@
}

/// Whether the nodes stand in the order of their projected areas, the
/// largest first.
pub open spec fn sorted_by_area(nodes: Seq<VisibleNode>) -> bool {
    forall|i: int, j: int|
        0 <= i < j < nodes.len() ==> area(nodes[i].width, nodes[i].height) >= area(
            nodes[j].width,
            nodes[j].height,
        )
}

/// The projected area of a rectangle, in units of 1/65536 square pixel.
pub fn projected_area(width: u32, height: u32) -> (r: u64)
    ensures
        r == area(width, height),
{
    assert(width as int * height as int <= 0xffff_ffff * 0xffff_ffff) by (nonlinear_arith)
        requires
            0 <= width <= 0xffff_ffff,
            0 <= height <= 0xffff_ffff,
    ;
    assert(0 <= width as int * height as int) by (nonlinear_arith)
        requires
            0 <= width,
            0 <= height,
    ;
    (width as u64) * (height as u64)
}

/// Whether a projected rectangle is large enough to be shown.
pub fn is_large_enough(width: u32, height: u32) -> (r: bool)
    ensures
        r == large_enough(width, height),
{
    width >= MIN_SIDE && height >= MIN_SIDE && projected_area(width, height) >= MIN_AREA
}

/// Chooses the sampling stride of a node from the number of its stored
/// points and its projected extent.
pub fn level_of_detail(use_lod: UseLod, num_points: u64, width: u32, height: u32) -> (r: i32)
    ensures
        r == stride_for(use_lod, num_points, width, height),
        r >= 1,
        use_lod is No ==> r == 1,
{
    match use_lod {
        UseLod::No => 1,
        UseLod::Yes => {
            let pixels: u64 = projected_area(width, height);
            if pixels == 0 {
                return 1;
            }
            let points_per_unit: u128 = AREA_PER_POINT as u128;
            assert(points_per_unit == 262144);
            let scaled: u128 = (num_points as u128) * points_per_unit;
            let per_area: u128 = scaled / (pixels as u128);
            if per_area < 1 {
                1
            } else if per_area > 2147483647 {
                i32::MAX
            } else {
                per_area as i32
            }
        },
    }
}

/// Finds the measure held for `id`: that of the first entry that names it.
pub fn find_projection(measures: &[Projection], id: &NodeId) -> (r: Option<(u32, u32)>)
    ensures
        r == projection_of(measures@, id@),
{
    let mut i: usize = 0;
    assert(measures@.subrange(0, measures@.len() as int) =~= measures@);
    while i < measures.len()
        invariant
            i <= measures@.len(),
            projection_of(measures@, id@) == projection_of(
                measures@.subrange(i as int, measures@.len() as int),
                id@,
            ),
        decreases measures@.len() - i,
    {
        let ghost rest = measures@.subrange(i as int, measures@.len() as int);
        assert(rest[0] == measures@[i as int]);
        assert(rest.drop_first() =~= measures@.subrange(i + 1, measures@.len() as int));
        if measures[i].id.equals(id) {
            return Some((measures[i].width, measures[i].height));
        }
        i += 1;
    }
    None
}

/// Orders nodes by projected area, the largest first. The result holds the
/// same nodes, each as often as before.
pub fn sort_by_area(nodes: Vec<VisibleNode>) -> (r: Vec<VisibleNode>)
    ensures
        sorted_by_area(r@),
        r@.to_multiset() == nodes@.to_multiset(),
{
    let ghost all = nodes@;
    let mut rest: Vec<VisibleNode> = nodes;
    let mut sorted: Vec<VisibleNode> = Vec::new();
    assert(sorted@.to_multiset().add(rest@.to_multiset()) =~= all.to_multiset()) by {
        sorted@.to_multiset_ensures();
    }
    while rest.len() > 0
        invariant
            sorted_by_area(sorted@),
            sorted@.to_multiset().add(rest@.to_multiset()) == all.to_multiset(),
        decreases rest@.len(),
    {
        let ghost rest_before = rest@;
        let ghost sorted_before = sorted@;
        let node: VisibleNode = rest.pop().unwrap();
        let size: u64 = projected_area(node.width, node.height);
        let mut pos: usize = 0;
        while pos < sorted.len() && projected_area(sorted[pos].width, sorted[pos].height) >= size
            invariant
                pos <= sorted@.len(),
                size == area(node.width, node.height),
                forall|j: int|
                    0 <= j < pos ==> area((#[trigger] sorted@[j]).width, sorted@[j].height)
                        >= size,
            decreases sorted@.len() - pos,
        {
            pos += 1;
        }
        sorted.insert(pos, node);
        proof {
            assert(rest_before =~= rest@.push(node));
            to_multiset_build(rest@, node);
            to_multiset_insert(sorted_before, pos as int, node);
            assert(sorted@.to_multiset().add(rest@.to_multiset()) =~= all.to_multiset());
            assert forall|i: int, j: int| 0 <= i < j < sorted@.len() implies area(
                sorted@[i].width,
                sorted@[i].height,
            ) >= area(sorted@[j].width, sorted@[j].height) by {
                if j < pos {
                    assert(sorted@[i] == sorted_before[i] && sorted@[j] == sorted_before[j]);
                } else if j == pos {
                    assert(sorted@[i] == sorted_before[i]);
                } else if i < pos {
                    assert(sorted@[i] == sorted_before[i] && sorted@[j] == sorted_before[j - 1]);
                } else if i == pos {
                    assert(sorted@[j] == sorted_before[j - 1]);
                    assert(area(sorted_before[pos as int].width, sorted_before[pos as int].height)
                        < size);
                    assert(pos as int <= j - 1);
                } else {
                    assert(sorted@[i] == sorted_before[i - 1] && sorted@[j] == sorted_before[j
                        - 1]);
                }
            }
        }
    }
    assert(rest@.to_multiset() =~= Multiset::<VisibleNode>::empty()) by {
        rest@.to_multiset_ensures();
    }
    assert(sorted@.to_multiset() =~= all.to_multiset());
    sorted
}

/// Two sequences that hold the same elements equally often: each element of
/// one occurs in the other.
pub proof fn lemma_same_elements(a: Seq<VisibleNode>, b: Seq<VisibleNode>)
    requires
        a.to_multiset() == b.to_multiset(),
    ensures
        forall|i: int| 0 <= i < a.len() ==> b.contains(#[trigger] a[i]),
        a.len() == b.len(),
{
    a.to_multiset_ensures();
    b.to_multiset_ensures();
    assert forall|i: int| 0 <= i < a.len() implies b.contains(#[trigger] a[i]) by {
        assert(a.contains(a[i]));
        assert(a.to_multiset().count(a[i]) > 0);
        assert(b.to_multiset().count(a[i]) > 0);
    }
}

/// Reordering a list keeps it free of nodes that are listed twice.
pub proof fn lemma_distinct_ids_reordered(a: Seq<VisibleNode>, b: Seq<VisibleNode>)
    requires
        a.to_multiset() == b.to_multiset(),
        distinct_ids(a),
    ensures
        distinct_ids(b),
{
    assert(a.no_duplicates());
    a.lemma_multiset_has_no_duplicates();
    b.lemma_multiset_has_no_duplicates_conv();
    lemma_same_elements(b, a);
    assert forall|i: int, j: int|
        #![trigger b[i], b[j]]
        0 <= i < b.len() && 0 <= j < b.len() && i != j implies b[i].id@ != b[j].id@ by {
        assert(a.contains(b[i]));
        assert(a.contains(b[j]));
        let p = choose|p: int| 0 <= p < a.len() && a[p] == b[i];
        let q = choose|q: int| 0 <= q < a.len() && a[q] == b[j];
        assert(b[i] != b[j]);
        assert(p != q);
        assert(a[p].id@ != a[q].id@);
    }
}

} // verus!
