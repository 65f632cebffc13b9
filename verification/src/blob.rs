//! The wire format of points: one record per requested node, each a length
//! prefix, a block of positions and a block of colors.

use vstd::prelude::*;
use vstd::arithmetic::div_mod::{lemma_div_decreases, lemma_fundamental_div_mod, lemma_small_mod};
use crate::node_id::NodeId;
use crate::wire::{le_bytes, write_u32_le};

verus! {

/// Bytes that one retained point takes in a record: twelve of position and
/// four of color.
pub const NUM_BYTES_PER_POINT: usize = 16;

/// A stored point. The coordinates are 32-bit IEEE-754 bit patterns, the
/// color is one byte per channel.
#[derive(Clone, Copy, Debug, PartialEq, Eq)]
pub struct Point {
    pub x: u32,
    pub y: u32,
    pub z: u32,
    pub r: u8,
    pub g: u8,
    pub b: u8,
}

/// The full-resolution points that were read for one node.
#[derive(Debug)]
pub struct NodePoints {
    pub id: NodeId,
    pub points: Vec<Point>,
}

/// A request to serialize one node, keeping every `level_of_detail`-th point.
#[derive(Debug)]
pub struct NodesToBlob {
    pub id: NodeId,
    pub level_of_detail: i32,
}

/// How many of `n` points a stride keeps: `n / stride`, rounded up.
pub open spec fn retained_count(n: nat, stride: int) -> nat {
    if stride <= 0 {
        0
    } else if n as int % stride == 0 {
        (n as int / stride) as nat
    } else {
        (n as int / stride + 1) as nat
    }
}

/// The points that a stride keeps: those at the indices 0, `stride`,
/// 2 * `stride` and so on, in their order.
pub open spec fn retained(points: Seq<Point>, stride: int) -> Seq<Point> {
    Seq::new(retained_count(points.len(), stride), |k: int| points[k * stride])
}

/// Twelve bytes per point: x, y and z, each little-endian.
pub open spec fn position_block(points: Seq<Point>) -> Seq<u8>
    decreases points.len(),
{
    if points.len() == 0 {
        Seq::empty()
    } else {
        position_block(points.drop_last()) + le_bytes(points.last().x) + le_bytes(
            points.last().y,
        ) + le_bytes(points.last().z)
    }
}

/// Four bytes per point: red, green, blue and an opaque alpha.
pub open spec fn color_block(points: Seq<Point>) -> Seq<u8>
    decreases points.len(),
{
    if points.len() == 0 {
        Seq::empty()
    } else {
        color_block(points.drop_last()) + seq![
            points.last().r,
            points.last().g,
            points.last().b,
            255u8,
        ]
    }
}

/// The record of one node: the payload's length in bytes, then the
/// positions of all retained points, then their colors.
pub open spec fn node_record(points: Seq<Point>, stride: int) -> Seq<u8> {
    let kept = retained(points, stride);
    le_bytes((16 * kept.len()) as u32) + position_block(kept) + color_block(kept)
}

/// The points held for `id`: those of the first entry with that identifier.
pub open spec fn points_of(store: Seq<NodePoints>, id: Seq<u8>) -> Option<Seq<Point>>
    decreases store.len(),
{
    if store.len() == 0 {
        None
    } else if store[0].id@ == id {
        Some(store[0].points@)
    } else {
        points_of(store.drop_first(), id)
    }
}

/// The record that answers one request; empty where no points are held.
pub open spec fn request_record(request: NodesToBlob, store: Seq<NodePoints>) -> Seq<u8> {
    match points_of(store, request.id@) {
        Some(points) => node_record(points, request.level_of_detail as int),
        None => Seq::empty(),
    }
}

/// How many points one request retains.
pub open spec fn request_points(request: NodesToBlob, store: Seq<NodePoints>) -> nat {
    match points_of(store, request.id@) {
        Some(points) => retained_count(points.len(), request.level_of_detail as int),
        None => 0,
    }
}

/// The records of all requests, in the order of the requests.
pub open spec fn blob_bytes(requests: Seq<NodesToBlob>, store: Seq<NodePoints>) -> Seq<u8>
    decreases requests.len(),
{
    if requests.len() == 0 {
        Seq::empty()
    } else {
        blob_bytes(requests.drop_last(), store) + request_record(requests.last(), store)
    }
}

/// The number of points that all requests retain together.
pub open spec fn blob_points(requests: Seq<NodesToBlob>, store: Seq<NodePoints>) -> nat
    decreases requests.len(),
{
    if requests.len() == 0 {
        0
    } else {
        blob_points(requests.drop_last(), store) + request_points(requests.last(), store)
    }
}

/// The machine's limits on a batch: each payload's length fits the 32-bit
/// prefix, and the buffer's length fits `usize` after every record.
pub open spec fn blob_fits(requests: Seq<NodesToBlob>, store: Seq<NodePoints>) -> bool {
    &&& forall|i: int|
        0 <= i < requests.len() ==> 16 * #[trigger] request_points(requests[i], store)
            <= u32::MAX
    &&& forall|i: int|
        0 <= i <= requests.len() ==> 4 * i + 16 * #[trigger] blob_points(
            requests.subrange(0, i),
            store,
        ) <= usize::MAX
}

/// The retained count is the ceiling of `n / stride`: the least number of
/// strides that cover `n` points.
pub proof fn lemma_retained_count_is_ceiling(n: nat, stride: int)
    requires
        stride >= 1,
    ensures
        retained_count(n, stride) * stride >= n,
        (retained_count(n, stride) - 1) * stride < n || n == 0,
        n == 0 ==> retained_count(n, stride) == 0,
        stride == 1 ==> retained_count(n, stride) == n,
{
    let q = n as int / stride;
    let r = n as int % stride;
    lemma_fundamental_div_mod(n as int, stride);
    assert(stride * q == q * stride) by (nonlinear_arith);
    assert((q + 1) * stride == q * stride + stride) by (nonlinear_arith);
    assert((q - 1) * stride == q * stride - stride) by (nonlinear_arith);
    if n == 0 {
        assert(q == 0);
    }
    if stride == 1 {
        assert(q * 1 == q);
    }
}

/// Every index that a stride keeps lies inside the stored points.
pub proof fn lemma_retained_index(n: nat, stride: int, k: int)
    requires
        stride >= 1,
        0 <= k < retained_count(n, stride),
    ensures
        0 <= k * stride < n,
{
    let q = n as int / stride;
    lemma_fundamental_div_mod(n as int, stride);
    assert(stride * q == q * stride) by (nonlinear_arith);
    assert(0 <= k * stride) by (nonlinear_arith)
        requires
            k >= 0,
            stride >= 1,
    ;
    if k < q {
        assert(k * stride <= (q - 1) * stride) by (nonlinear_arith)
            requires
                k <= q - 1,
                stride >= 1,
        ;
        assert((q - 1) * stride == q * stride - stride) by (nonlinear_arith);
    } else {
        assert(k == q);
    }
}

/// A position block holds twelve bytes per point, a color block four.
pub proof fn lemma_block_lengths(points: Seq<Point>)
    ensures
        position_block(points).len() == 12 * points.len(),
        color_block(points).len() == 4 * points.len(),
    decreases points.len(),
{
    if points.len() > 0 {
        lemma_block_lengths(points.drop_last());
    }
}

/// The layout of one node's record: a prefix that declares sixteen bytes
/// per retained point, then a position block of twelve bytes per retained
/// point, then a color block of four.
pub proof fn lemma_node_record_layout(points: Seq<Point>, stride: int)
    requires
        stride >= 1,
    ensures
        retained(points, stride).len() == retained_count(points.len(), stride),
        node_record(points, stride).len() == 4 + 16 * retained_count(points.len(), stride),
        node_record(points, stride).subrange(0, 4) == le_bytes(
            (16 * retained_count(points.len(), stride)) as u32,
        ),
        node_record(points, stride).subrange(
            4,
            4 + 12 * (retained_count(points.len(), stride) as int),
        ) == position_block(retained(points, stride)),
        node_record(points, stride).subrange(
            4 + 12 * (retained_count(points.len(), stride) as int),
            4 + 16 * (retained_count(points.len(), stride) as int),
        ) == color_block(retained(points, stride)),
{
    let kept = retained(points, stride);
    let count = kept.len() as int;
    lemma_block_lengths(kept);
    let record = node_record(points, stride);
    assert(record.subrange(0, 4) =~= le_bytes((16 * kept.len()) as u32));
    assert(record.subrange(4, 4 + 12 * count) =~= position_block(kept));
    assert(record.subrange(4 + 12 * count, 4 + 16 * count) =~= color_block(kept));
}

/// In a color block the bytes of point `k` are its red, green and blue, and
/// the fourth byte is 255 whatever the color.
pub proof fn lemma_color_block_entry(points: Seq<Point>, k: int)
    requires
        0 <= k < points.len(),
    ensures
        color_block(points).len() == 4 * points.len(),
        color_block(points)[4 * k] == points[k].r,
        color_block(points)[4 * k + 1] == points[k].g,
        color_block(points)[4 * k + 2] == points[k].b,
        color_block(points)[4 * k + 3] == 255u8,
    decreases points.len(),
{
    lemma_block_lengths(points);
    lemma_block_lengths(points.drop_last());
    if k < points.len() - 1 {
        lemma_color_block_entry(points.drop_last(), k);
    }
}

/// In a node's record the fourth color byte of every retained point is 255,
/// whatever the point's color.
pub proof fn lemma_alpha_is_opaque(points: Seq<Point>, stride: int, k: int)
    requires
        stride >= 1,
        0 <= k < retained_count(points.len(), stride),
    ensures
        4 + 12 * retained_count(points.len(), stride) + 4 * k + 3 < node_record(
            points,
            stride,
        ).len(),
        node_record(points, stride)[4 + 12 * retained_count(points.len(), stride) + 4 * k + 3]
            == 255u8,
{
    let kept = retained(points, stride);
    lemma_block_lengths(kept);
    lemma_color_block_entry(kept, k);
}

/// A batch of one request is the record of that node, and retains what
/// that node retains.
pub proof fn lemma_single_request(request: NodesToBlob, store: Seq<NodePoints>)
    ensures
        blob_bytes(seq![request], store) == request_record(request, store),
        blob_points(seq![request], store) == request_points(request, store),
{
    let batch = seq![request];
    assert(batch.drop_last() =~= Seq::<NodesToBlob>::empty());
    assert(batch.last() == request);
    assert(blob_bytes(batch.drop_last(), store) =~= Seq::<u8>::empty());
    assert(blob_bytes(batch, store) =~= request_record(request, store));
    assert(blob_points(batch.drop_last(), store) == 0);
    assert(blob_points(batch, store) == request_points(request, store));
}

/// A batch that requests one node with `n` stored points at a stride
/// retains `n / stride` points, rounded up; its bytes are the prefix that
/// declares sixteen bytes for each of them, their positions in twelve bytes
/// each, and their colors in four bytes each.
pub proof fn lemma_single_node_blob(
    request: NodesToBlob,
    store: Seq<NodePoints>,
    points: Seq<Point>,
)
    requires
        request.level_of_detail >= 1,
        points_of(store, request.id@) == Some(points),
    ensures
        ({
            let stride = request.level_of_detail as int;
            let count = retained_count(points.len(), stride);
            let kept = retained(points, stride);
            &&& blob_points(seq![request], store) == count
            &&& count * stride >= points.len()
            &&& points.len() > 0 ==> (count - 1) * stride < points.len()
            &&& kept.len() == count
            &&& position_block(kept).len() == 12 * count
            &&& color_block(kept).len() == 4 * count
            &&& blob_bytes(seq![request], store) == le_bytes((16 * count) as u32) + position_block(
                kept,
            ) + color_block(kept)
        }),
{
    let stride = request.level_of_detail as int;
    lemma_single_request(request, store);
    lemma_retained_count_is_ceiling(points.len(), stride);
    lemma_block_lengths(retained(points, stride));
}

/// In a position block the bytes of point `k` are its three coordinates.
pub proof fn lemma_position_block_entry(points: Seq<Point>, k: int)
    requires
        0 <= k < points.len(),
    ensures
        position_block(points).len() == 12 * points.len(),
        position_block(points).subrange(12 * k, 12 * k + 4) == le_bytes(points[k].x),
        position_block(points).subrange(12 * k + 4, 12 * k + 8) == le_bytes(points[k].y),
        position_block(points).subrange(12 * k + 8, 12 * k + 12) == le_bytes(points[k].z),
    decreases points.len(),
{
    lemma_block_lengths(points);
    lemma_block_lengths(points.drop_last());
    let block = position_block(points);
    if k < points.len() - 1 {
        lemma_position_block_entry(points.drop_last(), k);
        let shorter = position_block(points.drop_last());
        assert(block.subrange(12 * k, 12 * k + 4) =~= shorter.subrange(12 * k, 12 * k + 4));
        assert(block.subrange(12 * k + 4, 12 * k + 8) =~= shorter.subrange(
            12 * k + 4,
            12 * k + 8,
        ));
        assert(block.subrange(12 * k + 8, 12 * k + 12) =~= shorter.subrange(
            12 * k + 8,
            12 * k + 12,
        ));
    } else {
        assert(block.subrange(12 * k, 12 * k + 4) =~= le_bytes(points[k].x));
        assert(block.subrange(12 * k + 4, 12 * k + 8) =~= le_bytes(points[k].y));
        assert(block.subrange(12 * k + 8, 12 * k + 12) =~= le_bytes(points[k].z));
    }
}

/// Appends the record of one node to `buf` and returns how many points it
/// retained.
pub fn encode_node(buf: &mut Vec<u8>, points: &Vec<Point>, stride: i32) -> (count: usize)
    requires
        stride >= 1,
        16 * retained_count(points@.len(), stride as int) <= u32::MAX,
        old(buf)@.len() + 4 + 16 * retained_count(points@.len(), stride as int) <= usize::MAX,
    ensures
        count == retained_count(points@.len(), stride as int),
        final(buf)@ == old(buf)@ + node_record(points@, stride as int),
{
    let n: usize = points.len();
    let step: usize = stride as usize;
    let count: usize = if n % step == 0 {
        n / step
    } else {
        n / step + 1
    };
    let ghost before = buf@;
    let ghost kept = retained(points@, stride as int);
    let base: usize = buf.len();
    let end: usize = base + 4 + NUM_BYTES_PER_POINT * count;
    let payload: u32 = (NUM_BYTES_PER_POINT * count) as u32;
    buf.resize(end, 0u8);
    assert(buf@.subrange(0, base as int) == before);
    write_u32_le(buf, base, payload);
    assert(buf@.subrange(0, base + 4) =~= before + le_bytes(payload));
    let mut pos: usize = base + 4;
    let mut k: usize = 0;
    while k < count
        invariant
            k <= count,
            stride >= 1,
            step == stride,
            n == points@.len(),
            count == retained_count(n as nat, stride as int),
            kept == retained(points@, stride as int),
            pos == base + 4 + 12 * k,
            end == base + 4 + 16 * count,
            buf@.len() == end,
            buf@.subrange(0, pos as int) == before + le_bytes(payload) + position_block(
                kept.subrange(0, k as int),
            ),
        decreases count - k,
    {
        proof {
            lemma_retained_index(n as nat, stride as int, k as int);
        }
        let p: Point = points[k * step];
        let ghost filled = buf@;
        write_u32_le(buf, pos, p.x);
        write_u32_le(buf, pos + 4, p.y);
        write_u32_le(buf, pos + 8, p.z);
        proof {
            assert(kept.subrange(0, k + 1).drop_last() =~= kept.subrange(0, k as int));
            assert(kept.subrange(0, k + 1).last() == p);
            assert(buf@.subrange(0, pos + 12) =~= filled.subrange(0, pos as int) + le_bytes(p.x)
                + le_bytes(p.y) + le_bytes(p.z));
        }
        pos += 12;
        k += 1;
    }
    assert(kept.subrange(0, k as int) =~= kept);
    let mut k: usize = 0;
    while k < count
        invariant
            k <= count,
            stride >= 1,
            step == stride,
            n == points@.len(),
            count == retained_count(n as nat, stride as int),
            kept == retained(points@, stride as int),
            pos == base + 4 + 12 * count + 4 * k,
            end == base + 4 + 16 * count,
            buf@.len() == end,
            buf@.subrange(0, pos as int) == before + le_bytes(payload) + position_block(kept)
                + color_block(kept.subrange(0, k as int)),
        decreases count - k,
    {
        proof {
            lemma_retained_index(n as nat, stride as int, k as int);
        }
        let p: Point = points[k * step];
        let ghost filled = buf@;
        buf.set(pos, p.r);
        buf.set(pos + 1, p.g);
        buf.set(pos + 2, p.b);
        buf.set(pos + 3, 255u8);
        proof {
            assert(kept.subrange(0, k + 1).drop_last() =~= kept.subrange(0, k as int));
            assert(kept.subrange(0, k + 1).last() == p);
            assert(buf@.subrange(0, pos + 4) =~= filled.subrange(0, pos as int) + seq![
                p.r,
                p.g,
                p.b,
                255u8,
            ]);
        }
        pos += 4;
        k += 1;
    }
    assert(kept.subrange(0, k as int) =~= kept);
    assert(buf@ =~= buf@.subrange(0, pos as int));
    assert(buf@ =~= before + node_record(points@, stride as int));
    count
}

/// Finds the points held for `id`: those of the first entry that names it.
pub fn find_points<'a>(store: &'a [NodePoints], id: &NodeId) -> (r: Option<&'a Vec<Point>>)
    ensures
        r is Some <==> points_of(store@, id@) is Some,
        r matches Some(points) ==> points_of(store@, id@) == Some(points@),
{
    let mut i: usize = 0;
    assert(store@.subrange(0, store@.len() as int) =~= store@);
    while i < store.len()
        invariant
            i <= store@.len(),
            points_of(store@, id@) == points_of(store@.subrange(i as int, store@.len() as int), id@),
        decreases store@.len() - i,
    {
        let ghost rest = store@.subrange(i as int, store@.len() as int);
        assert(rest[0] == store@[i as int]);
        assert(rest.drop_first() =~= store@.subrange(i + 1, store@.len() as int));
        if store[i].id.equals(id) {
            return Some(&store[i].points);
        }
        i += 1;
    }
    None
}

/// Whether a batch can be packed: every stride is positive and the batch
/// is within the machine's limits.
pub open spec fn batch_ok(requests: Seq<NodesToBlob>, store: Seq<NodePoints>) -> bool {
    &&& forall|i: int| 0 <= i < requests.len() ==> (#[trigger] requests[i]).level_of_detail >= 1
    &&& blob_fits(requests, store)
}

/// Tests whether a batch can be packed.
pub fn batch_fits(nodes: &[NodesToBlob], store: &[NodePoints]) -> (r: bool)
    ensures
        r == batch_ok(nodes@, store@),
{
    let mut num_points: usize = 0;
    let mut num_bytes: usize = 0;
    let mut i: usize = 0;
    assert(nodes@.subrange(0, 0) =~= Seq::<NodesToBlob>::empty());
    while i < nodes.len()
        invariant
            i <= nodes@.len(),
            num_points == blob_points(nodes@.subrange(0, i as int), store@),
            num_bytes == 4 * i + 16 * num_points,
            forall|j: int| 0 <= j < i ==> (#[trigger] nodes@[j]).level_of_detail >= 1,
            forall|j: int|
                0 <= j < i ==> 16 * #[trigger] request_points(nodes@[j], store@) <= u32::MAX,
            forall|j: int|
                0 <= j <= i ==> 4 * j + 16 * #[trigger] blob_points(
                    nodes@.subrange(0, j),
                    store@,
                ) <= usize::MAX,
        decreases nodes@.len() - i,
    {
        let node: &NodesToBlob = &nodes[i];
        if node.level_of_detail < 1 {
            return false;
        }
        let kept: usize = match find_points(store, &node.id) {
            Some(points) => {
                let n: usize = points.len();
                let step: usize = node.level_of_detail as usize;
                if n % step == 0 {
                    n / step
                } else {
                    proof {
                        if n == 0 {
                            lemma_small_mod(0, step as nat);
                        }
                        assert(n as int % 1 == 0);
                        lemma_div_decreases(n as int, step as int);
                    }
                    n / step + 1
                }
            },
            None => 0,
        };
        proof {
            assert(nodes@.subrange(0, i + 1).drop_last() =~= nodes@.subrange(0, i as int));
            assert(nodes@.subrange(0, i + 1).last() == nodes@[i as int]);
            assert(kept == request_points(nodes@[i as int], store@));
            assert(blob_points(nodes@.subrange(0, i + 1), store@) == num_points + kept);
        }
        if kept > 268435455 {
            assert(16 * request_points(nodes@[i as int], store@) > u32::MAX);
            return false;
        }
        let grown: usize = match num_bytes.checked_add(4 + NUM_BYTES_PER_POINT * kept) {
            Some(grown) => grown,
            None => {
                assert(4 * (i + 1) + 16 * blob_points(nodes@.subrange(0, i + 1), store@)
                    > usize::MAX);
                return false;
            },
        };
        num_bytes = grown;
        num_points = num_points + kept;
        i += 1;
    }
    true
}

} // verus!
