use octree::blob::{encode_node, find_points};
use octree::{
    BoundingCube, Error, Meta, NodeFile, NodeId, NodePoints, NodesToBlob, Octree, Point,
};

fn octree_with(names: &[(&str, u64)]) -> Octree {
    let cube = BoundingCube {
        min_x: (-1.0f32).to_bits(),
        min_y: (-1.0f32).to_bits(),
        min_z: (-1.0f32).to_bits(),
        edge_length: 2.0f32.to_bits(),
    };
    let files: Vec<NodeFile> = names
        .iter()
        .map(|(name, points)| NodeFile {
            name: format!("{}.xyz", name).into_bytes(),
            num_bytes: points * 12,
        })
        .collect();
    Octree::new(false, Some(Meta { version: 6, bounding_cube: cube }), &files).unwrap()
}

fn id(name: &str) -> NodeId {
    NodeId::from_string(name).unwrap()
}

fn point(i: u32) -> Point {
    Point {
        x: (i as f32).to_bits(),
        y: (i as f32 + 0.5).to_bits(),
        z: (-(i as f32)).to_bits(),
        r: (i % 256) as u8,
        g: ((i * 7) % 256) as u8,
        b: ((i * 13) % 256) as u8,
    }
}

fn points(n: u32) -> Vec<Point> {
    (0..n).map(point).collect()
}

fn expected_record(all: &[Point], stride: usize) -> Vec<u8> {
    let kept: Vec<&Point> = all.iter().step_by(stride).collect();
    let mut out = Vec::new();
    out.extend_from_slice(&((kept.len() * 16) as u32).to_le_bytes());
    for p in &kept {
        out.extend_from_slice(&f32::from_bits(p.x).to_le_bytes());
        out.extend_from_slice(&f32::from_bits(p.y).to_le_bytes());
        out.extend_from_slice(&f32::from_bits(p.z).to_le_bytes());
    }
    for p in &kept {
        out.extend_from_slice(&[p.r, p.g, p.b, 255]);
    }
    out
}

#[test]
fn empty_request_list_gives_empty_blob() {
    let octree = octree_with(&[("r", 10)]);
    let store = [NodePoints { id: id("r"), points: points(10) }];
    let (count, buf) = octree.get_nodes_as_binary_blob(&[], &store).unwrap();
    assert_eq!(count, 0);
    assert!(buf.is_empty());
}

#[test]
fn one_point_exact_bytes() {
    let octree = octree_with(&[("r", 1)]);
    let p = Point { x: 0x3f800000, y: 0x40490fdb, z: 0x01020304, r: 10, g: 20, b: 30 };
    let store = [NodePoints { id: id("r"), points: vec![p] }];
    let requests = [NodesToBlob { id: id("r"), level_of_detail: 1 }];
    let (count, buf) = octree.get_nodes_as_binary_blob(&requests, &store).unwrap();
    assert_eq!(count, 1);
    assert_eq!(
        buf,
        vec![
            16, 0, 0, 0, 0x00, 0x00, 0x80, 0x3f, 0xdb, 0x0f, 0x49, 0x40, 0x04, 0x03, 0x02, 0x01,
            10, 20, 30, 255
        ]
    );
}

#[test]
fn full_resolution_of_a_thousand_points() {
    let octree = octree_with(&[("r", 1000)]);
    let all = points(1000);
    let store = [NodePoints { id: id("r"), points: all.clone() }];
    let requests = [NodesToBlob { id: id("r"), level_of_detail: 1 }];
    let (count, buf) = octree.get_nodes_as_binary_blob(&requests, &store).unwrap();
    assert_eq!(count, 1000);
    assert_eq!(buf.len(), 4 + 16 * 1000);
    assert_eq!(buf, expected_record(&all, 1));
}

#[test]
fn stride_keeps_every_nth_point_rounded_up() {
    let octree = octree_with(&[("r", 7)]);
    let all = points(7);
    let store = [NodePoints { id: id("r"), points: all.clone() }];
    for (stride, kept) in [(1, 7usize), (2, 4), (3, 3), (6, 2), (7, 1), (8, 1), (1000, 1)] {
        let requests = [NodesToBlob { id: id("r"), level_of_detail: stride }];
        let (count, buf) = octree.get_nodes_as_binary_blob(&requests, &store).unwrap();
        assert_eq!(count, kept);
        assert_eq!(buf.len(), 4 + 16 * kept);
        assert_eq!(&buf[0..4], &((16 * kept) as u32).to_le_bytes());
        assert_eq!(buf, expected_record(&all, stride as usize));
    }
}

#[test]
fn positions_come_before_colors() {
    let octree = octree_with(&[("r", 7)]);
    let all = points(7);
    let store = [NodePoints { id: id("r"), points: all.clone() }];
    let requests = [NodesToBlob { id: id("r"), level_of_detail: 3 }];
    let (count, buf) = octree.get_nodes_as_binary_blob(&requests, &store).unwrap();
    assert_eq!(count, 3);
    for (k, index) in [0usize, 3, 6].iter().enumerate() {
        let p = all[*index];
        let at = 4 + 12 * k;
        assert_eq!(&buf[at..at + 4], &p.x.to_le_bytes());
        assert_eq!(&buf[at + 4..at + 8], &p.y.to_le_bytes());
        assert_eq!(&buf[at + 8..at + 12], &p.z.to_le_bytes());
        let color = 4 + 12 * 3 + 4 * k;
        assert_eq!(&buf[color..color + 4], &[p.r, p.g, p.b, 255]);
    }
}

#[test]
fn every_alpha_byte_is_255() {
    let octree = octree_with(&[("r", 300)]);
    let all: Vec<Point> =
        (0..300u32).map(|i| Point { x: i, y: i, z: i, r: 0, g: (i % 256) as u8, b: 254 }).collect();
    let store = [NodePoints { id: id("r"), points: all }];
    let requests = [NodesToBlob { id: id("r"), level_of_detail: 2 }];
    let (count, buf) = octree.get_nodes_as_binary_blob(&requests, &store).unwrap();
    assert_eq!(count, 150);
    let colors = &buf[4 + 12 * count..];
    assert_eq!(colors.len(), 4 * count);
    for k in 0..count {
        assert_eq!(colors[4 * k + 3], 255);
    }
}

#[test]
fn node_without_points_gives_an_empty_record() {
    let octree = octree_with(&[("r", 0)]);
    let store = [NodePoints { id: id("r"), points: vec![] }];
    let requests = [NodesToBlob { id: id("r"), level_of_detail: 4 }];
    let (count, buf) = octree.get_nodes_as_binary_blob(&requests, &store).unwrap();
    assert_eq!(count, 0);
    assert_eq!(buf, vec![0, 0, 0, 0]);
}

#[test]
fn records_follow_the_order_of_the_requests() {
    let octree = octree_with(&[("r", 5), ("r1", 4), ("r13", 9)]);
    let a = points(5);
    let b: Vec<Point> = points(20).split_off(16);
    let c: Vec<Point> = points(40).split_off(31);
    let store = [
        NodePoints { id: id("r13"), points: c.clone() },
        NodePoints { id: id("r"), points: a.clone() },
        NodePoints { id: id("r1"), points: b.clone() },
    ];
    let requests = [
        NodesToBlob { id: id("r1"), level_of_detail: 3 },
        NodesToBlob { id: id("r13"), level_of_detail: 2 },
        NodesToBlob { id: id("r"), level_of_detail: 1 },
        NodesToBlob { id: id("r1"), level_of_detail: 1 },
    ];
    let (count, buf) = octree.get_nodes_as_binary_blob(&requests, &store).unwrap();
    assert_eq!(count, 2 + 5 + 5 + 4);
    assert_eq!(buf.len(), 4 * requests.len() + 16 * count);
    let mut expected = expected_record(&b, 3);
    expected.extend(expected_record(&c, 2));
    expected.extend(expected_record(&a, 1));
    expected.extend(expected_record(&b, 1));
    assert_eq!(buf, expected);
}

#[test]
fn node_absent_from_the_index_fails_the_batch() {
    let octree = octree_with(&[("r", 5)]);
    let store = [
        NodePoints { id: id("r"), points: points(5) },
        NodePoints { id: id("r4"), points: points(5) },
    ];
    let requests = [
        NodesToBlob { id: id("r"), level_of_detail: 1 },
        NodesToBlob { id: id("r4"), level_of_detail: 1 },
    ];
    assert_eq!(octree.get_nodes_as_binary_blob(&requests, &store), Err(Error::NodeRead));
}

#[test]
fn node_whose_points_were_not_read_fails_the_batch() {
    let octree = octree_with(&[("r", 5), ("r4", 5)]);
    let store = [NodePoints { id: id("r"), points: points(5) }];
    let requests = [
        NodesToBlob { id: id("r"), level_of_detail: 1 },
        NodesToBlob { id: id("r4"), level_of_detail: 1 },
    ];
    assert_eq!(octree.get_nodes_as_binary_blob(&requests, &store), Err(Error::NodeRead));
    assert_eq!(octree.get_nodes_as_binary_blob(&requests, &[]), Err(Error::NodeRead));
}

#[test]
fn first_entry_of_the_store_counts() {
    let store = [
        NodePoints { id: id("r2"), points: points(3) },
        NodePoints { id: id("r2"), points: points(9) },
    ];
    assert_eq!(find_points(&store, &id("r2")).map(|p| p.len()), Some(3));
    assert!(find_points(&store, &id("r")).is_none());
}

#[test]
fn encode_node_appends_to_what_is_there() {
    let mut buf = vec![9u8, 8, 7];
    let all = points(5);
    let kept = encode_node(&mut buf, &all, 2);
    assert_eq!(kept, 3);
    let mut expected = vec![9u8, 8, 7];
    expected.extend(expected_record(&all, 2));
    assert_eq!(buf, expected);
}

#[test]
fn batches_with_a_stride_below_one_do_not_fit() {
    let store = [NodePoints { id: id("r"), points: points(5) }];
    let good = [NodesToBlob { id: id("r"), level_of_detail: 1 }];
    assert!(octree::blob::batch_fits(&good, &store));
    assert!(octree::blob::batch_fits(&[], &store));
    assert!(octree::blob::batch_fits(&good, &[]));
    let zero = [
        NodesToBlob { id: id("r"), level_of_detail: 1 },
        NodesToBlob { id: id("r"), level_of_detail: 0 },
    ];
    assert!(!octree::blob::batch_fits(&zero, &store));
    let negative = [NodesToBlob { id: id("r"), level_of_detail: -3 }];
    assert!(!octree::blob::batch_fits(&negative, &store));
}
