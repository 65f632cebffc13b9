use octree::visibility::{
    find_projection, is_large_enough, level_of_detail, projected_area, sort_by_area,
};
use octree::{
    BoundingCube, Meta, NodeFile, NodeId, NodePoints, NodesToBlob, Octree, Point, Projection,
    UseLod, VisibleNode,
};

const PX: u32 = 256;

fn octree_with(names: &[(&str, u64)]) -> Octree {
    let cube = BoundingCube {
        min_x: (-1.0f32).to_bits(),
        min_y: (-1.0f32).to_bits(),
        min_z: (-1.0f32).to_bits(),
        edge_length: 2.0f32.to_bits(),
    };
    let files: Vec<NodeFile> = names
        .iter()
        .map(|(name, points)| NodeFile {
            name: format!("{}.xyz", name).into_bytes(),
            num_bytes: points * 12,
        })
        .collect();
    Octree::new(false, Some(Meta { version: 6, bounding_cube: cube }), &files).unwrap()
}

fn id(name: &str) -> NodeId {
    NodeId::from_string(name).unwrap()
}

fn seen(name: &str, width_px: u32, height_px: u32) -> Projection {
    Projection { id: id(name), width: width_px * PX, height: height_px * PX }
}

fn names(nodes: &[VisibleNode]) -> Vec<String> {
    nodes.iter().map(|n| String::from_utf8(n.id.to_bytes()).unwrap()).collect()
}

#[test]
fn scenario_root_only_without_lod() {
    let octree = octree_with(&[("r", 1000)]);
    let visible = octree.get_visible_nodes(&[seen("r", 256, 256)], UseLod::No);
    assert_eq!(visible.len(), 1);
    assert!(visible[0].id.equals(&NodeId::root()));
    assert_eq!(visible[0].level_of_detail, 1);

    let all: Vec<Point> =
        (0..1000u32).map(|i| Point { x: i, y: i + 1, z: i + 2, r: 1, g: 2, b: 3 }).collect();
    let store = [NodePoints { id: NodeId::root(), points: all }];
    let requests: Vec<NodesToBlob> = visible
        .iter()
        .map(|n| NodesToBlob { id: n.id.clone(), level_of_detail: n.level_of_detail })
        .collect();
    let (count, buf) = octree.get_nodes_as_binary_blob(&requests, &store).unwrap();
    assert_eq!(count, 1000);
    assert_eq!(buf.len(), 4 + 16 * 1000);
}

#[test]
fn scenario_root_only_with_lod() {
    let octree = octree_with(&[("r", 1000)]);
    let visible = octree.get_visible_nodes(&[seen("r", 256, 256)], UseLod::Yes);
    assert_eq!(visible.len(), 1);
    assert!(visible[0].id.equals(&NodeId::root()));
    assert_eq!(visible[0].level_of_detail, 1);
    assert_eq!(projected_area(visible[0].width, visible[0].height), 65536 * 65536);
}

#[test]
fn scenario_nothing_in_the_frustum() {
    let octree = octree_with(&[("r", 1000), ("r0", 10)]);
    assert!(octree.get_visible_nodes(&[], UseLod::No).is_empty());
    assert!(octree.get_visible_nodes(&[], UseLod::Yes).is_empty());
    assert!(octree.get_visible_nodes(&[seen("r0", 100, 100)], UseLod::No).is_empty());
}

#[test]
fn stride_is_points_per_four_pixels_rounded_down() {
    assert_eq!(level_of_detail(UseLod::Yes, 100000, 64 * PX, 64 * PX), 97);
    assert_eq!(level_of_detail(UseLod::Yes, 1024, 64 * PX, 64 * PX), 1);
    assert_eq!(level_of_detail(UseLod::Yes, 2047, 64 * PX, 64 * PX), 1);
    assert_eq!(level_of_detail(UseLod::Yes, 2048, 64 * PX, 64 * PX), 2);
    assert_eq!(level_of_detail(UseLod::Yes, 0, 64 * PX, 64 * PX), 1);
    assert_eq!(level_of_detail(UseLod::Yes, 1000, 256 * PX, 256 * PX), 1);
    assert_eq!(level_of_detail(UseLod::Yes, 360, 12 * PX, 12 * PX), 10);
    assert_eq!(level_of_detail(UseLod::Yes, 900, 3200, 3200), 23);
    assert_eq!(level_of_detail(UseLod::No, 100000, 64 * PX, 64 * PX), 1);
    assert_eq!(level_of_detail(UseLod::No, u64::MAX, 1, 1), 1);
}

#[test]
fn stride_stays_within_its_type() {
    assert_eq!(level_of_detail(UseLod::Yes, u64::MAX, 12 * PX, 12 * PX), i32::MAX);
    assert_eq!(level_of_detail(UseLod::Yes, u64::MAX, 0, 0), 1);
    assert_eq!(level_of_detail(UseLod::Yes, 5, u32::MAX, u32::MAX), 1);
}

#[test]
fn thresholds_are_twelve_pixels_a_side() {
    assert!(is_large_enough(12 * PX, 12 * PX));
    assert!(!is_large_enough(12 * PX - 1, 12 * PX));
    assert!(!is_large_enough(12 * PX, 12 * PX - 1));
    assert!(!is_large_enough(0, 1000 * PX));
    assert!(!is_large_enough(1000 * PX, 0));
    assert!(is_large_enough(u32::MAX, u32::MAX));
    assert_eq!(projected_area(12 * PX, 10 * PX), 120 * 65536);
}

#[test]
fn nothing_is_shown_below_a_pruned_node() {
    let octree = octree_with(&[("r", 100), ("r1", 50), ("r12", 20), ("r3", 10), ("r35", 10)]);
    let in_frustum = [
        seen("r", 400, 400),
        seen("r1", 11, 300),
        seen("r12", 300, 300),
        seen("r35", 200, 200),
    ];
    let visible = octree.get_visible_nodes(&in_frustum, UseLod::No);
    assert_eq!(names(&visible), vec!["r".to_string()]);
}

#[test]
fn nodes_without_data_hide_their_subtree() {
    let octree = octree_with(&[("r", 100), ("r12", 20), ("r3", 7)]);
    let in_frustum =
        [seen("r", 400, 400), seen("r1", 300, 300), seen("r12", 300, 300), seen("r3", 50, 50)];
    let visible = octree.get_visible_nodes(&in_frustum, UseLod::No);
    assert_eq!(names(&visible), vec!["r".to_string(), "r3".to_string()]);
}

#[test]
fn visible_nodes_are_ordered_by_area() {
    let octree = octree_with(&[
        ("r", 100000),
        ("r0", 5000),
        ("r1", 5000),
        ("r7", 5000),
        ("r10", 300),
        ("r16", 300),
    ]);
    let in_frustum = [
        seen("r10", 90, 100),
        seen("r7", 20, 20),
        seen("r", 500, 400),
        seen("r1", 200, 100),
        seen("r0", 100, 300),
        seen("r16", 30, 12),
    ];
    let visible = octree.get_visible_nodes(&in_frustum, UseLod::Yes);
    assert_eq!(names(&visible), vec!["r", "r0", "r1", "r10", "r7", "r16"]);
    for pair in visible.windows(2) {
        assert!(
            projected_area(pair[0].width, pair[0].height)
                >= projected_area(pair[1].width, pair[1].height)
        );
    }
    let strides: Vec<i32> = visible.iter().map(|n| n.level_of_detail).collect();
    assert_eq!(strides, vec![2, 1, 1, 1, 50, 3]);
    for node in &visible {
        assert!(node.level_of_detail >= 1);
    }
    let plain = octree.get_visible_nodes(&in_frustum, UseLod::No);
    assert_eq!(plain.len(), 6);
    for node in &plain {
        assert_eq!(node.level_of_detail, 1);
    }
}

#[test]
fn first_measure_of_a_node_counts() {
    let measures = [seen("r2", 30, 40), seen("r2", 1, 1)];
    assert_eq!(find_projection(&measures, &id("r2")), Some((30 * PX, 40 * PX)));
    assert_eq!(find_projection(&measures, &id("r")), None);
}

#[test]
fn sort_keeps_every_node() {
    let nodes = vec![
        VisibleNode { id: id("r1"), level_of_detail: 1, width: 10, height: 10 },
        VisibleNode { id: id("r2"), level_of_detail: 2, width: 30, height: 10 },
        VisibleNode { id: id("r3"), level_of_detail: 3, width: 10, height: 20 },
        VisibleNode { id: id("r4"), level_of_detail: 4, width: 0, height: 90 },
    ];
    let sorted = sort_by_area(nodes);
    assert_eq!(names(&sorted), vec!["r2", "r3", "r1", "r4"]);
    let strides: Vec<i32> = sorted.iter().map(|n| n.level_of_detail).collect();
    assert_eq!(strides, vec![2, 3, 1, 4]);
}

#[test]
fn every_visible_node_is_in_the_frustum_and_listed_once() {
    let octree = octree_with(&[("r", 10), ("r0", 10), ("r1", 10), ("r2", 10), ("r01", 10)]);
    let in_frustum = [
        seen("r", 100, 100),
        seen("r0", 50, 50),
        seen("r0", 60, 60),
        seen("r01", 25, 25),
        seen("r2", 50, 40),
    ];
    let visible = octree.get_visible_nodes(&in_frustum, UseLod::No);
    assert_eq!(names(&visible), vec!["r", "r0", "r2", "r01"]);
    for node in &visible {
        assert!(find_projection(&in_frustum, &node.id).is_some());
        assert_eq!(find_projection(&in_frustum, &node.id), Some((node.width, node.height)));
        assert!(octree.num_points(&node.id).is_some());
        if let Some(parent) = node.id.parent() {
            assert!(visible.iter().any(|other| other.id.equals(&parent)));
        }
    }
    for (i, a) in visible.iter().enumerate() {
        for b in visible.iter().skip(i + 1) {
            assert!(!a.id.equals(&b.id));
        }
    }
}

#[test]
fn inspect_tells_count_and_extent() {
    let octree = octree_with(&[("r", 10), ("r5", 77)]);
    let in_frustum = [seen("r", 100, 100), seen("r5", 12, 13), seen("r6", 50, 50)];
    assert_eq!(octree.inspect(&in_frustum, &id("r5")), Some((77, 12 * PX, 13 * PX)));
    assert_eq!(octree.inspect(&in_frustum, &id("r6")), None);
    assert_eq!(octree.inspect(&in_frustum, &id("r7")), None);
    assert_eq!(octree.inspect(&[seen("r5", 11, 13)], &id("r5")), None);
}
