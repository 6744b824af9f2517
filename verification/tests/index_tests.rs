use geoq::fgb::hilbert::{u64_from_bytes, BoxBits, IndexNode, EXPECTED_8_BYTES, NOT_ENOUGH_NODE_BYTES};
use geoq::fgb::index::{build_flattened_tree, calculate_level_bounds, serialize, NODE_SIZE};
use geoq::fgb::EncodedFeature;

fn bits(min_x: f64, min_y: f64, max_x: f64, max_y: f64) -> BoxBits {
    BoxBits {
        min_x: min_x.to_bits(),
        min_y: min_y.to_bits(),
        max_x: max_x.to_bits(),
        max_y: max_y.to_bits(),
    }
}

fn expand(a: BoxBits, b: BoxBits) -> BoxBits {
    let f = f64::from_bits;
    BoxBits {
        min_x: f(a.min_x).min(f(b.min_x)).to_bits(),
        min_y: f(a.min_y).min(f(b.min_y)).to_bits(),
        max_x: f(a.max_x).max(f(b.max_x)).to_bits(),
        max_y: f(a.max_y).max(f(b.max_y)).to_bits(),
    }
}

#[test]
fn test_level_bounds() {
    let a = calculate_level_bounds(179, NODE_SIZE);
    assert_eq!(a.num_features, 179);
    assert_eq!(a.num_nodes, 192);
    assert_eq!(a.num_nodes_per_level, vec![1, 12, 179]);
    assert_eq!(a.level_bounds, vec![0..1, 1..13, 13..192]);

    let b = calculate_level_bounds(15, NODE_SIZE);
    assert_eq!(b.num_features, 15);
    assert_eq!(b.num_nodes, 16);
    assert_eq!(b.num_nodes_per_level, vec![1, 15]);
    assert_eq!(b.level_bounds, vec![0..1, 1..16]);

    let c = calculate_level_bounds(100000, NODE_SIZE);
    assert_eq!(c.num_features, 100000);
    assert_eq!(c.num_nodes, 106669);
    assert_eq!(c.num_nodes_per_level, vec![1, 2, 25, 391, 6250, 100000]);
    assert_eq!(
        c.level_bounds,
        vec![0..1, 1..3, 3..28, 28..419, 419..6669, 6669..106669]
    );
}

#[test]
fn test_building_index() {
    let nodes = vec![
        IndexNode { bbox: bits(11.0, -29.0, 25.0, -16.0), offset: 0 },
        IndexNode { bbox: bits(16.0, -34.0, 32.0, -22.0), offset: 100 },
    ];
    let extent = bits(11.0, -34.0, 32.0, -16.0);
    let idx = build_flattened_tree(nodes.clone(), NODE_SIZE, expand);

    assert_eq!(&extent, &idx.1[0].bbox);
    assert_eq!(&nodes[0].bbox, &idx.1[1].bbox);
    assert_eq!(&nodes[1].bbox, &idx.1[2].bbox);

    assert_eq!(idx.0.num_features, 2);
    assert_eq!(idx.0.num_nodes, 3);
    assert_eq!(idx.0.level_bounds.len(), 2);
    assert_eq!(idx.0.num_nodes_per_level, vec![1, 2]);
}

#[test]
fn level_bounds_single_feature() {
    let m = calculate_level_bounds(1, NODE_SIZE);
    assert_eq!(m.num_nodes_per_level, vec![1, 1]);
    assert_eq!(m.level_bounds, vec![0..1, 1..2]);
    assert_eq!(m.num_nodes, 2);
}

#[test]
fn level_bounds_exact_multiple_of_node_size() {
    let m = calculate_level_bounds(256, NODE_SIZE);
    assert_eq!(m.num_nodes_per_level, vec![1, 16, 256]);
    assert_eq!(m.level_bounds, vec![0..1, 1..17, 17..273]);
}

#[test]
fn inner_nodes_point_at_first_child() {
    let nodes: Vec<IndexNode> = (0..20)
        .map(|i| IndexNode { bbox: bits(i as f64, 0.0, i as f64 + 1.0, 1.0), offset: i * 10 })
        .collect();
    let (meta, tree) = build_flattened_tree(nodes.clone(), NODE_SIZE, expand);
    assert_eq!(meta.num_nodes_per_level, vec![1, 2, 20]);
    assert_eq!(tree.len(), 23);
    // root covers both level-1 nodes, which start at position 1
    assert_eq!(tree[0].offset, 1);
    // level-1 nodes start at leaf positions 3 and 19 and cover all their
    // children: leaves 0..16 and 16..20
    assert_eq!(tree[1].offset, 3);
    assert_eq!(tree[1].bbox, bits(0.0, 0.0, 16.0, 1.0));
    assert_eq!(tree[2].offset, 19);
    assert_eq!(tree[2].bbox, bits(16.0, 0.0, 20.0, 1.0));
    assert_eq!(tree[0].bbox, bits(0.0, 0.0, 20.0, 1.0));
    for i in 0..20 {
        assert_eq!(tree[3 + i], nodes[i]);
    }
}

#[test]
fn serialized_nodes_read_back() {
    let nodes = vec![
        IndexNode { bbox: bits(1.5, -2.0, 3.0, 4.25), offset: 7 },
        IndexNode { bbox: bits(-180.0, -90.0, 180.0, 90.0), offset: 123456 },
    ];
    let bytes = serialize(nodes.clone());
    assert_eq!(bytes.len(), 80);
    assert_eq!(&bytes[0..8], &1.5f64.to_le_bytes());
    assert_eq!(&bytes[32..40], &7u64.to_le_bytes());
    assert_eq!(IndexNode::from_bytes(&bytes[0..40]).unwrap(), nodes[0]);
    assert_eq!(IndexNode::from_bytes(&bytes[40..80]).unwrap(), nodes[1]);
}

#[test]
fn node_from_too_few_bytes() {
    let bytes = [0u8; 39];
    assert_eq!(IndexNode::from_bytes(&bytes), Err(NOT_ENOUGH_NODE_BYTES));
}

#[test]
fn u64_from_eight_bytes_only() {
    assert_eq!(u64_from_bytes(&[1, 0, 0, 0, 0, 0, 0, 1]), Ok(0x0100_0000_0000_0001));
    assert_eq!(u64_from_bytes(&[1, 2, 3]), Err(EXPECTED_8_BYTES));
    assert_eq!(u64_from_bytes(&[0; 9]), Err(EXPECTED_8_BYTES));
}

#[test]
fn write_lays_out_magic_header_index_features() {
    let header = vec![9u8, 9, 9];
    let features = vec![
        EncodedFeature { bytes: vec![1, 2, 3, 4], bbox: bits(0.0, 0.0, 1.0, 1.0) },
        EncodedFeature { bytes: vec![5, 6], bbox: bits(2.0, 2.0, 3.0, 3.0) },
    ];
    let out = geoq::fgb::write(&header, &features, expand);
    assert_eq!(&out[0..8], &[0x66, 0x67, 0x62, 0x03, 0x66, 0x67, 0x62, 0x00]);
    assert_eq!(&out[8..11], &[9, 9, 9]);
    // root and two leaves: 3 nodes of 40 bytes
    let index = &out[11..131];
    let root = IndexNode::from_bytes(&index[0..40]).unwrap();
    assert_eq!(root.offset, 1);
    assert_eq!(root.bbox, bits(0.0, 0.0, 3.0, 3.0));
    let first = IndexNode::from_bytes(&index[40..80]).unwrap();
    let second = IndexNode::from_bytes(&index[80..120]).unwrap();
    assert_eq!(first.offset, 0);
    assert_eq!(second.offset, 4);
    assert_eq!(&out[131..], &[1, 2, 3, 4, 5, 6]);
}

#[test]
fn last_inner_node_covers_its_leaves() {
    let nodes: Vec<IndexNode> = (0..179)
        .map(|i| IndexNode { bbox: bits(i as f64, 0.0, i as f64 + 1.0, 1.0), offset: i * 10 })
        .collect();
    let (meta, tree) = build_flattened_tree(nodes.clone(), NODE_SIZE, expand);
    assert_eq!(meta.level_bounds, vec![0..1, 1..13, 13..192]);
    // node 12 takes leaves 189..192, node 11 leaves 173..189
    assert_eq!(tree[12].offset, 189);
    assert_eq!(tree[12].bbox, bits(176.0, 0.0, 179.0, 1.0));
    assert_eq!(tree[11].offset, 173);
    assert_eq!(tree[11].bbox, bits(160.0, 0.0, 176.0, 1.0));
    assert_eq!(tree[0].bbox, bits(0.0, 0.0, 179.0, 1.0));
}
