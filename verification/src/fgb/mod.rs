//! FlatGeobuf writing: the packed Hilbert R-tree index, feature property
//! buffers, schema inference and the assembly of the final byte buffer.
//!
//! A file is the magic bytes, the size-prefixed header, the serialized index
//! and then the features, each a size-prefixed buffer, in Hilbert order. Each
//! leaf of the index holds the byte offset of its feature within the feature
//! section.

pub mod header;
pub mod hilbert;
pub mod index;
pub mod properties;
pub mod curve;

use hilbert::{BoxBits, IndexNode};
use index::{build_flattened_tree, flattened_tree_ok, levels_top_down, seq_sum, serialize, total_nodes, tree_bytes, NODE_SIZE};
use core::ops::Range;
use vstd::prelude::*;
use vstd::slice::slice_to_vec;

verus! {

/// The eight bytes every FlatGeobuf file of this version starts with.
pub open spec fn magic_bytes() -> Seq<u8> {
    seq![0x66u8, 0x67u8, 0x62u8, 0x03u8, 0x66u8, 0x67u8, 0x62u8, 0x00u8]
}

/// A feature ready to be written: its encoded buffer and its bounding box.
#[derive(Debug)]
pub struct EncodedFeature {
    pub bytes: Vec<u8>,
    pub bbox: BoxBits,
}

/// The feature section: the features' buffers one after another.
pub open spec fn features_bytes(fs: Seq<EncodedFeature>) -> Seq<u8>
    decreases fs.len(),
{
    if fs.len() == 0 {
        Seq::empty()
    } else {
        features_bytes(fs.drop_last()) + fs.last().bytes@
    }
}

/// The leaf nodes of the index: each feature's box with the offset of its
/// buffer in the feature section.
pub open spec fn leaf_nodes(fs: Seq<EncodedFeature>) -> Seq<IndexNode> {
    Seq::new(
        fs.len(),
        |i: int| IndexNode { offset: features_bytes(fs.take(i)).len() as usize, bbox: fs[i].bbox },
    )
}

/// The level ranges of an index with `n` leaves and fan-out `ns`: the levels
/// from the root down, one after another.
pub open spec fn level_bounds_ok(bounds: Seq<Range<usize>>, n: usize, ns: usize) -> bool {
    let levels = levels_top_down(n, ns);
    &&& bounds.len() == levels.len()
    &&& forall|i: int|
        0 <= i < bounds.len() ==> (#[trigger] bounds[i]).start == seq_sum(levels.take(i))
            && bounds[i].end == bounds[i].start + levels[i]
}

/// Writes a FlatGeobuf file from its encoded header and its features in
/// Hilbert order: the magic bytes, the header, the index built over the
/// features' boxes (with `merge` expanding one box by another) and the
/// features' buffers.
pub fn write<F: Fn(BoxBits, BoxBits) -> BoxBits>(
    header: &Vec<u8>,
    features: &Vec<EncodedFeature>,
    merge: F,
) -> (r: Vec<u8>)
    requires
        features@.len() >= 1,
        total_nodes(features.len(), NODE_SIZE as usize) + NODE_SIZE <= usize::MAX,
        forall|a: BoxBits, b: BoxBits| call_requires(merge, (a, b)),
    ensures
        exists|bounds: Seq<Range<usize>>, tree: Seq<IndexNode>|
            {
                &&& level_bounds_ok(bounds, features.len(), NODE_SIZE as usize)
                &&& #[trigger] flattened_tree_ok(
                    merge,
                    leaf_nodes(features@),
                    bounds,
                    NODE_SIZE as usize,
                    tree,
                )
                &&& r@ == magic_bytes() + header@ + tree_bytes(tree) + features_bytes(features@)
            },
{
    let mut buffer: Vec<u8> = vec![0x66, 0x67, 0x62, 0x03, 0x66, 0x67, 0x62, 0x00];
    let mut head = slice_to_vec(header.as_slice());
    buffer.append(&mut head);
    let mut features_buffer: Vec<u8> = Vec::new();
    let mut leaves: Vec<IndexNode> = Vec::new();
    let mut i: usize = 0;
    while i < features.len()
        invariant
            i <= features@.len(),
            features_buffer@ == features_bytes(features@.take(i as int)),
            leaves@ == leaf_nodes(features@.take(i as int)),
        decreases features@.len() - i,
    {
        let f = &features[i];
        let ghost before = leaves@;
        leaves.push(IndexNode { offset: features_buffer.len(), bbox: f.bbox });
        let mut part = slice_to_vec(f.bytes.as_slice());
        features_buffer.append(&mut part);
        proof {
            let t = features@.take(i + 1);
            assert(t.drop_last() =~= features@.take(i as int));
            assert forall|k: int| 0 <= k < i + 1 implies t.take(k) =~= features@.take(k) by {}
            assert(leaves@ =~= leaf_nodes(t)) by {
                assert forall|k: int| 0 <= k < i + 1 implies #[trigger] leaves@[k] == leaf_nodes(t)[k] by {
                    if k < i {
                        assert(features@.take(i as int).take(k) =~= features@.take(k));
                    }
                }
            }
        }
        i = i + 1;
    }
    assert(features@.take(i as int) =~= features@);
    let (meta, tree) = build_flattened_tree(leaves, NODE_SIZE, merge);
    let ghost tree_view = tree@;
    let ghost bounds = meta.level_bounds@;
    let mut index_bytes = serialize(tree);
    buffer.append(&mut index_bytes);
    buffer.append(&mut features_buffer);
    assert(buffer@ =~= magic_bytes() + header@ + tree_bytes(tree_view) + features_bytes(features@));
    assert(level_bounds_ok(bounds, features.len(), NODE_SIZE as usize));
    buffer
}

} // verus!
