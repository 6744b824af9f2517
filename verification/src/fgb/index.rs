//! Layout of the packed Hilbert R-tree index stored in a FlatGeobuf file.
//!
//! The tree is stored level by level, root first; every level holds one node
//! per `node_size` nodes of the level below (rounded up), and the bottom level
//! holds one node per feature.
use super::hilbert::{lemma_node_roundtrip, node_bytes, node_from_bytes, BoxBits, IndexNode};
use core::ops::Range;
use vstd::bytes::*;
use vstd::prelude::*;

verus! {

/// Default fan-out of the index tree.
pub const NODE_SIZE: u16 = 16;

/// Bytes taken by one serialized index node: 4 doubles for the bounding box
/// and one 64-bit byte offset.
pub const NODE_STORAGE_BYTES: usize = 40;

/// Number of parent nodes needed to cover `n` nodes with fan-out `ns`
/// (the ceiling of `n / ns`).
pub open spec fn parent_count(n: usize, ns: usize) -> usize
    recommends
        ns > 0,
{
    if n % ns == 0 {
        (n / ns) as usize
    } else {
        (n / ns + 1) as usize
    }
}

/// The inputs for which the level computation terminates: at least one feature
/// and a fan-out that shrinks every level (a fan-out of one only works for a
/// single feature).
pub open spec fn tree_inputs_ok(num_features: usize, node_size: usize) -> bool {
    &&& num_features >= 1
    &&& node_size >= 1
    &&& (node_size >= 2 || num_features == 1)
}

/// Level sizes of the tree for `n` leaves, from the leaves up to the root.
pub open spec fn levels_bottom_up(n: usize, ns: usize) -> Seq<usize>
    decreases n,
{
    if n == 0 || ns == 0 {
        seq![]
    } else if parent_count(n, ns) == 1 {
        seq![n, 1]
    } else if parent_count(n, ns) < n {
        seq![n] + levels_bottom_up(parent_count(n, ns), ns)
    } else {
        seq![]
    }
}

/// Level sizes of the tree for `n` leaves, from the root down to the leaves.
pub open spec fn levels_top_down(n: usize, ns: usize) -> Seq<usize> {
    levels_bottom_up(n, ns).reverse()
}

/// Sum of a sequence of sizes.
pub open spec fn seq_sum(s: Seq<usize>) -> int
    decreases s.len(),
{
    if s.len() == 0 {
        0
    } else {
        seq_sum(s.drop_last()) + s.last()
    }
}

/// Total number of nodes of the tree for `n` leaves and fan-out `ns`.
pub open spec fn total_nodes(n: usize, ns: usize) -> int {
    seq_sum(levels_bottom_up(n, ns))
}

/// Shape of the index tree: number of features and nodes, the node count of
/// each level (root first) and the range of node positions each level takes
/// in the flattened tree.
#[derive(Debug)]
pub struct RTreeIndexMeta {
    pub num_features: usize,
    pub num_nodes: usize,
    pub num_nodes_per_level: Vec<usize>,
    pub level_bounds: Vec<Range<usize>>,
}

proof fn lemma_seq_sum_push(s: Seq<usize>, x: usize)
    ensures
        seq_sum(s.push(x)) == seq_sum(s) + x,
{
    assert(s.push(x).drop_last() =~= s);
}

proof fn lemma_seq_sum_nonneg(s: Seq<usize>)
    ensures
        seq_sum(s) >= 0,
    decreases s.len(),
{
    if s.len() > 0 {
        lemma_seq_sum_nonneg(s.drop_last());
    }
}

/// The sum of a prefix is at most the sum of the whole sequence.
proof fn lemma_seq_sum_prefix(s: Seq<usize>, i: int)
    requires
        0 <= i <= s.len(),
    ensures
        seq_sum(s.take(i)) <= seq_sum(s),
        0 <= seq_sum(s.take(i)),
    decreases s.len() - i,
{
    lemma_seq_sum_nonneg(s.take(i));
    if i < s.len() {
        lemma_seq_sum_prefix(s, i + 1);
        assert(s.take(i + 1).drop_last() =~= s.take(i));
    } else {
        assert(s.take(i) =~= s);
    }
}

/// Summing a sequence gives the same result in either order.
proof fn lemma_seq_sum_reverse(s: Seq<usize>)
    ensures
        seq_sum(s.reverse()) == seq_sum(s),
    decreases s.len(),
{
    if s.len() > 0 {
        let t = s.drop_last();
        lemma_seq_sum_reverse(t);
        lemma_seq_sum_first(s.reverse());
        assert(s.reverse().drop_first() =~= t.reverse());
    }
}

proof fn lemma_seq_sum_first(s: Seq<usize>)
    requires
        s.len() > 0,
    ensures
        seq_sum(s) == s[0] + seq_sum(s.drop_first()),
    decreases s.len(),
{
    if s.len() > 1 {
        lemma_seq_sum_first(s.drop_last());
        assert(s.drop_last().drop_first() =~= s.drop_first().drop_last());
        assert(s.drop_first().last() == s.last());
        assert(s.drop_last()[0] == s[0]);
        assert(seq_sum(s) == seq_sum(s.drop_last()) + s.last());
        assert(seq_sum(s.drop_first()) == seq_sum(s.drop_first().drop_last()) + s.drop_first().last());
    } else {
        assert(s.drop_first().len() == 0);
        assert(s.drop_last().len() == 0);
        assert(seq_sum(s.drop_last()) == 0);
        assert(seq_sum(s.drop_first()) == 0);
        assert(seq_sum(s) == seq_sum(s.drop_last()) + s.last());
    }
}

/// The parent count of a level is positive, and smaller than the level
/// itself unless it is the root.
proof fn lemma_parent_count(n: usize, ns: usize)
    requires
        tree_inputs_ok(n, ns),
    ensures
        parent_count(n, ns) >= 1,
        parent_count(n, ns) == 1 || parent_count(n, ns) < n,
        n / ns + 1 <= usize::MAX,
{
    let q = n / ns;
    let r = n % ns;
    assert(n == ns * q + r && 0 <= r < ns) by {
        vstd::arithmetic::div_mod::lemma_fundamental_div_mod(n as int, ns as int);
    }
    if ns >= 2 {
        assert(q <= n / 2) by {
            vstd::arithmetic::div_mod::lemma_div_is_ordered_by_denominator(n as int, 2, ns as int);
        }
        if r == 0 {
            assert(q >= 1) by (nonlinear_arith)
                requires
                    n == ns * q,
                    n >= 1,
                    ns >= 2,
                    q >= 0,
            ;
        }
    } else {
        assert(n == 1 && ns == 1);
    }
    assert(q + 1 <= usize::MAX);
    assert(parent_count(n, ns) == if r == 0 { q as int } else { q + 1 });
    if ns >= 2 && n >= 2 && r != 0 && q >= 1 {
        assert(n >= 3) by (nonlinear_arith)
            requires
                n == ns * q + r,
                ns >= 2,
                q >= 1,
                r >= 1,
        ;
    }
}

/// Every level of the tree, read bottom-up, is the parent count of the level
/// below it, the first level holds the leaves and the last one is the root.
proof fn lemma_bottom_up_shape(n: usize, ns: usize)
    requires
        tree_inputs_ok(n, ns),
    ensures
        levels_bottom_up(n, ns).len() >= 2,
        levels_bottom_up(n, ns)[0] == n,
        levels_bottom_up(n, ns).last() == 1,
        forall|i: int|
            0 <= i < levels_bottom_up(n, ns).len() - 1 ==> #[trigger] levels_bottom_up(n, ns)[i + 1]
                == parent_count(levels_bottom_up(n, ns)[i], ns),
        forall|i: int|
            0 <= i < levels_bottom_up(n, ns).len() ==> 1 <= #[trigger] levels_bottom_up(n, ns)[i]
                <= n,
    decreases n,
{
    let p = parent_count(n, ns);
    lemma_parent_count(n, ns);
    if p != 1 {
        lemma_bottom_up_shape(p, ns);
        let rest = levels_bottom_up(p, ns);
        let s = levels_bottom_up(n, ns);
        assert(s =~= seq![n] + rest);
        assert forall|i: int| 0 <= i < s.len() - 1 implies #[trigger] s[i + 1] == parent_count(
            s[i],
            ns,
        ) by {
            if i > 0 {
                assert(s[i] == rest[i - 1]);
                assert(s[i + 1] == rest[(i - 1) + 1]);
            }
        }
        assert forall|i: int| 0 <= i < s.len() implies 1 <= #[trigger] s[i] <= n by {
            if i > 0 {
                assert(s[i] == rest[i - 1]);
            }
        }
    }
}

/// Shape of the index tree, root first: at least two levels, a single root
/// node, one leaf per feature, and every level is the parent count of the
/// level below it.
pub proof fn lemma_levels_shape(num_features: usize, node_size: usize)
    requires
        tree_inputs_ok(num_features, node_size),
    ensures
        levels_top_down(num_features, node_size).len() >= 2,
        levels_top_down(num_features, node_size)[0] == 1,
        levels_top_down(num_features, node_size).last() == num_features,
        forall|i: int|
            0 <= i < levels_top_down(num_features, node_size).len() - 1 ==> #[trigger] levels_top_down(
                num_features,
                node_size,
            )[i] == parent_count(levels_top_down(num_features, node_size)[i + 1], node_size),
{
    lemma_bottom_up_shape(num_features, node_size);
    let b = levels_bottom_up(num_features, node_size);
    let t = levels_top_down(num_features, node_size);
    assert forall|i: int| 0 <= i < t.len() - 1 implies #[trigger] t[i] == parent_count(
        t[i + 1],
        node_size,
    ) by {
        let j = b.len() - 2 - i;
        assert(t[i] == b[j + 1]);
        assert(t[i + 1] == b[j]);
    }
}

/// Computes the shape of the tree needed to index `num_features` features with
/// fan-out `node_size`: the node count of each level (root first), the
/// position range of each level in the flattened tree and the total number of
/// nodes.
pub fn calculate_level_bounds(num_features: usize, node_size: u16) -> (meta: RTreeIndexMeta)
    requires
        tree_inputs_ok(num_features, node_size as usize),
        total_nodes(num_features, node_size as usize) <= usize::MAX,
    ensures
        meta.num_features == num_features,
        meta.num_nodes_per_level@ == levels_top_down(num_features, node_size as usize),
        meta.num_nodes == total_nodes(num_features, node_size as usize),
        meta.num_nodes == seq_sum(meta.num_nodes_per_level@),
        meta.level_bounds@.len() == meta.num_nodes_per_level@.len(),
        forall|i: int|
            0 <= i < meta.level_bounds@.len() ==> {
                &&& (#[trigger] meta.level_bounds@[i]).start == seq_sum(
                    meta.num_nodes_per_level@.take(i),
                )
                &&& meta.level_bounds@[i].end == meta.level_bounds@[i].start
                    + meta.num_nodes_per_level@[i]
            },
        meta.level_bounds@[0].start == 0,
        meta.level_bounds@.last().end == meta.num_nodes,
        forall|i: int|
            0 <= i < meta.level_bounds@.len() - 1 ==> (#[trigger] meta.level_bounds@[i]).end
                == meta.level_bounds@[i + 1].start,
{
    let ns64 = node_size as usize;
    let ghost full = levels_bottom_up(num_features, ns64);
    proof {
        lemma_bottom_up_shape(num_features, ns64);
    }

    let mut bottom_up: Vec<usize> = Vec::new();
    let mut current_level_size = num_features;
    loop
        invariant_except_break
            bottom_up@ + levels_bottom_up(current_level_size, ns64) == full,
        invariant
            tree_inputs_ok(current_level_size, ns64),
            ns64 == node_size as usize,
        ensures
            bottom_up@ == full,
        decreases current_level_size,
    {
        proof {
            lemma_bottom_up_shape(current_level_size, ns64);
            lemma_parent_count(current_level_size, ns64);
        }
        let ghost before = bottom_up@;
        bottom_up.push(current_level_size);

        let next_level_size = if current_level_size % ns64 == 0 {
            current_level_size / ns64
        } else {
            current_level_size / ns64 + 1
        };

        if next_level_size == 1 {
            bottom_up.push(next_level_size);
            assert(bottom_up@ =~= before + levels_bottom_up(current_level_size, ns64));
            break ;
        } else {
            assert(levels_bottom_up(current_level_size, ns64) =~= seq![current_level_size]
                + levels_bottom_up(next_level_size, ns64));
            assert(bottom_up@ + levels_bottom_up(next_level_size, ns64) =~= before
                + levels_bottom_up(current_level_size, ns64));
            current_level_size = next_level_size;
        }
    }

    let ghost top_down = full.reverse();
    let mut nodes_per_level: Vec<usize> = Vec::new();
    let mut k = bottom_up.len();
    while k > 0
        invariant
            k <= bottom_up.len(),
            bottom_up@ == full,
            top_down == full.reverse(),
            nodes_per_level@ =~= top_down.take(full.len() - k),
        decreases k,
    {
        k = k - 1;
        assert(top_down[full.len() - 1 - k] == full[k as int]);
        assert(top_down.take(full.len() - k) =~= top_down.take(full.len() - 1 - k).push(full[k as int]));
        nodes_per_level.push(bottom_up[k]);
    }
    assert(nodes_per_level@ =~= top_down);

    proof {
        lemma_seq_sum_reverse(full);
        lemma_seq_sum_prefix(top_down, top_down.len() as int);
    }
    let mut nodes_so_far: usize = 0;
    let mut level_bounds: Vec<Range<usize>> = Vec::new();
    let mut i: usize = 0;
    while i < nodes_per_level.len()
        invariant
            i <= nodes_per_level.len(),
            nodes_per_level@ == top_down,
            seq_sum(top_down) == seq_sum(full),
            seq_sum(full) <= usize::MAX,
            nodes_so_far == seq_sum(top_down.take(i as int)),
            level_bounds@.len() == i,
            forall|j: int|
                0 <= j < i ==> {
                    &&& (#[trigger] level_bounds@[j]).start == seq_sum(top_down.take(j))
                    &&& level_bounds@[j].end == level_bounds@[j].start + top_down[j]
                },
        decreases nodes_per_level.len() - i,
    {
        proof {
            lemma_seq_sum_prefix(top_down, i + 1);
            assert(top_down.take(i + 1) =~= top_down.take(i as int).push(top_down[i as int]));
            lemma_seq_sum_push(top_down.take(i as int), top_down[i as int]);
        }
        let end = nodes_per_level[i] + nodes_so_far;
        level_bounds.push(Range { start: nodes_so_far, end: end });
        nodes_so_far = end;
        i = i + 1;
    }
    assert(top_down.take(top_down.len() as int) =~= top_down);
    proof {
        lemma_levels_shape(num_features, ns64);
        assert forall|j: int| 0 <= j < level_bounds@.len() - 1 implies (#[trigger] level_bounds@[
            j
        ]).end == level_bounds@[j + 1].start by {
            assert(top_down.take(j + 1) =~= top_down.take(j).push(top_down[j]));
            lemma_seq_sum_push(top_down.take(j), top_down[j]);
        }
        assert(top_down.take(0) =~= Seq::<usize>::empty());
        let last = level_bounds@.len() - 1;
        assert(top_down.take(last + 1) =~= top_down.take(last).push(top_down[last]));
        lemma_seq_sum_push(top_down.take(last), top_down[last]);
    }
    RTreeIndexMeta {
        num_features,
        num_nodes: nodes_so_far,
        num_nodes_per_level: nodes_per_level,
        level_bounds,
    }
}


/// The bit patterns of the empty bounding box: minima at +infinity and
/// maxima at -infinity, so that any box expands it to itself.
pub open spec fn empty_box() -> BoxBits {
    BoxBits {
        min_x: 0x7ff0_0000_0000_0000,
        min_y: 0x7ff0_0000_0000_0000,
        max_x: 0xfff0_0000_0000_0000,
        max_y: 0xfff0_0000_0000_0000,
    }
}

/// Returns the empty bounding box.
pub fn empty_box_bits() -> (b: BoxBits)
    ensures
        b == empty_box(),
{
    BoxBits {
        min_x: 0x7ff0_0000_0000_0000,
        min_y: 0x7ff0_0000_0000_0000,
        max_x: 0xfff0_0000_0000_0000,
        max_y: 0xfff0_0000_0000_0000,
    }
}

/// The relation between two boxes and a result that one call of `merge` on
/// the two boxes may give.
pub open spec fn merge_rel<F: Fn(BoxBits, BoxBits) -> BoxBits>(merge: F) -> spec_fn(
    BoxBits,
    BoxBits,
    BoxBits,
) -> bool {
    |a: BoxBits, b: BoxBits, r: BoxBits| call_ensures(merge, (a, b), r)
}

/// `acc` lists the successive results of expanding the first box of `boxes`
/// by each of the others in turn: it starts at the first box, and each step
/// is a triple of `rel`.
pub open spec fn fold_chain(
    rel: spec_fn(BoxBits, BoxBits, BoxBits) -> bool,
    boxes: Seq<BoxBits>,
    acc: Seq<BoxBits>,
) -> bool {
    &&& acc.len() == boxes.len()
    &&& boxes.len() > 0 ==> acc[0] == boxes[0]
    &&& forall|i: int| 1 <= i < boxes.len() ==> #[trigger] rel(acc[i - 1], boxes[i], acc[i])
}

/// `r` is a possible result of expanding the first box of `boxes` by each of
/// the others in turn; for no box at all it is the empty box.
pub open spec fn folds(
    rel: spec_fn(BoxBits, BoxBits, BoxBits) -> bool,
    boxes: Seq<BoxBits>,
    r: BoxBits,
) -> bool {
    if boxes.len() == 0 {
        r == empty_box()
    } else {
        exists|acc: Seq<BoxBits>| #[trigger] fold_chain(rel, boxes, acc) && acc.last() == r
    }
}

/// The bounding boxes of the nodes at positions `s..e` of a tree.
pub open spec fn boxes_of(tree: Seq<IndexNode>, s: int, e: int) -> Seq<BoxBits> {
    tree.subrange(s, e).map_values(|n: IndexNode| n.bbox)
}

/// The range of positions whose boxes make up the box of node `k` of level
/// `level`: its slice of `node_size` children on the next level, cut at the
/// end of that level.
pub open spec fn node_children(bounds: Seq<Range<usize>>, ns: usize, level: int, k: int) -> (
    int,
    int,
) {
    let child = bounds[level + 1];
    let s = child.start + k * ns;
    let e = if s + ns < child.end {
        s + ns
    } else {
        child.end as int
    };
    (s, e)
}

/// Node `k` of inner level `level` starts at its first child and holds the
/// combined box of its children.
pub open spec fn inner_node_ok<F: Fn(BoxBits, BoxBits) -> BoxBits>(
    merge: F,
    tree: Seq<IndexNode>,
    bounds: Seq<Range<usize>>,
    ns: usize,
    level: int,
    k: int,
) -> bool {
    let (s, pe) = node_children(bounds, ns, level, k);
    let node = tree[bounds[level].start + k];
    &&& node.offset == s
    &&& folds(merge_rel(merge), boxes_of(tree, s, pe), node.bbox)
}

/// The flattened tree for the given leaves: the last level holds the leaves in
/// order and every node of an upper level is built from its children.
pub open spec fn flattened_tree_ok<F: Fn(BoxBits, BoxBits) -> BoxBits>(
    merge: F,
    leaves: Seq<IndexNode>,
    bounds: Seq<Range<usize>>,
    ns: usize,
    tree: Seq<IndexNode>,
) -> bool {
    let last = bounds.len() - 1;
    &&& tree.len() == bounds[last].end
    &&& forall|i: int| 0 <= i < leaves.len() ==> tree[bounds[last].start + i] == #[trigger] leaves[i]
    &&& forall|l: int, k: int|
        0 <= l < last && 0 <= k < bounds[l].end - bounds[l].start ==> #[trigger] inner_node_ok(
            merge,
            tree,
            bounds,
            ns,
            l,
            k,
        )
}

/// A slice start `k * ns` lies inside a level of `c` nodes when `k` is below
/// the parent count of that level.
proof fn lemma_slice_start(k: int, c: usize, ns: usize)
    requires
        ns >= 1,
        0 <= k < parent_count(c, ns),
    ensures
        k * ns < c,
        k * ns >= 0,
{
    let q = c / ns;
    let r = c % ns;
    assert(c == ns * q + r && 0 <= r < ns) by {
        vstd::arithmetic::div_mod::lemma_fundamental_div_mod(c as int, ns as int);
    }
    assert(k * ns < c && k * ns >= 0) by (nonlinear_arith)
        requires
            c == ns * q + r,
            0 <= r < ns,
            ns >= 1,
            k >= 0,
            r == 0 ==> k < q,
            r != 0 ==> k <= q,
    ;
}

/// Contiguous levels lie one after the other: every level ends before any
/// later level starts.
proof fn lemma_bounds_ordered(bounds: Seq<Range<usize>>, i: int, j: int)
    requires
        0 <= i < j < bounds.len(),
        forall|x: int| 0 <= x < bounds.len() ==> (#[trigger] bounds[x]).start <= bounds[x].end,
        forall|x: int|
            0 <= x < bounds.len() - 1 ==> (#[trigger] bounds[x]).end == bounds[x + 1].start,
    ensures
        bounds[i].end <= bounds[j].start,
    decreases j - i,
{
    if j > i + 1 {
        lemma_bounds_ordered(bounds, i, j - 1);
        assert(bounds[j - 1].end == bounds[j].start);
    }
}

/// A node whose position and children lie at or after `lo` keeps its
/// property when nothing at or after `lo` changes.
proof fn lemma_inner_node_frame<F: Fn(BoxBits, BoxBits) -> BoxBits>(
    merge: F,
    t1: Seq<IndexNode>,
    t2: Seq<IndexNode>,
    bounds: Seq<Range<usize>>,
    ns: usize,
    l: int,
    k: int,
    lo: int,
)
    requires
        t1.len() == t2.len(),
        forall|i: int| lo <= i < t1.len() ==> t1[i] == t2[i],
        bounds[l].start + k >= lo,
        bounds[l].start + k < t1.len(),
        node_children(bounds, ns, l, k).0 >= lo,
        node_children(bounds, ns, l, k).0 <= node_children(bounds, ns, l, k).1 <= t1.len(),
        inner_node_ok(merge, t1, bounds, ns, l, k),
    ensures
        inner_node_ok(merge, t2, bounds, ns, l, k),
{
    let (s, pe) = node_children(bounds, ns, l, k);
    assert(boxes_of(t1, s, pe) =~= boxes_of(t2, s, pe));
}

/// Building level `level` keeps the leaves and the nodes of the lower inner
/// levels as they were.
proof fn lemma_upper_levels_kept<F: Fn(BoxBits, BoxBits) -> BoxBits>(
    merge: F,
    before: Seq<IndexNode>,
    after: Seq<IndexNode>,
    bounds: Seq<Range<usize>>,
    sizes: Seq<usize>,
    ns: usize,
    level: int,
    leaves: Seq<IndexNode>,
)
    requires
        0 <= level < bounds.len() - 1,
        bounds.len() == sizes.len(),
        ns >= 1,
        before.len() == after.len(),
        before.len() == bounds[bounds.len() - 1].end,
        sizes[bounds.len() - 1] == leaves.len(),
        forall|i: int|
            0 <= i < before.len() && !(bounds[level].start <= i < bounds[level].end) ==> after[i]
                == before[i],
        forall|i: int|
            0 <= i < bounds.len() ==> (#[trigger] bounds[i]).end == bounds[i].start + sizes[i],
        forall|i: int|
            0 <= i < bounds.len() - 1 ==> (#[trigger] bounds[i]).end == bounds[i + 1].start,
        forall|i: int|
            0 <= i < sizes.len() - 1 ==> #[trigger] sizes[i] == parent_count(sizes[i + 1], ns),
        forall|i: int|
            0 <= i < leaves.len() ==> before[bounds[bounds.len() - 1].start + i]
                == #[trigger] leaves[i],
        forall|l: int, k: int|
            level < l < bounds.len() - 1 && 0 <= k < bounds[l].end - bounds[l].start
                ==> #[trigger] inner_node_ok(merge, before, bounds, ns, l, k),
    ensures
        forall|i: int|
            0 <= i < leaves.len() ==> after[bounds[bounds.len() - 1].start + i]
                == #[trigger] leaves[i],
        forall|l: int, k: int|
            level < l < bounds.len() - 1 && 0 <= k < bounds[l].end - bounds[l].start
                ==> #[trigger] inner_node_ok(merge, after, bounds, ns, l, k),
{
    let last = bounds.len() - 1;
    let lo = bounds[level].end as int;
    assert forall|x: int| 0 <= x < bounds.len() implies (#[trigger] bounds[x]).start
        <= bounds[x].end by {}
    assert forall|l: int, k: int|
        level < l < last && 0 <= k < bounds[l].end - bounds[l].start
            implies #[trigger] inner_node_ok(merge, after, bounds, ns, l, k) by {
        lemma_bounds_ordered(bounds, level, l);
        lemma_bounds_ordered(bounds, l, l + 1);
        if l + 1 < last {
            lemma_bounds_ordered(bounds, l + 1, last);
        }
        assert(sizes[l] == parent_count(sizes[l + 1], ns));
        lemma_slice_start(k, sizes[l + 1], ns);
        lemma_inner_node_frame(merge, before, after, bounds, ns, l, k, lo);
    }
    assert forall|i: int| 0 <= i < leaves.len() implies after[bounds[last].start + i]
        == #[trigger] leaves[i] by {
        lemma_bounds_ordered(bounds, level, last);
    }
}

/// Expands the box of the first child by the following ones, over the slice
/// `slice_start..slice_end`; for an empty slice, the empty box.
fn fold_children<F: Fn(BoxBits, BoxBits) -> BoxBits>(
    tree: &Vec<IndexNode>,
    slice_start: usize,
    slice_end: usize,
    merge: &F,
) -> (r: BoxBits)
    requires
        slice_start <= slice_end <= tree@.len(),
        forall|a: BoxBits, b: BoxBits| call_requires(*merge, (a, b)),
    ensures
        folds(
            merge_rel(*merge),
            boxes_of(tree@, slice_start as int, slice_end as int),
            r,
        ),
{
    let mut bbox: Option<BoxBits> = None;
    let ghost rel = merge_rel(*merge);
    let ghost mut acc: Seq<BoxBits> = Seq::empty();
    let mut prev_idx = slice_start;
    while prev_idx < slice_end
        invariant
            slice_start <= prev_idx <= slice_end,
            slice_end <= tree@.len(),
            rel == merge_rel(*merge),
            bbox is None ==> prev_idx == slice_start,
            bbox matches Some(b) ==> prev_idx > slice_start && acc.last() == b,
            fold_chain(rel, boxes_of(tree@, slice_start as int, prev_idx as int), acc),
            forall|a: BoxBits, b: BoxBits| call_requires(*merge, (a, b)),
        decreases slice_end - prev_idx,
    {
        let child_box = tree[prev_idx].bbox;
        let ghost prev_boxes = boxes_of(tree@, slice_start as int, prev_idx as int);
        let ghost next_boxes = boxes_of(tree@, slice_start as int, prev_idx + 1);
        assert(next_boxes.drop_last() =~= prev_boxes);
        assert(next_boxes.last() == child_box);
        match bbox {
            Some(b) => {
                let merged = (*merge)(b, child_box);
                proof {
                    let acc2 = acc.push(merged);
                    assert(rel(acc2[acc2.len() - 2], next_boxes[next_boxes.len() - 1], acc2.last()));
                    assert forall|i: int| 1 <= i < next_boxes.len() implies #[trigger] rel(
                        acc2[i - 1],
                        next_boxes[i],
                        acc2[i],
                    ) by {
                        if i < next_boxes.len() - 1 {
                            assert(next_boxes[i] == prev_boxes[i]);
                            assert(rel(acc[i - 1], prev_boxes[i], acc[i]));
                        }
                    }
                    acc = acc2;
                }
                bbox = Some(merged);
            },
            None => {
                proof {
                    acc = seq![child_box];
                }
                bbox = Some(child_box);
            },
        }
        prev_idx = prev_idx + 1;
    }
    match bbox {
        Some(b) => {
            assert(fold_chain(rel, boxes_of(tree@, slice_start as int, prev_idx as int), acc));
            b
        },
        None => empty_box_bits(),
    }
}

/// Builds the flattened index tree over the Hilbert-sorted leaf nodes: the
/// leaves fill the last level in order; every upper node takes the position of
/// its first child as offset and the box obtained by expanding the first
/// child's box by the following ones with `merge`: all its children, the
/// `node_size` nodes from its offset on, cut at the end of the level below.
/// Upper levels are built from the bottom up.
pub fn build_flattened_tree<F: Fn(BoxBits, BoxBits) -> BoxBits>(
    hilbert_sorted_features: Vec<IndexNode>,
    node_size: u16,
    merge: F,
) -> (r: (RTreeIndexMeta, Vec<IndexNode>))
    requires
        tree_inputs_ok(hilbert_sorted_features.len(), node_size as usize),
        total_nodes(hilbert_sorted_features.len(), node_size as usize) + node_size <= usize::MAX,
        forall|a: BoxBits, b: BoxBits| call_requires(merge, (a, b)),
    ensures
        r.0.num_features == hilbert_sorted_features.len(),
        r.0.num_nodes_per_level@ == levels_top_down(
            hilbert_sorted_features.len(),
            node_size as usize,
        ),
        r.0.num_nodes == total_nodes(hilbert_sorted_features.len(), node_size as usize),
        r.0.level_bounds@.len() == r.0.num_nodes_per_level@.len(),
        forall|i: int|
            0 <= i < r.0.level_bounds@.len() ==> {
                &&& (#[trigger] r.0.level_bounds@[i]).start == seq_sum(
                    r.0.num_nodes_per_level@.take(i),
                )
                &&& r.0.level_bounds@[i].end == r.0.level_bounds@[i].start
                    + r.0.num_nodes_per_level@[i]
            },
        flattened_tree_ok(
            merge,
            hilbert_sorted_features@,
            r.0.level_bounds@,
            node_size as usize,
            r.1@,
        ),
{
    let n = hilbert_sorted_features.len();
    let ns = node_size as usize;
    let meta = calculate_level_bounds(n, node_size);
    let ghost bounds = meta.level_bounds@;
    let ghost sizes = meta.num_nodes_per_level@;
    proof {
        lemma_levels_shape(n, ns);
    }
    let nlevels = meta.level_bounds.len();
    let last = nlevels - 1;

    let placeholder = IndexNode { bbox: empty_box_bits(), offset: 0 };
    let mut tree: Vec<IndexNode> = Vec::new();
    while tree.len() < meta.num_nodes
        invariant
            tree@.len() <= meta.num_nodes,
        decreases meta.num_nodes - tree@.len(),
    {
        tree.push(placeholder);
    }

    // The leaves: byte offsets of the features, in Hilbert order.
    let bottom_start = meta.level_bounds[last].start;
    let mut fi: usize = 0;
    while fi < n
        invariant
            fi <= n,
            n == hilbert_sorted_features@.len(),
            tree@.len() == meta.num_nodes,
            bottom_start == bounds[last as int].start,
            bounds[last as int].end == meta.num_nodes,
            bounds[last as int].end == bounds[last as int].start + sizes[last as int],
            sizes[last as int] == n,
            forall|i: int|
                0 <= i < fi ==> tree@[bottom_start + i] == #[trigger] hilbert_sorted_features@[i],
        decreases n - fi,
    {
        tree.set(bottom_start + fi, hilbert_sorted_features[fi]);
        fi = fi + 1;
    }

    // Upper levels, from the one above the leaves up to the root.
    let mut level = last;
    while level > 0
        invariant
            0 <= level <= last,
            last == nlevels - 1,
            nlevels == bounds.len(),
            nlevels >= 2,
            bounds == meta.level_bounds@,
            sizes == meta.num_nodes_per_level@,
            ns == node_size as usize,
            ns >= 1,
            bounds.len() == sizes.len(),
            tree@.len() == meta.num_nodes,
            meta.num_nodes + ns <= usize::MAX,
            bounds[last as int].end == meta.num_nodes,
            sizes[last as int] == n,
            n == hilbert_sorted_features@.len(),
            forall|i: int|
                0 <= i < bounds.len() ==> (#[trigger] bounds[i]).end == bounds[i].start + sizes[i],
            forall|i: int|
                0 <= i < bounds.len() - 1 ==> (#[trigger] bounds[i]).end == bounds[i + 1].start,
            forall|i: int|
                0 <= i < sizes.len() - 1 ==> #[trigger] sizes[i] == parent_count(sizes[i + 1], ns),
            forall|i: int|
                0 <= i < n ==> tree@[bounds[last as int].start + i]
                    == #[trigger] hilbert_sorted_features@[i],
            forall|l: int, k: int|
                level <= l < last && 0 <= k < bounds[l].end - bounds[l].start
                    ==> #[trigger] inner_node_ok(merge, tree@, bounds, ns, l, k),
            forall|a: BoxBits, b: BoxBits| call_requires(merge, (a, b)),
        decreases level,
    {
        level = level - 1;
        let ghost before = tree@;
        build_level(&mut tree, &meta, level, ns, &merge);
        proof {
            lemma_upper_levels_kept(
                merge,
                before,
                tree@,
                bounds,
                sizes,
                ns,
                level as int,
                hilbert_sorted_features@,
            );
        }
    }
    (meta, tree)
}

/// Builds every node of level `level` from its children on the level below,
/// leaving all other positions of the tree as they were.
fn build_level<F: Fn(BoxBits, BoxBits) -> BoxBits>(
    tree: &mut Vec<IndexNode>,
    meta: &RTreeIndexMeta,
    level: usize,
    ns: usize,
    merge: &F,
)
    requires
        level + 1 < meta.level_bounds@.len(),
        meta.level_bounds@.len() == meta.num_nodes_per_level@.len(),
        ns >= 1,
        old(tree)@.len() == meta.num_nodes,
        meta.num_nodes + ns <= usize::MAX,
        meta.level_bounds@[meta.level_bounds@.len() - 1].end == meta.num_nodes,
        forall|i: int|
            0 <= i < meta.level_bounds@.len() ==> (#[trigger] meta.level_bounds@[i]).end
                == meta.level_bounds@[i].start + meta.num_nodes_per_level@[i],
        forall|i: int|
            0 <= i < meta.level_bounds@.len() - 1 ==> (#[trigger] meta.level_bounds@[i]).end
                == meta.level_bounds@[i + 1].start,
        forall|i: int|
            0 <= i < meta.num_nodes_per_level@.len() - 1 ==> #[trigger] meta.num_nodes_per_level@[i]
                == parent_count(meta.num_nodes_per_level@[i + 1], ns),
        forall|a: BoxBits, b: BoxBits| call_requires(*merge, (a, b)),
    ensures
        final(tree)@.len() == old(tree)@.len(),
        forall|i: int|
            0 <= i < old(tree)@.len() && !(meta.level_bounds@[level as int].start <= i
                < meta.level_bounds@[level as int].end) ==> final(tree)@[i] == old(tree)@[i],
        forall|k: int|
            0 <= k < meta.level_bounds@[level as int].end - meta.level_bounds@[level as int].start
                ==> #[trigger] inner_node_ok(*merge, final(tree)@, meta.level_bounds@, ns, level as int, k),
{
    let ghost bounds = meta.level_bounds@;
    let ghost sizes = meta.num_nodes_per_level@;
    proof {
        assert forall|x: int| 0 <= x < bounds.len() implies (#[trigger] bounds[x]).start
            <= bounds[x].end by {}
        if level + 1 < bounds.len() - 1 {
            lemma_bounds_ordered(bounds, level + 1, bounds.len() - 1);
        }
    }
    let nl = meta.level_bounds.len();
    let lb_start = meta.level_bounds[level].start;
    let lb_end = meta.level_bounds[level].end;
    let prev_start = meta.level_bounds[level + 1].start;
    let prev_end = meta.level_bounds[level + 1].end;
    let prev_len = prev_end - prev_start;
    let count = lb_end - lb_start;
    assert(count == parent_count(prev_len, ns));
    let ghost initial = tree@;
    let mut k: usize = 0;
    while k < count
        invariant
            k <= count,
            lb_start == bounds[level as int].start,
            lb_end == bounds[level as int].end,
            prev_start == bounds[level + 1].start,
            prev_end == bounds[level + 1].end,
            prev_len == prev_end - prev_start,
            count == lb_end - lb_start,
            lb_end == prev_start,
            count == parent_count(prev_len, ns),
            prev_end <= tree@.len(),
            tree@.len() == initial.len(),
            initial.len() + ns <= usize::MAX,
            ns >= 1,
            forall|i: int|
                0 <= i < initial.len() && !(lb_start <= i < lb_end) ==> tree@[i] == initial[i],
            forall|k2: int|
                0 <= k2 < k ==> #[trigger] inner_node_ok(
                    *merge,
                    tree@,
                    bounds,
                    ns,
                    level as int,
                    k2,
                ),
            forall|a: BoxBits, b: BoxBits| call_requires(*merge, (a, b)),
        decreases count - k,
    {
        proof {
            lemma_slice_start(k as int, prev_len, ns);
        }
        let slice_start = prev_start + k * ns;
        let slice_end = if slice_start + ns < prev_end {
            slice_start + ns
        } else {
            prev_end
        };
        let node_box = fold_children(tree, slice_start, slice_end, merge);
        let ghost old_tree = tree@;
        tree.set(lb_start + k, IndexNode { bbox: node_box, offset: slice_start });
        proof {
            assert forall|k2: int| 0 <= k2 <= k implies #[trigger] inner_node_ok(
                *merge,
                tree@,
                bounds,
                ns,
                level as int,
                k2,
            ) by {
                lemma_slice_start(k2, prev_len, ns);
                let (s2, pe2) = node_children(bounds, ns, level as int, k2);
                assert(boxes_of(tree@, s2, pe2) =~= boxes_of(old_tree, s2, pe2));
                if k2 < k {
                    assert(inner_node_ok(*merge, old_tree, bounds, ns, level as int, k2));
                }
            }
        }
        k = k + 1;
    }
}

/// The index bytes: each node's 40 bytes, in tree order.
pub open spec fn tree_bytes(nodes: Seq<IndexNode>) -> Seq<u8>
    decreases nodes.len(),
{
    if nodes.len() == 0 {
        Seq::empty()
    } else {
        tree_bytes(nodes.drop_last()) + node_bytes(nodes.last())
    }
}

/// Serializes the flattened tree: each node as 40 bytes, in tree order.
pub fn serialize(flattened_tree: Vec<IndexNode>) -> (r: Vec<u8>)
    ensures
        r@ == tree_bytes(flattened_tree@),
{
    let mut buf: Vec<u8> = Vec::new();
    let mut i: usize = 0;
    while i < flattened_tree.len()
        invariant
            i <= flattened_tree@.len(),
            buf@ == tree_bytes(flattened_tree@.take(i as int)),
        decreases flattened_tree.len() - i,
    {
        let node = flattened_tree[i];
        let mut part = u64_to_le_bytes(node.bbox.min_x);
        buf.append(&mut part);
        let mut part = u64_to_le_bytes(node.bbox.min_y);
        buf.append(&mut part);
        let mut part = u64_to_le_bytes(node.bbox.max_x);
        buf.append(&mut part);
        let mut part = u64_to_le_bytes(node.bbox.max_y);
        buf.append(&mut part);
        let mut part = u64_to_le_bytes(node.offset as u64);
        buf.append(&mut part);
        assert(flattened_tree@.take(i + 1).drop_last() =~= flattened_tree@.take(i as int));
        assert(buf@ =~= tree_bytes(flattened_tree@.take(i + 1)));
        i = i + 1;
    }
    assert(flattened_tree@.take(flattened_tree@.len() as int) =~= flattened_tree@);
    buf
}

/// The bytes of node `i` sit at positions `40 * i .. 40 * i + 40`.
proof fn lemma_tree_bytes_layout(nodes: Seq<IndexNode>, i: int)
    requires
        0 <= i < nodes.len(),
    ensures
        tree_bytes(nodes).len() == 40 * nodes.len(),
        tree_bytes(nodes).subrange(40 * i, 40 * i + 40) == node_bytes(nodes[i]),
    decreases nodes.len(),
{
    lemma_node_roundtrip(nodes.last());
    let rest = nodes.drop_last();
    if rest.len() > 0 {
        lemma_tree_bytes_layout(rest, if i < rest.len() { i } else { 0 });
    } else {
        assert(tree_bytes(rest) =~= Seq::<u8>::empty());
    }
    let t = tree_bytes(nodes);
    assert(t =~= tree_bytes(rest) + node_bytes(nodes.last()));
    if i < rest.len() {
        assert(t.subrange(40 * i, 40 * i + 40) =~= tree_bytes(rest).subrange(40 * i, 40 * i + 40));
        assert(rest[i] == nodes[i]);
    } else {
        assert(t.subrange(40 * i, 40 * i + 40) =~= node_bytes(nodes.last()));
    }
}

/// Reading the serialized index at node `i`'s position gives node `i` back.
pub proof fn lemma_serialize_roundtrip(nodes: Seq<IndexNode>, i: int)
    requires
        0 <= i < nodes.len(),
    ensures
        tree_bytes(nodes).len() == 40 * nodes.len(),
        node_from_bytes(tree_bytes(nodes).skip(40 * i)) == nodes[i],
{
    lemma_tree_bytes_layout(nodes, i);
    lemma_node_roundtrip(nodes[i]);
    let t = tree_bytes(nodes);
    let b = t.skip(40 * i);
    let nb = node_bytes(nodes[i]);
    assert(b.subrange(0, 8) =~= nb.subrange(0, 8));
    assert(b.subrange(8, 16) =~= nb.subrange(8, 16));
    assert(b.subrange(16, 24) =~= nb.subrange(16, 24));
    assert(b.subrange(24, 32) =~= nb.subrange(24, 32));
    assert(b.subrange(32, 40) =~= nb.subrange(32, 40));
}

} // verus!
