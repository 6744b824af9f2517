//! Index nodes of the packed R-tree and their byte form.
//!
//! A serialized node is 40 bytes: the four coordinates of its bounding box as
//! little-endian IEEE-754 doubles, then its offset as a little-endian 64-bit
//! integer. The library handles the coordinates as the raw bit patterns of
//! those doubles, which is all the byte form needs.
use super::curve::{interleaved, lemma_interleaved_is_index, stage_final};
use vstd::bytes::*;
use vstd::prelude::*;

verus! {

/// A bounding box held as the IEEE-754 bit patterns of its coordinates
/// (`f64::to_bits`).
#[derive(Debug, Clone, Copy, PartialEq, Eq)]
pub struct BoxBits {
    pub min_x: u64,
    pub min_y: u64,
    pub max_x: u64,
    pub max_y: u64,
}

/// A node of the flattened index tree: for a leaf, the byte offset of its
/// feature in the feature section; for an inner node, the position of its
/// first child.
#[derive(Debug, Clone, Copy, PartialEq, Eq)]
pub struct IndexNode {
    pub offset: usize,
    pub bbox: BoxBits,
}

/// The 40 bytes a node is stored as.
pub open spec fn node_bytes(n: IndexNode) -> Seq<u8> {
    spec_u64_to_le_bytes(n.bbox.min_x) + spec_u64_to_le_bytes(n.bbox.min_y)
        + spec_u64_to_le_bytes(n.bbox.max_x) + spec_u64_to_le_bytes(n.bbox.max_y)
        + spec_u64_to_le_bytes(n.offset as u64)
}

/// The node read back from the first 40 bytes of `b`.
pub open spec fn node_from_bytes(b: Seq<u8>) -> IndexNode {
    IndexNode {
        offset: spec_u64_from_le_bytes(b.subrange(32, 40)) as usize,
        bbox: BoxBits {
            min_x: spec_u64_from_le_bytes(b.subrange(0, 8)),
            min_y: spec_u64_from_le_bytes(b.subrange(8, 16)),
            max_x: spec_u64_from_le_bytes(b.subrange(16, 24)),
            max_y: spec_u64_from_le_bytes(b.subrange(24, 32)),
        },
    }
}

/// Error message for a slice that is not exactly eight bytes long.
pub const EXPECTED_8_BYTES: &'static str = "Expected 8 bytes for u64.";

/// Error message for fewer than 40 bytes of node data.
pub const NOT_ENOUGH_NODE_BYTES: &'static str = "Not enough bytes for IndexNode";

/// Reads a little-endian `u64` from a slice of exactly eight bytes.
pub fn u64_from_bytes(bytes: &[u8]) -> (r: Result<u64, &'static str>)
    ensures
        r is Ok <==> bytes@.len() == 8,
        r matches Ok(v) ==> v == spec_u64_from_le_bytes(bytes@),
        r matches Err(m) ==> m@ == EXPECTED_8_BYTES@,
{
    if bytes.len() == 8 {
        Ok(u64_from_le_bytes(bytes))
    } else {
        Err(EXPECTED_8_BYTES)
    }
}

/// Reads eight bytes starting at `start` as a little-endian `u64`.
fn read_u64_at(bytes: &[u8], start: usize) -> (v: u64)
    requires
        start + 8 <= bytes@.len(),
    ensures
        v == spec_u64_from_le_bytes(bytes@.subrange(start as int, start + 8)),
{
    let mut chunk: Vec<u8> = Vec::new();
    let mut i: usize = start;
    let len = bytes.len();
    assert(start + 8 <= len);
    let end = start + 8;
    while i < end
        invariant
            start <= i <= end,
            end == start + 8,
            end <= bytes@.len(),
            chunk@ == bytes@.subrange(start as int, i as int),
        decreases end - i,
    {
        chunk.push(bytes[i]);
        assert(chunk@ =~= bytes@.subrange(start as int, i + 1));
        i = i + 1;
    }
    u64_from_le_bytes(chunk.as_slice())
}

impl IndexNode {
    /// Reads a node from the first 40 bytes of `bytes`.
    pub fn from_bytes(bytes: &[u8]) -> (r: Result<IndexNode, &'static str>)
        ensures
            r is Ok <==> bytes@.len() >= 40,
            r matches Ok(n) ==> n == node_from_bytes(bytes@),
            r matches Err(m) ==> m@ == NOT_ENOUGH_NODE_BYTES@,
    {
        if bytes.len() < 40 {
            return Err(NOT_ENOUGH_NODE_BYTES);
        }
        let min_x = read_u64_at(bytes, 0);
        let min_y = read_u64_at(bytes, 8);
        let max_x = read_u64_at(bytes, 16);
        let max_y = read_u64_at(bytes, 24);
        let offset = read_u64_at(bytes, 32) as usize;
        Ok(IndexNode { offset, bbox: BoxBits { min_x, min_y, max_x, max_y } })
    }
}

/// Reading a node back from its 40 bytes gives the node again.
pub proof fn lemma_node_roundtrip(n: IndexNode)
    ensures
        node_bytes(n).len() == 40,
        node_from_bytes(node_bytes(n)) == n,
{
    lemma_auto_spec_u64_to_from_le_bytes();
    let b = node_bytes(n);
    assert(b.subrange(0, 8) =~= spec_u64_to_le_bytes(n.bbox.min_x));
    assert(b.subrange(8, 16) =~= spec_u64_to_le_bytes(n.bbox.min_y));
    assert(b.subrange(16, 24) =~= spec_u64_to_le_bytes(n.bbox.max_x));
    assert(b.subrange(24, 32) =~= spec_u64_to_le_bytes(n.bbox.max_y));
    assert(b.subrange(32, 40) =~= spec_u64_to_le_bytes(n.offset as u64));
}

/// Side of the Hilbert grid: coordinates run from 0 to 65535.
pub const HILBERT_SIDE: u32 = 65536;

/// Four to the power `k`: the number of grid cells in a quadrant `k` levels
/// down.
pub open spec fn pow4(k: nat) -> nat
    decreases k,
{
    if k == 0 {
        1
    } else {
        4 * pow4((k - 1) as nat)
    }
}

/// The quadrant digit of a point at level `k` (bit `k` of its coordinates):
/// 0 lower left, 1 upper left, 2 upper right, 3 lower right.
pub open spec fn quadrant(x: u32, y: u32, k: u32) -> nat {
    let rx = (x >> k) & 1u32;
    let ry = (y >> k) & 1u32;
    if rx == 1 {
        if ry == 1 {
            2
        } else {
            3
        }
    } else {
        if ry == 1 {
            1
        } else {
            0
        }
    }
}

/// The coordinates after the quadrant's turn at level `k`: the lower
/// quadrants are reflected across a diagonal of the grid (the lower right one
/// across the anti-diagonal), the upper ones left as they are.
pub open spec fn rotate(x: u32, y: u32, k: u32) -> (u32, u32) {
    let rx = (x >> k) & 1u32;
    let ry = (y >> k) & 1u32;
    if ry == 0 {
        if rx == 1 {
            (0xffffu32 ^ y, 0xffffu32 ^ x)
        } else {
            (y, x)
        }
    } else {
        (x, y)
    }
}

/// The position of a point along the Hilbert curve through the cells of its
/// levels below `k`.
pub open spec fn hilbert_from(x: u32, y: u32, k: nat) -> nat
    decreases k,
{
    if k == 0 {
        0
    } else {
        let k1 = (k - 1) as nat;
        let (x1, y1) = rotate(x, y, k1 as u32);
        quadrant(x, y, k1 as u32) * pow4(k1) + hilbert_from(x1, y1, k1)
    }
}

/// The position of a grid cell along the Hilbert curve that fills the
/// 65536 x 65536 grid.
pub open spec fn hilbert_index(x: u32, y: u32) -> nat {
    hilbert_from(x, y, 16)
}

/// The bits of `v` below bit `k`.
pub open spec fn low_bits(v: u32, k: u32) -> u32 {
    v & (((1u32 << k) - 1) as u32)
}

/// Two numbers whose bit `k` agree but whose bits below `k + 1` differ
/// already differ below `k`.
proof fn lemma_low_bits_step(v: u32, w: u32, k: u32)
    requires
        k < 16,
        (v >> k) & 1u32 == (w >> k) & 1u32,
        low_bits(v, (k + 1) as u32) != low_bits(w, (k + 1) as u32),
    ensures
        low_bits(v, k) != low_bits(w, k),
{
    assert(v & (((1u32 << (k + 1) as u32) - 1) as u32) != w & (((1u32 << (k + 1) as u32) - 1) as u32)
        && (v >> k) & 1u32 == (w >> k) & 1u32 ==> v & (((1u32 << k) - 1) as u32) != w & (((1u32
        << k) - 1) as u32)) by (bit_vector)
        requires
            k < 16,
    ;
}

/// Complementing the low sixteen bits keeps two numbers' low bits apart.
proof fn lemma_low_bits_complement(v: u32, w: u32, k: u32)
    requires
        k <= 16,
        low_bits(v, k) != low_bits(w, k),
    ensures
        low_bits(0xffffu32 ^ v, k) != low_bits(0xffffu32 ^ w, k),
{
    assert(v & (((1u32 << k) - 1) as u32) != w & (((1u32 << k) - 1) as u32) ==> (0xffffu32 ^ v) & (
    ((1u32 << k) - 1) as u32) != (0xffffu32 ^ w) & (((1u32 << k) - 1) as u32)) by (bit_vector)
        requires
            k <= 16,
    ;
}

/// A point's position through the cells of its levels below `k` is less
/// than the number of those cells.
proof fn lemma_hilbert_from_bound(x: u32, y: u32, k: nat)
    ensures
        hilbert_from(x, y, k) < pow4(k),
    decreases k,
{
    if k > 0 {
        let k1 = (k - 1) as nat;
        let (x1, y1) = rotate(x, y, k1 as u32);
        lemma_hilbert_from_bound(x1, y1, k1);
        let q = quadrant(x, y, k1 as u32);
        let h = hilbert_from(x1, y1, k1);
        let p = pow4(k1);
        assert(q * p + h < 4 * p) by (nonlinear_arith)
            requires
                q <= 3,
                h < p,
        ;
    }
}

/// Points apart in their bits below `k` have different positions through
/// the cells of those levels.
proof fn lemma_hilbert_from_injective(x: u32, y: u32, x2: u32, y2: u32, k: nat)
    requires
        k <= 16,
        low_bits(x, k as u32) != low_bits(x2, k as u32) || low_bits(y, k as u32) != low_bits(
            y2,
            k as u32,
        ),
    ensures
        hilbert_from(x, y, k) != hilbert_from(x2, y2, k),
    decreases k,
{
    if k == 0 {
        assert(low_bits(x, 0) == 0 && low_bits(x2, 0) == 0 && low_bits(y, 0) == 0 && low_bits(y2, 0)
            == 0) by (bit_vector);
    } else {
        let k1 = (k - 1) as nat;
        let kb = k1 as u32;
        let (x1, y1) = rotate(x, y, kb);
        let (u1, v1) = rotate(x2, y2, kb);
        lemma_hilbert_from_bound(x1, y1, k1);
        lemma_hilbert_from_bound(u1, v1, k1);
        let q1 = quadrant(x, y, kb);
        let q2 = quadrant(x2, y2, kb);
        let h1 = hilbert_from(x1, y1, k1);
        let h2 = hilbert_from(u1, v1, k1);
        let p = pow4(k1);
        assert(hilbert_from(x, y, k) == q1 * p + h1);
        assert(hilbert_from(x2, y2, k) == q2 * p + h2);
        if q1 != q2 {
            assert(q1 * p + h1 != q2 * p + h2) by (nonlinear_arith)
                requires
                    q1 != q2,
                    h1 < p,
                    h2 < p,
            ;
        } else {
            assert((x >> kb) & 1u32 <= 1 && (y >> kb) & 1u32 <= 1 && (x2 >> kb) & 1u32 <= 1 && (y2
                >> kb) & 1u32 <= 1) by (bit_vector);
            assert((x >> kb) & 1u32 == (x2 >> kb) & 1u32);
            assert((y >> kb) & 1u32 == (y2 >> kb) & 1u32);
            assert(kb + 1 == k);
            if low_bits(x, k as u32) != low_bits(x2, k as u32) {
                lemma_low_bits_step(x, x2, kb);
            } else {
                lemma_low_bits_step(y, y2, kb);
            }
            if (y >> kb) & 1u32 == 0 && (x >> kb) & 1u32 == 1 {
                if low_bits(x, kb) != low_bits(x2, kb) {
                    lemma_low_bits_complement(x, x2, kb);
                } else {
                    lemma_low_bits_complement(y, y2, kb);
                }
            }
            lemma_hilbert_from_injective(x1, y1, u1, v1, k1);
        }
    }
}

/// Law: the curve visits each cell of the 65536 x 65536 grid at its own
/// position, below 2^32: no two cells share a position.
pub proof fn lemma_hilbert_injective(x: u32, y: u32, x2: u32, y2: u32)
    requires
        x < HILBERT_SIDE,
        y < HILBERT_SIDE,
        x2 < HILBERT_SIDE,
        y2 < HILBERT_SIDE,
        x != x2 || y != y2,
    ensures
        hilbert_index(x, y) != hilbert_index(x2, y2),
        hilbert_index(x, y) < 0x1_0000_0000,
{
    assert(forall|v: u32| v < 65536u32 ==> #[trigger] (v & (((1u32 << 16u32) - 1) as u32)) == v)
        by (bit_vector);
    assert(low_bits(x, 16) == x && low_bits(x2, 16) == x2 && low_bits(y, 16) == y && low_bits(y2, 16)
        == y2);
    lemma_hilbert_from_injective(x, y, x2, y2, 16);
    lemma_hilbert_from_bound(x, y, 16);
    reveal_with_fuel(pow4, 17);
}

/// Two grid cells side by side: one coordinate equal, the other one apart.
pub open spec fn adjacent(a1: int, b1: int, a2: int, b2: int) -> bool {
    ||| a1 == a2 && (b1 - b2 == 1 || b2 - b1 == 1)
    ||| b1 == b2 && (a1 - a2 == 1 || a2 - a1 == 1)
}

/// The bits below `k` are the bit `k - 1`, worth half the span, and the
/// bits below it.
proof fn lemma_low_split(v: u32, k: u32)
    requires
        1 <= k <= 16,
    ensures
        low_bits(v, k) as int == ((v >> (k - 1) as u32) & 1u32) as int * ((1u32 << (k - 1) as u32)
            as int) + low_bits(v, (k - 1) as u32) as int,
        (1u32 << k) as int == 2 * ((1u32 << (k - 1) as u32) as int),
        low_bits(v, (k - 1) as u32) < (1u32 << (k - 1) as u32),
        (v >> (k - 1) as u32) & 1u32 <= 1,
{
    assert(v & (((1u32 << k) - 1) as u32) == ((v >> (k - 1) as u32) & 1u32) * (1u32 << (k - 1) as u32)
        + (v & (((1u32 << (k - 1) as u32) - 1) as u32))) by (bit_vector)
        requires
            1 <= k <= 16,
    ;
    assert((1u32 << k) == 2 * (1u32 << (k - 1) as u32) && v & (((1u32 << (k - 1) as u32) - 1) as u32)
        < (1u32 << (k - 1) as u32) && (v >> (k - 1) as u32) & 1u32 <= 1) by (bit_vector)
        requires
            1 <= k <= 16,
    ;
}

/// Complementing the low sixteen bits mirrors the bits below `k`.
proof fn lemma_low_mirror(v: u32, k: u32)
    requires
        k <= 16,
    ensures
        low_bits(0xffffu32 ^ v, k) as int == (1u32 << k) as int - 1 - low_bits(v, k) as int,
{
    assert((0xffffu32 ^ v) & (((1u32 << k) - 1) as u32) == (((1u32 << k) - 1) as u32) - (v & (((1u32
        << k) - 1) as u32)) && (1u32 << k) >= 1) by (bit_vector)
        requires
            k <= 16,
    ;
}

/// Nothing lies below bit 0.
proof fn lemma_low_none(v: u32)
    ensures
        low_bits(v, 0) == 0,
        (1u32 << 0u32) == 1,
{
    assert(v & (((1u32 << 0u32) - 1) as u32) == 0 && (1u32 << 0u32) == 1) by (bit_vector);
}

/// Every level has cells.
proof fn lemma_pow4_positive(k: nat)
    ensures
        pow4(k) > 0,
    decreases k,
{
    if k > 0 {
        lemma_pow4_positive((k - 1) as nat);
    }
}

/// The curve through the levels below `k` starts at the corner cell.
proof fn lemma_hilbert_start(x: u32, y: u32, k: nat)
    requires
        k <= 16,
        hilbert_from(x, y, k) == 0,
    ensures
        low_bits(x, k as u32) == 0,
        low_bits(y, k as u32) == 0,
    decreases k,
{
    if k == 0 {
        lemma_low_none(x);
        lemma_low_none(y);
    } else {
        let k1 = (k - 1) as nat;
        let kb = k1 as u32;
        let (x1, y1) = rotate(x, y, kb);
        let q = quadrant(x, y, kb);
        let p = pow4(k1);
        let h = hilbert_from(x1, y1, k1);
        lemma_pow4_positive(k1);
        assert(q == 0 && h == 0) by (nonlinear_arith)
            requires
                q * p + h == 0,
                p > 0,
                q >= 0,
                h >= 0,
        ;
        lemma_hilbert_start(x1, y1, k1);
        lemma_low_split(x, k as u32);
        lemma_low_split(y, k as u32);
    }
}

/// The curve through the levels below `k` ends at the last cell of the
/// bottom row.
proof fn lemma_hilbert_end(x: u32, y: u32, k: nat)
    requires
        k <= 16,
        hilbert_from(x, y, k) + 1 == pow4(k),
    ensures
        low_bits(x, k as u32) as int == (1u32 << k as u32) as int - 1,
        low_bits(y, k as u32) == 0,
    decreases k,
{
    if k == 0 {
        lemma_low_none(x);
        lemma_low_none(y);
    } else {
        let k1 = (k - 1) as nat;
        let kb = k1 as u32;
        let (x1, y1) = rotate(x, y, kb);
        let q = quadrant(x, y, kb);
        let p = pow4(k1);
        let h = hilbert_from(x1, y1, k1);
        lemma_hilbert_from_bound(x1, y1, k1);
        assert(q == 3 && h + 1 == p) by (nonlinear_arith)
            requires
                q * p + h + 1 == 4 * p,
                h < p,
                q <= 3,
                h >= 0,
        ;
        lemma_hilbert_end(x1, y1, k1);
        lemma_low_split(x, k as u32);
        lemma_low_split(y, k as u32);
        lemma_low_mirror(x, kb);
        lemma_low_mirror(y, kb);
    }
}

/// Consecutive positions on the curve through the levels below `k` are
/// neighbouring cells.
proof fn lemma_hilbert_from_neighbors(x: u32, y: u32, x2: u32, y2: u32, k: nat)
    requires
        k <= 16,
        hilbert_from(x2, y2, k) == hilbert_from(x, y, k) + 1,
    ensures
        adjacent(
            low_bits(x, k as u32) as int,
            low_bits(y, k as u32) as int,
            low_bits(x2, k as u32) as int,
            low_bits(y2, k as u32) as int,
        ),
    decreases k,
{
    if k == 0 {
        lemma_hilbert_from_bound(x2, y2, 0);
    } else {
        let k1 = (k - 1) as nat;
        let kb = k1 as u32;
        let (x1, y1) = rotate(x, y, kb);
        let (u1, v1) = rotate(x2, y2, kb);
        let q1 = quadrant(x, y, kb);
        let q2 = quadrant(x2, y2, kb);
        let p = pow4(k1);
        let h1 = hilbert_from(x1, y1, k1);
        let h2 = hilbert_from(u1, v1, k1);
        lemma_hilbert_from_bound(x1, y1, k1);
        lemma_hilbert_from_bound(u1, v1, k1);
        assert((q1 == q2 && h2 == h1 + 1) || (q2 == q1 + 1 && h1 + 1 == p && h2 == 0))
            by (nonlinear_arith)
            requires
                q2 * p + h2 == q1 * p + h1 + 1,
                h1 < p,
                h2 < p,
                h1 >= 0,
                h2 >= 0,
        ;
        lemma_low_split(x, k as u32);
        lemma_low_split(y, k as u32);
        lemma_low_split(x2, k as u32);
        lemma_low_split(y2, k as u32);
        lemma_low_mirror(x, kb);
        lemma_low_mirror(y, kb);
        lemma_low_mirror(x2, kb);
        lemma_low_mirror(y2, kb);
        if q1 == q2 && h2 == h1 + 1 {
            lemma_hilbert_from_neighbors(x1, y1, u1, v1, k1);
        } else {
            lemma_hilbert_end(x1, y1, k1);
            lemma_hilbert_start(u1, v1, k1);
        }
    }
}

/// Law: consecutive positions along the curve over the 65536 x 65536 grid
/// are neighbouring cells.
pub proof fn lemma_hilbert_neighbors(x: u32, y: u32, x2: u32, y2: u32)
    requires
        x < HILBERT_SIDE,
        y < HILBERT_SIDE,
        x2 < HILBERT_SIDE,
        y2 < HILBERT_SIDE,
        hilbert_index(x2, y2) == hilbert_index(x, y) + 1,
    ensures
        adjacent(x as int, y as int, x2 as int, y2 as int),
{
    assert(forall|v: u32| v < 65536u32 ==> #[trigger] (v & (((1u32 << 16u32) - 1) as u32)) == v)
        by (bit_vector);
    assert(low_bits(x, 16) == x && low_bits(x2, 16) == x2 && low_bits(y, 16) == y && low_bits(y2, 16)
        == y2);
    lemma_hilbert_from_neighbors(x, y, x2, y2, 16);
}

/// The position of a grid cell along the Hilbert curve filling the
/// 65536 x 65536 grid, evaluated for all sixteen levels at once: the
/// levels' swap-and-complement maps are composed in four doubling steps,
/// and the digits' bits are then interleaved.
pub fn hilbert(x: u32, y: u32) -> (r: u32)
    ensures
        x < HILBERT_SIDE && y < HILBERT_SIDE ==> r == hilbert_index(x, y),
{
    let mut a = x ^ y;
    let mut b = 0xFFFF ^ a;
    let mut c = 0xFFFF ^ (x | y);
    let mut d = x & (y ^ 0xFFFF);

    let mut aa = a | (b >> 1);
    let mut bb = (a >> 1) ^ a;
    let mut cc = ((c >> 1) ^ (b & (d >> 1))) ^ c;
    let mut dd = ((a & (c >> 1)) ^ (d >> 1)) ^ d;

    a = aa;
    b = bb;
    c = cc;
    d = dd;
    aa = (a & (a >> 2)) ^ (b & (b >> 2));
    bb = (a & (b >> 2)) ^ (b & ((a ^ b) >> 2));
    cc ^= (a & (c >> 2)) ^ (b & (d >> 2));
    dd ^= (b & (c >> 2)) ^ ((a ^ b) & (d >> 2));

    a = aa;
    b = bb;
    c = cc;
    d = dd;
    aa = (a & (a >> 4)) ^ (b & (b >> 4));
    bb = (a & (b >> 4)) ^ (b & ((a ^ b) >> 4));
    cc ^= (a & (c >> 4)) ^ (b & (d >> 4));
    dd ^= (b & (c >> 4)) ^ ((a ^ b) & (d >> 4));

    a = aa;
    b = bb;
    c = cc;
    d = dd;
    cc ^= (a & (c >> 8)) ^ (b & (d >> 8));
    dd ^= (b & (c >> 8)) ^ ((a ^ b) & (d >> 8));

    a = cc ^ (cc >> 1);
    b = dd ^ (dd >> 1);

    let mut i0 = x ^ y;
    let mut i1 = b | (0xFFFF ^ (i0 | a));

    i0 = (i0 | (i0 << 8)) & 0x00FF00FF;
    i0 = (i0 | (i0 << 4)) & 0x0F0F0F0F;
    i0 = (i0 | (i0 << 2)) & 0x33333333;
    i0 = (i0 | (i0 << 1)) & 0x55555555;

    i1 = (i1 | (i1 << 8)) & 0x00FF00FF;
    i1 = (i1 | (i1 << 4)) & 0x0F0F0F0F;
    i1 = (i1 | (i1 << 2)) & 0x33333333;
    i1 = (i1 | (i1 << 1)) & 0x55555555;

    let value = (i1 << 1) | i0;
    proof {
        let w = stage_final(x, y);
        assert(cc == w.2 && dd == w.3);
        assert(value == interleaved(x, y));
        if x < HILBERT_SIDE && y < HILBERT_SIDE {
            lemma_interleaved_is_index(x, y);
        }
    }
    value
}

/// The order of (key, position) pairs: by key, then by position.
pub open spec fn pair_le(a: (u32, usize), b: (u32, usize)) -> bool {
    a.0 < b.0 || (a.0 == b.0 && a.1 <= b.1)
}

/// Pairs in non-decreasing order.
pub open spec fn pairs_sorted(s: Seq<(u32, usize)>) -> bool {
    forall|i: int, j: int| 0 <= i < j < s.len() ==> pair_le(#[trigger] s[i], #[trigger] s[j])
}

/// `slice::sort` on (key, position) pairs: the same pairs, in the
/// lexicographic order of tuples (the order `Ord` gives tuples of integers).
#[verifier::external_body]
fn sort_pairs(v: &mut Vec<(u32, usize)>)
    ensures
        final(v)@.to_multiset() == old(v)@.to_multiset(),
        pairs_sorted(final(v)@),
{
    v.sort()
}

/// Each position paired with its key.
pub open spec fn keyed(keys: Seq<u32>) -> Seq<(u32, usize)> {
    Seq::new(keys.len(), |i: int| (keys[i], i as usize))
}

/// The positions `order` lists, each paired with its key.
pub open spec fn keyed_order(keys: Seq<u32>, order: Seq<usize>) -> Seq<(u32, usize)> {
    order.map_values(|i: usize| (keys[i as int], i))
}

/// The positions of the keys in the order a stable sort by key puts them:
/// by key, and equal keys in their original order.
pub fn hilbert_sort_order(keys: &Vec<u32>) -> (r: Vec<usize>)
    ensures
        r@.len() == keys@.len(),
        forall|i: int| 0 <= i < r@.len() ==> (#[trigger] r@[i]) < keys@.len(),
        pairs_sorted(keyed_order(keys@, r@)),
        keyed_order(keys@, r@).to_multiset() == keyed(keys@).to_multiset(),
{
    let mut pairs: Vec<(u32, usize)> = Vec::new();
    let mut i: usize = 0;
    while i < keys.len()
        invariant
            i <= keys@.len(),
            pairs@ == keyed(keys@).take(i as int),
        decreases keys@.len() - i,
    {
        pairs.push((keys[i], i));
        assert(pairs@ =~= keyed(keys@).take(i + 1));
        i = i + 1;
    }
    assert(keyed(keys@).take(i as int) =~= keyed(keys@));
    sort_pairs(&mut pairs);
    let ghost sorted = pairs@;
    proof {
        broadcast use vstd::seq_lib::group_to_multiset_ensures;
        assert(sorted.len() == sorted.to_multiset().len());
        assert(keyed(keys@).len() == keyed(keys@).to_multiset().len());
        assert forall|j: int| 0 <= j < sorted.len() implies (#[trigger] sorted[j]).1 < keys@.len()
            && sorted[j].0 == keys@[sorted[j].1 as int] by {
            assert(sorted.contains(sorted[j]));
            assert(sorted.to_multiset().count(sorted[j]) > 0);
            assert(keyed(keys@).contains(sorted[j]));
        }
    }
    let mut order: Vec<usize> = Vec::new();
    let mut j: usize = 0;
    while j < pairs.len()
        invariant
            j <= sorted.len(),
            pairs@ == sorted,
            sorted.len() == keys@.len(),
            order@.len() == j,
            forall|m: int| 0 <= m < j ==> (#[trigger] order@[m]) == sorted[m].1,
        decreases sorted.len() - j,
    {
        order.push(pairs[j].1);
        j = j + 1;
    }
    proof {
        assert(keyed_order(keys@, order@) =~= sorted);
    }
    order
}

} // verus!
