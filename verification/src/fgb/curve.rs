//! The bit-parallel evaluation of the Hilbert curve position, and why it
//! agrees with the level-by-level definition.
//!
//! Going down the levels, the coordinates below a level are swapped and/or
//! complemented by the levels above: a state of two flags. Each level maps
//! the state entering it to the state leaving it, and these maps, written
//! as affine maps of the flags `(swap ^ complement, complement)`, compose
//! like 2x2 matrices over GF(2) of the form `[[a, b], [b, a ^ b]]` plus a
//! translation `(c, d)`. The evaluation composes the maps of all levels in
//! four doubling steps, one bit position per level, and reads each level's
//! digit off the state before and after it.
use super::hilbert::{hilbert_from, hilbert_index, pow4, quadrant, rotate};
use vstd::prelude::*;

verus! {

/// Bit `k` of a word.
pub open spec fn bitb(w: u32, k: u32) -> bool {
    (w >> k) & 1u32 == 1u32
}

/// The state after a level whose coordinate bits are `xb`, `yb`, from the
/// state `(s, c)` before it: `s` swaps the coordinates, `c` complements them.
pub open spec fn step(st: (bool, bool), xb: bool, yb: bool) -> (bool, bool) {
    let (s, c) = st;
    let hx = (if s { yb } else { xb }) != c;
    let hy = (if s { xb } else { yb }) != c;
    (s != !hy, c != (!hy && hx))
}

/// The state after levels `j - 1` down to `k`, from the state `st` before
/// them.
pub open spec fn run(x: u32, y: u32, k: u32, j: u32, st: (bool, bool)) -> (bool, bool)
    decreases j - k,
{
    if j <= k {
        st
    } else {
        run(x, y, k, (j - 1) as u32, step(st, bitb(x, (j - 1) as u32), bitb(y, (j - 1) as u32)))
    }
}

/// Running a range of levels is running its upper part, then its lower part.
proof fn lemma_run_split(x: u32, y: u32, k: u32, m: u32, j: u32, st: (bool, bool))
    requires
        k <= m <= j,
    ensures
        run(x, y, k, j, st) == run(x, y, k, m, run(x, y, m, j, st)),
    decreases j - m,
{
    if m < j {
        let st1 = step(st, bitb(x, (j - 1) as u32), bitb(y, (j - 1) as u32));
        lemma_run_split(x, y, k, m, (j - 1) as u32, st1);
    }
}

/// The flags a state is encoded as.
pub open spec fn enc(st: (bool, bool)) -> (bool, bool) {
    (st.0 != st.1, st.1)
}

/// An affine map of encoded states: matrix `[[a, b], [b, a ^ b]]`,
/// translation `(c, d)`.
pub open spec fn app(m: (bool, bool, bool, bool), z: (bool, bool)) -> (bool, bool) {
    let (a, b, c, d) = m;
    (((a && z.0) != (b && z.1)) != c, ((b && z.0) != ((a != b) && z.1)) != d)
}

/// The map that applies `h` and then `l`.
pub open spec fn combine(l: (bool, bool, bool, bool), h: (bool, bool, bool, bool)) -> (
    bool,
    bool,
    bool,
    bool,
) {
    let (a, b, c, d) = l;
    let (a2, b2, c2, d2) = h;
    (
        (a && a2) != (b && b2),
        (a && b2) != (b && (a2 != b2)),
        c != ((a && c2) != (b && d2)),
        d != ((b && c2) != ((a != b) && d2)),
    )
}

/// Applying two maps in turn is applying their combination.
proof fn lemma_combine(l: (bool, bool, bool, bool), h: (bool, bool, bool, bool), z: (bool, bool))
    ensures
        app(l, app(h, z)) == app(combine(l, h), z),
{
}

/// Four words holding, at each bit position, the four flags of a map.
pub type Words = (u32, u32, u32, u32);

/// The flags of the map at bit position `k`.
pub open spec fn bits_at(w: Words, k: u32) -> (bool, bool, bool, bool) {
    (bitb(w.0, k), bitb(w.1, k), bitb(w.2, k), bitb(w.3, k))
}

/// The per-level words the evaluation starts from.
pub open spec fn stage0(x: u32, y: u32) -> Words {
    (x ^ y, 0xffffu32 ^ (x ^ y), 0xffffu32 ^ (x | y), x & (y ^ 0xffffu32))
}

/// The first doubling step: each position takes the map of its own level
/// and the one above.
pub open spec fn stage1(w: Words) -> Words {
    let (a, b, c, d) = w;
    (
        a | (b >> 1u32),
        (a >> 1u32) ^ a,
        ((c >> 1u32) ^ (b & (d >> 1u32))) ^ c,
        ((a & (c >> 1u32)) ^ (d >> 1u32)) ^ d,
    )
}

/// A later doubling step: each position composes its map with the one `s`
/// positions above.
pub open spec fn stage_next(w: Words, s: u32) -> Words {
    let (a, b, c, d) = w;
    (
        (a & (a >> s)) ^ (b & (b >> s)),
        (a & (b >> s)) ^ (b & ((a ^ b) >> s)),
        c ^ ((a & (c >> s)) ^ (b & (d >> s))),
        d ^ ((b & (c >> s)) ^ ((a ^ b) & (d >> s))),
    )
}

/// Every word has no bit at position 16 or above.
pub open spec fn words_small(w: Words) -> bool {
    w.0 < 0x10000u32 && w.1 < 0x10000u32 && w.2 < 0x10000u32 && w.3 < 0x10000u32
}

/// A word below 2^16 has no bit at position 16 or above.
proof fn lemma_high_bits_clear(v: u32, k: u32)
    by (bit_vector)
    requires
        v < 0x10000u32,
        16u32 <= k < 32u32,
    ensures
        !bitb(v, k),
{
}

/// Bits of the starting words.
proof fn lemma_stage0_bits(x: u32, y: u32, k: u32)
    by (bit_vector)
    requires
        x < 0x10000u32,
        y < 0x10000u32,
        k < 32u32,
    ensures
        bitb(x ^ y, k) == (bitb(x, k) != bitb(y, k)),
        bitb(0xffffu32 ^ (x ^ y), k) == (k < 16u32 && !(bitb(x, k) != bitb(y, k))),
        bitb(0xffffu32 ^ (x | y), k) == (k < 16u32 && !(bitb(x, k) || bitb(y, k))),
        bitb(x & (y ^ 0xffffu32), k) == (bitb(x, k) && !bitb(y, k)),
        x ^ y < 0x10000u32,
        0xffffu32 ^ (x ^ y) < 0x10000u32,
        0xffffu32 ^ (x | y) < 0x10000u32,
        x & (y ^ 0xffffu32) < 0x10000u32,
{
}

/// Bits of the first doubling step, from the bits at `k` and `k + 1`.
proof fn lemma_stage1_bits(a: u32, b: u32, c: u32, d: u32, k: u32)
    by (bit_vector)
    requires
        a < 0x10000u32,
        b < 0x10000u32,
        c < 0x10000u32,
        d < 0x10000u32,
        k < 31u32,
    ensures
        bitb(a | (b >> 1u32), k) == (bitb(a, k) || bitb(b, (k + 1) as u32)),
        bitb((a >> 1u32) ^ a, k) == (bitb(a, (k + 1) as u32) != bitb(a, k)),
        bitb(((c >> 1u32) ^ (b & (d >> 1u32))) ^ c, k) == ((bitb(c, (k + 1) as u32) != (bitb(b, k)
            && bitb(d, (k + 1) as u32))) != bitb(c, k)),
        bitb(((a & (c >> 1u32)) ^ (d >> 1u32)) ^ d, k) == (((bitb(a, k) && bitb(c, (k + 1) as u32))
            != bitb(d, (k + 1) as u32)) != bitb(d, k)),
        a | (b >> 1u32) < 0x10000u32,
        (a >> 1u32) ^ a < 0x10000u32,
        ((c >> 1u32) ^ (b & (d >> 1u32))) ^ c < 0x10000u32,
        ((a & (c >> 1u32)) ^ (d >> 1u32)) ^ d < 0x10000u32,
{
}

/// Bits of a later doubling step: the combination of the maps at `k` and
/// `k + s`.
proof fn lemma_stage_next_bits(a: u32, b: u32, c: u32, d: u32, s: u32, k: u32)
    by (bit_vector)
    requires
        a < 0x10000u32,
        b < 0x10000u32,
        c < 0x10000u32,
        d < 0x10000u32,
        s < 16u32,
        k < 16u32,
    ensures
        bitb((a & (a >> s)) ^ (b & (b >> s)), k) == ((bitb(a, k) && bitb(a, (k + s) as u32)) != (bitb(b, k)
            && bitb(b, (k + s) as u32))),
        bitb((a & (b >> s)) ^ (b & ((a ^ b) >> s)), k) == ((bitb(a, k) && bitb(b, (k + s) as u32)) != (
        bitb(b, k) && (bitb(a, (k + s) as u32) != bitb(b, (k + s) as u32)))),
        bitb(c ^ ((a & (c >> s)) ^ (b & (d >> s))), k) == (bitb(c, k) != ((bitb(a, k) && bitb(c, (k + s) as u32)) != (bitb(b, k) && bitb(d, (k + s) as u32)))),
        bitb(d ^ ((b & (c >> s)) ^ ((a ^ b) & (d >> s))), k) == (bitb(d, k) != ((bitb(b, k)
            && bitb(c, (k + s) as u32)) != ((bitb(a, k) != bitb(b, k)) && bitb(d, (k + s) as u32)))),
        (a & (a >> s)) ^ (b & (b >> s)) < 0x10000u32,
        (a & (b >> s)) ^ (b & ((a ^ b) >> s)) < 0x10000u32,
        c ^ ((a & (c >> s)) ^ (b & (d >> s))) < 0x10000u32,
        d ^ ((b & (c >> s)) ^ ((a ^ b) & (d >> s))) < 0x10000u32,
{
}

/// What the words hold at position `k` after composing windows of `width`
/// levels: the whole map of levels `k + width - 1` down to `k` where that
/// window stays below level 16, else (the window reaching the top) the
/// state after level `k` reached from the top.
pub open spec fn map_ok(x: u32, y: u32, w: Words, width: u32, k: u32) -> bool {
    if k + width <= 16 {
        forall|st: (bool, bool)|
            #[trigger] app(bits_at(w, k), enc(st)) == enc(run(x, y, k, (k + width) as u32, st))
    } else {
        (bitb(w.2, k), bitb(w.3, k)) == enc(run(x, y, k, 16, (false, false)))
    }
}

/// The words hold the composed maps for windows of `width` levels.
pub open spec fn stage_ok(x: u32, y: u32, w: Words, width: u32) -> bool {
    &&& words_small(w)
    &&& forall|k: u32| k < 16 ==> #[trigger] map_ok(x, y, w, width, k)
}

/// The first doubling step holds the maps of windows of two levels.
proof fn lemma_stage1_ok(x: u32, y: u32)
    requires
        x < 0x10000u32,
        y < 0x10000u32,
    ensures
        stage_ok(x, y, stage1(stage0(x, y)), 2),
{
    let w0 = stage0(x, y);
    let w1 = stage1(w0);
    lemma_stage0_bits(x, y, 0);
    lemma_stage1_bits(w0.0, w0.1, w0.2, w0.3, 0);
    assert forall|k: u32| k < 16 implies #[trigger] map_ok(x, y, w1, 2, k) by {
        lemma_stage0_bits(x, y, k);
        lemma_stage0_bits(x, y, (k + 1) as u32);
        lemma_stage1_bits(w0.0, w0.1, w0.2, w0.3, k);
        if k + 1 == 16 {
            lemma_high_bits_clear(x, 16);
            lemma_high_bits_clear(y, 16);
        }
        if k + 2 <= 16 {
            assert forall|st: (bool, bool)|
                #[trigger] app(bits_at(w1, k), enc(st)) == enc(run(x, y, k, (k + 2) as u32, st)) by {
                let st1 = step(st, bitb(x, (k + 1) as u32), bitb(y, (k + 1) as u32));
                assert(run(x, y, k, (k + 2) as u32, st) == run(x, y, k, (k + 1) as u32, st1));
                let st2 = step(st1, bitb(x, k), bitb(y, k));
                assert(run(x, y, k, k, st2) == st2);
                assert(run(x, y, k, (k + 1) as u32, st1) == run(x, y, k, k, st2));
            }
        } else {
            let st0 = (false, false);
            let st2 = step(st0, bitb(x, k), bitb(y, k));
            assert(run(x, y, k, k, st2) == st2);
            assert(run(x, y, k, 16, st0) == run(x, y, k, k, st2));
        }
    }
}

/// A later doubling step turns maps of windows of `width` levels into maps
/// of windows of twice as many.
proof fn lemma_stage_next_ok(x: u32, y: u32, w: Words, width: u32)
    requires
        stage_ok(x, y, w, width),
        1 <= width <= 8,
    ensures
        stage_ok(x, y, stage_next(w, width), (2 * width) as u32),
{
    let w2 = stage_next(w, width);
    lemma_stage_next_bits(w.0, w.1, w.2, w.3, width, 0);
    assert forall|k: u32| k < 16 implies #[trigger] map_ok(x, y, w2, (2 * width) as u32, k) by {
        lemma_stage_next_bits(w.0, w.1, w.2, w.3, width, k);
        let l = bits_at(w, k);
        let h = bits_at(w, (k + width) as u32);
        assert(bits_at(w2, k) == combine(l, h));
        assert(map_ok(x, y, w, width, k));
        if k + width < 16 {
            assert(map_ok(x, y, w, width, (k + width) as u32));
        } else {
            lemma_high_bits_clear(w.0, (k + width) as u32);
            lemma_high_bits_clear(w.1, (k + width) as u32);
            lemma_high_bits_clear(w.2, (k + width) as u32);
            lemma_high_bits_clear(w.3, (k + width) as u32);
        }
        if k + 2 * width <= 16 {
            assert forall|st: (bool, bool)| #[trigger]
                app(bits_at(w2, k), enc(st)) == enc(
                    run(x, y, k, (k + 2 * width) as u32, st),
                ) by {
                let mid = run(x, y, (k + width) as u32, (k + 2 * width) as u32, st);
                lemma_combine(l, h, enc(st));
                assert(app(h, enc(st)) == enc(mid));
                assert(app(l, enc(mid)) == enc(run(x, y, k, (k + width) as u32, mid)));
                lemma_run_split(x, y, k, (k + width) as u32, (k + 2 * width) as u32, st);
            }
        } else if k + width >= 16 {
            if k + width == 16 {
                assert(app(l, enc((false, false))) == enc(
                    run(x, y, k, (k + width) as u32, (false, false)),
                ));
            }
        } else {
            let top = run(x, y, (k + width) as u32, 16, (false, false));
            assert((h.2, h.3) == enc(top));
            assert(app(l, enc(top)) == enc(run(x, y, k, (k + width) as u32, top)));
            lemma_run_split(x, y, k, (k + width) as u32, 16, (false, false));
        }
    }
}

/// The composed maps after all four doubling steps, as words.
pub open spec fn stage_final(x: u32, y: u32) -> Words {
    stage_next(stage_next(stage_next(stage1(stage0(x, y)), 2), 4), 8)
}

/// After the last step every position holds the state after its level,
/// reached from the top.
proof fn lemma_stage_final_ok(x: u32, y: u32)
    requires
        x < 0x10000u32,
        y < 0x10000u32,
    ensures
        stage_ok(x, y, stage_final(x, y), 16),
{
    lemma_stage1_ok(x, y);
    let w1 = stage1(stage0(x, y));
    lemma_stage_next_ok(x, y, w1, 2);
    lemma_stage_next_ok(x, y, stage_next(w1, 2), 4);
    lemma_stage_next_ok(x, y, stage_next(stage_next(w1, 2), 4), 8);
}

/// The high bits of the digits: one per level, from the final words.
pub open spec fn high_bits(x: u32, y: u32) -> u32 {
    let w = stage_final(x, y);
    let a = w.2 ^ (w.2 >> 1u32);
    let b = w.3 ^ (w.3 >> 1u32);
    b | (0xffffu32 ^ ((x ^ y) | a))
}

/// Bits of the high digit bits, from the final words at `k` and `k + 1`.
proof fn lemma_high_bits(x: u32, y: u32, c: u32, d: u32, k: u32)
    by (bit_vector)
    requires
        c < 0x10000u32,
        d < 0x10000u32,
        x < 0x10000u32,
        y < 0x10000u32,
        k < 16u32,
    ensures
        bitb((d ^ (d >> 1u32)) | (0xffffu32 ^ ((x ^ y) | (c ^ (c >> 1u32)))), k) == ((bitb(d, k)
            != bitb(d, (k + 1) as u32)) || !((bitb(x, k) != bitb(y, k)) || (bitb(c, k) != bitb(
            c,
            (k + 1) as u32,
        )))),
        (d ^ (d >> 1u32)) | (0xffffu32 ^ ((x ^ y) | (c ^ (c >> 1u32)))) < 0x10000u32,
        bitb(x ^ y, k) == (bitb(x, k) != bitb(y, k)),
        x ^ y < 0x10000u32,
{
}

/// The state after level `k`, reached from the top.
pub open spec fn state_after(x: u32, y: u32, k: u32) -> (bool, bool) {
    run(x, y, k, 16, (false, false))
}

/// The high bit of level `k`'s digit: the first coordinate bit there, as
/// the levels above have swapped and complemented it.
pub open spec fn high_bit(x: u32, y: u32, k: u32) -> bool {
    let (s, c) = state_after(x, y, (k + 1) as u32);
    (if s { bitb(y, k) } else { bitb(x, k) }) != c
}

/// The state after a level follows from the state after the level above.
proof fn lemma_state_after_step(x: u32, y: u32, k: u32)
    requires
        k < 16,
    ensures
        state_after(x, y, k) == step(state_after(x, y, (k + 1) as u32), bitb(x, k), bitb(y, k)),
{
    lemma_run_split(x, y, k, (k + 1) as u32, 16, (false, false));
    let st = state_after(x, y, (k + 1) as u32);
    let st2 = step(st, bitb(x, k), bitb(y, k));
    assert(run(x, y, k, k, st2) == st2);
}

/// Each high bit of the evaluation is the high bit of that level's digit.
proof fn lemma_high_bits_ok(x: u32, y: u32, k: u32)
    requires
        x < 0x10000u32,
        y < 0x10000u32,
        k < 16,
    ensures
        bitb(high_bits(x, y), k) == high_bit(x, y, k),
        high_bits(x, y) < 0x10000u32,
{
    lemma_stage_final_ok(x, y);
    let w = stage_final(x, y);
    lemma_high_bits(x, y, w.2, w.3, k);
    assert(map_ok(x, y, w, 16, k));
    lemma_state_after_step(x, y, k);
    let e0 = state_after(x, y, k);
    let e1 = state_after(x, y, (k + 1) as u32);
    if k + 1 < 16 {
        assert(map_ok(x, y, w, 16, (k + 1) as u32));
    } else {
        lemma_high_bits_clear(w.2, 16);
        lemma_high_bits_clear(w.3, 16);
        assert(e1 == (false, false));
    }
    if k == 0 {
        assert(app(bits_at(w, k), enc((false, false))) == enc(run(x, y, k, 16, (false, false))));
    }
    assert(bitb(w.2, k) == (e0.0 != e0.1) && bitb(w.3, k) == e0.1);
    assert(bitb(w.2, (k + 1) as u32) == (e1.0 != e1.1) && bitb(w.3, (k + 1) as u32) == e1.1);
    assert(e0 == step(e1, bitb(x, k), bitb(y, k)));
}

/// The bits of a 16-bit word moved to the even positions of a 32-bit word.
pub open spec fn spread(v: u32) -> u32 {
    let v1 = (v | (v << 8u32)) & 0x00ff00ffu32;
    let v2 = (v1 | (v1 << 4u32)) & 0x0f0f0f0fu32;
    let v3 = (v2 | (v2 << 2u32)) & 0x33333333u32;
    (v3 | (v3 << 1u32)) & 0x55555555u32
}

/// The curve position as the evaluation assembles it: the digits' high bits
/// at the odd positions, their low bits (`x ^ y`) at the even ones.
pub open spec fn interleaved(x: u32, y: u32) -> u32 {
    (spread(high_bits(x, y)) << 1u32) | spread(x ^ y)
}

/// The base-4 digit at position `k` of the interleaved word.
proof fn lemma_interleave_digit(hi: u32, lo: u32, k: u32)
    by (bit_vector)
    requires
        hi < 0x10000u32,
        lo < 0x10000u32,
        k < 16u32,
    ensures
        (((spread(hi) << 1u32) | spread(lo)) >> ((2 * k) as u32)) & 3u32 == ((hi >> k) & 1u32) * 2u32 + (
        (lo >> k) & 1u32),
{
}

/// Complementing a 16-bit word complements each of its bits.
proof fn lemma_complement_bits(v: u32, j: u32)
    by (bit_vector)
    requires
        v < 0x10000u32,
        j < 16u32,
    ensures
        bitb(0xffffu32 ^ v, j) == !bitb(v, j),
        0xffffu32 ^ v < 0x10000u32,
        ((v >> j) & 1u32 == 1u32) == bitb(v, j),
        (v >> j) & 1u32 == 0u32 || (v >> j) & 1u32 == 1u32,
{
}

/// A number's remainder by 4, as its low two bits.
proof fn lemma_low_two_bits(v: u32)
    by (bit_vector)
    ensures
        v & 3u32 == v % 4u32,
{
}

/// The coordinates after the turns of levels 15 down to `n`.
pub open spec fn coords(x: u32, y: u32, n: u32) -> (u32, u32)
    decreases 16 - n,
{
    if n >= 16 {
        (x, y)
    } else {
        let c = coords(x, y, (n + 1) as u32);
        rotate(c.0, c.1, n)
    }
}

/// The coordinates after the levels down to `n` are the original ones, on
/// the bits below `n`, swapped and complemented as the state after `n` says.
proof fn lemma_coords_bits(x: u32, y: u32, n: u32)
    requires
        x < 0x10000u32,
        y < 0x10000u32,
        n <= 16,
    ensures
        coords(x, y, n).0 < 0x10000u32,
        coords(x, y, n).1 < 0x10000u32,
        forall|j: u32|
            j < n ==> {
                let (s, c) = state_after(x, y, n);
                &&& #[trigger] bitb(coords(x, y, n).0, j) == ((if s {
                    bitb(y, j)
                } else {
                    bitb(x, j)
                }) != c)
                &&& bitb(coords(x, y, n).1, j) == ((if s {
                    bitb(x, j)
                } else {
                    bitb(y, j)
                }) != c)
            },
    decreases 16 - n,
{
    if n < 16 {
        lemma_coords_bits(x, y, (n + 1) as u32);
        lemma_state_after_step(x, y, n);
        let (cx, cy) = coords(x, y, (n + 1) as u32);
        lemma_complement_bits(cx, n);
        lemma_complement_bits(cy, n);
        assert forall|j: u32| j < n implies {
            let (s, c) = state_after(x, y, n);
            &&& #[trigger] bitb(coords(x, y, n).0, j) == ((if s {
                bitb(y, j)
            } else {
                bitb(x, j)
            }) != c)
            &&& bitb(coords(x, y, n).1, j) == ((if s {
                bitb(x, j)
            } else {
                bitb(y, j)
            }) != c)
        } by {
            lemma_complement_bits(cx, j);
            lemma_complement_bits(cy, j);
            assert(j < n + 1);
        }
    }
}

/// Four to the `n` is two to the `2n`.
proof fn lemma_pow4_pow2(n: nat)
    ensures
        pow4(n) == vstd::arithmetic::power2::pow2(2 * n),
    decreases n,
{
    if n > 0 {
        lemma_pow4_pow2((n - 1) as nat);
        vstd::arithmetic::power2::lemma_pow2_unfold(2 * n);
        vstd::arithmetic::power2::lemma_pow2_unfold((2 * n - 1) as nat);
    } else {
        vstd::arithmetic::power::lemma_pow0(2);
    }
}

/// The curve position through the cells below level `n` is the
/// interleaved word's remainder by `4^n`.
proof fn lemma_prefix(x: u32, y: u32, n: u32)
    requires
        x < 0x10000u32,
        y < 0x10000u32,
        n <= 16,
    ensures
        hilbert_from(coords(x, y, n).0, coords(x, y, n).1, n as nat) == (interleaved(x, y) as nat)
            % pow4(n as nat),
    decreases n,
{
    let r = interleaved(x, y);
    if n == 0 {
        assert(pow4(0) == 1);
    } else {
        let m = (n - 1) as u32;
        lemma_prefix(x, y, m);
        let (cx, cy) = coords(x, y, n);
        assert(rotate(cx, cy, m) == coords(x, y, m));
        let q = quadrant(cx, cy, m);
        // the digit of the interleaved word at level m
        let hi = high_bits(x, y);
        let lo = x ^ y;
        lemma_high_bits_ok(x, y, m);
        lemma_high_bits(x, y, 0, 0, m);
        lemma_interleave_digit(hi, lo, m);
        lemma_complement_bits(hi, m);
        lemma_complement_bits(lo, m);
        lemma_coords_bits(x, y, n);
        lemma_complement_bits(cx, m);
        lemma_complement_bits(cy, m);
        assert(bitb(cx, m) == high_bit(x, y, m));
        let sh = (2 * m) as u32;
        let dg = (r >> sh) & 3u32;
        assert(dg == q);
        lemma_low_two_bits(r >> sh);
        vstd::bits::lemma_u32_shr_is_div(r, sh);
        lemma_pow4_pow2(m as nat);
        assert((r >> sh) == (r as nat) / pow4(m as nat));
        let p = pow4(m as nat);
        vstd::arithmetic::power2::lemma_pow2_pos(2 * (m as nat));
        vstd::arithmetic::div_mod::lemma_mod_breakdown(r as int, p as int, 4);
        assert(pow4(n as nat) == p * 4);
        assert(q * p == p * q) by (nonlinear_arith);
    }
}

/// The interleaved word is the curve position.
pub proof fn lemma_interleaved_is_index(x: u32, y: u32)
    requires
        x < 0x10000u32,
        y < 0x10000u32,
    ensures
        interleaved(x, y) as nat == hilbert_index(x, y),
{
    lemma_prefix(x, y, 16);
    reveal_with_fuel(pow4, 17);
    assert(pow4(16) == 0x1_0000_0000);
    assert(coords(x, y, 16) == (x, y));
}

} // verus!
