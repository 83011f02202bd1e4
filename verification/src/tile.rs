//! Tile positions and the pure coordinate math that assigns every tile
//! position to a chunk and to a slot of that chunk's packed index buffer.

use vstd::arithmetic::div_mod::{
    lemma_div_multiples_vanish_fancy, lemma_div_pos_is_pos, lemma_fundamental_div_mod,
    lemma_fundamental_div_mod_converse, lemma_mod_division_less_than_divisor,
    lemma_mod_multiples_vanish, lemma_small_mod,
};
use vstd::arithmetic::mul::lemma_mul_is_commutative;
use vstd::prelude::*;

use crate::chunk::TilemapChunkPosition;

verus! {

/// Largest chunk edge length (in tiles) the library accepts.  It keeps every
/// intra-chunk buffer index below `2^30`, so chunk buffers and the arithmetic
/// on their indices fit in `u32` and `usize` on every platform.
pub const MAX_CHUNK_SIZE: u32 = 32768;

/// Position of a tile in the tilemap, in tile coordinates.  The domain is the
/// full signed 32-bit square; negative coordinates are first-class.
#[derive(Clone, Copy, Debug, Default, PartialEq, Eq, Structural, Hash)]
pub struct TilePosition {
    pub x: i32,
    pub y: i32,
}

impl View for TilePosition {
    type V = (int, int);

    open spec fn view(&self) -> (int, int) {
        (self.x as int, self.y as int)
    }
}

/// Texture index for a tile.  The index corresponds to the layer of the
/// tilemap's layered tileset image that the tile is drawn with.
#[derive(Clone, Copy, Debug, Default, PartialEq, Eq, Structural, Hash)]
pub struct TileTextureIndex(pub u16);

/// Chunk coordinate of a single axis value: Euclidean (floor) division by the
/// chunk edge, so the quotient rounds toward negative infinity.
pub open spec fn chunk_coord(v: int, c: int) -> int {
    v / c
}

/// Intra-chunk coordinate of a single axis value: Euclidean remainder, in
/// `[0, c)` whenever `c > 0`.
pub open spec fn in_chunk_coord(v: int, c: int) -> int {
    v % c
}

/// The chunk position owning tile position `p`, for chunk edge `c`.
pub open spec fn chunk_of(p: (int, int), c: int) -> (int, int) {
    (chunk_coord(p.0, c), chunk_coord(p.1, c))
}

/// Linear buffer slot for intra-chunk coordinates `(u, v)`: row-major with the
/// v axis flipped, matching the top-left origin of the rendered chunk image.
pub open spec fn linear_slot(u: int, v: int, c: int) -> int {
    u + (c - 1 - v) * c
}

/// Linear buffer slot of tile position `p` within its owning chunk.
pub open spec fn slot_of(p: (int, int), c: int) -> int {
    linear_slot(in_chunk_coord(p.0, c), in_chunk_coord(p.1, c), c)
}

/// The tile position shown by slot `i` of the chunk at `cp`: the inverse of
/// `chunk_of` and `slot_of` over one chunk's domain.
pub open spec fn slot_position(cp: (int, int), i: int, c: int) -> (int, int) {
    (cp.0 * c + i % c, cp.1 * c + (c - 1 - i / c))
}

/// Euclidean division and remainder of a signed axis value by a positive
/// chunk edge: the quotient rounds toward negative infinity and the remainder
/// lies in `[0, c)`.
pub fn div_mod_euclid(v: i32, c: u32) -> (qr: (i32, u32))
    requires
        1 <= c,
    ensures
        qr.0 == chunk_coord(v as int, c as int),
        qr.1 == in_chunk_coord(v as int, c as int),
        qr.1 < c,
{
    if v >= 0 {
        let uv = v as u32;
        let q = uv / c;
        let r = uv % c;
        proof {
            let ci = c as int;
            let mi = uv as int;
            lemma_fundamental_div_mod(mi, ci);
            lemma_mod_division_less_than_divisor(mi, ci);
            lemma_div_pos_is_pos(mi, ci);
            assert(mi / ci <= mi) by (nonlinear_arith)
                requires
                    ci >= 1,
                    0 <= mi / ci,
                    0 <= mi % ci,
                    mi == ci * (mi / ci) + mi % ci,
            ;
        }
        (q as i32, r)
    } else {
        let m = (-(v + 1)) as u32;
        let a = m / c;
        let b = m % c;
        proof {
            let ci = c as int;
            let mi = m as int;
            lemma_fundamental_div_mod(mi, ci);
            lemma_mod_division_less_than_divisor(mi, ci);
            lemma_div_pos_is_pos(mi, ci);
            assert(mi / ci <= mi) by (nonlinear_arith)
                requires
                    ci >= 1,
                    0 <= mi / ci,
                    0 <= mi % ci,
                    mi == ci * (mi / ci) + mi % ci,
            ;
        }
        let q = -(a as i32) - 1;
        let r = c - 1 - b;
        proof {
            let vi = v as int;
            let ci = c as int;
            let mi = m as int;
            let ai = mi / ci;
            let bi = mi % ci;
            lemma_fundamental_div_mod(mi, ci);
            lemma_mod_division_less_than_divisor(mi, ci);
            let qi = -ai - 1;
            let ri = ci - 1 - bi;
            assert(vi == qi * ci + ri) by (nonlinear_arith)
                requires
                    mi == ci * ai + bi,
                    vi == -mi - 1,
                    qi == -ai - 1,
                    ri == ci - 1 - bi,
            ;
            lemma_fundamental_div_mod_converse(vi, ci, qi, ri);
        }
        (q, r)
    }
}

impl TilePosition {
    /// The chunk position that contains this tile position.  Uses Euclidean
    /// division per axis, so for example position `(-1, -1)` with chunk edge 8
    /// belongs to chunk `(-1, -1)`, not `(0, 0)`.
    pub fn chunk_position(&self, chunk_size: u32) -> (cp: TilemapChunkPosition)
        requires
            1 <= chunk_size,
        ensures
            cp@ == chunk_of(self@, chunk_size as int),
    {
        let (qx, _rx) = div_mod_euclid(self.x, chunk_size);
        let (qy, _ry) = div_mod_euclid(self.y, chunk_size);
        TilemapChunkPosition { x: qx, y: qy }
    }

    /// The position of the tile within its chunk: the Euclidean remainder per
    /// axis, each component in `[0, chunk_size)`.
    pub fn position_in_chunk(&self, chunk_size: u32) -> (uv: (u32, u32))
        requires
            1 <= chunk_size,
        ensures
            uv.0 == in_chunk_coord(self.x as int, chunk_size as int),
            uv.1 == in_chunk_coord(self.y as int, chunk_size as int),
            uv.0 < chunk_size,
            uv.1 < chunk_size,
    {
        let (_qx, rx) = div_mod_euclid(self.x, chunk_size);
        let (_qy, ry) = div_mod_euclid(self.y, chunk_size);
        (rx, ry)
    }

    /// The linear index of the tile in its chunk's packed index buffer, in
    /// `[0, chunk_size * chunk_size)`.
    pub fn index_in_chunk(&self, chunk_size: u32) -> (i: usize)
        requires
            1 <= chunk_size <= MAX_CHUNK_SIZE,
        ensures
            i == slot_of(self@, chunk_size as int),
            i < chunk_size * chunk_size,
    {
        let (u, v) = self.position_in_chunk(chunk_size);
        proof {
            let ci = chunk_size as int;
            let ui = u as int;
            let vi = v as int;
            assert((ci - 1 - vi) * ci <= (ci - 1) * ci && 0 <= (ci - 1 - vi) * ci) by (
            nonlinear_arith)
                requires
                    0 <= vi < ci,
            ;
            assert((ci - 1) * ci < 0x4000_0000) by (nonlinear_arith)
                requires
                    1 <= ci <= 32768,
            ;
            assert(ui + (ci - 1 - vi) * ci < ci * ci) by (nonlinear_arith)
                requires
                    0 <= ui < ci,
                    0 <= vi < ci,
            ;
        }
        (u + (chunk_size - 1 - v) * chunk_size) as usize
    }

    /// The four cardinal neighbors of this position, to the north, south,
    /// east, and west.
    pub fn cardinal_neighbors(&self) -> (ns: [TilePosition; 4])
        requires
            i32::MIN < self.x < i32::MAX,
            i32::MIN < self.y < i32::MAX,
        ensures
            ns[0]@ == (self.x as int, self.y as int + 1),
            ns[1]@ == (self.x as int, self.y as int - 1),
            ns[2]@ == (self.x as int + 1, self.y as int),
            ns[3]@ == (self.x as int - 1, self.y as int),
    {
        [
            TilePosition { x: self.x, y: self.y + 1 },
            TilePosition { x: self.x, y: self.y - 1 },
            TilePosition { x: self.x + 1, y: self.y },
            TilePosition { x: self.x - 1, y: self.y },
        ]
    }
}

/// Floor-division correctness of chunk assignment: on each axis, the owning
/// chunk's half-open interval `[chunk * c, chunk * c + c)` contains the tile
/// position — including for negative positions.
pub proof fn lemma_chunk_contains_position(p: TilePosition, c: int)
    requires
        1 <= c,
    ensures
        chunk_of(p@, c).0 * c <= p@.0 < chunk_of(p@, c).0 * c + c,
        chunk_of(p@, c).1 * c <= p@.1 < chunk_of(p@, c).1 * c + c,
{
    broadcast use lemma_mul_is_commutative;

    lemma_fundamental_div_mod(p@.0, c);
    lemma_mod_division_less_than_divisor(p@.0, c);
    lemma_fundamental_div_mod(p@.1, c);
    lemma_mod_division_less_than_divisor(p@.1, c);
}

/// Injectivity of the linear slot layout: no two distinct intra-chunk
/// coordinate pairs in `[0, c) x [0, c)` share a buffer slot.
pub proof fn lemma_linear_slot_injective(u1: int, v1: int, u2: int, v2: int, c: int)
    requires
        0 <= u1 < c,
        0 <= v1 < c,
        0 <= u2 < c,
        0 <= v2 < c,
        linear_slot(u1, v1, c) == linear_slot(u2, v2, c),
    ensures
        u1 == u2,
        v1 == v2,
{
    assert(u1 == u2 && v1 == v2) by (nonlinear_arith)
        requires
            0 <= u1 < c,
            0 <= v1 < c,
            0 <= u2 < c,
            0 <= v2 < c,
            u1 + (c - 1 - v1) * c == u2 + (c - 1 - v2) * c,
    ;
}

/// Every tile position's slot lies inside its chunk's buffer.
pub proof fn lemma_slot_of_bounds(p: (int, int), c: int)
    requires
        1 <= c,
    ensures
        0 <= slot_of(p, c) < c * c,
{
    lemma_mod_division_less_than_divisor(p.0, c);
    lemma_mod_division_less_than_divisor(p.1, c);
    assert(0 <= (p.0 % c) + (c - 1 - p.1 % c) * c < c * c) by (nonlinear_arith)
        requires
            0 <= p.0 % c < c,
            0 <= p.1 % c < c,
    ;
}

/// A tile position is recovered exactly from its owning chunk and its slot.
pub proof fn lemma_slot_roundtrip(p: (int, int), c: int)
    requires
        1 <= c,
    ensures
        slot_position(chunk_of(p, c), slot_of(p, c), c) == p,
{
    broadcast use lemma_mul_is_commutative;

    let u = p.0 % c;
    let v = p.1 % c;
    lemma_mod_division_less_than_divisor(p.0, c);
    lemma_mod_division_less_than_divisor(p.1, c);
    let i = linear_slot(u, v, c);
    assert(i == c * (c - 1 - v) + u);
    lemma_mod_multiples_vanish(c - 1 - v, u, c);
    lemma_small_mod(u as nat, c as nat);
    lemma_div_multiples_vanish_fancy(c - 1 - v, u, c);
    assert(i % c == u);
    assert(i / c == c - 1 - v);
    lemma_fundamental_div_mod(p.0, c);
    lemma_fundamental_div_mod(p.1, c);
}

/// Each slot of a chunk corresponds to exactly one tile position, which maps
/// back to the same chunk and the same slot.
pub proof fn lemma_slot_position_roundtrip(cp: (int, int), i: int, c: int)
    requires
        1 <= c,
        0 <= i < c * c,
    ensures
        chunk_of(slot_position(cp, i, c), c) == cp,
        slot_of(slot_position(cp, i, c), c) == i,
{
    broadcast use lemma_mul_is_commutative;

    let u = i % c;
    let a = i / c;
    lemma_mod_division_less_than_divisor(i, c);
    lemma_fundamental_div_mod(i, c);
    lemma_div_pos_is_pos(i, c);
    assert(a < c) by (nonlinear_arith)
        requires
            i == c * a + u,
            0 <= u,
            i < c * c,
            c >= 1,
    ;
    let x = cp.0 * c + u;
    let y = cp.1 * c + (c - 1 - a);
    lemma_div_multiples_vanish_fancy(cp.0, u, c);
    lemma_mod_multiples_vanish(cp.0, u, c);
    lemma_small_mod(u as nat, c as nat);
    assert(x / c == cp.0);
    assert(x % c == u);
    lemma_div_multiples_vanish_fancy(cp.1, c - 1 - a, c);
    lemma_mod_multiples_vanish(cp.1, c - 1 - a, c);
    lemma_small_mod((c - 1 - a) as nat, c as nat);
    assert(y / c == cp.1);
    assert(y % c == c - 1 - a);
    assert(slot_of((x, y), c) == u + (c - 1 - (c - 1 - a)) * c);
    assert(u + a * c == i);
}

/// Distinct tile positions that share a chunk never collide in its buffer.
pub proof fn lemma_slot_of_injective(p1: (int, int), p2: (int, int), c: int)
    requires
        1 <= c,
        chunk_of(p1, c) == chunk_of(p2, c),
        slot_of(p1, c) == slot_of(p2, c),
    ensures
        p1 == p2,
{
    lemma_slot_roundtrip(p1, c);
    lemma_slot_roundtrip(p2, c);
}

} // verus!
