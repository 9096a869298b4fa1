//! Tile and chunk coordinates, and the coding of a chunk position as a
//! hash-table key.
use vstd::prelude::*;

verus! {

/// Side length of a square chunk, in tiles.
pub const CHUNK_SIZE: i32 = 16;

/// Number of tiles in a chunk.
pub const CHUNK_TILES: usize = 256;

/// An integer 2-D vector: a tile position, a chunk position or an atlas
/// coordinate.
#[derive(Clone, Copy, Debug, PartialEq, Eq, Structural, Hash)]
pub struct V2i {
    pub x: i32,
    pub y: i32,
}

/// Floor division by the chunk size (the Euclidean quotient, as `div_euclid`).
pub open spec fn floor_div16(a: int) -> int {
    a / 16
}

/// The Euclidean remainder modulo the chunk size (as `rem_euclid`).
pub open spec fn floor_mod16(a: int) -> int {
    a % 16
}

/// The chunk that holds tile `p`.
pub open spec fn chunk_of(p: V2i) -> V2i {
    V2i { x: floor_div16(p.x as int) as i32, y: floor_div16(p.y as int) as i32 }
}

/// The hash-table key of a position: both coordinates shifted into
/// `0..2^32` and packed into one `u64`.
pub open spec fn key_of(p: V2i) -> u64 {
    ((p.x + 0x8000_0000) * 0x1_0000_0000 + (p.y + 0x8000_0000)) as u64
}

/// The position whose key is `k`.
pub open spec fn pos_of_key(k: u64) -> V2i {
    V2i { x: (k / 0x1_0000_0000 - 0x8000_0000) as i32, y: (k % 0x1_0000_0000 - 0x8000_0000) as i32 }
}

proof fn lemma_pack_bounds(u: int, v: int)
    by (nonlinear_arith)
    requires
        0 <= u < 0x1_0000_0000,
        0 <= v < 0x1_0000_0000,
    ensures
        0 <= u * 0x1_0000_0000 + v <= u64::MAX,
        (u * 0x1_0000_0000 + v) / 0x1_0000_0000 == u,
        (u * 0x1_0000_0000 + v) % 0x1_0000_0000 == v,
{
}

/// Decoding a key gives back the position it was made from.
pub proof fn lemma_key_roundtrip(p: V2i)
    ensures
        pos_of_key(key_of(p)) == p,
{
    lemma_pack_bounds(p.x + 0x8000_0000, p.y + 0x8000_0000);
}

/// Distinct positions have distinct keys.
pub proof fn lemma_key_injective(p: V2i, q: V2i)
    ensures
        key_of(p) == key_of(q) <==> p == q,
{
    lemma_key_roundtrip(p);
    lemma_key_roundtrip(q);
}

/// Every key is the key of a position.
pub proof fn lemma_key_surjective(k: u64)
    ensures
        key_of(pos_of_key(k)) == k,
{
    let u = k / 0x1_0000_0000;
    let v = k % 0x1_0000_0000;
    assert(k == u * 0x1_0000_0000 + v) by (nonlinear_arith)
        requires u == k / 0x1_0000_0000, v == k % 0x1_0000_0000;
    assert(0 <= u < 0x1_0000_0000) by (nonlinear_arith)
        requires u == k / 0x1_0000_0000, 0 <= k <= u64::MAX;
}

/// The hash-table key of a position.
pub fn key(p: V2i) -> (k: u64)
    ensures
        k == key_of(p),
{
    let u: u64 = (p.x as i64 + 0x8000_0000i64) as u64;
    let v: u64 = (p.y as i64 + 0x8000_0000i64) as u64;
    proof {
        lemma_pack_bounds(u as int, v as int);
    }
    u * 0x1_0000_0000 + v
}

/// The position a key stands for.
pub fn pos_from_key(k: u64) -> (p: V2i)
    ensures
        p == pos_of_key(k),
        key_of(p) == k,
{
    proof {
        lemma_key_surjective(k);
    }
    let hi: u64 = k / 0x1_0000_0000;
    let lo: u64 = k % 0x1_0000_0000;
    V2i { x: (hi as i64 - 0x8000_0000i64) as i32, y: (lo as i64 - 0x8000_0000i64) as i32 }
}

/// `a.div_euclid(16)`.
pub fn div16(a: i32) -> (r: i32)
    ensures
        r == floor_div16(a as int),
{
    let shifted: u64 = (a as i64 + 0x8000_0000i64) as u64;
    let q: u64 = shifted / 16;
    proof {
        assert(q == (a + 0x8000_0000) / 16);
        assert((a + 0x8000_0000) / 16 == a / 16 + 0x800_0000) by (nonlinear_arith)
            requires a + 0x8000_0000 >= 0;
    }
    (q as i64 - 0x800_0000i64) as i32
}

/// `a.rem_euclid(16)`.
pub fn mod16(a: i32) -> (r: usize)
    ensures
        r == floor_mod16(a as int),
        r < 16,
{
    let shifted: u64 = (a as i64 + 0x8000_0000i64) as u64;
    proof {
        assert((a + 0x8000_0000) % 16 == a % 16) by (nonlinear_arith)
            requires a + 0x8000_0000 >= 0;
    }
    (shifted % 16) as usize
}

/// The chunk that holds tile `p` (`get_chunk_coord_static`).
pub fn get_chunk_coord_static(p: V2i) -> (c: V2i)
    ensures
        c == chunk_of(p),
{
    V2i { x: div16(p.x), y: div16(p.y) }
}

} // verus!
