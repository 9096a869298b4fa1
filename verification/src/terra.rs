//! The first, unchunked terrain: a 32 by 32 block of water and land tiles
//! centred on a tile, chosen by the sign of the altitude noise.
use vstd::prelude::*;

use crate::coords::V2i;
use crate::terrain::TileOp;

verus! {

/// Side of the generated block, in tiles.
pub const TERRA_SIZE: i32 = 32;

/// Number of tiles in the generated block.
pub const TERRA_TILES: usize = 1024;

/// How the altitude noise at a tile compares with 0.
#[derive(Clone, Copy, Debug, PartialEq, Eq, Structural)]
pub enum Altitude {
    Below,
    Above,
    Level,
}

/// The block's cell `i`, column by column: column `i / 32`, row `i % 32`.
pub open spec fn cell(i: int) -> V2i {
    V2i { x: (i / 32) as i32, y: (i % 32) as i32 }
}

/// The tile of cell `i` of the block centred on `pos`.
pub open spec fn block_tile(pos: V2i, i: int) -> V2i {
    V2i { x: (pos.x - 16 + i / 32) as i32, y: (pos.y - 16 + i % 32) as i32 }
}

/// The write for cell `i`: water (atlas `(0, 0)`) below 0, land (atlas
/// `(1, 0)`) above; both from source 1.
pub open spec fn block_op(pos: V2i, i: int, a: Altitude) -> TileOp {
    TileOp {
        pos: block_tile(pos, i),
        source_id: 1,
        atlas: if a == Altitude::Below { V2i { x: 0, y: 0 } } else { V2i { x: 1, y: 0 } },
        alternative: 0,
    }
}

/// The writes for the block centred on `pos`, column by column, skipping
/// cells at altitude 0.
pub open spec fn block_ops(pos: V2i, alt: Seq<Altitude>) -> Seq<TileOp> {
    Seq::new(TERRA_TILES as nat, |i: int| (block_op(pos, i, alt[i]), alt[i] != Altitude::Level)).filter(
        |p: (TileOp, bool)| p.1,
    ).map_values(|p: (TileOp, bool)| p.0)
}

/// The cells of the block, in order.
pub open spec fn cells() -> Seq<V2i> {
    Seq::new(TERRA_TILES as nat, |i: int| cell(i))
}

/// The first terrain: the block cells recorded so far (each once).
pub struct Terrain1 {
    pub loaded_chunks: Vec<V2i>,
}

proof fn lemma_cell_injective(i: int, j: int)
    requires
        0 <= i < 1024,
        0 <= j < 1024,
        cell(i) == cell(j),
    ensures
        i == j,
{
    assert(i == 32 * (i / 32) + i % 32) by (nonlinear_arith);
    assert(j == 32 * (j / 32) + j % 32) by (nonlinear_arith);
    assert(0 <= i / 32 < 32) by (nonlinear_arith) requires 0 <= i < 1024;
    assert(0 <= j / 32 < 32) by (nonlinear_arith) requires 0 <= j < 1024;
}

impl Terrain1 {
    /// No cell recorded.
    pub fn new() -> (t: Terrain1)
        ensures
            t.loaded_chunks@ == Seq::<V2i>::empty(),
    {
        Terrain1 { loaded_chunks: Vec::new() }
    }

    /// Fills the 32 by 32 block of tiles centred on `pos` from the altitude
    /// of each cell (column by column) and records the cells not recorded
    /// yet, in order.
    pub fn generate_chunk(&mut self, pos: V2i, altitude: &Vec<Altitude>) -> (ops: Vec<TileOp>)
        requires
            altitude@.len() == TERRA_TILES,
            i32::MIN + 16 <= pos.x <= i32::MAX - 15,
            i32::MIN + 16 <= pos.y <= i32::MAX - 15,
        ensures
            ops@ == block_ops(pos, altitude@),
            final(self).loaded_chunks@ == old(self).loaded_chunks@ + cells().filter(
                |c: V2i| !old(self).loaded_chunks@.contains(c),
            ),
    {
        let ghost all = Seq::new(
            TERRA_TILES as nat,
            |i: int| (block_op(pos, i, altitude@[i]), altitude@[i] != Altitude::Level),
        );
        let ghost old_loaded = old(self).loaded_chunks@;
        let ghost fresh = |c: V2i| !old_loaded.contains(c);
        let mut ops: Vec<TileOp> = Vec::new();
        let mut i: usize = 0;
        while i < TERRA_TILES
            invariant
                i <= TERRA_TILES,
                altitude@.len() == TERRA_TILES,
                i32::MIN + 16 <= pos.x <= i32::MAX - 15,
                i32::MIN + 16 <= pos.y <= i32::MAX - 15,
                all == Seq::new(
                    TERRA_TILES as nat,
                    |i: int| (block_op(pos, i, altitude@[i]), altitude@[i] != Altitude::Level),
                ),
                ops@ == all.take(i as int).filter(|p: (TileOp, bool)| p.1).map_values(|p: (TileOp, bool)| p.0),
                old_loaded == old(self).loaded_chunks@,
                fresh == (|c: V2i| !old_loaded.contains(c)),
                self.loaded_chunks@ == old_loaded + cells().take(i as int).filter(fresh),
            decreases TERRA_TILES - i,
        {
            let x: i32 = (i / 32) as i32;
            let y: i32 = (i % 32) as i32;
            let a = altitude[i];
            let op = TileOp {
                pos: V2i { x: pos.x - 16 + x, y: pos.y - 16 + y },
                source_id: 1,
                atlas: if a == Altitude::Below { V2i { x: 0, y: 0 } } else { V2i { x: 1, y: 0 } },
                alternative: 0,
            };
            let ghost entry = (op, a != Altitude::Level);
            proof {
                assert(entry == all[i as int]);
                assert(all.take(i + 1) =~= all.take(i as int).push(entry));
                all.take(i as int).lemma_filter_push(entry, |p: (TileOp, bool)| p.1);
            }
            if a != Altitude::Level {
                ops.push(op);
            }
            assert(ops@ =~= all.take(i + 1).filter(|p: (TileOp, bool)| p.1).map_values(|p: (TileOp, bool)| p.0));
            let c = V2i { x, y };
            let ghost added = cells().take(i as int).filter(fresh);
            proof {
                assert(c == cells()[i as int]);
                assert(cells().take(i + 1) =~= cells().take(i as int).push(c));
                cells().take(i as int).lemma_filter_push(c, fresh);
                if added.contains(c) {
                    let j = added.index_of(c);
                    cells().take(i as int).lemma_filter_contains_rev(fresh, c);
                    let k = cells().take(i as int).index_of(c);
                    lemma_cell_injective(k, i as int);
                }
            }
            let mut present = false;
            let mut j: usize = 0;
            while j < self.loaded_chunks.len()
                invariant
                    j <= self.loaded_chunks@.len(),
                    present == exists|k: int| 0 <= k < j && self.loaded_chunks@[k] == c,
                decreases self.loaded_chunks@.len() - j,
            {
                if self.loaded_chunks[j] == c {
                    present = true;
                }
                j = j + 1;
            }
            proof {
                if present {
                    let k = choose|k: int| 0 <= k < j && self.loaded_chunks@[k] == c;
                    assert(self.loaded_chunks@.contains(c));
                }
                if self.loaded_chunks@.contains(c) {
                    let k = self.loaded_chunks@.index_of(c);
                    assert(self.loaded_chunks@[k] == c);
                }
                assert(present == self.loaded_chunks@.contains(c));
                assert(self.loaded_chunks@ == old_loaded + added);
                if !old_loaded.contains(c) && !added.contains(c) {
                    assert(!self.loaded_chunks@.contains(c));
                }
                if old_loaded.contains(c) {
                    let k = old_loaded.index_of(c);
                    assert(self.loaded_chunks@[k] == c);
                }
            }
            if !present {
                self.loaded_chunks.push(c);
            }
            i = i + 1;
            assert(self.loaded_chunks@ =~= old_loaded + cells().take(i as int).filter(fresh));
        }
        assert(all.take(TERRA_TILES as int) =~= all);
        assert(cells().take(TERRA_TILES as int) =~= cells());
        ops
    }
}

} // verus!
