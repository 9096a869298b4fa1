//! The tiles of one chunk.
use vstd::prelude::*;
use std::collections::HashSet;

use crate::coords::{V2i, CHUNK_TILES};

verus! {

/// The atlas coordinate that marks a tile with nothing on it.
pub open spec fn empty_tile() -> V2i {
    V2i { x: -1i32, y: -1i32 }
}

/// The tiles of one chunk, row by row, with a dirty flag and the time (in
/// nanoseconds on a monotonic clock) of the last access.
pub struct ChunkData {
    pub tiles: Vec<V2i>,
    pub changed: bool,
    pub last_accessed: u64,
}

/// The list of a world's saved chunks, by chunk position.
pub struct WorldMeta {
    pub chunks: HashSet<(i32, i32)>,
}

impl Default for WorldMeta {
    /// No chunk saved.
    fn default() -> (m: WorldMeta)
        ensures
            m.chunks@ == Set::<(i32, i32)>::empty(),
    {
        WorldMeta { chunks: HashSet::new() }
    }
}

/// Position of tile `(x, y)` of a chunk in its row-major tile list.
pub open spec fn tile_index(x: int, y: int) -> int {
    y * 16 + x
}

impl ChunkData {
    /// A chunk holds a tile for each of its cells (a chunk read from a file
    /// may carry more), and no more than its file format can hold.
    pub open spec fn wf(&self) -> bool {
        CHUNK_TILES <= self.tiles@.len() <= crate::codec::max_file_tiles()
    }

    /// A fresh chunk: every tile empty, clean, last accessed at `now`.
    pub fn new(now: u64) -> (c: ChunkData)
        ensures
            c.wf(),
            c.tiles@.len() == CHUNK_TILES,
            forall|i: int| 0 <= i < CHUNK_TILES ==> c.tiles@[i] == empty_tile(),
            !c.changed,
            c.last_accessed == now,
    {
        let mut tiles: Vec<V2i> = Vec::new();
        let mut i: usize = 0;
        while i < CHUNK_TILES
            invariant
                i <= CHUNK_TILES,
                tiles@.len() == i,
                forall|j: int| 0 <= j < i ==> tiles@[j] == empty_tile(),
            decreases CHUNK_TILES - i,
        {
            tiles.push(V2i { x: -1, y: -1 });
            i = i + 1;
        }
        ChunkData { tiles, changed: false, last_accessed: now }
    }

    /// Row-major index of tile `(x, y)`.
    pub fn index(x: usize, y: usize) -> (i: usize)
        requires
            x < 16,
            y < 16,
        ensures
            i == tile_index(x as int, y as int),
            i < CHUNK_TILES,
    {
        y * 16 + x
    }

    /// Writes tile `(x, y)`; the chunk becomes dirty and is accessed at `now`.
    pub fn set(&mut self, x: usize, y: usize, val: V2i, now: u64)
        requires
            old(self).wf(),
            x < 16,
            y < 16,
        ensures
            final(self).wf(),
            final(self).tiles@ == old(self).tiles@.update(tile_index(x as int, y as int), val),
            final(self).changed,
            final(self).last_accessed == now,
    {
        let i = Self::index(x, y);
        self.tiles.set(i, val);
        self.changed = true;
        self.last_accessed = now;
    }

    /// Reads tile `(x, y)`.
    pub fn get(&self, x: usize, y: usize) -> (v: V2i)
        requires
            self.wf(),
            x < 16,
            y < 16,
        ensures
            v == self.tiles@[tile_index(x as int, y as int)],
    {
        self.tiles[Self::index(x, y)]
    }

    /// Marks the chunk as accessed at `now`, nothing else.
    pub fn touch(&mut self, now: u64)
        ensures
            *final(self) == (ChunkData { last_accessed: now, ..*old(self) }),
    {
        self.last_accessed = now;
    }
}

} // verus!
