//! Streaming of terrain chunks around the players: which chunks are loaded,
//! cached, queued for loading, unloading and saving, all under per-frame
//! budgets. Drawing tiles, reading and writing files and sampling noise are
//! left to the caller: the functions here take what those gave and return
//! the tile writes to perform.
use vstd::prelude::*;
use std::collections::{HashMap, HashSet, VecDeque};

use crate::chunk::{ChunkData, empty_tile, tile_index};
use crate::codec::{
    chunk_file_bytes, chunk_file_tiles, decode_chunk_tiles, encode_chunk_tiles, encodable, readable_block,
};
use crate::coords::{
    V2i, CHUNK_SIZE, CHUNK_TILES, chunk_of, floor_div16, floor_mod16, key, key_of, pos_from_key, pos_of_key, div16, mod16,
    get_chunk_coord_static, lemma_key_injective, lemma_key_roundtrip, lemma_key_surjective,
};

verus! {

broadcast use vstd::std_specs::hash::group_hash_axioms;

/// Chunks kept in the cache before old ones are dropped.
pub const DEFAULT_MAX_CACHED_CHUNKS: usize = 1000;
/// Chunks within this many chunks (on each axis) of a player are loaded.
pub const LOAD_RADIUS: i32 = 2;
/// Chunks further than this (on an axis) from every player are unloaded.
pub const UNLOAD_DISTANCE: i32 = 4;
/// Age in whole seconds after which an unused clean chunk may leave the
/// cache.
pub const CHUNK_CLEANUP_AGE_SECS: u64 = 600;
/// Age in whole seconds after which a saved, unloaded chunk leaves the
/// cache.
pub const CHUNK_UNLOAD_AGE_SECS: u64 = 300;
/// Chunks generated or loaded per frame.
pub const MAX_CHUNKS_PER_FRAME: usize = 3;
/// Chunks unloaded per frame.
pub const MAX_UNLOADS_PER_FRAME: usize = 2;
/// Chunks saved per frame.
pub const MAX_SAVES_PER_FRAME: usize = 2;
/// Frames between two cache clean-ups.
pub const CLEANUP_INTERVAL_FRAMES: u32 = 600;
/// Frames between two searches for chunks to unload.
pub const UNLOAD_INTERVAL_FRAMES: u32 = 120;

/// One write into the tile map: the cell, the tile source, the atlas
/// coordinate and the alternative tile.
#[derive(Clone, Copy, Debug, PartialEq, Eq, Structural)]
pub struct TileOp {
    pub pos: V2i,
    pub source_id: i32,
    pub atlas: V2i,
    pub alternative: i32,
}

pub open spec fn abs(a: int) -> int {
    if a < 0 { -a } else { a }
}

/// Manhattan distance between two chunks.
pub open spec fn chunk_dist(c: V2i, p: V2i) -> int {
    abs(p.x - c.x) + abs(p.y - c.y)
}

/// The 25 chunks within `LOAD_RADIUS` of `c`, column by column.
pub open spec fn ring(c: V2i) -> Seq<V2i> {
    Seq::new(25, |i: int| V2i { x: (c.x + (i / 5 - 2)) as i32, y: (c.y + (i % 5 - 2)) as i32 })
}

/// The keys of the chunks of `ring(c)`.
pub open spec fn ring_keys(c: V2i) -> Set<u64> {
    Set::new(|k: u64| exists|j: int| 0 <= j < 25 && k == key_of(#[trigger] ring(c)[j]))
}

/// A chunk is still to be queued: neither loaded nor already in the queue.
pub open spec fn needs_loading(loaded: Set<u64>, queue: Seq<V2i>) -> spec_fn(V2i) -> bool {
    |p: V2i| !loaded.contains(key_of(p)) && !queue.contains(p)
}

/// The chunks at distance `d` from `c`.
pub open spec fn at_dist(c: V2i, d: int) -> spec_fn(V2i) -> bool {
    |p: V2i| chunk_dist(c, p) == d
}

/// The chunks around `c` that a player's arrival adds to the load queue, in
/// ring order.
pub open spec fn fresh_chunks(loaded: Set<u64>, queue: Seq<V2i>, c: V2i) -> Seq<V2i> {
    ring(c).filter(needs_loading(loaded, queue))
}

/// The load queue after queueing the chunks around `c`, closest first: the
/// fresh chunks within distance 1 go to the front (distance 0, then 1), the
/// others to the back (distance 2, then 3, then 4), each band in ring order.
pub open spec fn queued_around(loaded: Set<u64>, queue: Seq<V2i>, c: V2i) -> Seq<V2i> {
    let fresh = fresh_chunks(loaded, queue, c);
    fresh.filter(at_dist(c, 0)) + fresh.filter(at_dist(c, 1)) + queue
        + fresh.filter(at_dist(c, 2)) + fresh.filter(at_dist(c, 3)) + fresh.filter(at_dist(c, 4))
}

/// `post` is `pre` after queueing the chunks around `pos` for player `id`
/// (the player positions aside).
pub open spec fn queued_for_player(pre: Terrain1, post: Terrain1, id: i32, pos: V2i) -> bool {
    &&& post.chunk_load_queue@ == queued_around(pre.loaded_chunks@, pre.chunk_load_queue@, chunk_of(pos))
    &&& post.all_players_chunks@ == pre.all_players_chunks@ + ring_keys(chunk_of(pos))
    &&& post.player_chunks@ == pre.player_chunks@.insert(id, post.player_chunks@[id])
    &&& post.player_chunks@[id]@ == ring_keys(chunk_of(pos))
    &&& post == (Terrain1 {
        chunk_load_queue: post.chunk_load_queue,
        all_players_chunks: post.all_players_chunks,
        player_chunks: post.player_chunks,
        player_positions: post.player_positions,
        ..pre
    })
}

/// `post` and `ops` are what `generate_chunk_immediate(c, file, water, now)`
/// makes of `pre`.
pub open spec fn generated_chunk(
    pre: Terrain1,
    post: Terrain1,
    c: V2i,
    file: Option<Vec<u8>>,
    water: Seq<bool>,
    now: u64,
    ops: Seq<TileOp>,
) -> bool {
    let k = key_of(c);
    if pre.loaded(c) {
        &&& ops == Seq::<TileOp>::empty()
        &&& pre.cached(c) ==> {
            &&& post.chunk_cache@ == pre.chunk_cache@.insert(k, post.cache_at(c))
            &&& post.cache_at(c).tiles == pre.cache_at(c).tiles
            &&& post.cache_at(c).changed == pre.cache_at(c).changed
            &&& post.cache_at(c).last_accessed == now
        }
        &&& !pre.cached(c) ==> post.chunk_cache@ == pre.chunk_cache@
        &&& post == (Terrain1 { chunk_cache: post.chunk_cache, ..pre })
    } else {
        &&& post.loaded_chunks@ == pre.loaded_chunks@.insert(k)
        &&& post.chunk_cache@ == pre.chunk_cache@.insert(k, post.cache_at(c))
        &&& post.cache_at(c).last_accessed == now
        &&& post == (Terrain1 { chunk_cache: post.chunk_cache, loaded_chunks: post.loaded_chunks, ..pre })
        &&& match file {
            Some(bytes) if file_chunk_tiles(bytes@) is Some => {
                &&& post.cache_at(c).tiles@ == file_chunk_tiles(bytes@).unwrap()
                &&& !post.cache_at(c).changed
                &&& ops == restore_ops(c, file_chunk_tiles(bytes@).unwrap())
            },
            _ => {
                &&& post.cache_at(c).tiles@ == generated_tiles(water)
                &&& post.cache_at(c).changed
                &&& ops == generated_ops(c, water)
            },
        }
    }
}

/// What `debug_chunk_info` reports about the chunk of a tile.
#[derive(Clone, Copy, Debug, PartialEq, Eq, Structural)]
pub struct ChunkDebugInfo {
    pub world_pos: V2i,
    pub chunk_pos: V2i,
    pub loaded: bool,
    pub cached: bool,
    pub queued: bool,
    pub load_queue_len: usize,
    pub unload_queue_len: usize,
    pub save_queue_len: usize,
    pub players: usize,
}

/// After the chunks around `c` are queued, every chunk within
/// `LOAD_RADIUS` of `c` is loaded or waits in the load queue, and the queue
/// keeps what it held.
pub proof fn law_ring_covered(loaded: Set<u64>, queue: Seq<V2i>, c: V2i)
    requires
        -0x800_0000 <= c.x < 0x800_0000,
        -0x800_0000 <= c.y < 0x800_0000,
    ensures
        forall|i: int| 0 <= i < 25 ==> loaded.contains(key_of(#[trigger] ring(c)[i]))
            || queued_around(loaded, queue, c).contains(ring(c)[i]),
        forall|p: V2i| queue.contains(p) ==> #[trigger] queued_around(loaded, queue, c).contains(p),
{
    let fresh = fresh_chunks(loaded, queue, c);
    let b0 = fresh.filter(at_dist(c, 0));
    let b1 = fresh.filter(at_dist(c, 1));
    let b2 = fresh.filter(at_dist(c, 2));
    let b3 = fresh.filter(at_dist(c, 3));
    let b4 = fresh.filter(at_dist(c, 4));
    let r = queued_around(loaded, queue, c);
    assert(r == b0 + b1 + queue + b2 + b3 + b4);
    let pre = b0 + b1;
    assert forall|p: V2i| queue.contains(p) implies #[trigger] r.contains(p) by {
        let j = queue.index_of(p);
        assert(r[pre.len() + j] == p);
    }
    assert forall|i: int| 0 <= i < 25 implies loaded.contains(key_of(#[trigger] ring(c)[i]))
        || r.contains(ring(c)[i]) by {
        let p = ring(c)[i];
        if !loaded.contains(key_of(p)) {
            if queue.contains(p) {
                let j = queue.index_of(p);
                assert(r[pre.len() + j] == p);
            } else {
                ring(c).lemma_filter_contains(needs_loading(loaded, queue), i);
                assert(fresh.contains(p));
                let d = chunk_dist(c, p);
                assert(0 <= d <= 4);
                let k = fresh.index_of(p);
                fresh.lemma_filter_contains(at_dist(c, d), k);
                if d == 0 {
                    let m = b0.index_of(p);
                    assert(r[m] == p);
                } else if d == 1 {
                    let m = b1.index_of(p);
                    assert(r[b0.len() + m] == p);
                } else if d == 2 {
                    let m = b2.index_of(p);
                    assert(r[pre.len() + queue.len() + m] == p);
                } else if d == 3 {
                    let m = b3.index_of(p);
                    assert(r[pre.len() + queue.len() + b2.len() + m] == p);
                } else {
                    let m = b4.index_of(p);
                    assert(r[pre.len() + queue.len() + b2.len() + b3.len() + m] == p);
                }
            }
        }
    }
}

proof fn lemma_filter_no_dup<A>(s: Seq<A>, p: spec_fn(A) -> bool)
    requires
        s.no_duplicates(),
    ensures
        s.filter(p).no_duplicates(),
    decreases s.len(),
{
    reveal(Seq::filter);
    if s.len() > 0 {
        let rest = s.drop_last();
        assert(rest.no_duplicates()) by {
            assert forall|i: int, j: int| 0 <= i < rest.len() && 0 <= j < rest.len() && i != j
                implies rest[i] != rest[j] by {
                assert(rest[i] == s[i] && rest[j] == s[j]);
            }
        }
        lemma_filter_no_dup(rest, p);
        let sub = rest.filter(p);
        if p(s.last()) {
            if sub.contains(s.last()) {
                rest.lemma_filter_contains_rev(p, s.last());
                let k = rest.index_of(s.last());
                assert(s[k] == s[s.len() - 1]);
            }
            assert(sub.push(s.last()).no_duplicates()) by {
                let q = sub.push(s.last());
                assert forall|i: int, j: int| 0 <= i < q.len() && 0 <= j < q.len() && i != j implies q[i] != q[j] by {
                    if i < sub.len() && j < sub.len() {
                    } else if i < sub.len() {
                        assert(sub.contains(sub[i]));
                    } else {
                        assert(sub.contains(sub[j]));
                    }
                }
            }
        }
    }
}

proof fn lemma_skip_no_dup<A>(q: Seq<A>, m: int)
    requires
        q.no_duplicates(),
        0 <= m <= q.len(),
    ensures
        q.skip(m).no_duplicates(),
{
    let r = q.skip(m);
    assert forall|i: int, j: int| 0 <= i < r.len() && 0 <= j < r.len() && i != j implies r[i] != r[j] by {
        assert(r[i] == q[i + m] && r[j] == q[j + m]);
    }
}

/// The 25 chunks around a chunk in range are distinct.
proof fn lemma_ring_no_dup(c: V2i)
    requires
        chunk_in_range(c),
    ensures
        ring(c).no_duplicates(),
{
    let r = ring(c);
    assert forall|i: int, j: int| 0 <= i < r.len() && 0 <= j < r.len() && i != j implies r[i] != r[j] by {
        if r[i] == r[j] {
            assert(i / 5 == j / 5 && i % 5 == j % 5);
            assert(i == j) by (nonlinear_arith)
                requires 0 <= i < 25, 0 <= j < 25, i / 5 == j / 5, i % 5 == j % 5;
        }
    }
}

/// Two lists without duplicates whose elements are told apart by `tag`
/// (false on the first list, true on the second) join without duplicates.
proof fn lemma_concat_no_dup_by_tag(a: Seq<V2i>, b: Seq<V2i>, tag: spec_fn(V2i) -> bool)
    requires
        a.no_duplicates(),
        b.no_duplicates(),
        forall|i: int| 0 <= i < a.len() ==> !tag(#[trigger] a[i]),
        forall|j: int| 0 <= j < b.len() ==> tag(#[trigger] b[j]),
    ensures
        (a + b).no_duplicates(),
{
    assert forall|i: int, j: int| 0 <= i < a.len() && 0 <= j < b.len() implies a[i] != b[j] by {
        assert(!tag(a[i]) && tag(b[j]));
    }
    vstd::seq_lib::lemma_no_dup_in_concat(a, b);
}

/// Queueing the chunks around `c` keeps a load queue free of duplicates.
proof fn lemma_queued_around_no_dup(loaded: Set<u64>, queue: Seq<V2i>, c: V2i)
    requires
        queue.no_duplicates(),
        chunk_in_range(c),
    ensures
        queued_around(loaded, queue, c).no_duplicates(),
{
    broadcast use vstd::seq_lib::group_filter_ensures;
    let fresh = fresh_chunks(loaded, queue, c);
    lemma_ring_no_dup(c);
    lemma_filter_no_dup(ring(c), needs_loading(loaded, queue));
    assert forall|i: int| 0 <= i < fresh.len() implies !queue.contains(#[trigger] fresh[i]) by {
        assert(needs_loading(loaded, queue)(fresh[i]));
    }
    let b0 = fresh.filter(at_dist(c, 0));
    let b1 = fresh.filter(at_dist(c, 1));
    let b2 = fresh.filter(at_dist(c, 2));
    let b3 = fresh.filter(at_dist(c, 3));
    let b4 = fresh.filter(at_dist(c, 4));
    lemma_filter_no_dup(fresh, at_dist(c, 0));
    lemma_filter_no_dup(fresh, at_dist(c, 1));
    lemma_filter_no_dup(fresh, at_dist(c, 2));
    lemma_filter_no_dup(fresh, at_dist(c, 3));
    lemma_filter_no_dup(fresh, at_dist(c, 4));
    assert forall|d: int, i: int| 0 <= i < fresh.filter(at_dist(c, d)).len() implies
        chunk_dist(c, #[trigger] fresh.filter(at_dist(c, d))[i]) == d
            && !queue.contains(fresh.filter(at_dist(c, d))[i]) by {
        let x = fresh.filter(at_dist(c, d))[i];
        assert(at_dist(c, d)(x));
        assert(fresh.filter(at_dist(c, d)).contains(x));
        fresh.lemma_filter_contains_rev(at_dist(c, d), x);
        let k = fresh.index_of(x);
        assert(fresh[k] == x);
    }
    let s1 = b0 + b1;
    lemma_concat_no_dup_by_tag(b0, b1, at_dist(c, 1));
    let s2 = s1 + queue;
    let in_queue = |p: V2i| queue.contains(p);
    assert forall|i: int| 0 <= i < s1.len() implies !in_queue(#[trigger] s1[i]) by {
        if i < b0.len() {
            assert(s1[i] == b0[i]);
        } else {
            assert(s1[i] == b1[i - b0.len()]);
        }
    }
    assert forall|j: int| 0 <= j < queue.len() implies in_queue(#[trigger] queue[j]) by {
        assert(queue.contains(queue[j]));
    }
    lemma_concat_no_dup_by_tag(s1, queue, in_queue);
    let far = |d: int| (|p: V2i| !queue.contains(p) && chunk_dist(c, p) == d);
    assert forall|i: int| 0 <= i < s2.len() implies (queue.contains(#[trigger] s2[i])
        || chunk_dist(c, s2[i]) == 0 || chunk_dist(c, s2[i]) == 1) by {
        if i < s1.len() {
            assert(s2[i] == s1[i]);
            if i < b0.len() {
                assert(s1[i] == b0[i]);
            } else {
                assert(s1[i] == b1[i - b0.len()]);
            }
        } else {
            assert(s2[i] == queue[i - s1.len()]);
            assert(queue.contains(queue[i - s1.len()]));
        }
    }
    assert forall|j: int| 0 <= j < b2.len() implies far(2)(#[trigger] b2[j]) by {}
    lemma_concat_no_dup_by_tag(s2, b2, far(2));
    let s3 = s2 + b2;
    assert forall|i: int| 0 <= i < s3.len() implies (queue.contains(#[trigger] s3[i])
        || (0 <= chunk_dist(c, s3[i]) <= 2)) by {
        if i < s2.len() {
            assert(s3[i] == s2[i]);
        } else {
            assert(s3[i] == b2[i - s2.len()]);
        }
    }
    assert forall|j: int| 0 <= j < b3.len() implies far(3)(#[trigger] b3[j]) by {}
    lemma_concat_no_dup_by_tag(s3, b3, far(3));
    let s4 = s3 + b3;
    assert forall|i: int| 0 <= i < s4.len() implies (queue.contains(#[trigger] s4[i])
        || (0 <= chunk_dist(c, s4[i]) <= 3)) by {
        if i < s3.len() {
            assert(s4[i] == s3[i]);
        } else {
            assert(s4[i] == b3[i - s3.len()]);
        }
    }
    assert forall|j: int| 0 <= j < b4.len() implies far(4)(#[trigger] b4[j]) by {}
    lemma_concat_no_dup_by_tag(s4, b4, far(4));
    assert(queued_around(loaded, queue, c) == s4 + b4);
}

/// The fresh chunks at distance `d` from `c` lie within `LOAD_RADIUS` of
/// `c` on each axis, at distance `d`, and are neither loaded nor queued.
proof fn lemma_band_facts(loaded: Set<u64>, queue: Seq<V2i>, c: V2i, d: int)
    requires
        chunk_in_range(c),
    ensures
        forall|i: int| 0 <= i < fresh_chunks(loaded, queue, c).filter(at_dist(c, d)).len() ==> {
            let x = #[trigger] fresh_chunks(loaded, queue, c).filter(at_dist(c, d))[i];
            &&& chunk_dist(c, x) == d
            &&& !queue.contains(x)
            &&& !loaded.contains(key_of(x))
            &&& abs(x.x - c.x) <= LOAD_RADIUS
            &&& abs(x.y - c.y) <= LOAD_RADIUS
        },
{
    broadcast use vstd::seq_lib::group_filter_ensures;
    let fresh = fresh_chunks(loaded, queue, c);
    let band = fresh.filter(at_dist(c, d));
    assert forall|i: int| 0 <= i < band.len() implies {
        let x = #[trigger] band[i];
        &&& chunk_dist(c, x) == d
        &&& !queue.contains(x)
        &&& !loaded.contains(key_of(x))
        &&& abs(x.x - c.x) <= LOAD_RADIUS
        &&& abs(x.y - c.y) <= LOAD_RADIUS
    } by {
        let x = band[i];
        assert(at_dist(c, d)(x));
        assert(band.contains(x));
        fresh.lemma_filter_contains_rev(at_dist(c, d), x);
        let k = fresh.index_of(x);
        assert(fresh[k] == x);
        assert(needs_loading(loaded, queue)(x));
        assert(fresh.contains(x));
        ring(c).lemma_filter_contains_rev(needs_loading(loaded, queue), x);
        let m = ring(c).index_of(x);
        assert(ring(c)[m] == x);
        assert(-2 <= m / 5 - 2 <= 2 && -2 <= m % 5 - 2 <= 2) by (nonlinear_arith)
            requires 0 <= m < 25;
    }
}

/// Queueing the chunks around `c` puts the nearest first: every new chunk
/// within distance 1 of `c` stands before every chunk that was queued
/// already, which stand before every new chunk further away; the new
/// chunks come in order of distance from `c`; and every new chunk lies
/// within `LOAD_RADIUS` of `c` on each axis and is not loaded. (A chunk
/// that was queued already is not queued again, see `law_ring_covered`
/// and `lemma_queued_around_no_dup`.)
pub proof fn law_nearest_first(loaded: Set<u64>, queue: Seq<V2i>, c: V2i)
    requires
        chunk_in_range(c),
    ensures
        ({
            let r = queued_around(loaded, queue, c);
            &&& forall|i: int, j: int| 0 <= i < r.len() && 0 <= j < r.len() && !queue.contains(#[trigger] r[i])
                && chunk_dist(c, r[i]) <= 1 && queue.contains(#[trigger] r[j]) ==> i < j
            &&& forall|i: int, j: int| 0 <= i < r.len() && 0 <= j < r.len() && queue.contains(#[trigger] r[i])
                && !queue.contains(#[trigger] r[j]) && chunk_dist(c, r[j]) >= 2 ==> i < j
            &&& forall|i: int, j: int| 0 <= i < j < r.len() && !queue.contains(#[trigger] r[i])
                && !queue.contains(#[trigger] r[j]) ==> chunk_dist(c, r[i]) <= chunk_dist(c, r[j])
            &&& forall|i: int| 0 <= i < r.len() && !queue.contains(#[trigger] r[i]) ==> {
                &&& !loaded.contains(key_of(r[i]))
                &&& abs(r[i].x - c.x) <= LOAD_RADIUS
                &&& abs(r[i].y - c.y) <= LOAD_RADIUS
            }
        }),
{
    let fresh = fresh_chunks(loaded, queue, c);
    let b0 = fresh.filter(at_dist(c, 0));
    let b1 = fresh.filter(at_dist(c, 1));
    let b2 = fresh.filter(at_dist(c, 2));
    let b3 = fresh.filter(at_dist(c, 3));
    let b4 = fresh.filter(at_dist(c, 4));
    lemma_band_facts(loaded, queue, c, 0);
    lemma_band_facts(loaded, queue, c, 1);
    lemma_band_facts(loaded, queue, c, 2);
    lemma_band_facts(loaded, queue, c, 3);
    lemma_band_facts(loaded, queue, c, 4);
    let r = queued_around(loaded, queue, c);
    assert(r == b0 + b1 + queue + b2 + b3 + b4);
    let l0 = b0.len() as int;
    let l1 = l0 + b1.len();
    let lq = l1 + queue.len();
    let l2 = lq + b2.len();
    let l3 = l2 + b3.len();
    // where each entry of the new queue comes from
    assert forall|i: int| 0 <= i < r.len() implies {
        &&& i < l1 ==> !queue.contains(#[trigger] r[i]) && chunk_dist(c, r[i]) == (if i < l0 { 0int } else { 1int })
        &&& l1 <= i < lq ==> queue.contains(r[i])
        &&& lq <= i ==> !queue.contains(r[i])
            && chunk_dist(c, r[i]) == (if i < l2 { 2int } else if i < l3 { 3int } else { 4int })
        &&& !queue.contains(r[i]) ==> !loaded.contains(key_of(r[i])) && abs(r[i].x - c.x) <= LOAD_RADIUS
            && abs(r[i].y - c.y) <= LOAD_RADIUS
    } by {
        if i < l0 {
            assert(r[i] == b0[i]);
        } else if i < l1 {
            assert(r[i] == b1[i - l0]);
        } else if i < lq {
            assert(r[i] == queue[i - l1]);
            assert(queue.contains(queue[i - l1]));
        } else if i < l2 {
            assert(r[i] == b2[i - lq]);
        } else if i < l3 {
            assert(r[i] == b3[i - l2]);
        } else {
            assert(r[i] == b4[i - l3]);
        }
    }
}

/// The chunk manager of a tile-map terrain.
pub struct Terrain1 {
    pub player_chunks: HashMap<i32, HashSet<u64>>,
    pub player_positions: HashMap<i32, V2i>,
    pub chunk_cache: HashMap<u64, ChunkData>,
    pub loaded_chunks: HashSet<u64>,
    pub path: String,
    pub seedser: i32,
    pub max_cached_chunks: usize,
    pub player_node_names: Vec<String>,
    pub chunk_load_queue: VecDeque<V2i>,
    pub chunk_unload_queue: VecDeque<V2i>,
    pub chunk_save_queue: VecDeque<V2i>,
    pub frame_counter: u32,
    pub chunks_generated_this_frame: usize,
    pub chunks_unloaded_this_frame: usize,
    pub chunks_saved_this_frame: usize,
    pub all_players_chunks: HashSet<u64>,
}

/// Whether a queue holds a chunk.
fn queue_contains(q: &VecDeque<V2i>, p: V2i) -> (r: bool)
    ensures
        r == q@.contains(p),
{
    let mut i: usize = 0;
    while i < q.len()
        invariant
            i <= q@.len(),
            forall|j: int| 0 <= j < i ==> q@[j] != p,
        decreases q@.len() - i,
    {
        if q[i] == p {
            return true;
        }
        i = i + 1;
    }
    false
}

fn iabs(a: i32) -> (r: i32)
    requires
        a > i32::MIN,
    ensures
        r == abs(a as int),
{
    if a < 0 { -a } else { a }
}

/// The keys of a set of chunk keys, in the set's own order.
fn set_keys(s: &HashSet<u64>) -> (v: Vec<u64>)
    ensures
        v@.to_set() == s@,
        v@.no_duplicates(),
{
    let mut v: Vec<u64> = Vec::new();
    for k in it: s.iter()
        invariant
            it.seq().unref().to_set() == s@,
            it.seq().unref().no_duplicates(),
            v@ == it.seq().unref().take(it.index() as int),
            it.index() == it.seq().len() ==> v@ == it.seq().unref(),
    {
        v.push(*k);
        assert(v@ =~= it.seq().unref().take(it.index() + 1));
        assert(it.seq().unref().take(it.seq().len() as int) =~= it.seq().unref());
    }
    v
}

/// The keys of the chunk cache, in the map's own order.
fn cache_keys(m: &HashMap<u64, ChunkData>) -> (v: Vec<u64>)
    ensures
        v@.to_set() == m@.dom(),
        v@.no_duplicates(),
{
    let mut v: Vec<u64> = Vec::new();
    for k in it: m.keys()
        invariant
            it.seq().unref().to_set() == m@.dom(),
            it.seq().unref().no_duplicates(),
            v@ == it.seq().unref().take(it.index() as int),
            it.index() == it.seq().len() ==> v@ == it.seq().unref(),
    {
        v.push(*k);
        assert(v@ =~= it.seq().unref().take(it.index() + 1));
        assert(it.seq().unref().take(it.seq().len() as int) =~= it.seq().unref());
    }
    v
}

/// The player ids with a known position, in the map's own order.
fn player_ids(m: &HashMap<i32, V2i>) -> (v: Vec<i32>)
    ensures
        v@.to_set() == m@.dom(),
        v@.no_duplicates(),
{
    let mut v: Vec<i32> = Vec::new();
    for k in it: m.keys()
        invariant
            it.seq().unref().to_set() == m@.dom(),
            it.seq().unref().no_duplicates(),
            v@ == it.seq().unref().take(it.index() as int),
            it.index() == it.seq().len() ==> v@ == it.seq().unref(),
    {
        v.push(*k);
        assert(v@ =~= it.seq().unref().take(it.index() + 1));
        assert(it.seq().unref().take(it.seq().len() as int) =~= it.seq().unref());
    }
    v
}

/// The number of chunks at the front of `q` that are already loaded.
pub open spec fn leading_loaded(loaded: Set<u64>, q: Seq<V2i>) -> nat
    decreases q.len(),
{
    if q.len() == 0 {
        0
    } else if loaded.contains(key_of(q[0])) {
        1 + leading_loaded(loaded, q.drop_first())
    } else {
        0
    }
}

proof fn lemma_leading_loaded_bound(loaded: Set<u64>, q: Seq<V2i>)
    ensures
        leading_loaded(loaded, q) <= q.len(),
        leading_loaded(loaded, q) < q.len() ==> !loaded.contains(key_of(q[leading_loaded(loaded, q) as int])),
        forall|i: int| 0 <= i < leading_loaded(loaded, q) ==> loaded.contains(key_of(#[trigger] q[i])),
    decreases q.len(),
{
    if q.len() > 0 && loaded.contains(key_of(q[0])) {
        lemma_leading_loaded_bound(loaded, q.drop_first());
        assert forall|i: int| 0 <= i < leading_loaded(loaded, q) implies loaded.contains(key_of(#[trigger] q[i])) by {
            if i > 0 {
                assert(q[i] == q.drop_first()[i - 1]);
            }
        }
    }
}

/// A chunk whose tile coordinates fit an `i32`.
pub open spec fn chunk_in_range(c: V2i) -> bool {
    -0x800_0000 <= c.x < 0x800_0000 && -0x800_0000 <= c.y < 0x800_0000
}

/// Whether a chunk's tile coordinates fit an `i32`; generating a chunk
/// outside that range overflows.
pub fn is_chunk_in_range(c: V2i) -> (r: bool)
    ensures
        r == chunk_in_range(c),
{
    -0x800_0000 <= c.x && c.x < 0x800_0000 && -0x800_0000 <= c.y && c.y < 0x800_0000
}

/// Tile `i` (row-major) of chunk `c`.
pub open spec fn tile_at(c: V2i, i: int) -> V2i {
    V2i { x: (c.x * 16 + i % 16) as i32, y: (c.y * 16 + i / 16) as i32 }
}

/// Every tile lies in the chunk that holds it, at the index that
/// `place_tile` writes: redrawing that chunk (`restore_ops`,
/// `generated_ops`) draws that index back at the same tile.
pub proof fn law_tile_in_its_chunk(p: V2i)
    ensures
        0 <= tile_index(floor_mod16(p.x as int), floor_mod16(p.y as int)) < CHUNK_TILES,
        tile_at(chunk_of(p), tile_index(floor_mod16(p.x as int), floor_mod16(p.y as int))) == p,
{
    let mx = floor_mod16(p.x as int);
    let my = floor_mod16(p.y as int);
    let i = tile_index(mx, my);
    assert(0 <= mx < 16 && 0 <= my < 16);
    assert(i % 16 == mx && i / 16 == my) by (nonlinear_arith)
        requires i == my * 16 + mx, 0 <= mx < 16, 0 <= my < 16;
    assert(floor_div16(p.x as int) * 16 + mx == p.x) by (nonlinear_arith)
        requires mx == (p.x as int) % 16;
    assert(floor_div16(p.y as int) * 16 + my == p.y) by (nonlinear_arith)
        requires my == (p.y as int) % 16;
    assert(i32::MIN <= floor_div16(p.x as int) <= i32::MAX) by (nonlinear_arith)
        requires i32::MIN <= p.x <= i32::MAX;
    assert(i32::MIN <= floor_div16(p.y as int) <= i32::MAX) by (nonlinear_arith)
        requires i32::MIN <= p.y <= i32::MAX;
}

/// The tile a new chunk gets where the altitude noise is below the water
/// level (`water`) or not.
pub open spec fn generated_tile(water: bool) -> V2i {
    if water { V2i { x: 0, y: 11 } } else { V2i { x: 1, y: 0 } }
}

/// The tiles of a newly generated chunk.
pub open spec fn generated_tiles(water: Seq<bool>) -> Seq<V2i> {
    Seq::new(CHUNK_TILES as nat, |i: int| generated_tile(water[i]))
}

/// The tile writes that draw a newly generated chunk, row by row: water
/// from source 1, land from source 2.
pub open spec fn generated_ops(c: V2i, water: Seq<bool>) -> Seq<TileOp> {
    Seq::new(
        CHUNK_TILES as nat,
        |i: int|
            TileOp {
                pos: tile_at(c, i),
                source_id: if water[i] { 1 } else { 2 },
                atlas: generated_tile(water[i]),
                alternative: 0,
            },
    )
}

/// A write that puts a tile on the map (not an empty marker).
pub open spec fn draws_tile() -> spec_fn(TileOp) -> bool {
    |op: TileOp| op.atlas.x >= 0
}

/// The tile writes that redraw a chunk read back from its file, row by row,
/// all from source 1, skipping empty tiles.
pub open spec fn restore_ops(c: V2i, tiles: Seq<V2i>) -> Seq<TileOp> {
    Seq::new(
        CHUNK_TILES as nat,
        |i: int| TileOp { pos: tile_at(c, i), source_id: 1, atlas: tiles[i], alternative: 0 },
    ).filter(draws_tile())
}

/// The tile writes that erase chunk `c`, column by column.
pub open spec fn clear_ops(c: V2i) -> Seq<TileOp> {
    Seq::new(
        CHUNK_TILES as nat,
        |i: int|
            TileOp {
                pos: V2i { x: (c.x * 16 + i / 16) as i32, y: (c.y * 16 + i % 16) as i32 },
                source_id: -1i32,
                atlas: empty_tile(),
                alternative: -1i32,
            },
    )
}

/// Clearing chunk `c` erases exactly its own tiles: 256 erase writes
/// (no tile, from no source), each on a tile of chunk `c`, no tile twice,
/// and every tile of chunk `c` among them.
pub proof fn law_clear_erases_its_chunk(c: V2i)
    requires
        chunk_in_range(c),
    ensures
        clear_ops(c).len() == CHUNK_TILES,
        forall|i: int| 0 <= i < CHUNK_TILES ==> {
            &&& chunk_of(#[trigger] clear_ops(c)[i].pos) == c
            &&& clear_ops(c)[i].source_id == -1
            &&& clear_ops(c)[i].atlas == (V2i { x: -1i32, y: -1i32 })
        },
        forall|i: int, j: int| 0 <= i < j < CHUNK_TILES ==> #[trigger] clear_ops(c)[i].pos != #[trigger] clear_ops(c)[j].pos,
        forall|p: V2i| chunk_of(p) == c ==> exists|i: int| 0 <= i < CHUNK_TILES && #[trigger] clear_ops(c)[i].pos == p,
{
    let ops = clear_ops(c);
    assert forall|i: int| 0 <= i < CHUNK_TILES implies {
        &&& chunk_of(#[trigger] ops[i].pos) == c
        &&& ops[i].source_id == -1
        &&& ops[i].atlas == (V2i { x: -1i32, y: -1i32 })
    } by {
        let a = i / 16;
        let b = i % 16;
        assert(0 <= a < 16 && 0 <= b < 16) by (nonlinear_arith)
            requires 0 <= i < 256, a == i / 16, b == i % 16;
        assert((c.x * 16 + a) / 16 == c.x) by (nonlinear_arith)
            requires 0 <= a < 16;
        assert((c.y * 16 + b) / 16 == c.y) by (nonlinear_arith)
            requires 0 <= b < 16;
    }
    assert forall|i: int, j: int| 0 <= i < j < CHUNK_TILES implies #[trigger] ops[i].pos != #[trigger] ops[j].pos by {
        if ops[i].pos == ops[j].pos {
            assert(0 <= i / 16 < 16 && 0 <= j / 16 < 16) by (nonlinear_arith)
                requires 0 <= i < 256, 0 <= j < 256;
            assert(i / 16 == j / 16 && i % 16 == j % 16);
            assert(i == j) by (nonlinear_arith)
                requires i / 16 == j / 16, i % 16 == j % 16;
        }
    }
    assert forall|p: V2i| chunk_of(p) == c implies exists|i: int| 0 <= i < CHUNK_TILES && #[trigger] ops[i].pos == p by {
        let mx = (p.x as int) % 16;
        let my = (p.y as int) % 16;
        let i = 16 * mx + my;
        assert(0 <= mx < 16 && 0 <= my < 16);
        assert(floor_div16(p.x as int) == c.x && floor_div16(p.y as int) == c.y) by {
            assert(i32::MIN <= floor_div16(p.x as int) <= i32::MAX) by (nonlinear_arith)
                requires i32::MIN <= p.x <= i32::MAX;
            assert(i32::MIN <= floor_div16(p.y as int) <= i32::MAX) by (nonlinear_arith)
                requires i32::MIN <= p.y <= i32::MAX;
        }
        assert(i / 16 == mx && i % 16 == my) by (nonlinear_arith)
            requires i == 16 * mx + my, 0 <= mx < 16, 0 <= my < 16;
        assert(c.x * 16 + mx == p.x) by (nonlinear_arith)
            requires c.x == (p.x as int) / 16, mx == (p.x as int) % 16;
        assert(c.y * 16 + my == p.y) by (nonlinear_arith)
            requires c.y == (p.y as int) / 16, my == (p.y as int) % 16;
        assert(ops[i].pos == p);
    }
}

/// The tiles a chunk file holds, where they make a chunk.
pub open spec fn file_chunk_tiles(bytes: Seq<u8>) -> Option<Seq<V2i>> {
    match chunk_file_tiles(bytes) {
        Some(t) => if CHUNK_TILES <= t.len() <= crate::codec::max_file_tiles() { Some(t) } else { None },
        None => None,
    }
}

/// The keys of a list of chunks.
pub open spec fn keys_in(s: Seq<V2i>) -> Set<u64> {
    Set::new(|k: u64| exists|i: int| 0 <= i < s.len() && k == key_of(#[trigger] s[i]))
}

/// Chunks that are cached and dirty in `cache`.
pub open spec fn dirty_in(cache: Map<u64, ChunkData>) -> spec_fn(V2i) -> bool {
    |c: V2i| cache.contains_key(key_of(c)) && cache[key_of(c)].changed
}

/// Nanoseconds from `then` to `now`, zero where `now` is earlier.
pub open spec fn elapsed(then: u64, now: u64) -> int {
    if now >= then { now - then } else { 0 }
}

/// Whole seconds from `then` to `now` (times in nanoseconds), zero where
/// `now` is earlier.
pub open spec fn elapsed_secs(then: u64, now: u64) -> int {
    elapsed(then, now) / 1_000_000_000
}

/// Some player stands within `UNLOAD_DISTANCE` chunks of `c` on both axes.
pub open spec fn near_a_player(positions: Map<i32, V2i>, c: V2i) -> bool {
    exists|id: i32|
        #[trigger] positions.contains_key(id) && abs(c.x - chunk_of(positions[id]).x) <= UNLOAD_DISTANCE
            && abs(c.y - chunk_of(positions[id]).y) <= UNLOAD_DISTANCE
}

/// The loaded chunks far from every player that are not queued for
/// unloading yet.
pub open spec fn distant_chunks(t: Terrain1) -> Set<V2i> {
    Set::new(
        |c: V2i| t.loaded(c) && !near_a_player(t.player_positions@, c) && !t.chunk_unload_queue@.contains(c),
    )
}

/// The chunks with a key in `keys` that are far from every player and not
/// in `queue`.
pub open spec fn distant_among(keys: Seq<u64>, positions: Map<i32, V2i>, queue: Seq<V2i>) -> Set<V2i> {
    Set::new(|c: V2i| keys.contains(key_of(c)) && !near_a_player(positions, c) && !queue.contains(c))
}

/// The cached chunks that the clean-up may drop at `now`: clean, not
/// loaded, not wanted by a player, and last accessed more than
/// `CHUNK_CLEANUP_AGE_SECS` before.
pub open spec fn evictable(t: Terrain1, now: u64) -> Set<u64> {
    t.chunk_cache@.dom().filter(
        |k: u64|
            !t.chunk_cache@[k].changed && !t.loaded_chunks@.contains(k) && !t.all_players_chunks@.contains(k)
                && elapsed_secs(t.chunk_cache@[k].last_accessed, now) > CHUNK_CLEANUP_AGE_SECS,
    )
}

/// `post` is `pre` after the distant chunks are queued for unloading (see
/// `queue_distant_chunks_for_unload`).
pub open spec fn queued_distant(pre: Terrain1, post: Terrain1) -> bool {
    &&& pre.player_positions@.len() == 0 ==> post == pre
    &&& pre.player_positions@.len() > 0 ==> {
        let n = pre.chunk_unload_queue@.len() as int;
        let added = post.chunk_unload_queue@.skip(n);
        &&& post.chunk_unload_queue@.take(n) == pre.chunk_unload_queue@
        &&& post.chunk_unload_queue@.len() >= n
        &&& added.no_duplicates()
        &&& added.to_set() == distant_chunks(pre)
    }
    &&& post == (Terrain1 { chunk_unload_queue: post.chunk_unload_queue, ..pre })
}

/// `post` is `pre` after the cache is cleaned up at `now` (see
/// `cleanup_old_chunks`).
pub open spec fn cleaned_up(pre: Terrain1, post: Terrain1, now: u64) -> bool {
    &&& pre.chunk_cache@.len() <= pre.max_cached_chunks ==> post == pre
    &&& pre.chunk_cache@.len() > pre.max_cached_chunks ==> {
        let e = evictable(pre, now);
        let gone = pre.chunk_cache@.dom().difference(post.chunk_cache@.dom());
        let need = pre.chunk_cache@.len() - pre.max_cached_chunks;
        &&& post.chunk_cache@ == pre.chunk_cache@.remove_keys(gone)
        &&& gone.subset_of(e)
        &&& gone.len() == if need <= e.len() { need } else { e.len() as int }
        &&& forall|a: u64, b: u64| #[trigger] gone.contains(a) && #[trigger] e.contains(b) && !gone.contains(b) ==>
            pre.chunk_cache@[a].last_accessed <= pre.chunk_cache@[b].last_accessed
    }
    &&& post == (Terrain1 { chunk_cache: post.chunk_cache, ..pre })
}

/// The clean-up only ever drops chunks: a dirty chunk (whose tiles are not
/// saved yet), a loaded one, one a player wants, or one accessed within
/// `CHUNK_CLEANUP_AGE_SECS` seconds before `now` stays as it was, and no
/// chunk is added or changed.
pub proof fn law_cleanup_keeps_needed_chunks(pre: Terrain1, post: Terrain1, now: u64)
    requires
        cleaned_up(pre, post, now),
    ensures
        forall|k: u64| #[trigger] pre.chunk_cache@.contains_key(k) && (pre.chunk_cache@[k].changed
            || pre.loaded_chunks@.contains(k) || pre.all_players_chunks@.contains(k)
            || elapsed_secs(pre.chunk_cache@[k].last_accessed, now) <= CHUNK_CLEANUP_AGE_SECS)
            ==> post.chunk_cache@.contains_key(k) && post.chunk_cache@[k] == pre.chunk_cache@[k],
        forall|k: u64| #[trigger] post.chunk_cache@.contains_key(k)
            ==> pre.chunk_cache@.contains_key(k) && post.chunk_cache@[k] == pre.chunk_cache@[k],
{
    if pre.chunk_cache@.len() > pre.max_cached_chunks {
        let e = evictable(pre, now);
        let gone = pre.chunk_cache@.dom().difference(post.chunk_cache@.dom());
        assert forall|k: u64| #[trigger] pre.chunk_cache@.contains_key(k) && (pre.chunk_cache@[k].changed
            || pre.loaded_chunks@.contains(k) || pre.all_players_chunks@.contains(k)
            || elapsed_secs(pre.chunk_cache@[k].last_accessed, now) <= CHUNK_CLEANUP_AGE_SECS)
            implies post.chunk_cache@.contains_key(k) && post.chunk_cache@[k] == pre.chunk_cache@[k] by {
            assert(!e.contains(k));
            assert(!gone.contains(k));
        }
    }
}

/// The position in `cands` of the chunk accessed longest ago.
fn oldest_candidate(cache: &HashMap<u64, ChunkData>, cands: &Vec<u64>) -> (best: usize)
    requires
        cands@.len() > 0,
        forall|x: u64| #[trigger] cands@.contains(x) ==> cache@.contains_key(x),
    ensures
        best < cands@.len(),
        forall|m: int| 0 <= m < cands@.len() ==>
            cache@[cands@[best as int]].last_accessed <= cache@[#[trigger] cands@[m]].last_accessed,
{
    let mut best: usize = 0;
    let mut best_time: u64 = 0;
    let mut j: usize = 0;
    while j < cands.len()
        invariant
            j <= cands@.len(),
            cands@.len() > 0,
            best < cands@.len(),
            forall|x: u64| #[trigger] cands@.contains(x) ==> cache@.contains_key(x),
            j > 0 ==> best_time == cache@[cands@[best as int]].last_accessed,
            j == 0 ==> best == 0,
            forall|m: int| 0 <= m < j ==> best_time <= cache@[#[trigger] cands@[m]].last_accessed,
        decreases cands@.len() - j,
    {
        let k = cands[j];
        assert(cands@.contains(k));
        let t = match cache.get(&k) {
            Some(c) => c.last_accessed,
            None => {
                assert(false);
                return best;
            },
        };
        if j == 0 || t < best_time {
            best = j;
            best_time = t;
        }
        j = j + 1;
    }
    best
}

/// Puts the chunks of `fresh` at distance `d` from `c`, in order, at the
/// front or at the back of the queue.
fn push_band(queue: &mut VecDeque<V2i>, fresh: &Vec<V2i>, c: V2i, d: i32, front: bool)
    requires
        forall|j: int| 0 <= j < fresh@.len() ==>
            -0x800_0002 <= #[trigger] fresh@[j].x < 0x800_0002 && -0x800_0002 <= fresh@[j].y < 0x800_0002,
        -0x800_0000 <= c.x < 0x800_0000,
        -0x800_0000 <= c.y < 0x800_0000,
    ensures
        front ==> final(queue)@ == fresh@.filter(at_dist(c, d as int)) + old(queue)@,
        !front ==> final(queue)@ == old(queue)@ + fresh@.filter(at_dist(c, d as int)),
{
    let ghost pred = at_dist(c, d as int);
    if front {
        // from the last chunk back, each pushed to the front
        let mut j: usize = fresh.len();
        while j > 0
            invariant
                j <= fresh@.len(),
                pred == at_dist(c, d as int),
                forall|i: int| 0 <= i < fresh@.len() ==>
                    -0x800_0002 <= #[trigger] fresh@[i].x < 0x800_0002 && -0x800_0002 <= fresh@[i].y < 0x800_0002,
                -0x800_0000 <= c.x < 0x800_0000,
                -0x800_0000 <= c.y < 0x800_0000,
                queue@ == fresh@.skip(j as int).filter(pred) + old(queue)@,
            decreases j,
        {
            let p = fresh[j - 1];
            let dist = iabs(p.x - c.x) + iabs(p.y - c.y);
            proof {
                assert(fresh@.skip(j - 1) =~= seq![p] + fresh@.skip(j as int));
                fresh@.skip(j as int).lemma_filter_prepend(p, pred);
            }
            if dist == d {
                queue.push_front(p);
            }
            j = j - 1;
            proof {
                assert(queue@ =~= fresh@.skip(j as int).filter(pred) + old(queue)@);
            }
        }
        assert(fresh@.skip(0) =~= fresh@);
    } else {
        let mut j: usize = 0;
        while j < fresh.len()
            invariant
                j <= fresh@.len(),
                pred == at_dist(c, d as int),
                forall|i: int| 0 <= i < fresh@.len() ==>
                    -0x800_0002 <= #[trigger] fresh@[i].x < 0x800_0002 && -0x800_0002 <= fresh@[i].y < 0x800_0002,
                -0x800_0000 <= c.x < 0x800_0000,
                -0x800_0000 <= c.y < 0x800_0000,
                queue@ == old(queue)@ + fresh@.take(j as int).filter(pred),
            decreases fresh@.len() - j,
        {
            let p = fresh[j];
            let dist = iabs(p.x - c.x) + iabs(p.y - c.y);
            proof {
                assert(fresh@.take(j + 1) =~= fresh@.take(j as int).push(p));
                fresh@.take(j as int).lemma_filter_push(p, pred);
            }
            if dist == d {
                queue.push_back(p);
            }
            j = j + 1;
        }
        assert(fresh@.take(fresh@.len() as int) =~= fresh@);
    }
}

impl Terrain1 {
    /// Chunk `p` is loaded (its tiles are in the tile map).
    pub open spec fn loaded(&self, p: V2i) -> bool {
        self.loaded_chunks@.contains(key_of(p))
    }

    /// Chunk `p` is in the cache.
    pub open spec fn cached(&self, p: V2i) -> bool {
        self.chunk_cache@.contains_key(key_of(p))
    }

    /// The cached data of chunk `p`.
    pub open spec fn cache_at(&self, p: V2i) -> ChunkData {
        self.chunk_cache@[key_of(p)]
    }

    /// Every cached chunk has a full set of tiles, every loaded chunk is
    /// cached, every cached, loaded, or to-be-unloaded or saved chunk is in
    /// range, and no chunk waits twice to be loaded or unloaded.
    pub open spec fn wf(&self) -> bool {
        &&& self.chunk_load_queue@.no_duplicates()
        &&& self.chunk_unload_queue@.no_duplicates()
        &&& forall|k: u64| #[trigger] self.chunk_cache@.contains_key(k) ==>
            self.chunk_cache@[k].wf() && chunk_in_range(pos_of_key(k))
        &&& forall|k: u64| #[trigger] self.loaded_chunks@.contains(k) ==>
            chunk_in_range(pos_of_key(k)) && self.chunk_cache@.contains_key(k)
        &&& forall|i: int| 0 <= i < self.chunk_unload_queue@.len() ==> chunk_in_range(#[trigger] self.chunk_unload_queue@[i])
        &&& forall|i: int| 0 <= i < self.chunk_save_queue@.len() ==> chunk_in_range(#[trigger] self.chunk_save_queue@[i])
    }

    /// A terrain with no players, chunks or queued work (`init`).
    pub fn new() -> (t: Terrain1)
        ensures
            t.wf(),
            t.player_chunks@ == Map::<i32, HashSet<u64>>::empty(),
            t.player_positions@ == Map::<i32, V2i>::empty(),
            t.chunk_cache@ == Map::<u64, ChunkData>::empty(),
            t.loaded_chunks@ == Set::<u64>::empty(),
            t.path@ == Seq::<char>::empty(),
            t.seedser == 0,
            t.max_cached_chunks == DEFAULT_MAX_CACHED_CHUNKS,
            t.player_node_names@ == Seq::<String>::empty(),
            t.chunk_load_queue@ == Seq::<V2i>::empty(),
            t.chunk_unload_queue@ == Seq::<V2i>::empty(),
            t.chunk_save_queue@ == Seq::<V2i>::empty(),
            t.frame_counter == 0,
            t.chunks_generated_this_frame == 0,
            t.chunks_unloaded_this_frame == 0,
            t.chunks_saved_this_frame == 0,
            t.all_players_chunks@ == Set::<u64>::empty(),
    {
        Terrain1 {
            player_chunks: HashMap::new(),
            player_positions: HashMap::new(),
            chunk_cache: HashMap::new(),
            loaded_chunks: HashSet::new(),
            path: String::new(),
            seedser: 0,
            max_cached_chunks: DEFAULT_MAX_CACHED_CHUNKS,
            player_node_names: Vec::new(),
            chunk_load_queue: VecDeque::new(),
            chunk_unload_queue: VecDeque::new(),
            chunk_save_queue: VecDeque::new(),
            frame_counter: 0,
            chunks_generated_this_frame: 0,
            chunks_unloaded_this_frame: 0,
            chunks_saved_this_frame: 0,
            all_players_chunks: HashSet::new(),
        }
    }

    /// Takes the world seed (the caller reseeds the altitude noise with it).
    pub fn sync_seed(&mut self, seed: i32)
        ensures
            *final(self) == (Terrain1 { seedser: seed, ..*old(self) }),
    {
        self.seedser = seed;
    }

    /// The chunk that holds a tile.
    pub fn get_chunk_coord(&self, pos: V2i) -> (c: V2i)
        ensures
            c == chunk_of(pos),
    {
        get_chunk_coord_static(pos)
    }

    /// Queues the chunks around the chunk of `pos` that are neither loaded
    /// nor queued, closest first, marks the 25 chunks around it as wanted by
    /// the players, and records them as player `player_id`'s chunks.
    pub fn queue_chunks_for_player(&mut self, player_id: i32, pos: V2i)
        ensures
            queued_for_player(*old(self), *final(self), player_id, pos),
            final(self).player_positions == old(self).player_positions,
            old(self).wf() ==> final(self).wf(),
    {
        let center = self.get_chunk_coord(pos);
        let ghost c = center;
        let ghost loaded0 = self.loaded_chunks@;
        let ghost queue0 = self.chunk_load_queue@;
        let ghost pred = needs_loading(loaded0, queue0);
        proof {
            assert(-0x800_0000 <= center.x < 0x800_0000) by (nonlinear_arith)
                requires center.x == (pos.x as int) / 16;
            assert(-0x800_0000 <= center.y < 0x800_0000) by (nonlinear_arith)
                requires center.y == (pos.y as int) / 16;
        }
        let mut fresh: Vec<V2i> = Vec::new();
        let mut ring_set: HashSet<u64> = HashSet::new();
        let mut i: usize = 0;
        while i < 25
            invariant
                i <= 25,
                c == center,
                c == chunk_of(pos),
                -0x800_0000 <= c.x < 0x800_0000,
                -0x800_0000 <= c.y < 0x800_0000,
                old(self).loaded_chunks@ == loaded0,
                old(self).chunk_load_queue@ == queue0,
                self.all_players_chunks@ == old(self).all_players_chunks@ + ring_set@,
                ring_set@ == Set::new(|k: u64| exists|j: int| 0 <= j < i && k == key_of(#[trigger] ring(c)[j])),
                fresh@ == ring(c).take(i as int).filter(pred),
                pred == needs_loading(loaded0, queue0),
                *self == (Terrain1 { all_players_chunks: self.all_players_chunks, ..*old(self) }),
            decreases 25 - i,
        {
            let dx: i32 = (i / 5) as i32 - 2;
            let dy: i32 = (i % 5) as i32 - 2;
            let p = V2i { x: center.x + dx, y: center.y + dy };
            assert(p == ring(c)[i as int]);
            let k = key(p);
            self.all_players_chunks.insert(k);
            ring_set.insert(k);
            let is_loaded = self.loaded_chunks.contains(&k);
            let is_queued = queue_contains(&self.chunk_load_queue, p);
            proof {
                assert(ring(c).take(i + 1) =~= ring(c).take(i as int).push(p));
                ring(c).take(i as int).lemma_filter_push(p, pred);
            }
            if !is_loaded && !is_queued {
                fresh.push(p);
            }
            i = i + 1;
            assert(ring_set@ =~= Set::new(|k: u64| exists|j: int| 0 <= j < i && k == key_of(#[trigger] ring(c)[j])));
            assert(self.all_players_chunks@ =~= old(self).all_players_chunks@ + ring_set@);
        }
        assert(ring(c).take(25) =~= ring(c));
        assert(ring_set@ =~= ring_keys(c));
        proof {
            assert forall|j: int| 0 <= j < fresh@.len() implies
                -0x800_0002 <= #[trigger] fresh@[j].x < 0x800_0002 && -0x800_0002 <= fresh@[j].y < 0x800_0002 by {
                ring(c).lemma_filter_contains_rev(pred, fresh@[j]);
                assert(fresh@.contains(fresh@[j]));
            }
        }
        push_band(&mut self.chunk_load_queue, &fresh, center, 1, true);
        push_band(&mut self.chunk_load_queue, &fresh, center, 0, true);
        push_band(&mut self.chunk_load_queue, &fresh, center, 2, false);
        push_band(&mut self.chunk_load_queue, &fresh, center, 3, false);
        push_band(&mut self.chunk_load_queue, &fresh, center, 4, false);
        assert(self.chunk_load_queue@ =~= queued_around(loaded0, queue0, c));
        proof {
            if old(self).wf() {
                lemma_queued_around_no_dup(loaded0, queue0, c);
            }
        }
        let ghost mid = *self;
        self.player_chunks.insert(player_id, ring_set);
        proof {
            assert(*self == (Terrain1 {
                chunk_load_queue: self.chunk_load_queue,
                all_players_chunks: self.all_players_chunks,
                player_chunks: self.player_chunks,
                player_positions: self.player_positions,
                ..*old(self)
            }));
        }
    }

    /// Records that player `id` stands on tile `cord`; when that puts the
    /// player in another chunk (or the player is new), queues the chunks
    /// around it.
    pub fn update_player_position(&mut self, id: i32, cord: V2i)
        ensures
            final(self).player_positions@ == old(self).player_positions@.insert(id, cord),
            ({
                let moved = !old(self).player_positions@.contains_key(id)
                    || chunk_of(old(self).player_positions@[id]) != chunk_of(cord);
                &&& moved ==> queued_for_player(*old(self), *final(self), id, cord)
                &&& !moved ==> *final(self) == (Terrain1 { player_positions: final(self).player_positions, ..*old(self) })
            }),
            old(self).wf() ==> final(self).wf(),
    {
        let new_chunk = get_chunk_coord_static(cord);
        let moved_chunk = match self.player_positions.get(&id) {
            Some(old_pos) => get_chunk_coord_static(*old_pos) != new_chunk,
            None => true,
        };
        self.player_positions.insert(id, cord);
        if moved_chunk {
            self.queue_chunks_for_player(id, cord);
        }
    }

    /// One turn of the frame's load loop: while the frame's budget of
    /// `MAX_CHUNKS_PER_FRAME` lasts, drops the loaded chunks at the front of
    /// the load queue and hands out the next one to generate, counting it.
    pub fn process_chunk_queue(&mut self) -> (r: Option<V2i>)
        ensures
            old(self).chunks_generated_this_frame >= MAX_CHUNKS_PER_FRAME ==> r is None && *final(self) == *old(self),
            old(self).chunks_generated_this_frame < MAX_CHUNKS_PER_FRAME ==> ({
                let q = old(self).chunk_load_queue@;
                let m = leading_loaded(old(self).loaded_chunks@, q) as int;
                if m == q.len() {
                    &&& r is None
                    &&& final(self).chunk_load_queue@ == Seq::<V2i>::empty()
                    &&& *final(self) == (Terrain1 { chunk_load_queue: final(self).chunk_load_queue, ..*old(self) })
                } else {
                    &&& r == Some(q[m])
                    &&& !old(self).loaded(q[m])
                    &&& final(self).chunk_load_queue@ == q.skip(m + 1)
                    &&& final(self).chunks_generated_this_frame == old(self).chunks_generated_this_frame + 1
                    &&& *final(self) == (Terrain1 {
                        chunk_load_queue: final(self).chunk_load_queue,
                        chunks_generated_this_frame: final(self).chunks_generated_this_frame,
                        ..*old(self)
                    })
                }
            }),
            old(self).wf() ==> final(self).wf(),
    {
        if self.chunks_generated_this_frame >= MAX_CHUNKS_PER_FRAME {
            return None;
        }
        let ghost q = old(self).chunk_load_queue@;
        let ghost loaded = old(self).loaded_chunks@;
        proof {
            lemma_leading_loaded_bound(loaded, q);
        }
        let ghost mut popped: int = 0;
        loop
            invariant
                0 <= popped <= leading_loaded(loaded, q),
                leading_loaded(loaded, q) <= q.len(),
                self.chunk_load_queue@ == q.skip(popped),
                leading_loaded(loaded, q) == popped + leading_loaded(loaded, q.skip(popped)),
                loaded == self.loaded_chunks@,
                old(self).chunks_generated_this_frame < MAX_CHUNKS_PER_FRAME,
                q == old(self).chunk_load_queue@,
                *self == (Terrain1 { chunk_load_queue: self.chunk_load_queue, ..*old(self) }),
            decreases self.chunk_load_queue@.len(),
        {
            let ghost before = self.chunk_load_queue@;
            match self.chunk_load_queue.pop_front() {
                None => {
                    return None;
                },
                Some(chunk_pos) => {
                    let k = key(chunk_pos);
                    proof {
                        assert(before.drop_first() =~= q.skip(popped + 1));
                        assert(before[0] == q[popped]);
                    }
                    if self.loaded_chunks.contains(&k) {
                        proof {
                            popped = popped + 1;
                        }
                    } else {
                        self.chunks_generated_this_frame = self.chunks_generated_this_frame + 1;
                        proof {
                            if old(self).wf() {
                                lemma_skip_no_dup(q, popped + 1);
                            }
                        }
                        return Some(chunk_pos);
                    }
                },
            }
        }
    }

    /// Starts a frame's work: with no player known nothing happens and the
    /// result is false; otherwise the frame counter advances and the
    /// per-frame budgets are reset.
    pub fn begin_frame(&mut self) -> (r: bool)
        requires
            old(self).player_positions@.len() > 0 ==> old(self).frame_counter < u32::MAX,
        ensures
            r == (old(self).player_positions@.len() > 0),
            !r ==> *final(self) == *old(self),
            r ==> *final(self) == (Terrain1 {
                frame_counter: (old(self).frame_counter + 1) as u32,
                chunks_generated_this_frame: 0,
                chunks_unloaded_this_frame: 0,
                chunks_saved_this_frame: 0,
                ..*old(self)
            }),
    {
        if self.player_positions.is_empty() {
            return false;
        }
        self.frame_counter = self.frame_counter + 1;
        self.chunks_generated_this_frame = 0;
        self.chunks_unloaded_this_frame = 0;
        self.chunks_saved_this_frame = 0;
        true
    }

    /// One turn of the frame's save loop: while the frame's budget of
    /// `MAX_SAVES_PER_FRAME` lasts, hands out the next chunk of the save
    /// queue, counting it.
    pub fn process_save_queue(&mut self) -> (r: Option<V2i>)
        requires
            old(self).wf(),
        ensures
            final(self).wf(),
            old(self).chunks_saved_this_frame >= MAX_SAVES_PER_FRAME || old(self).chunk_save_queue@.len() == 0
                ==> r is None && *final(self) == *old(self),
            old(self).chunks_saved_this_frame < MAX_SAVES_PER_FRAME && old(self).chunk_save_queue@.len() > 0 ==> {
                &&& r == Some(old(self).chunk_save_queue@[0])
                &&& final(self).chunk_save_queue@ == old(self).chunk_save_queue@.drop_first()
                &&& *final(self) == (Terrain1 {
                    chunk_save_queue: final(self).chunk_save_queue,
                    chunks_saved_this_frame: (old(self).chunks_saved_this_frame + 1) as usize,
                    ..*old(self)
                })
            },
            r matches Some(c) ==> chunk_in_range(c),
    {
        if self.chunks_saved_this_frame >= MAX_SAVES_PER_FRAME || self.chunk_save_queue.len() == 0 {
            return None;
        }
        match self.chunk_save_queue.pop_front() {
            None => None,
            Some(chunk_pos) => {
                self.chunks_saved_this_frame = self.chunks_saved_this_frame + 1;
                assert(self.chunk_save_queue@ =~= old(self).chunk_save_queue@.drop_first());
                Some(chunk_pos)
            },
        }
    }

    /// Puts chunk `chunk_pos` in the cache with the given tiles, clean and
    /// accessed at `now`, and returns the writes that redraw it.
    fn restore_chunk(&mut self, chunk_pos: V2i, tiles: Vec<V2i>, now: u64) -> (ops: Vec<TileOp>)
        requires
            old(self).wf(),
            chunk_in_range(chunk_pos),
            CHUNK_TILES <= tiles@.len() <= crate::codec::max_file_tiles(),
        ensures
            final(self).wf(),
            ops@ == restore_ops(chunk_pos, tiles@),
            final(self).chunk_cache@ == old(self).chunk_cache@.insert(key_of(chunk_pos), final(self).cache_at(chunk_pos)),
            final(self).cache_at(chunk_pos).tiles@ == tiles@,
            !final(self).cache_at(chunk_pos).changed,
            final(self).cache_at(chunk_pos).last_accessed == now,
            *final(self) == (Terrain1 { chunk_cache: final(self).chunk_cache, ..*old(self) }),
    {
        let ghost all = Seq::new(
            CHUNK_TILES as nat,
            |i: int| TileOp { pos: tile_at(chunk_pos, i), source_id: 1, atlas: tiles@[i], alternative: 0 },
        );
        let mut ops: Vec<TileOp> = Vec::new();
        let mut i: usize = 0;
        while i < CHUNK_TILES
            invariant
                i <= CHUNK_TILES,
                CHUNK_TILES <= tiles@.len(),
                chunk_in_range(chunk_pos),
                all == Seq::new(
                    CHUNK_TILES as nat,
                    |i: int| TileOp { pos: tile_at(chunk_pos, i), source_id: 1, atlas: tiles@[i], alternative: 0 },
                ),
                ops@ == all.take(i as int).filter(draws_tile()),
            decreases CHUNK_TILES - i,
        {
            let t = tiles[i];
            let op = TileOp {
                pos: V2i { x: chunk_pos.x * 16 + (i % 16) as i32, y: chunk_pos.y * 16 + (i / 16) as i32 },
                source_id: 1,
                atlas: t,
                alternative: 0,
            };
            proof {
                assert(op == all[i as int]);
                assert(all.take(i + 1) =~= all.take(i as int).push(op));
                all.take(i as int).lemma_filter_push(op, draws_tile());
            }
            if t.x >= 0 {
                ops.push(op);
            }
            i = i + 1;
        }
        assert(all.take(CHUNK_TILES as int) =~= all);
        let k = key(chunk_pos);
        let chunk = ChunkData { tiles, changed: false, last_accessed: now };
        self.chunk_cache.insert(k, chunk);
        proof {
            lemma_key_roundtrip(chunk_pos);
        }
        ops
    }

    /// Reads chunk `chunk_pos` back from the bytes of its file: puts it in
    /// the cache, clean and accessed at `now`, and returns the writes that
    /// redraw it; `None`, and nothing changes, where the bytes are not a
    /// chunk file or hold too few tiles for a chunk. Bytes that `save_chunk`
    /// gave for some tiles give those tiles back.
    pub fn load_chunk(&mut self, chunk_pos: V2i, bytes: &[u8], now: u64) -> (r: Option<Vec<TileOp>>)
        requires
            old(self).wf(),
            file_chunk_tiles(bytes@) is Some ==> chunk_in_range(chunk_pos),
        ensures
            final(self).wf(),
            match file_chunk_tiles(bytes@) {
                Some(t) => {
                    &&& r matches Some(ops) && ops@ == restore_ops(chunk_pos, t)
                    &&& final(self).chunk_cache@ == old(self).chunk_cache@.insert(key_of(chunk_pos), final(self).cache_at(chunk_pos))
                    &&& final(self).cache_at(chunk_pos).tiles@ == t
                    &&& !final(self).cache_at(chunk_pos).changed
                    &&& final(self).cache_at(chunk_pos).last_accessed == now
                    &&& *final(self) == (Terrain1 { chunk_cache: final(self).chunk_cache, ..*old(self) })
                },
                None => r is None && *final(self) == *old(self),
            },
            forall|t: Seq<V2i>| #[trigger] chunk_file_bytes(t) == bytes@ && encodable(t)
                && readable_block(bytes@) && CHUNK_TILES <= t.len() <= crate::codec::max_file_tiles()
                ==> r is Some && final(self).cache_at(chunk_pos).tiles@ == t,
    {
        let tiles = match decode_chunk_tiles(bytes) {
            Some(t) => t,
            None => {
                return None;
            },
        };
        if tiles.len() < CHUNK_TILES || tiles.len() > 950000 {
            return None;
        }
        let ops = self.restore_chunk(chunk_pos, tiles, now);
        Some(ops)
    }

    /// The writes that erase chunk `chunk_pos` from the tile map.
    pub fn clear_chunk(&self, chunk_pos: V2i) -> (ops: Vec<TileOp>)
        requires
            chunk_in_range(chunk_pos),
        ensures
            ops@ == clear_ops(chunk_pos),
    {
        let mut ops: Vec<TileOp> = Vec::new();
        let mut i: usize = 0;
        while i < CHUNK_TILES
            invariant
                i <= CHUNK_TILES,
                chunk_in_range(chunk_pos),
                ops@ == clear_ops(chunk_pos).take(i as int),
            decreases CHUNK_TILES - i,
        {
            ops.push(TileOp {
                pos: V2i { x: chunk_pos.x * 16 + (i / 16) as i32, y: chunk_pos.y * 16 + (i % 16) as i32 },
                source_id: -1,
                atlas: V2i { x: -1, y: -1 },
                alternative: -1,
            });
            i = i + 1;
            assert(ops@ =~= clear_ops(chunk_pos).take(i as int));
        }
        assert(clear_ops(chunk_pos).take(CHUNK_TILES as int) =~= clear_ops(chunk_pos));
        ops
    }

    /// Brings chunk `chunk_pos` into the tile map. A loaded chunk is only
    /// marked as accessed at `now`. Otherwise the chunk is read from its
    /// file's bytes (`file`, where it has one) when they hold a chunk, and
    /// else generated anew: tile `i` is water where `water[i]` (the
    /// altitude noise below 0.1) and land elsewhere, and the new chunk is
    /// dirty. Either way the chunk is then loaded, accessed at `now`, and the
    /// result lists the writes that draw it.
    pub fn generate_chunk_immediate(
        &mut self,
        chunk_pos: V2i,
        file: Option<Vec<u8>>,
        water: &Vec<bool>,
        now: u64,
    ) -> (ops: Vec<TileOp>)
        requires
            old(self).wf(),
            chunk_in_range(chunk_pos),
            water@.len() == CHUNK_TILES,
        ensures
            final(self).wf(),
            generated_chunk(*old(self), *final(self), chunk_pos, file, water@, now, ops@),
    {
        let k = key(chunk_pos);
        proof {
            lemma_key_roundtrip(chunk_pos);
        }
        if self.loaded_chunks.contains(&k) {
            match self.chunk_cache.remove(&k) {
                Some(mut chunk) => {
                    chunk.touch(now);
                    self.chunk_cache.insert(k, chunk);
                    assert(self.chunk_cache@ =~= old(self).chunk_cache@.insert(k, self.chunk_cache@[k]));
                },
                None => {
                    assert(self.chunk_cache@ =~= old(self).chunk_cache@);
                },
            }
            return Vec::new();
        }
        match file {
            Some(bytes) => {
                match self.load_chunk(chunk_pos, bytes.as_slice(), now) {
                    Some(ops) => {
                        self.loaded_chunks.insert(k);
                        return ops;
                    },
                    None => {},
                }
            },
            None => {},
        }
        let mut chunk = ChunkData::new(now);
        let mut ops: Vec<TileOp> = Vec::new();
        let mut i: usize = 0;
        while i < CHUNK_TILES
            invariant
                i <= CHUNK_TILES,
                water@.len() == CHUNK_TILES,
                chunk_in_range(chunk_pos),
                chunk.wf(),
                chunk.tiles@.len() == CHUNK_TILES,
                forall|j: int| 0 <= j < i ==> chunk.tiles@[j] == generated_tile(water@[j]),
                ops@ == generated_ops(chunk_pos, water@).take(i as int),
            decreases CHUNK_TILES - i,
        {
            let tile = if water[i] { V2i { x: 0, y: 11 } } else { V2i { x: 1, y: 0 } };
            let source_id: i32 = if water[i] { 1 } else { 2 };
            chunk.tiles.set(i, tile);
            ops.push(TileOp {
                pos: V2i { x: chunk_pos.x * 16 + (i % 16) as i32, y: chunk_pos.y * 16 + (i / 16) as i32 },
                source_id,
                atlas: tile,
                alternative: 0,
            });
            i = i + 1;
            assert(ops@ =~= generated_ops(chunk_pos, water@).take(i as int));
        }
        assert(generated_ops(chunk_pos, water@).take(CHUNK_TILES as int) =~= generated_ops(chunk_pos, water@));
        assert(chunk.tiles@ =~= generated_tiles(water@));
        chunk.changed = true;
        chunk.last_accessed = now;
        self.chunk_cache.insert(k, chunk);
        self.loaded_chunks.insert(k);
        ops
    }

    /// Takes `n` chunks off the front of the unload queue: each leaves the
    /// loaded set (and, with `forget_wanted`, the chunks wanted by players),
    /// and goes to the save queue where it is cached and dirty.
    fn unload_front(&mut self, n: usize, forget_wanted: bool) -> (cleared: Vec<V2i>)
        requires
            old(self).wf(),
            n <= old(self).chunk_unload_queue@.len(),
        ensures
            final(self).wf(),
            cleared@ == old(self).chunk_unload_queue@.take(n as int),
            final(self).chunk_unload_queue@ == old(self).chunk_unload_queue@.skip(n as int),
            final(self).loaded_chunks@ == old(self).loaded_chunks@.difference(keys_in(cleared@)),
            forget_wanted ==> final(self).all_players_chunks@ == old(self).all_players_chunks@.difference(keys_in(cleared@)),
            !forget_wanted ==> final(self).all_players_chunks == old(self).all_players_chunks,
            final(self).chunk_save_queue@ == old(self).chunk_save_queue@ + cleared@.filter(dirty_in(old(self).chunk_cache@)),
            *final(self) == (Terrain1 {
                chunk_unload_queue: final(self).chunk_unload_queue,
                loaded_chunks: final(self).loaded_chunks,
                all_players_chunks: final(self).all_players_chunks,
                chunk_save_queue: final(self).chunk_save_queue,
                ..*old(self)
            }),
            forall|i: int| 0 <= i < cleared@.len() ==> chunk_in_range(#[trigger] cleared@[i]),
    {
        let ghost q = old(self).chunk_unload_queue@;
        let ghost cache = old(self).chunk_cache@;
        let mut cleared: Vec<V2i> = Vec::new();
        let mut j: usize = 0;
        while j < n
            invariant
                j <= n,
                n <= q.len(),
                q == old(self).chunk_unload_queue@,
                cache == old(self).chunk_cache@,
                old(self).wf(),
                cleared@ == q.take(j as int),
                self.chunk_unload_queue@ == q.skip(j as int),
                self.loaded_chunks@ == old(self).loaded_chunks@.difference(keys_in(cleared@)),
                forget_wanted ==> self.all_players_chunks@ == old(self).all_players_chunks@.difference(keys_in(cleared@)),
                !forget_wanted ==> self.all_players_chunks == old(self).all_players_chunks,
                self.chunk_save_queue@ == old(self).chunk_save_queue@ + cleared@.filter(dirty_in(cache)),
                *self == (Terrain1 {
                    chunk_unload_queue: self.chunk_unload_queue,
                    loaded_chunks: self.loaded_chunks,
                    all_players_chunks: self.all_players_chunks,
                    chunk_save_queue: self.chunk_save_queue,
                    ..*old(self)
                }),
            decreases n - j,
        {
            let ghost before = self.chunk_unload_queue@;
            let ghost cleared0 = cleared@;
            let popped = self.chunk_unload_queue.pop_front();
            let chunk_pos = match popped {
                Some(c) => c,
                None => {
                    assert(false);
                    return cleared;
                },
            };
            assert(before[0] == q[j as int]);
            assert(self.chunk_unload_queue@ =~= q.skip(j + 1));
            let k = key(chunk_pos);
            let dirty = match self.chunk_cache.get(&k) {
                Some(chunk) => chunk.changed,
                None => false,
            };
            if dirty {
                self.chunk_save_queue.push_back(chunk_pos);
            }
            self.loaded_chunks.remove(&k);
            if forget_wanted {
                self.all_players_chunks.remove(&k);
            }
            cleared.push(chunk_pos);
            j = j + 1;
            proof {
                assert(cleared@ =~= q.take(j as int));
                assert(cleared@ =~= cleared0.push(chunk_pos));
                cleared0.lemma_filter_push(chunk_pos, dirty_in(cache));
                assert(keys_in(cleared@) =~= keys_in(cleared0).insert(k)) by {
                    assert forall|x: u64| keys_in(cleared@).contains(x) implies keys_in(cleared0).insert(k).contains(x) by {
                        let i = choose|i: int| 0 <= i < cleared@.len() && x == key_of(#[trigger] cleared@[i]);
                        if i < cleared0.len() {
                            assert(cleared0[i] == cleared@[i]);
                        }
                    }
                    assert forall|x: u64| keys_in(cleared0).insert(k).contains(x) implies keys_in(cleared@).contains(x) by {
                        if x == k {
                            assert(cleared@[cleared0.len() as int] == chunk_pos);
                        } else {
                            let i = choose|i: int| 0 <= i < cleared0.len() && x == key_of(#[trigger] cleared0[i]);
                            assert(cleared@[i] == cleared0[i]);
                        }
                    }
                }
                assert(self.loaded_chunks@ =~= old(self).loaded_chunks@.difference(keys_in(cleared@)));
                if forget_wanted {
                    assert(self.all_players_chunks@ =~= old(self).all_players_chunks@.difference(keys_in(cleared@)));
                }
                assert(self.chunk_save_queue@ =~= old(self).chunk_save_queue@ + cleared@.filter(dirty_in(cache)));
            }
        }
        proof {
            assert forall|i: int| 0 <= i < cleared@.len() implies chunk_in_range(#[trigger] cleared@[i]) by {
                assert(cleared@[i] == q[i]);
            }
            assert forall|i: int| 0 <= i < self.chunk_save_queue@.len() implies chunk_in_range(#[trigger] self.chunk_save_queue@[i]) by {
                if i >= old(self).chunk_save_queue@.len() {
                    let x = self.chunk_save_queue@[i];
                    let f = cleared@.filter(dirty_in(cache));
                    assert(f[i - old(self).chunk_save_queue@.len()] == x);
                    cleared@.lemma_filter_contains_rev(dirty_in(cache), x);
                    assert(f.contains(x));
                }
            }
            assert forall|i: int| 0 <= i < self.chunk_unload_queue@.len() implies chunk_in_range(#[trigger] self.chunk_unload_queue@[i]) by {
                assert(self.chunk_unload_queue@[i] == q[i + n]);
            }
        }
        cleared
    }

    /// The frame's unloading: while the frame's budget of
    /// `MAX_UNLOADS_PER_FRAME` lasts, takes chunks off the unload queue; each
    /// is no longer loaded nor wanted by the players, and goes to the save
    /// queue where it is cached and dirty. The result lists the chunks to
    /// erase from the tile map (see `clear_chunk`).
    pub fn process_unload_queue(&mut self) -> (cleared: Vec<V2i>)
        requires
            old(self).wf(),
        ensures
            final(self).wf(),
            ({
                let budget = if old(self).chunks_unloaded_this_frame >= MAX_UNLOADS_PER_FRAME { 0 }
                    else { MAX_UNLOADS_PER_FRAME - old(self).chunks_unloaded_this_frame };
                let n = if budget <= old(self).chunk_unload_queue@.len() { budget as int }
                    else { old(self).chunk_unload_queue@.len() as int };
                &&& cleared@ == old(self).chunk_unload_queue@.take(n)
                &&& final(self).chunk_unload_queue@ == old(self).chunk_unload_queue@.skip(n)
                &&& final(self).chunks_unloaded_this_frame == old(self).chunks_unloaded_this_frame + n
            }),
            final(self).loaded_chunks@ == old(self).loaded_chunks@.difference(keys_in(cleared@)),
            final(self).all_players_chunks@ == old(self).all_players_chunks@.difference(keys_in(cleared@)),
            final(self).chunk_save_queue@ == old(self).chunk_save_queue@ + cleared@.filter(dirty_in(old(self).chunk_cache@)),
            *final(self) == (Terrain1 {
                chunk_unload_queue: final(self).chunk_unload_queue,
                loaded_chunks: final(self).loaded_chunks,
                all_players_chunks: final(self).all_players_chunks,
                chunk_save_queue: final(self).chunk_save_queue,
                chunks_unloaded_this_frame: final(self).chunks_unloaded_this_frame,
                ..*old(self)
            }),
            forall|i: int| 0 <= i < cleared@.len() ==> chunk_in_range(#[trigger] cleared@[i]),
    {
        let budget: usize = if self.chunks_unloaded_this_frame >= MAX_UNLOADS_PER_FRAME { 0 }
            else { MAX_UNLOADS_PER_FRAME - self.chunks_unloaded_this_frame };
        let len = self.chunk_unload_queue.len();
        let n: usize = if budget <= len { budget } else { len };
        let cleared = self.unload_front(n, true);
        self.chunks_unloaded_this_frame = self.chunks_unloaded_this_frame + n;
        cleared
    }

    /// Unloads every chunk of the unload queue (as `flush_all_queues` does):
    /// each is no longer loaded and goes to the save queue where it is
    /// cached and dirty; the chunks wanted by players are left as they are.
    /// The result lists the chunks to erase from the tile map.
    pub fn flush_unload_queue(&mut self) -> (cleared: Vec<V2i>)
        requires
            old(self).wf(),
        ensures
            final(self).wf(),
            cleared@ == old(self).chunk_unload_queue@,
            final(self).chunk_unload_queue@ == Seq::<V2i>::empty(),
            final(self).loaded_chunks@ == old(self).loaded_chunks@.difference(keys_in(cleared@)),
            final(self).chunk_save_queue@ == old(self).chunk_save_queue@ + cleared@.filter(dirty_in(old(self).chunk_cache@)),
            *final(self) == (Terrain1 {
                chunk_unload_queue: final(self).chunk_unload_queue,
                loaded_chunks: final(self).loaded_chunks,
                chunk_save_queue: final(self).chunk_save_queue,
                ..*old(self)
            }),
            forall|i: int| 0 <= i < cleared@.len() ==> chunk_in_range(#[trigger] cleared@[i]),
    {
        let n = self.chunk_unload_queue.len();
        let cleared = self.unload_front(n, false);
        assert(old(self).chunk_unload_queue@.take(n as int) =~= old(self).chunk_unload_queue@);
        assert(self.chunk_unload_queue@ =~= Seq::<V2i>::empty());
        cleared
    }

    /// The bytes to write to the file of chunk `chunk_pos`: its tiles in the
    /// chunk file format, where it is cached and dirty; `None` (nothing to
    /// save) otherwise.
    pub fn save_chunk(&self, chunk_pos: V2i) -> (r: Option<Vec<u8>>)
        requires
            self.wf(),
        ensures
            r is Some <==> self.cached(chunk_pos) && self.cache_at(chunk_pos).changed,
            r matches Some(b) ==> b@ == chunk_file_bytes(self.cache_at(chunk_pos).tiles@)
                && encodable(self.cache_at(chunk_pos).tiles@) && readable_block(b@),
    {
        let k = key(chunk_pos);
        match self.chunk_cache.get(&k) {
            Some(chunk) => {
                if !chunk.changed {
                    return None;
                }
                encode_chunk_tiles(&chunk.tiles)
            },
            None => None,
        }
    }

    /// Finishes saving chunk `chunk_pos` once its file was written (or not):
    /// a written chunk is clean again, and leaves the cache where it is not
    /// loaded and was last accessed more than `CHUNK_UNLOAD_AGE_SECS` before
    /// `now`; a chunk whose file was not written stays as it was.
    pub fn finish_chunk_save(&mut self, chunk_pos: V2i, written: bool, now: u64)
        requires
            old(self).wf(),
            old(self).cached(chunk_pos),
        ensures
            final(self).wf(),
            ({
                let c0 = old(self).cache_at(chunk_pos);
                if written && !old(self).loaded(chunk_pos) && elapsed_secs(c0.last_accessed, now) > CHUNK_UNLOAD_AGE_SECS {
                    final(self).chunk_cache@ == old(self).chunk_cache@.remove(key_of(chunk_pos))
                } else {
                    &&& final(self).chunk_cache@ == old(self).chunk_cache@.insert(key_of(chunk_pos), final(self).cache_at(chunk_pos))
                    &&& final(self).cache_at(chunk_pos) == (ChunkData { changed: c0.changed && !written, ..c0 })
                }
            }),
            *final(self) == (Terrain1 { chunk_cache: final(self).chunk_cache, ..*old(self) }),
    {
        let k = key(chunk_pos);
        let mut chunk = match self.chunk_cache.remove(&k) {
            Some(c) => c,
            None => {
                assert(false);
                return;
            },
        };
        if written {
            chunk.changed = false;
        }
        let age: u64 = if now >= chunk.last_accessed { now - chunk.last_accessed } else { 0 };
        if written && !self.loaded_chunks.contains(&k) && age / 1_000_000_000 > CHUNK_UNLOAD_AGE_SECS {
            return;
        }
        self.chunk_cache.insert(k, chunk);
        assert(self.chunk_cache@ =~= old(self).chunk_cache@.insert(k, self.chunk_cache@[k]));
    }

    /// One turn of `flush_all_queues`'s load loop: drops the loaded chunks at
    /// the front of the load queue and hands out the next one to generate.
    pub fn flush_next_load(&mut self) -> (r: Option<V2i>)
        ensures
            ({
                let q = old(self).chunk_load_queue@;
                let m = leading_loaded(old(self).loaded_chunks@, q) as int;
                if m == q.len() {
                    &&& r is None
                    &&& final(self).chunk_load_queue@ == Seq::<V2i>::empty()
                } else {
                    &&& r == Some(q[m])
                    &&& !old(self).loaded(q[m])
                    &&& final(self).chunk_load_queue@ == q.skip(m + 1)
                }
            }),
            *final(self) == (Terrain1 { chunk_load_queue: final(self).chunk_load_queue, ..*old(self) }),
            old(self).wf() ==> final(self).wf(),
    {
        let ghost q = old(self).chunk_load_queue@;
        let ghost loaded = old(self).loaded_chunks@;
        proof {
            lemma_leading_loaded_bound(loaded, q);
        }
        let ghost mut popped: int = 0;
        loop
            invariant
                0 <= popped <= leading_loaded(loaded, q),
                leading_loaded(loaded, q) <= q.len(),
                self.chunk_load_queue@ == q.skip(popped),
                leading_loaded(loaded, q) == popped + leading_loaded(loaded, q.skip(popped)),
                loaded == self.loaded_chunks@,
                q == old(self).chunk_load_queue@,
                *self == (Terrain1 { chunk_load_queue: self.chunk_load_queue, ..*old(self) }),
            decreases self.chunk_load_queue@.len(),
        {
            let ghost before = self.chunk_load_queue@;
            match self.chunk_load_queue.pop_front() {
                None => {
                    return None;
                },
                Some(chunk_pos) => {
                    let k = key(chunk_pos);
                    proof {
                        assert(before.drop_first() =~= q.skip(popped + 1));
                        assert(before[0] == q[popped]);
                    }
                    if self.loaded_chunks.contains(&k) {
                        proof {
                            popped = popped + 1;
                        }
                    } else {
                        proof {
                            if old(self).wf() {
                                lemma_skip_no_dup(q, popped + 1);
                            }
                        }
                        return Some(chunk_pos);
                    }
                },
            }
        }
    }

    /// One turn of `flush_all_queues`'s save loop: the next chunk of the
    /// save queue, with no budget.
    pub fn flush_next_save(&mut self) -> (r: Option<V2i>)
        requires
            old(self).wf(),
        ensures
            final(self).wf(),
            old(self).chunk_save_queue@.len() == 0 ==> r is None && *final(self) == *old(self),
            old(self).chunk_save_queue@.len() > 0 ==> {
                &&& r == Some(old(self).chunk_save_queue@[0])
                &&& final(self).chunk_save_queue@ == old(self).chunk_save_queue@.drop_first()
                &&& *final(self) == (Terrain1 { chunk_save_queue: final(self).chunk_save_queue, ..*old(self) })
            },
            r matches Some(c) ==> chunk_in_range(c),
    {
        if self.chunk_save_queue.len() == 0 {
            return None;
        }
        let r = self.chunk_save_queue.pop_front();
        assert(self.chunk_save_queue@ =~= old(self).chunk_save_queue@.drop_first());
        r
    }

    /// Whether some player stands within `UNLOAD_DISTANCE` chunks of `c`.
    fn is_near_a_player(&self, ids: &Vec<i32>, c: V2i) -> (r: bool)
        requires
            ids@.to_set() == self.player_positions@.dom(),
            chunk_in_range(c),
        ensures
            r == near_a_player(self.player_positions@, c),
    {
        let mut j: usize = 0;
        while j < ids.len()
            invariant
                j <= ids@.len(),
                ids@.to_set() == self.player_positions@.dom(),
                chunk_in_range(c),
                forall|i: int| 0 <= i < j ==> {
                    let p = #[trigger] self.player_positions@[ids@[i]];
                    !(abs(c.x - chunk_of(p).x) <= UNLOAD_DISTANCE && abs(c.y - chunk_of(p).y) <= UNLOAD_DISTANCE)
                },
            decreases ids@.len() - j,
        {
            let id = ids[j];
            assert(ids@.to_set().contains(id));
            let p = match self.player_positions.get(&id) {
                Some(p) => *p,
                None => {
                    assert(false);
                    return false;
                },
            };
            let pc = get_chunk_coord_static(p);
            proof {
                assert(-0x800_0000 <= pc.x < 0x800_0000) by (nonlinear_arith)
                    requires pc.x == (p.x as int) / 16;
                assert(-0x800_0000 <= pc.y < 0x800_0000) by (nonlinear_arith)
                    requires pc.y == (p.y as int) / 16;
            }
            let dx = iabs(c.x - pc.x);
            let dy = iabs(c.y - pc.y);
            if dx <= UNLOAD_DISTANCE && dy <= UNLOAD_DISTANCE {
                return true;
            }
            j = j + 1;
        }
        proof {
            if near_a_player(self.player_positions@, c) {
                let id = choose|id: i32|
                    #[trigger] self.player_positions@.contains_key(id)
                        && abs(c.x - chunk_of(self.player_positions@[id]).x) <= UNLOAD_DISTANCE
                        && abs(c.y - chunk_of(self.player_positions@[id]).y) <= UNLOAD_DISTANCE;
                assert(ids@.to_set().contains(id));
                let i = ids@.index_of(id);
                assert(ids@[i] == id);
            }
        }
        false
    }

    /// Queues for unloading every loaded chunk that is more than
    /// `UNLOAD_DISTANCE` chunks (on some axis) from each player and not
    /// queued already, in no particular order; with no player known nothing
    /// happens.
    pub fn queue_distant_chunks_for_unload(&mut self)
        requires
            old(self).wf(),
        ensures
            final(self).wf(),
            old(self).player_positions@.len() == 0 ==> *final(self) == *old(self),
            old(self).player_positions@.len() > 0 ==> {
                let n = old(self).chunk_unload_queue@.len() as int;
                let added = final(self).chunk_unload_queue@.skip(n);
                &&& final(self).chunk_unload_queue@.take(n) == old(self).chunk_unload_queue@
                &&& final(self).chunk_unload_queue@.len() >= n
                &&& added.no_duplicates()
                &&& added.to_set() == distant_chunks(*old(self))
            },
            *final(self) == (Terrain1 { chunk_unload_queue: final(self).chunk_unload_queue, ..*old(self) }),
    {
        if self.player_positions.is_empty() {
            return;
        }
        let ids = player_ids(&self.player_positions);
        let keys = set_keys(&self.loaded_chunks);
        let ghost q0 = old(self).chunk_unload_queue@;
        let ghost n = q0.len() as int;
        let mut i: usize = 0;
        while i < keys.len()
            invariant
                i <= keys@.len(),
                keys@.to_set() == self.loaded_chunks@,
                keys@.no_duplicates(),
                ids@.to_set() == self.player_positions@.dom(),
                q0 == old(self).chunk_unload_queue@,
                n == q0.len(),
                old(self).wf(),
                self.chunk_unload_queue@.len() >= n,
                self.chunk_unload_queue@.take(n) == q0,
                self.chunk_unload_queue@.skip(n).no_duplicates(),
                self.chunk_unload_queue@.skip(n).to_set() == distant_among(keys@.take(i as int), self.player_positions@, q0),
                *self == (Terrain1 { chunk_unload_queue: self.chunk_unload_queue, ..*old(self) }),
            decreases keys@.len() - i,
        {
            let k = keys[i];
            let c = pos_from_key(k);
            assert(keys@.to_set().contains(k));
            let ghost added0 = self.chunk_unload_queue@.skip(n);
            let ghost qq = self.chunk_unload_queue@;
            let near = self.is_near_a_player(&ids, c);
            let queued = if !near { queue_contains(&self.chunk_unload_queue, c) } else { false };
            proof {
                assert(qq =~= q0 + added0);
                lemma_key_surjective(k);
                if added0.contains(c) {
                    assert(added0.to_set().contains(c));
                    assert(keys@.take(i as int).contains(k));
                    let j = keys@.take(i as int).index_of(k);
                    assert(keys@[j] == keys@[i as int]);
                }
                if !near {
                    assert(queued == q0.contains(c));
                }
            }
            if !near && !queued {
                self.chunk_unload_queue.push_back(c);
                proof {
                    assert(self.chunk_unload_queue@.skip(n) =~= added0.push(c));
                    assert(self.chunk_unload_queue@.take(n) =~= q0);
                }
            }
            i = i + 1;
            proof {
                assert(keys@.take(i as int) =~= keys@.take(i - 1).push(k));
                let added = self.chunk_unload_queue@.skip(n);
                assert(added.to_set() =~= distant_among(keys@.take(i as int), self.player_positions@, q0)) by {
                    assert forall|x: V2i| #[trigger] distant_among(keys@.take(i as int), self.player_positions@, q0).contains(x)
                        implies added.to_set().contains(x) by {
                        if key_of(x) == k {
                            lemma_key_injective(x, c);
                            assert(added[added.len() - 1] == c);
                            assert(added.contains(c));
                        } else {
                            let w = keys@.take(i as int).index_of(key_of(x));
                            assert(keys@.take(i - 1)[w] == key_of(x));
                            assert(keys@.take(i - 1).contains(key_of(x)));
                            assert(added0.to_set().contains(x));
                            assert(added0.contains(x));
                            let j = added0.index_of(x);
                            if !near && !q0.contains(c) {
                                assert(added[j] == added0[j]);
                            }
                        }
                    }
                    assert forall|x: V2i| #[trigger] added.to_set().contains(x) implies
                        distant_among(keys@.take(i as int), self.player_positions@, q0).contains(x) by {
                        assert(added.contains(x));
                        let j = added.index_of(x);
                        if j < added0.len() {
                            assert(added0[j] == x);
                            assert(added0.contains(x));
                            assert(added0.to_set().contains(x));
                            let w = keys@.take(i - 1).index_of(key_of(x));
                            assert(keys@.take(i as int)[w] == key_of(x));
                        } else {
                            assert(x == c);
                            assert(keys@.take(i as int)[i - 1] == k);
                        }
                    }
                }
            }
        }
        proof {
            assert(keys@.take(keys@.len() as int) =~= keys@);
            let added = self.chunk_unload_queue@.skip(n);
            assert(added.to_set() =~= distant_chunks(*old(self))) by {
                assert forall|x: V2i| added.to_set().contains(x) <==> distant_chunks(*old(self)).contains(x) by {
                    if keys@.contains(key_of(x)) {
                        assert(keys@.to_set().contains(key_of(x)));
                    }
                    if old(self).loaded(x) {
                        assert(keys@.to_set().contains(key_of(x)));
                    }
                }
            }
            assert forall|j: int| 0 <= j < self.chunk_unload_queue@.len() implies chunk_in_range(#[trigger] self.chunk_unload_queue@[j]) by {
                if j >= n {
                    let x = self.chunk_unload_queue@[j];
                    assert(added[j - n] == x);
                    assert(added.to_set().contains(x));
                    lemma_key_roundtrip(x);
                } else {
                    assert(self.chunk_unload_queue@.take(n)[j] == q0[j]);
                }
            }
            assert(self.chunk_unload_queue@ =~= q0 + added);
            let fresh_one = |p: V2i| !q0.contains(p);
            assert forall|j: int| 0 <= j < q0.len() implies !fresh_one(#[trigger] q0[j]) by {
                assert(q0.contains(q0[j]));
            }
            assert forall|j: int| 0 <= j < added.len() implies fresh_one(#[trigger] added[j]) by {
                assert(added.to_set().contains(added[j]));
            }
            lemma_concat_no_dup_by_tag(q0, added, fresh_one);
        }
    }

    /// When the cache holds more than `max_cached_chunks` chunks, drops the
    /// oldest evictable ones (clean, not loaded, not wanted by a player, not
    /// accessed for more than `CHUNK_CLEANUP_AGE_SECS` before `now`) until
    /// the cache is back at its limit or no evictable chunk is left; among
    /// chunks accessed at the same time, which go is left open.
    #[verifier::rlimit(40)]
    pub fn cleanup_old_chunks(&mut self, now: u64)
        requires
            old(self).wf(),
        ensures
            final(self).wf(),
            old(self).chunk_cache@.len() <= old(self).max_cached_chunks ==> *final(self) == *old(self),
            old(self).chunk_cache@.len() > old(self).max_cached_chunks ==> {
                let e = evictable(*old(self), now);
                let gone = old(self).chunk_cache@.dom().difference(final(self).chunk_cache@.dom());
                let need = old(self).chunk_cache@.len() - old(self).max_cached_chunks;
                &&& final(self).chunk_cache@ == old(self).chunk_cache@.remove_keys(gone)
                &&& gone.subset_of(e)
                &&& gone.len() == if need <= e.len() { need } else { e.len() as int }
                &&& forall|a: u64, b: u64| #[trigger] gone.contains(a) && #[trigger] e.contains(b) && !gone.contains(b) ==>
                    old(self).chunk_cache@[a].last_accessed <= old(self).chunk_cache@[b].last_accessed
            },
            *final(self) == (Terrain1 { chunk_cache: final(self).chunk_cache, ..*old(self) }),
            cleaned_up(*old(self), *final(self), now),
    {
        let len = self.chunk_cache.len();
        if len <= self.max_cached_chunks {
            return;
        }
        let ghost e = evictable(*old(self), now);
        let ghost cache0 = old(self).chunk_cache@;
        let keys = cache_keys(&self.chunk_cache);
        let mut cands: Vec<u64> = Vec::new();
        let mut i: usize = 0;
        while i < keys.len()
            invariant
                i <= keys@.len(),
                keys@.to_set() == cache0.dom(),
                keys@.no_duplicates(),
                cache0 == self.chunk_cache@,
                e == evictable(*old(self), now),
                *self == *old(self),
                cands@.no_duplicates(),
                cands@.to_set() == e.intersect(keys@.take(i as int).to_set()),
            decreases keys@.len() - i,
        {
            let k = keys[i];
            assert(keys@.to_set().contains(k));
            let chunk = match self.chunk_cache.get(&k) {
                Some(c) => c,
                None => {
                    assert(false);
                    return;
                },
            };
            let age: u64 = if now >= chunk.last_accessed { now - chunk.last_accessed } else { 0 };
            let ghost before = cands@;
            if !chunk.changed && !self.loaded_chunks.contains(&k) && !self.all_players_chunks.contains(&k)
                && age / 1_000_000_000 > CHUNK_CLEANUP_AGE_SECS {
                proof {
                    if before.contains(k) {
                        assert(before.to_set().contains(k));
                        let j = keys@.take(i as int).index_of(k);
                        assert(keys@[j] == keys@[i as int]);
                    }
                }
                cands.push(k);
                proof {
                    before.lemma_push_to_set_commute(k);
                }
            }
            i = i + 1;
            proof {
                assert(keys@.take(i as int) =~= keys@.take(i - 1).push(k));
                assert(cands@.to_set() =~= e.intersect(keys@.take(i as int).to_set())) by {
                    assert forall|x: u64| #[trigger] cands@.to_set().contains(x) implies
                        e.intersect(keys@.take(i as int).to_set()).contains(x) by {
                        if x != k || before.contains(x) {
                            assert(before.to_set().contains(x));
                            let w = keys@.take(i - 1).index_of(x);
                            assert(keys@.take(i as int)[w] == x);
                        } else {
                            assert(keys@.take(i as int)[i - 1] == k);
                        }
                    }
                    assert forall|x: u64| #[trigger] e.intersect(keys@.take(i as int).to_set()).contains(x)
                        implies cands@.to_set().contains(x) by {
                        let w = keys@.take(i as int).index_of(x);
                        if w < i - 1 {
                            assert(keys@.take(i - 1)[w] == x);
                            assert(before.to_set().contains(x));
                            assert(before.contains(x));
                            let v = before.index_of(x);
                            assert(cands@[v] == x);
                        } else {
                            assert(x == k);
                            assert(cands@[cands@.len() - 1] == k);
                        }
                    }
                }
            }
        }
        proof {
            assert(keys@.take(keys@.len() as int) =~= keys@);
            assert(cands@.to_set() =~= e) by {
                assert forall|x: u64| e.contains(x) implies keys@.contains(x) by {
                    assert(keys@.to_set().contains(x));
                }
            }
            cands@.unique_seq_to_set();
        }
        let need: usize = len - self.max_cached_chunks;
        let count: usize = if need <= cands.len() { need } else { cands.len() };
        let ghost mut removed: Seq<u64> = Seq::empty();
        let ghost total = cands@.len();
        let mut r: usize = 0;
        while r < count
            invariant
                r <= count,
                count <= total,
                total == e.len(),
                e == evictable(*old(self), now),
                cache0 == old(self).chunk_cache@,
                cands@.no_duplicates(),
                cands@.len() + r == total,
                removed.len() == r,
                removed.no_duplicates(),
                forall|x: u64| cands@.contains(x) ==> e.contains(x),
                forall|x: u64| removed.contains(x) ==> e.contains(x) && !cands@.contains(x),
                forall|x: u64| e.contains(x) ==> cands@.contains(x) || removed.contains(x),
                self.chunk_cache@ == cache0.remove_keys(removed.to_set()),
                forall|a: u64, b: u64| removed.contains(a) && cands@.contains(b) ==>
                    cache0[a].last_accessed <= cache0[b].last_accessed,
                *self == (Terrain1 { chunk_cache: self.chunk_cache, ..*old(self) }),
            decreases count - r,
        {
            proof {
                assert forall|x: u64| #[trigger] cands@.contains(x) implies self.chunk_cache@.contains_key(x)
                    && self.chunk_cache@[x] == cache0[x] by {
                    assert(e.contains(x));
                    assert(!removed.to_set().contains(x));
                }
            }
            let best = oldest_candidate(&self.chunk_cache, &cands);
            proof {
                assert(cands@.contains(cands@[best as int]));
                assert forall|m: int| 0 <= m < cands@.len() implies
                    cache0[cands@[best as int]].last_accessed <= cache0[#[trigger] cands@[m]].last_accessed by {
                    assert(cands@.contains(cands@[m]));
                }
            }
            let ghost old_c = cands@;
            let ghost removed0 = removed;
            let k = cands.remove(best);
            let ghost rest = cands@;
            self.chunk_cache.remove(&k);
            proof {
                assert(old_c[best as int] == k);
                assert(old_c.contains(k));
                assert forall|x: u64| #[trigger] rest.contains(x) implies x != k && old_c.contains(x) by {
                    let w = rest.index_of(x);
                    if w < best {
                        assert(old_c[w] == x);
                    } else {
                        assert(old_c[w + 1] == x);
                    }
                }
                assert forall|x: u64| #[trigger] old_c.contains(x) && x != k implies rest.contains(x) by {
                    let w = old_c.index_of(x);
                    if w < best {
                        assert(rest[w] == x);
                    } else {
                        assert(w != best);
                        assert(rest[w - 1] == x);
                    }
                }
                assert(rest.no_duplicates()) by {
                    assert forall|a: int, b: int| 0 <= a < rest.len() && 0 <= b < rest.len() && a != b
                        implies rest[a] != rest[b] by {
                        let a2 = if a < best { a } else { a + 1 };
                        let b2 = if b < best { b } else { b + 1 };
                        assert(rest[a] == old_c[a2]);
                        assert(rest[b] == old_c[b2]);
                    }
                }
                removed = removed.push(k);
                removed0.lemma_push_to_set_commute(k);
                assert(self.chunk_cache@ =~= cache0.remove_keys(removed.to_set()));
                assert forall|x: u64| #[trigger] removed.contains(x) implies e.contains(x) && !rest.contains(x) by {
                    if x != k {
                        let w = removed.index_of(x);
                        assert(removed0[w] == x);
                        assert(removed0.contains(x));
                    }
                }
                assert forall|x: u64| e.contains(x) implies #[trigger] rest.contains(x) || removed.contains(x) by {
                    if x == k {
                        assert(removed[removed.len() - 1] == k);
                    } else if removed0.contains(x) {
                        let w = removed0.index_of(x);
                        assert(removed[w] == x);
                    }
                }
                assert(removed.no_duplicates()) by {
                    assert forall|a: int, b: int| 0 <= a < removed.len() && 0 <= b < removed.len() && a != b
                        implies removed[a] != removed[b] by {
                        if a < removed0.len() && b < removed0.len() {
                            assert(removed[a] == removed0[a]);
                            assert(removed[b] == removed0[b]);
                        } else if a < removed0.len() {
                            assert(removed0.contains(removed[a]));
                        } else {
                            assert(removed0.contains(removed[b]));
                        }
                    }
                }
                assert forall|a: u64, b: u64| removed.contains(a) && rest.contains(b) implies
                    cache0[a].last_accessed <= cache0[b].last_accessed by {
                    if a == k {
                        let w = old_c.index_of(b);
                        assert(cache0[old_c[best as int]].last_accessed <= cache0[old_c[w]].last_accessed);
                    } else {
                        let w = removed.index_of(a);
                        assert(removed0[w] == a);
                        assert(removed0.contains(a));
                    }
                }
            }
            r = r + 1;
        }
        proof {
            let gone = cache0.dom().difference(self.chunk_cache@.dom());
            assert(gone =~= removed.to_set()) by {
                assert forall|x: u64| removed.to_set().contains(x) implies cache0.dom().contains(x) by {
                    assert(removed.contains(x));
                }
            }
            removed.unique_seq_to_set();
            assert forall|a: u64, b: u64| #[trigger] gone.contains(a) && #[trigger] e.contains(b) && !gone.contains(b) implies
                cache0[a].last_accessed <= cache0[b].last_accessed by {
                assert(removed.contains(a));
                assert(!removed.contains(b));
            }
            assert(gone.subset_of(e)) by {
                assert forall|x: u64| gone.contains(x) implies e.contains(x) by {
                    assert(removed.contains(x));
                }
            }
        }
    }

    /// Ends a frame's work: every `UNLOAD_INTERVAL_FRAMES` frames, queues the
    /// distant chunks for unloading; every `CLEANUP_INTERVAL_FRAMES` frames,
    /// cleans the cache up (see `cleanup_old_chunks`).
    pub fn end_frame(&mut self, now: u64)
        requires
            old(self).wf(),
        ensures
            final(self).wf(),
            ({
                let mid = Terrain1 { chunk_unload_queue: final(self).chunk_unload_queue, ..*old(self) };
                &&& old(self).frame_counter % UNLOAD_INTERVAL_FRAMES == 0 ==> queued_distant(*old(self), mid)
                &&& old(self).frame_counter % UNLOAD_INTERVAL_FRAMES != 0
                    ==> final(self).chunk_unload_queue == old(self).chunk_unload_queue
                &&& old(self).frame_counter % CLEANUP_INTERVAL_FRAMES == 0 ==> cleaned_up(mid, *final(self), now)
                &&& old(self).frame_counter % CLEANUP_INTERVAL_FRAMES != 0
                    ==> final(self).chunk_cache == old(self).chunk_cache
            }),
            *final(self) == (Terrain1 {
                chunk_unload_queue: final(self).chunk_unload_queue,
                chunk_cache: final(self).chunk_cache,
                ..*old(self)
            }),
    {
        if self.frame_counter % UNLOAD_INTERVAL_FRAMES == 0 {
            self.queue_distant_chunks_for_unload();
        }
        if self.frame_counter % CLEANUP_INTERVAL_FRAMES == 0 {
            self.cleanup_old_chunks(now);
        }
    }

    /// A click on tile `l`: the tile becomes land (atlas `(1, 0)` from
    /// source 1) in the cache (a fresh chunk is cached where there was none),
    /// the chunk becomes dirty and is accessed at `now`; the result is the
    /// write that draws the tile.
    pub fn place_tile(&mut self, l: V2i, now: u64) -> (op: TileOp)
        requires
            old(self).wf(),
        ensures
            final(self).wf(),
            op == (TileOp { pos: l, source_id: 1, atlas: V2i { x: 1, y: 0 }, alternative: 0 }),
            ({
                let c = chunk_of(l);
                let idx = tile_index(floor_mod16(l.x as int), floor_mod16(l.y as int));
                let base = if old(self).cached(c) { old(self).cache_at(c).tiles@ } else {
                    Seq::new(CHUNK_TILES as nat, |i: int| empty_tile())
                };
                &&& final(self).chunk_cache@ == old(self).chunk_cache@.insert(key_of(c), final(self).cache_at(c))
                &&& final(self).cache_at(c).tiles@ == base.update(idx, V2i { x: 1, y: 0 })
                &&& final(self).cache_at(c).changed
                &&& final(self).cache_at(c).last_accessed == now
            }),
            *final(self) == (Terrain1 { chunk_cache: final(self).chunk_cache, ..*old(self) }),
    {
        let coords = V2i { x: 1, y: 0 };
        let chunk_pos = get_chunk_coord_static(l);
        let k = key(chunk_pos);
        proof {
            lemma_key_roundtrip(chunk_pos);
            assert(-0x800_0000 <= chunk_pos.x < 0x800_0000) by (nonlinear_arith)
                requires chunk_pos.x == (l.x as int) / 16;
            assert(-0x800_0000 <= chunk_pos.y < 0x800_0000) by (nonlinear_arith)
                requires chunk_pos.y == (l.y as int) / 16;
        }
        let mut entry = match self.chunk_cache.remove(&k) {
            Some(c) => c,
            None => {
                let c = ChunkData::new(now);
                assert(c.tiles@ =~= Seq::new(CHUNK_TILES as nat, |i: int| empty_tile()));
                c
            },
        };
        let lx = mod16(l.x);
        let ly = mod16(l.y);
        entry.set(lx, ly, coords, now);
        self.chunk_cache.insert(k, entry);
        assert(self.chunk_cache@ =~= old(self).chunk_cache@.insert(k, self.chunk_cache@[k]));
        TileOp { pos: l, source_id: 1, atlas: coords, alternative: 0 }
    }

    /// Regenerates the chunk of tile `world_pos`: drops it from the loaded
    /// chunks and the cache, then brings it in again as
    /// `generate_chunk_immediate` does (from `file` where that holds a
    /// chunk, from `water` otherwise).
    pub fn force_generate_chunk_at(
        &mut self,
        world_pos: V2i,
        file: Option<Vec<u8>>,
        water: &Vec<bool>,
        now: u64,
    ) -> (ops: Vec<TileOp>)
        requires
            old(self).wf(),
            water@.len() == CHUNK_TILES,
        ensures
            final(self).wf(),
            ({
                let c = chunk_of(world_pos);
                let k = key_of(c);
                &&& final(self).loaded_chunks@ == old(self).loaded_chunks@.insert(k)
                &&& final(self).chunk_cache@ == old(self).chunk_cache@.insert(k, final(self).cache_at(c))
                &&& final(self).cache_at(c).last_accessed == now
                &&& *final(self) == (Terrain1 {
                    chunk_cache: final(self).chunk_cache,
                    loaded_chunks: final(self).loaded_chunks,
                    ..*old(self)
                })
                &&& match file {
                    Some(bytes) if file_chunk_tiles(bytes@) is Some => {
                        &&& final(self).cache_at(c).tiles@ == file_chunk_tiles(bytes@).unwrap()
                        &&& !final(self).cache_at(c).changed
                        &&& ops@ == restore_ops(c, file_chunk_tiles(bytes@).unwrap())
                    },
                    _ => {
                        &&& final(self).cache_at(c).tiles@ == generated_tiles(water@)
                        &&& final(self).cache_at(c).changed
                        &&& ops@ == generated_ops(c, water@)
                    },
                }
            }),
    {
        let chunk_pos = self.get_chunk_coord(world_pos);
        proof {
            assert(-0x800_0000 <= chunk_pos.x < 0x800_0000) by (nonlinear_arith)
                requires chunk_pos.x == (world_pos.x as int) / 16;
            assert(-0x800_0000 <= chunk_pos.y < 0x800_0000) by (nonlinear_arith)
                requires chunk_pos.y == (world_pos.y as int) / 16;
        }
        let k = key(chunk_pos);
        self.loaded_chunks.remove(&k);
        self.chunk_cache.remove(&k);
        let ghost mid = *self;
        let ops = self.generate_chunk_immediate(chunk_pos, file, water, now);
        proof {
            assert(self.loaded_chunks@ =~= old(self).loaded_chunks@.insert(k));
            assert(self.chunk_cache@ =~= old(self).chunk_cache@.insert(k, self.chunk_cache@[k]));
        }
        ops
    }

    /// The cached chunks that are dirty (for `force_save_all_chunks`), each
    /// once, in no particular order.
    pub fn changed_chunks(&self) -> (r: Vec<V2i>)
        requires
            self.wf(),
        ensures
            r@.no_duplicates(),
            r@.to_set() == Set::new(|c: V2i| self.cached(c) && self.cache_at(c).changed),
            forall|i: int| 0 <= i < r@.len() ==> chunk_in_range(#[trigger] r@[i]),
    {
        let keys = cache_keys(&self.chunk_cache);
        let mut r: Vec<V2i> = Vec::new();
        let mut i: usize = 0;
        while i < keys.len()
            invariant
                i <= keys@.len(),
                keys@.to_set() == self.chunk_cache@.dom(),
                keys@.no_duplicates(),
                self.wf(),
                r@.no_duplicates(),
                r@.to_set() == Set::new(|c: V2i| keys@.take(i as int).contains(key_of(c)) && self.cache_at(c).changed),
                forall|j: int| 0 <= j < r@.len() ==> chunk_in_range(#[trigger] r@[j]),
            decreases keys@.len() - i,
        {
            let k = keys[i];
            assert(keys@.to_set().contains(k));
            let c = pos_from_key(k);
            let ghost r0 = r@;
            let changed = match self.chunk_cache.get(&k) {
                Some(chunk) => chunk.changed,
                None => {
                    assert(false);
                    false
                },
            };
            if changed {
                proof {
                    if r0.contains(c) {
                        assert(r0.to_set().contains(c));
                        let j = keys@.take(i as int).index_of(k);
                        assert(keys@[j] == keys@[i as int]);
                    }
                }
                r.push(c);
                proof {
                    r0.lemma_push_to_set_commute(c);
                }
            }
            i = i + 1;
            proof {
                assert(keys@.take(i as int) =~= keys@.take(i - 1).push(k));
                assert(r@.to_set() =~= Set::new(|x: V2i| keys@.take(i as int).contains(key_of(x)) && self.cache_at(x).changed)) by {
                    assert forall|x: V2i| #[trigger] r@.to_set().contains(x) implies
                        keys@.take(i as int).contains(key_of(x)) && self.cache_at(x).changed by {
                        if r0.contains(x) {
                            assert(r0.to_set().contains(x));
                            let w = keys@.take(i - 1).index_of(key_of(x));
                            assert(keys@.take(i as int)[w] == key_of(x));
                        } else {
                            assert(x == c);
                            assert(keys@.take(i as int)[i - 1] == k);
                        }
                    }
                    assert forall|x: V2i| keys@.take(i as int).contains(key_of(x)) && self.cache_at(x).changed
                        implies #[trigger] r@.to_set().contains(x) by {
                        let w = keys@.take(i as int).index_of(key_of(x));
                        if w < i - 1 {
                            assert(keys@.take(i - 1)[w] == key_of(x));
                            assert(r0.to_set().contains(x));
                        } else {
                            lemma_key_injective(x, c);
                        }
                    }
                }
            }
        }
        proof {
            assert(keys@.take(keys@.len() as int) =~= keys@);
            assert(r@.to_set() =~= Set::new(|c: V2i| self.cached(c) && self.cache_at(c).changed)) by {
                assert forall|x: V2i| #[trigger] self.cached(x) implies keys@.contains(key_of(x)) by {
                    assert(keys@.to_set().contains(key_of(x)));
                }
            }
        }
        r
    }

    /// Sets the folder where chunk files go.
    pub fn set_save_path(&mut self, path: String)
        ensures
            *final(self) == (Terrain1 { path: path, ..*old(self) }),
    {
        self.path = path;
    }

    /// Number of loaded chunks (as Godot's 32-bit integer).
    pub fn get_loaded_chunk_count(&self) -> (n: i32)
        ensures
            n == self.loaded_chunks@.len() as i32,
    {
        self.loaded_chunks.len() as i32
    }

    /// Number of cached chunks (as Godot's 32-bit integer).
    pub fn get_cached_chunk_count(&self) -> (n: i32)
        ensures
            n == self.chunk_cache@.len() as i32,
    {
        self.chunk_cache.len() as i32
    }

    /// Length of the load queue (as Godot's 32-bit integer).
    pub fn get_queue_size(&self) -> (n: i32)
        ensures
            n == self.chunk_load_queue@.len() as i32,
    {
        self.chunk_load_queue.len() as i32
    }

    /// Length of the unload queue (as Godot's 32-bit integer).
    pub fn get_unload_queue_size(&self) -> (n: i32)
        ensures
            n == self.chunk_unload_queue@.len() as i32,
    {
        self.chunk_unload_queue.len() as i32
    }

    /// Length of the save queue (as Godot's 32-bit integer).
    pub fn get_save_queue_size(&self) -> (n: i32)
        ensures
            n == self.chunk_save_queue@.len() as i32,
    {
        self.chunk_save_queue.len() as i32
    }

    /// What is known about the chunk of tile `world_pos`.
    pub fn debug_chunk_info(&self, world_pos: V2i) -> (d: ChunkDebugInfo)
        ensures
            d == (ChunkDebugInfo {
                world_pos,
                chunk_pos: chunk_of(world_pos),
                loaded: self.loaded(chunk_of(world_pos)),
                cached: self.cached(chunk_of(world_pos)),
                queued: self.chunk_load_queue@.contains(chunk_of(world_pos)),
                load_queue_len: self.chunk_load_queue@.len() as usize,
                unload_queue_len: self.chunk_unload_queue@.len() as usize,
                save_queue_len: self.chunk_save_queue@.len() as usize,
                players: self.player_positions@.len() as usize,
            }),
    {
        let chunk_pos = self.get_chunk_coord(world_pos);
        let k = key(chunk_pos);
        ChunkDebugInfo {
            world_pos,
            chunk_pos,
            loaded: self.loaded_chunks.contains(&k),
            cached: self.chunk_cache.contains_key(&k),
            queued: queue_contains(&self.chunk_load_queue, chunk_pos),
            load_queue_len: self.chunk_load_queue.len(),
            unload_queue_len: self.chunk_unload_queue.len(),
            save_queue_len: self.chunk_save_queue.len(),
            players: self.player_positions.len(),
        }
    }

    /// Low-end mode keeps at most 300 chunks in the cache, the normal mode
    /// `DEFAULT_MAX_CACHED_CHUNKS`.
    pub fn set_performance_mode(&mut self, low_end: bool)
        ensures
            *final(self) == (Terrain1 {
                max_cached_chunks: if low_end { 300 } else { DEFAULT_MAX_CACHED_CHUNKS },
                ..*old(self)
            }),
    {
        if low_end {
            self.max_cached_chunks = 300;
        } else {
            self.max_cached_chunks = DEFAULT_MAX_CACHED_CHUNKS;
        }
    }

    /// The most aggressive mode keeps at most 200 chunks in the cache.
    pub fn set_aggressive_performance_mode(&mut self)
        ensures
            *final(self) == (Terrain1 { max_cached_chunks: 200, ..*old(self) }),
    {
        self.max_cached_chunks = 200;
    }
}

} // verus!
