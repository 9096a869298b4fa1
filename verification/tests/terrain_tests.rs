use world_logic::coords::{div16, get_chunk_coord_static, key, mod16, pos_from_key, V2i};
use world_logic::codec::{decode_chunk_tiles, encode_chunk_tiles};
use world_logic::chunk::{ChunkData, WorldMeta};
use world_logic::terrain::{Terrain1, TileOp};

fn v(x: i32, y: i32) -> V2i {
    V2i { x, y }
}

#[test]
fn chunk_coordinates_round_down() {
    assert_eq!(div16(0), 0);
    assert_eq!(div16(15), 0);
    assert_eq!(div16(16), 1);
    assert_eq!(div16(-1), -1);
    assert_eq!(div16(-16), -1);
    assert_eq!(div16(-17), -2);
    assert_eq!(div16(i32::MIN), -134217728);
    assert_eq!(div16(i32::MAX), 134217727);
    assert_eq!(mod16(-1), 15);
    assert_eq!(mod16(-16), 0);
    assert_eq!(mod16(17), 1);
    assert_eq!(get_chunk_coord_static(v(-1, 33)), v(-1, 2));
}

#[test]
fn keys_round_trip() {
    for p in [v(0, 0), v(-1, 5), v(i32::MIN, i32::MAX), v(7, -9)] {
        assert_eq!(pos_from_key(key(p)), p);
    }
    assert_ne!(key(v(1, 0)), key(v(0, 1)));
    assert_eq!(key(v(i32::MIN, i32::MIN)), 0);
    assert_eq!(key(v(i32::MAX, i32::MAX)), u64::MAX);
}

#[test]
fn chunk_file_round_trip() {
    let mut tiles = ChunkData::new(0).tiles;
    tiles[3] = v(1, 0);
    tiles[255] = v(0, 11);
    let bytes = encode_chunk_tiles(&tiles).unwrap();
    // the size of the serialized tiles (8 + 8 * 256 = 2056) comes first, little endian
    assert_eq!(&bytes[0..4], &[0x08, 0x08, 0x00, 0x00]);
    assert_ne!(bytes.len(), 2056);
    let back = decode_chunk_tiles(&bytes).unwrap();
    assert_eq!(back, tiles);
}

#[test]
fn chunk_file_garbage_is_refused() {
    assert_eq!(decode_chunk_tiles(&[1, 2, 3]), None);
    assert_eq!(decode_chunk_tiles(&[]), None);
}

#[test]
fn new_player_queues_nearest_chunks_first() {
    let mut t = Terrain1::new();
    t.update_player_position(7, v(0, 0));
    let q: Vec<V2i> = t.chunk_load_queue.iter().copied().collect();
    assert_eq!(q.len(), 25);
    // the centre first, then distance 1, in column order
    assert_eq!(&q[0..5], &[v(0, 0), v(-1, 0), v(0, -1), v(0, 1), v(1, 0)]);
    let dist = |p: &V2i| p.x.abs() + p.y.abs();
    assert!(q.windows(2).all(|w| dist(&w[0]) <= dist(&w[1])));
    // then the distance-2 chunks in column order
    assert_eq!(q[5], v(-2, 0));
    assert_eq!(q[6], v(-1, -1));
    assert_eq!(t.all_players_chunks.len(), 25);
    assert_eq!(t.player_chunks[&7].len(), 25);
    assert_eq!(t.player_positions[&7], v(0, 0));
    // same chunk again: nothing more is queued
    t.update_player_position(7, v(15, 15));
    assert_eq!(t.chunk_load_queue.len(), 25);
    assert_eq!(t.player_positions[&7], v(15, 15));
}

#[test]
fn frame_budget_hands_out_three_chunks() {
    let mut t = Terrain1::new();
    assert!(!t.begin_frame());
    t.update_player_position(1, v(0, 0));
    assert!(t.begin_frame());
    assert_eq!(t.frame_counter, 1);
    let water = vec![true; 256];
    let mut handed = Vec::new();
    while let Some(c) = t.process_chunk_queue() {
        let ops = t.generate_chunk_immediate(c, None, &water, 5);
        assert_eq!(ops.len(), 256);
        handed.push(c);
    }
    assert_eq!(handed, vec![v(0, 0), v(-1, 0), v(0, -1)]);
    assert_eq!(t.get_loaded_chunk_count(), 3);
    assert_eq!(t.get_queue_size(), 22);
}

#[test]
fn generated_chunk_tiles_and_writes() {
    let mut t = Terrain1::new();
    let mut water = vec![false; 256];
    water[0] = true;
    let ops = t.generate_chunk_immediate(v(1, -1), None, &water, 9);
    assert_eq!(ops[0], TileOp { pos: v(16, -16), source_id: 1, atlas: v(0, 11), alternative: 0 });
    assert_eq!(ops[1], TileOp { pos: v(17, -16), source_id: 2, atlas: v(1, 0), alternative: 0 });
    assert_eq!(ops[16].pos, v(16, -15));
    let c = &t.chunk_cache[&key(v(1, -1))];
    assert!(c.changed);
    assert_eq!(c.last_accessed, 9);
    assert_eq!(c.tiles[0], v(0, 11));
    assert_eq!(c.tiles[1], v(1, 0));
    // a loaded chunk is only touched
    let again = t.generate_chunk_immediate(v(1, -1), None, &water, 20);
    assert!(again.is_empty());
    assert_eq!(t.chunk_cache[&key(v(1, -1))].last_accessed, 20);
}

#[test]
fn saved_chunk_loads_back() {
    let mut t = Terrain1::new();
    let water: Vec<bool> = (0..256).map(|i| i % 3 == 0).collect();
    t.generate_chunk_immediate(v(2, 3), None, &water, 1);
    let bytes = t.save_chunk(v(2, 3)).unwrap();
    t.finish_chunk_save(v(2, 3), true, 2);
    assert!(!t.chunk_cache[&key(v(2, 3))].changed);
    assert_eq!(t.save_chunk(v(2, 3)), None);

    let mut other = Terrain1::new();
    let ops = other.generate_chunk_immediate(v(2, 3), Some(bytes.clone()), &vec![true; 256], 7);
    assert_eq!(ops.len(), 256);
    assert!(ops.iter().all(|op| op.source_id == 1));
    let c = &other.chunk_cache[&key(v(2, 3))];
    assert_eq!(c.tiles, t.chunk_cache[&key(v(2, 3))].tiles);
    assert!(!c.changed);
    assert_eq!(other.get_loaded_chunk_count(), 1);

    let mut third = Terrain1::new();
    assert!(third.load_chunk(v(0, 0), &[0, 1, 2, 3, 4], 0).is_none());
    assert_eq!(third.get_cached_chunk_count(), 0);
}

#[test]
fn distant_chunks_are_unloaded_and_saved() {
    let mut t = Terrain1::new();
    let water = vec![true; 256];
    t.generate_chunk_immediate(v(0, 0), None, &water, 0);
    t.generate_chunk_immediate(v(10, 0), None, &water, 0);
    t.update_player_position(1, v(0, 0));
    t.queue_distant_chunks_for_unload();
    let q: Vec<V2i> = t.chunk_unload_queue.iter().copied().collect();
    assert_eq!(q, vec![v(10, 0)]);
    // queued once only
    t.queue_distant_chunks_for_unload();
    assert_eq!(t.get_unload_queue_size(), 1);
    let cleared = t.process_unload_queue();
    assert_eq!(cleared, vec![v(10, 0)]);
    assert_eq!(t.get_loaded_chunk_count(), 1);
    let q: Vec<V2i> = t.chunk_save_queue.iter().copied().collect();
    assert_eq!(q, vec![v(10, 0)]);
    let ops = t.clear_chunk(v(10, 0));
    assert_eq!(ops.len(), 256);
    assert_eq!(ops[1], TileOp { pos: v(160, 1), source_id: -1, atlas: v(-1, -1), alternative: -1 });
    t.begin_frame();
    assert_eq!(t.process_save_queue(), Some(v(10, 0)));
    assert_eq!(t.process_save_queue(), None);
}

#[test]
fn unload_budget_is_two_per_frame() {
    let mut t = Terrain1::new();
    for i in 0..4 {
        t.chunk_unload_queue.push_back(v(i, i));
    }
    assert_eq!(t.process_unload_queue().len(), 2);
    assert_eq!(t.process_unload_queue().len(), 0);
    assert_eq!(t.get_unload_queue_size(), 2);
    assert_eq!(t.flush_unload_queue().len(), 2);
}

#[test]
fn cleanup_drops_oldest_evictable_chunks() {
    let mut t = Terrain1::new();
    t.set_aggressive_performance_mode();
    assert_eq!(t.max_cached_chunks, 200);
    t.max_cached_chunks = 2;
    let sec: u64 = 1_000_000_000;
    for i in 0..5u64 {
        let mut c = ChunkData::new(i * 10 * sec);
        c.changed = false;
        t.chunk_cache.insert(key(v(i as i32, 0)), c);
    }
    t.cleanup_old_chunks(1000 * sec);
    assert_eq!(t.get_cached_chunk_count(), 2);
    assert!(t.chunk_cache.contains_key(&key(v(3, 0))));
    assert!(t.chunk_cache.contains_key(&key(v(4, 0))));
    // not old enough (600 whole seconds only): nothing goes
    let mut u = Terrain1::new();
    u.max_cached_chunks = 0;
    u.chunk_cache.insert(key(v(0, 0)), ChunkData::new(400 * sec));
    u.cleanup_old_chunks(1000 * sec + 999_999_999);
    assert_eq!(u.get_cached_chunk_count(), 1);
    // accessed within the same second: the earlier one goes first
    let mut w = Terrain1::new();
    w.max_cached_chunks = 1;
    w.chunk_cache.insert(key(v(0, 0)), ChunkData::new(sec + 5));
    w.chunk_cache.insert(key(v(1, 0)), ChunkData::new(sec + 3));
    w.cleanup_old_chunks(1000 * sec);
    assert!(w.chunk_cache.contains_key(&key(v(0, 0))));
    assert!(!w.chunk_cache.contains_key(&key(v(1, 0))));
}

#[test]
fn clicking_places_land() {
    let mut t = Terrain1::new();
    let op = t.place_tile(v(-1, 17), 4);
    assert_eq!(op, TileOp { pos: v(-1, 17), source_id: 1, atlas: v(1, 0), alternative: 0 });
    let c = &t.chunk_cache[&key(v(-1, 1))];
    assert_eq!(c.tiles[16 + 15], v(1, 0));
    assert_eq!(c.tiles[0], v(-1, -1));
    assert!(c.changed);
    assert_eq!(t.changed_chunks(), vec![v(-1, 1)]);
}

#[test]
fn debug_info_and_modes() {
    let mut t = Terrain1::new();
    t.update_player_position(3, v(20, 20));
    let d = t.debug_chunk_info(v(20, 20));
    assert_eq!(d.chunk_pos, v(1, 1));
    assert!(d.queued);
    assert!(!d.loaded);
    assert_eq!(d.load_queue_len, 25);
    assert_eq!(d.players, 1);
    t.set_performance_mode(true);
    assert_eq!(t.max_cached_chunks, 300);
    t.set_performance_mode(false);
    assert_eq!(t.max_cached_chunks, 1000);
    t.sync_seed(42);
    assert_eq!(t.seedser, 42);
    t.set_save_path("user://x".to_string());
    assert_eq!(t.path, "user://x");
}

#[test]
fn force_generate_replaces_chunk() {
    let mut t = Terrain1::new();
    t.place_tile(v(0, 0), 1);
    let ops = t.force_generate_chunk_at(v(3, 3), None, &vec![false; 256], 2);
    assert_eq!(ops.len(), 256);
    assert_eq!(t.chunk_cache[&key(v(0, 0))].tiles[0], v(1, 0));
    assert_eq!(t.chunk_cache[&key(v(0, 0))].tiles[1], v(1, 0));
    assert_eq!(t.get_loaded_chunk_count(), 1);
}

#[test]
fn flush_loads_skip_loaded_chunks() {
    let mut t = Terrain1::new();
    t.generate_chunk_immediate(v(0, 0), None, &vec![true; 256], 0);
    t.chunk_load_queue.push_back(v(0, 0));
    t.chunk_load_queue.push_back(v(5, 5));
    assert_eq!(t.flush_next_load(), Some(v(5, 5)));
    assert_eq!(t.flush_next_load(), None);
    t.chunk_save_queue.push_back(v(1, 1));
    assert_eq!(t.flush_next_save(), Some(v(1, 1)));
    assert_eq!(t.flush_next_save(), None);
}

#[test]
fn periodic_work_runs_on_its_frames() {
    let mut t = Terrain1::new();
    t.generate_chunk_immediate(v(50, 50), None, &vec![true; 256], 0);
    t.update_player_position(1, v(0, 0));
    t.frame_counter = 119;
    assert!(t.begin_frame());
    t.end_frame(0);
    assert_eq!(t.get_unload_queue_size(), 1);
    t.end_frame(0);
    assert_eq!(t.get_unload_queue_size(), 1);
}

#[test]
fn world_meta_starts_empty() {
    let m = WorldMeta::default();
    assert!(m.chunks.is_empty());
}

#[test]
fn placed_tile_is_redrawn_where_it_was_placed() {
    let mut t = Terrain1::new();
    let op = t.place_tile(v(-1, 33), 5);
    assert_eq!(op, TileOp { pos: v(-1, 33), source_id: 1, atlas: v(1, 0), alternative: 0 });
    assert_eq!(ChunkData::index(15, 1), 31);
    let bytes = t.save_chunk(v(-1, 2)).unwrap();
    let water = vec![false; 256];
    let ops = t.force_generate_chunk_at(v(-1, 33), Some(bytes), &water, 6);
    assert_eq!(ops, vec![TileOp { pos: v(-1, 33), source_id: 1, atlas: v(1, 0), alternative: 0 }]);
}

#[test]
fn queued_chunks_are_never_queued_twice() {
    let mut t = Terrain1::new();
    t.update_player_position(1, v(0, 0));
    assert_eq!(t.get_queue_size(), 25);
    t.update_player_position(2, v(16, 0));
    assert_eq!(t.get_queue_size(), 30);
    let q: std::collections::HashSet<V2i> = t.chunk_load_queue.iter().copied().collect();
    assert_eq!(q.len(), 30);
    // a player moving back and forth adds nothing new
    t.update_player_position(1, v(16, 16));
    t.update_player_position(1, v(0, 0));
    let q: std::collections::HashSet<V2i> = t.chunk_load_queue.iter().copied().collect();
    assert_eq!(q.len(), t.get_queue_size() as usize);
}

#[test]
fn chunk_file_is_bincode_pairs_in_an_lz4_block() {
    let raw = bincode::serialize(&vec![(1i32, 2i32), (-1i32, -1i32)]).unwrap();
    assert_eq!(raw.len(), 8 + 8 * 2);
    assert_eq!(&raw[0..16], &[2, 0, 0, 0, 0, 0, 0, 0, 1, 0, 0, 0, 2, 0, 0, 0]);
    assert_eq!(&raw[16..24], &[0xff, 0xff, 0xff, 0xff, 0xff, 0xff, 0xff, 0xff]);
    let bytes = lz4_flex::compress_prepend_size(&raw);
    assert_eq!(decode_chunk_tiles(&bytes), Some(vec![v(1, 2), v(-1, -1)]));
    let written = encode_chunk_tiles(&vec![v(1, 2), v(-1, -1)]).unwrap();
    assert_eq!(lz4_flex::decompress_size_prepended(&written).unwrap(), raw);
}

#[test]
fn chunk_file_with_a_huge_size_header_is_refused() {
    assert_eq!(decode_chunk_tiles(&[0, 0, 0, 0x80, 0]), None);
    assert_eq!(decode_chunk_tiles(&[0xff, 0xff, 0xff, 0xff, 0]), None);
}

#[test]
fn an_unwritten_chunk_stays_cached() {
    let sec: u64 = 1_000_000_000;
    let mut t = Terrain1::new();
    t.place_tile(v(40, 40), 0);
    // not loaded, old: a failed write keeps it, dirty
    t.finish_chunk_save(v(2, 2), false, 400 * sec);
    assert!(t.chunk_cache[&key(v(2, 2))].changed);
    // a successful write makes it clean, and then it leaves the cache
    t.finish_chunk_save(v(2, 2), true, 400 * sec);
    assert!(!t.chunk_cache.contains_key(&key(v(2, 2))));
}

#[test]
fn chunk_file_pairs_are_read_by_their_length() {
    // three pairs announced, one present: refused
    let mut raw = vec![3, 0, 0, 0, 0, 0, 0, 0];
    raw.extend_from_slice(&[5, 0, 0, 0, 0xfb, 0xff, 0xff, 0xff]);
    assert_eq!(decode_chunk_tiles(&lz4_flex::compress_prepend_size(&raw)), None);
    // one pair announced, bytes left over: read, the rest ignored
    raw[0] = 1;
    raw.push(9);
    assert_eq!(decode_chunk_tiles(&lz4_flex::compress_prepend_size(&raw)), Some(vec![v(5, -5)]));
    // too many bytes for the decompressor: refused before it runs
    assert_eq!(decode_chunk_tiles(&vec![0u8; 8_421_000]), None);
}
