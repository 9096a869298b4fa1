use world_logic::rooms::{is_valid_node_name, MultiplayerScene, RoomUpdate};
use world_logic::save::{
    chunk_path, fits_save_limit, games_path, get_os, player_file_path, screenshot_path, world_info_path,
    world_path, SaveManagerRust,
};
use world_logic::terra::{Altitude, Terrain1};
use world_logic::heart::Heart;
use world_logic::inventory::Inventory;
use world_logic::player::Rustplayer;
use world_logic::coords::V2i;

#[test]
fn base_folder_per_platform() {
    assert_eq!(get_os("windows"), "user://");
    assert_eq!(get_os("android"), "/storage/emulated/0/Android/data/com.example.proj/files/");
    assert_eq!(get_os("linux"), "");
}

#[test]
fn save_file_layout() {
    assert_eq!(games_path("user://"), "user:///games");
    assert_eq!(world_path("user://", "w1"), "user:///games/w1");
    assert_eq!(player_file_path("user://", "w1"), "user:///games/w1/w1.dat");
    assert_eq!(chunk_path("", "w1"), "/games/w1/chunk");
    assert_eq!(screenshot_path("b", "w"), "b/games/w/w.png");
    assert_eq!(world_info_path("b", "w"), "b/games/w/w_saveGame.json");
    assert!(fits_save_limit(1048576));
    assert!(!fits_save_limit(1048577));
}

#[test]
fn save_manager_state() {
    let mut m = SaveManagerRust::new();
    assert!(!m.should_auto_save());
    let mut heart = Heart::new();
    heart.ready(vec![0; 10]);
    let mut p = Rustplayer::new(heart, Inventory::new());
    m.save_game_rust("world", &mut p);
    assert_eq!(m.load_game, "world");
    assert_eq!(m.current_world_name, "world");
    assert_eq!(m.player_health, 20);
    assert_eq!(p.get_health(), 20);
    assert_eq!(p.heart_ui.hearts, vec![2; 10]);
    assert!(m.should_auto_save());
    m.load_game("other".to_string());
    assert_eq!(m.load_game, "other");
}

#[test]
fn rooms_are_listed_once_by_name() {
    let mut s = MultiplayerScene::new();
    assert_eq!(s.process_room_info(Some("alpha".to_string()), "10.0.0.1".to_string()), RoomUpdate::Added);
    assert_eq!(s.process_room_info(None, "10.0.0.2".to_string()), RoomUpdate::Added);
    assert_eq!(s.process_room_info(Some("alpha".to_string()), "10.0.0.3".to_string()), RoomUpdate::Updated(0));
    assert_eq!(s.rooms.len(), 2);
    assert_eq!(s.rooms[0].ip, "10.0.0.3");
    assert_eq!(s.rooms[1].name, "Unnamed");
    assert_eq!(s.process_room_info(Some("Unnamed".to_string()), "x".to_string()), RoomUpdate::Updated(1));
}

#[test]
fn rewritten_node_names_never_match() {
    let mut s = MultiplayerScene::new();
    assert!(is_valid_node_name("alpha room"));
    assert!(!is_valid_node_name("my.room"));
    assert!(!is_valid_node_name("50%"));
    assert_eq!(s.process_room_info(Some("my.room".to_string()), "1".to_string()), RoomUpdate::Added);
    assert_eq!(s.process_room_info(Some("my.room".to_string()), "2".to_string()), RoomUpdate::Added);
    assert_eq!(s.rooms.len(), 2);
    assert_eq!(s.process_room_info(Some("ok".to_string()), "3".to_string()), RoomUpdate::Added);
    assert_eq!(s.process_room_info(Some("ok".to_string()), "4".to_string()), RoomUpdate::Updated(2));
    assert_eq!(s.rooms.len(), 3);
    assert_eq!(s.rooms[2].ip, "4");
}

#[test]
fn first_terrain_block() {
    let mut t = Terrain1::new();
    let mut alt = vec![Altitude::Above; 1024];
    alt[0] = Altitude::Below;
    alt[1] = Altitude::Level;
    let ops = t.generate_chunk(V2i { x: 100, y: -100 }, &alt);
    assert_eq!(ops.len(), 1023);
    assert_eq!(ops[0].pos, V2i { x: 84, y: -116 });
    assert_eq!(ops[0].atlas, V2i { x: 0, y: 0 });
    assert_eq!(ops[1].pos, V2i { x: 84, y: -114 });
    assert_eq!(ops[1].atlas, V2i { x: 1, y: 0 });
    assert_eq!(t.loaded_chunks.len(), 1024);
    assert_eq!(t.loaded_chunks[33], V2i { x: 1, y: 1 });
    t.generate_chunk(V2i { x: 0, y: 0 }, &alt);
    assert_eq!(t.loaded_chunks.len(), 1024);
}
