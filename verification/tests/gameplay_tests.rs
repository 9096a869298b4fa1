use world_logic::heart::{Heart, HeartDisplay, HeartTexture};
use world_logic::inventory::{Collectibles, InsertOutcome, InvSlot, Inventory};
use world_logic::player::{MultiPlayerRust, Pet, PetAction, PlayerInput, Rustplayer};
use world_logic::coords::V2i;
use world_logic::terrain::Terrain1;

fn bar(hearts: Vec<i32>, total: i32) -> Heart {
    let mut h = Heart::new();
    h.ready(hearts);
    h.update_health(total);
    h
}

#[test]
fn heart_display_starts_full() {
    let mut d = HeartDisplay::new();
    assert_eq!(d.get_health(), 2);
    d.set_health(1);
    assert_eq!(d.get_health(), 1);
}

#[test]
fn damage_empties_hearts_from_the_back() {
    let mut h = bar(vec![2; 10], 20);
    let tex = h.damage(10);
    assert_eq!(h.hearts, vec![2, 2, 2, 2, 2, 0, 0, 0, 0, 0]);
    assert_eq!(h.current_health, 10);
    assert_eq!(tex[0], Some(HeartTexture::Full));
    assert_eq!(tex[9], Some(HeartTexture::Empty));
    h.damage(3);
    assert_eq!(h.hearts, vec![2, 2, 2, 1, 0, 0, 0, 0, 0, 0]);
    assert!(h.visible);
}

#[test]
fn heal_fills_hearts_from_the_front() {
    let mut h = bar(vec![2, 1, 0, 0], 3);
    let tex = h.heal(2);
    assert_eq!(h.hearts, vec![2, 2, 1, 0]);
    assert_eq!(h.current_health, 5);
    assert_eq!(tex[2], Some(HeartTexture::Half));
    h.heal(100);
    assert_eq!(h.hearts, vec![2, 2, 2, 2]);
}

#[test]
fn heal_undoes_damage() {
    let mut h = bar(vec![2, 2, 2, 1, 0], 7);
    let before = h.hearts.clone();
    h.damage(4);
    assert_eq!(h.hearts, vec![2, 1, 0, 0, 0]);
    h.heal(4);
    assert_eq!(h.hearts, before);
    assert_eq!(h.current_health, 7);
}

#[test]
fn health_bar_hides_at_zero() {
    let mut h = bar(vec![2], 2);
    h.damage(2);
    assert_eq!(h.current_health, 0);
    assert!(!h.visible);
    h.heal(2);
    assert!(!h.visible);
    let tex = h.update_health(0);
    assert_eq!(tex, vec![Some(HeartTexture::Full)]);
}

#[test]
fn odd_heart_values_are_left_alone() {
    let mut h = bar(vec![3, 2], 5);
    h.damage(5);
    assert_eq!(h.hearts, vec![3, 0]);
    let tex = h.update_health(0);
    assert_eq!(tex, vec![None, Some(HeartTexture::Empty)]);
}

fn item(id: u64, name: &str, stackable: bool) -> Collectibles {
    let mut c = Collectibles::new(id);
    c.name = name.to_string();
    c.stackable = stackable;
    c
}

fn inventory(n: u64) -> Inventory {
    let mut inv = Inventory::new();
    for i in 0..n {
        inv.slots.push(InvSlot::new(100 + i));
    }
    inv
}

#[test]
fn items_go_to_the_first_empty_slot_and_stack() {
    let mut inv = inventory(3);
    let apple = item(1, "apple", true);
    assert_eq!(inv.insert(apple, -1, -1), InsertOutcome::Placed(0));
    assert_eq!(inv.slots[0].get_item().amount, 1);
    assert_eq!(inv.insert(item(1, "apple", true), -1, -1), InsertOutcome::Stacked(0));
    assert_eq!(inv.slots[0].get_item().amount, 2);
    // an item that does not stack takes another slot
    assert_eq!(inv.insert(item(2, "sword", false), -1, -1), InsertOutcome::Placed(1));
    assert_eq!(inv.insert(item(2, "sword", false), -1, -1), InsertOutcome::Placed(2));
    assert_eq!(inv.insert(item(3, "stone", true), -1, -1), InsertOutcome::NoRoom);
}

#[test]
fn slots_swap_and_swap_back() {
    let mut inv = inventory(3);
    inv.insert(item(1, "apple", true), -1, -1);
    assert_eq!(inv.insert(item(9, "x", false), 0, 2), InsertOutcome::Swapped);
    assert_eq!(inv.slots[2].get_item().name, "apple");
    assert_eq!(inv.slots[0].get_item().id, 102);
    inv.insert(item(9, "x", false), 0, 2);
    assert_eq!(inv.slots[0].get_item().name, "apple");
}

#[test]
fn a_shared_item_shows_its_amount_in_every_slot() {
    let mut inv = inventory(4);
    // placing an item again: every slot holding it shows amount 1
    assert_eq!(inv.insert(item(1, "rope", false), -1, -1), InsertOutcome::Placed(0));
    inv.slots[0].item.amount = 5;
    assert_eq!(inv.insert(item(1, "rope", false), -1, -1), InsertOutcome::Placed(1));
    assert_eq!(inv.slots[0].get_item().amount, 1);
    assert_eq!(inv.slots[1].get_item().amount, 1);
    // slots 2 and 3 hold one stackable object: stacking it shows in both
    let mut apple = item(2, "apple", true);
    apple.amount = 3;
    inv.slots[2].set_item(item(2, "apple", true));
    inv.slots[2].item.amount = 3;
    inv.slots[3].set_item(apple);
    assert_eq!(inv.insert(item(2, "apple", true), -1, -1), InsertOutcome::Stacked(2));
    assert_eq!(inv.slots[2].get_item().amount, 4);
    assert_eq!(inv.slots[3].get_item().amount, 4);
    assert_eq!(inv.slots[0].get_item().amount, 1);
}

#[test]
fn swapping_ignores_stack_amounts() {
    let mut inv = inventory(2);
    inv.insert(item(1, "apple", true), -1, -1);
    inv.slots[0].item.amount = i32::MAX;
    assert_eq!(inv.insert(item(1, "apple", true), 0, 1), InsertOutcome::Swapped);
    assert_eq!(inv.insert(item(1, "apple", true), 0, 1), InsertOutcome::Swapped);
    assert_eq!(inv.slots[0].get_item().amount, i32::MAX);
    assert_eq!(inv.insert(item(1, "apple", true), 1, 1), InsertOutcome::Swapped);
    assert_eq!(inv.slots[1].get_item().id, 101);
}

#[test]
fn slot_item_set_and_clear() {
    let mut s = InvSlot::new(5);
    s.set_item(item(7, "gem", true));
    assert_eq!(s.get_item().id, 7);
    s.clear_item(8);
    assert_eq!(s.get_item().id, 8);
    assert_eq!(s.get_item().name, "");
    assert!(!s.get_item().stackable);
}

fn player() -> Rustplayer {
    Rustplayer::new(bar(vec![2; 10], 20), inventory(2))
}

#[test]
fn player_input_flips_heals_and_hurts() {
    let mut p = player();
    let a = p.process_input(PlayerInput { left: false, right: true, inventory: true, attack: true });
    assert_eq!(a.flip_h, Some(false));
    assert_eq!(a.inventory_visible, Some(true));
    assert!(a.attack);
    assert_eq!(p.heart_ui.current_health, 10);
    assert!(p.is_open);
    let a = p.process_input(PlayerInput { left: true, right: false, inventory: true, attack: true });
    assert_eq!(a.flip_h, Some(true));
    assert_eq!(a.inventory_visible, Some(false));
    assert!(!a.attack);
    assert_eq!(p.heart_ui.current_health, 11);
    assert_eq!(p.heart_ui.hearts[5], 1);
}

#[test]
fn player_reports_new_chunks_only() {
    let mut p = player();
    let mut t = Terrain1::new();
    assert!(p.ready(4, false));
    assert_eq!(p.id, 4);
    p.update_terrain_if_needed(&mut t, V2i { x: 3, y: 3 }, 4);
    assert_eq!(t.get_queue_size(), 25);
    assert_eq!(p.last_chunk_pos, V2i { x: 3, y: 3 });
    t.chunk_load_queue.clear();
    p.update_terrain_if_needed(&mut t, V2i { x: 3, y: 3 }, 4);
    assert_eq!(t.get_queue_size(), 0);
    // another tile of the same chunk: the terrain is not told
    p.update_terrain_if_needed(&mut t, V2i { x: 15, y: 0 }, 4);
    assert_eq!(t.player_positions[&4], V2i { x: 3, y: 3 });
    assert_eq!(p.last_chunk_pos, V2i { x: 3, y: 3 });
    // a tile of the next chunk: reported and recorded
    p.update_terrain_if_needed(&mut t, V2i { x: 16, y: 0 }, 4);
    assert_eq!(t.player_positions[&4], V2i { x: 16, y: 0 });
    assert_eq!(p.last_chunk_pos, V2i { x: 16, y: 0 });
    assert_eq!(t.get_queue_size(), 25);
}

#[test]
fn player_health_and_panel() {
    let mut p = Rustplayer::new(bar(vec![0; 10], 0), inventory(1));
    p.set_health(20);
    assert_eq!(p.get_health(), 20);
    assert_eq!(p.get_heart_ui().hearts, vec![2; 10]);
    assert!(p.open_close());
    assert!(!p.open_close());
    assert_eq!(p.collect_items(item(1, "apple", true), -1), InsertOutcome::Placed(0));
    assert_eq!(p.collect_items(item(1, "apple", true), 0), InsertOutcome::Swapped);
}

#[test]
fn multiplayer_panel_toggles() {
    let mut m = MultiPlayerRust::new();
    let a = m.process_input(PlayerInput { left: true, right: false, inventory: true, attack: true });
    assert_eq!(a.flip_h, Some(true));
    assert_eq!(a.inventory_visible, Some(true));
    assert!(!a.attack);
    assert!(m.is_open);
    assert!(!m.close());
    assert!(m.open());
}

#[test]
fn pet_follows_and_stops() {
    let mut pet = Pet::new();
    assert_eq!(pet.process(true, false), PetAction::Wait);
    assert!(!pet.is_following);
    assert_eq!(pet.process(true, true), PetAction::Wait);
    assert!(pet.is_following);
    assert_eq!(pet.process(true, true), PetAction::Run);
    assert_eq!(pet.process(false, false), PetAction::Idle);
    assert!(!pet.is_following);
}
