//! What the players and the pet decide each frame: flipping the sprite,
//! hurting and healing the health bar, the inventory panel, attacks,
//! terrain updates when a player reaches another tile, and the pet's
//! following.
use vstd::prelude::*;

use crate::coords::V2i;
use crate::heart::{Heart, HeartTexture, damaged, healed, ints};
use crate::inventory::{Collectibles, Inventory, InsertOutcome};
use crate::terrain::{Terrain1, queued_for_player};
use crate::coords::{chunk_of, get_chunk_coord_static};

verus! {

/// The input actions pressed this frame.
#[derive(Clone, Copy, Debug, PartialEq, Eq, Structural)]
pub struct PlayerInput {
    pub left: bool,
    pub right: bool,
    pub inventory: bool,
    pub attack: bool,
}

/// What a frame of input asks the scene to do.
#[derive(Clone, Copy, Debug, PartialEq, Eq, Structural)]
pub struct PlayerActions {
    /// Set the sprite's horizontal flip to this, where `Some`.
    pub flip_h: Option<bool>,
    /// Show (`Some(true)`) or hide the inventory panel, where `Some`.
    pub inventory_visible: Option<bool>,
    /// Start an attack.
    pub attack: bool,
}

/// The attacks that a run of frames starts, given whether the player may
/// attack before the first frame and whether "attack" is pressed in each
/// frame (`process_input` starts one when it is pressed and the player may
/// attack, and the player may then no longer attack).
pub open spec fn attacks_in(can_slash: bool, presses: Seq<bool>) -> nat
    decreases presses.len(),
{
    if presses.len() == 0 {
        0
    } else {
        (if can_slash && presses[0] { 1nat } else { 0nat }) + attacks_in(can_slash && !presses[0], presses.drop_first())
    }
}

/// A player starts at most one attack in its lifetime: over any run of
/// frames at most one, and none once it has attacked.
pub proof fn law_at_most_one_attack(can_slash: bool, presses: Seq<bool>)
    ensures
        attacks_in(can_slash, presses) <= 1,
        !can_slash ==> attacks_in(can_slash, presses) == 0,
    decreases presses.len(),
{
    if presses.len() > 0 {
        law_at_most_one_attack(can_slash && !presses[0], presses.drop_first());
        law_at_most_one_attack(false, presses.drop_first());
    }
}

/// A player of the local game: the inventory panel, the health, the peer id,
/// the last tile reported to the terrain, whether it may attack, its health
/// bar and its inventory.
pub struct Rustplayer {
    pub is_open: bool,
    pub health: i32,
    pub id: i32,
    pub last_chunk_pos: V2i,
    pub can_slash: bool,
    pub heart_ui: Heart,
    pub inv: Inventory,
}

impl Rustplayer {
    /// A player with a closed panel, no health, id 0, no tile reported yet
    /// (the last tile is `(i32::MAX, i32::MAX)`), ready to attack.
    pub fn new(heart_ui: Heart, inv: Inventory) -> (p: Rustplayer)
        ensures
            !p.is_open,
            p.health == 0,
            p.id == 0,
            p.last_chunk_pos == (V2i { x: i32::MAX, y: i32::MAX }),
            p.can_slash,
            p.heart_ui == heart_ui,
            p.inv == inv,
    {
        Rustplayer {
            is_open: false,
            health: 0,
            id: 0,
            last_chunk_pos: V2i { x: i32::MAX, y: i32::MAX },
            can_slash: true,
            heart_ui,
            inv,
        }
    }

    /// Takes the peer id of the player's authority; the result says whether
    /// this player's camera becomes the current one (it does for players
    /// this peer does not control).
    pub fn ready(&mut self, authority_id: i32, is_authority: bool) -> (make_camera_current: bool)
        ensures
            make_camera_current == !is_authority,
            *final(self) == (Rustplayer { id: authority_id, ..*old(self) }),
    {
        self.id = authority_id;
        !is_authority
    }

    /// Opens the inventory panel; the result is the panel's visibility.
    pub fn open(&mut self) -> (visible: bool)
        ensures
            visible,
            *final(self) == (Rustplayer { is_open: true, ..*old(self) }),
    {
        self.is_open = true;
        true
    }

    /// Closes the inventory panel; the result is the panel's visibility.
    pub fn close(&mut self) -> (visible: bool)
        ensures
            !visible,
            *final(self) == (Rustplayer { is_open: false, ..*old(self) }),
    {
        self.is_open = false;
        false
    }

    /// Opens a closed panel and closes an open one.
    pub fn open_close(&mut self) -> (visible: bool)
        ensures
            visible == !old(self).is_open,
            *final(self) == (Rustplayer { is_open: !old(self).is_open, ..*old(self) }),
    {
        if self.is_open {
            self.close()
        } else {
            self.open()
        }
    }

    /// A frame of input of the player this peer controls: "left" flips the
    /// sprite and heals 1, "right" unflips it and deals 10 damage, "inventory"
    /// opens or closes the panel, and "attack" starts an attack when the
    /// player may attack (it may not attack again afterwards).
    pub fn process_input(&mut self, input: PlayerInput) -> (actions: PlayerActions)
        requires
            input.left ==> old(self).heart_ui.current_health + 1 <= i32::MAX,
            input.right ==> old(self).heart_ui.current_health + (if input.left { 1int } else { 0int }) - 10 >= i32::MIN,
        ensures
            actions.flip_h == if input.right { Some(false) } else if input.left { Some(true) } else { None },
            actions.inventory_visible == if input.inventory { Some(!old(self).is_open) } else { None },
            final(self).is_open == (old(self).is_open != input.inventory),
            actions.attack == (input.attack && old(self).can_slash),
            final(self).can_slash == (old(self).can_slash && !input.attack),
            ({
                let mid = if input.left { healed(ints(old(self).heart_ui.hearts@), 1) } else { ints(old(self).heart_ui.hearts@) };
                &&& ints(final(self).heart_ui.hearts@) == if input.right { damaged(mid, 10) } else { mid }
            }),
            final(self).heart_ui.current_health == old(self).heart_ui.current_health
                + (if input.left { 1int } else { 0int }) - (if input.right { 10int } else { 0int }),
            final(self).heart_ui.visible == (old(self).heart_ui.visible && (
                (input.left ==> old(self).heart_ui.current_health + 1 > 0)
                && (input.right ==> final(self).heart_ui.current_health > 0))),
            final(self).health == old(self).health,
            final(self).id == old(self).id,
            final(self).last_chunk_pos == old(self).last_chunk_pos,
            final(self).inv == old(self).inv,
    {
        let mut flip: Option<bool> = None;
        if input.left {
            flip = Some(true);
            self.heart_ui.heal(1);
        }
        if input.right {
            flip = Some(false);
            self.heart_ui.damage(10);
        }
        let mut inventory_visible: Option<bool> = None;
        if input.inventory {
            if self.is_open {
                inventory_visible = Some(self.close());
            } else {
                inventory_visible = Some(self.open());
            }
        }
        let mut attack = false;
        if input.attack && self.can_slash {
            self.can_slash = false;
            attack = true;
        }
        PlayerActions { flip_h: flip, inventory_visible, attack }
    }

    /// Reports the player's tile to the terrain (as player `authority_id`)
    /// only when the player has moved into another chunk than that of the
    /// last tile reported, and then records the tile.
    pub fn update_terrain_if_needed(&mut self, terrain: &mut Terrain1, current_tile: V2i, authority_id: i32)
        ensures
            chunk_of(current_tile) == chunk_of(old(self).last_chunk_pos)
                ==> *final(terrain) == *old(terrain) && *final(self) == *old(self),
            chunk_of(current_tile) != chunk_of(old(self).last_chunk_pos) ==> {
                &&& final(terrain).player_positions@ == old(terrain).player_positions@.insert(authority_id, current_tile)
                &&& {
                    let moved = !old(terrain).player_positions@.contains_key(authority_id)
                        || chunk_of(old(terrain).player_positions@[authority_id]) != chunk_of(current_tile);
                    &&& moved ==> queued_for_player(*old(terrain), *final(terrain), authority_id, current_tile)
                    &&& !moved ==> *final(terrain) == (Terrain1 { player_positions: final(terrain).player_positions, ..*old(terrain) })
                }
                &&& *final(self) == (Rustplayer { last_chunk_pos: current_tile, ..*old(self) })
            },
            old(terrain).wf() ==> final(terrain).wf(),
    {
        if get_chunk_coord_static(current_tile) != get_chunk_coord_static(self.last_chunk_pos) {
            terrain.update_player_position(authority_id, current_tile);
            self.last_chunk_pos = current_tile;
        }
    }

    /// Puts a collected item into the inventory (`insert(items, index,
    /// index)`).
    pub fn collect_items(&mut self, items: Collectibles, index: i32) -> (r: InsertOutcome)
        requires
            index >= 0 ==> index < old(self).inv.slots@.len(),
            index < 0 ==> forall|j: int| #[trigger] crate::inventory::first_stack(old(self).inv.view_items(), j, items@)
                ==> old(self).inv.view_items()[j].amount < i32::MAX,
        ensures
            final(self).inv.view_items() == match r {
                InsertOutcome::Stacked(j) => crate::inventory::with_amount(
                    old(self).inv.view_items(),
                    items.id,
                    (old(self).inv.view_items()[j as int].amount + 1) as i32,
                ),
                InsertOutcome::Placed(j) => crate::inventory::with_amount(
                    old(self).inv.view_items().update(j as int, crate::inventory::CollectibleView { amount: 1, ..items@ }),
                    items.id,
                    1,
                ),
                InsertOutcome::Swapped => crate::inventory::swapped(old(self).inv.view_items(), index as int, index as int),
                InsertOutcome::NoRoom => old(self).inv.view_items(),
            },
            index < 0 ==> r != InsertOutcome::Swapped,
            index >= 0 ==> r == InsertOutcome::Swapped,
            *final(self) == (Rustplayer { inv: final(self).inv, ..*old(self) }),
    {
        self.inv.insert(items, index, index)
    }

    /// Sets the health, healing the health bar by as much.
    pub fn set_health(&mut self, health: i32) -> (textures: Vec<Option<HeartTexture>>)
        requires
            i32::MIN <= old(self).heart_ui.current_health + health <= i32::MAX,
        ensures
            final(self).health == health,
            ints(final(self).heart_ui.hearts@) == healed(ints(old(self).heart_ui.hearts@), health as int),
            final(self).heart_ui.current_health == old(self).heart_ui.current_health + health,
            final(self).heart_ui.visible == (old(self).heart_ui.visible && final(self).heart_ui.current_health > 0),
            final(self).is_open == old(self).is_open,
            final(self).inv == old(self).inv,
            final(self).id == old(self).id,
            final(self).last_chunk_pos == old(self).last_chunk_pos,
            final(self).can_slash == old(self).can_slash,
    {
        let textures = self.heart_ui.heal(health);
        self.health = health;
        textures
    }

    pub fn get_health(&self) -> (h: i32)
        ensures
            h == self.health,
    {
        self.health
    }

    pub fn get_heart_ui(&self) -> (h: &Heart)
        ensures
            *h == self.heart_ui,
    {
        &self.heart_ui
    }
}

/// A player of the multiplayer scene: only its inventory panel is state.
pub struct MultiPlayerRust {
    pub is_open: bool,
}

impl MultiPlayerRust {
    /// A player with a closed panel.
    pub fn new() -> (p: MultiPlayerRust)
        ensures
            !p.is_open,
    {
        MultiPlayerRust { is_open: false }
    }

    pub fn open(&mut self) -> (visible: bool)
        ensures
            visible,
            final(self).is_open,
    {
        self.is_open = true;
        true
    }

    pub fn close(&mut self) -> (visible: bool)
        ensures
            !visible,
            !final(self).is_open,
    {
        self.is_open = false;
        false
    }

    /// A frame of input of the player this peer controls: "left" flips the
    /// sprite, "right" unflips it, "inventory" opens or closes the panel.
    pub fn process_input(&mut self, input: PlayerInput) -> (actions: PlayerActions)
        ensures
            actions.flip_h == if input.right { Some(false) } else if input.left { Some(true) } else { None },
            actions.inventory_visible == if input.inventory { Some(!old(self).is_open) } else { None },
            final(self).is_open == (old(self).is_open != input.inventory),
            !actions.attack,
    {
        let mut flip: Option<bool> = None;
        if input.left {
            flip = Some(true);
        }
        if input.right {
            flip = Some(false);
        }
        let mut inventory_visible: Option<bool> = None;
        if input.inventory {
            if self.is_open {
                inventory_visible = Some(self.close());
            } else {
                inventory_visible = Some(self.open());
            }
        }
        PlayerActions { flip_h: flip, inventory_visible, attack: false }
    }
}

/// What the pet does this frame.
#[derive(Clone, Copy, Debug, PartialEq, Eq, Structural)]
pub enum PetAction {
    /// Play "run", move toward the player, face it.
    Run,
    /// Play "idle" and stand still.
    Idle,
    /// Nothing.
    Wait,
}

/// The pet that follows the player.
pub struct Pet {
    pub is_following: bool,
}

impl Pet {
    /// A pet that is not following.
    pub fn new() -> (p: Pet)
        ensures
            !p.is_following,
    {
        Pet { is_following: false }
    }

    /// One frame of the pet, given whether the player is further than the
    /// stop threshold and further than the follow distance: a following pet
    /// runs while the player is beyond the stop threshold and otherwise
    /// stops following and idles; a pet that is not following starts to
    /// follow once the player is beyond the follow distance.
    pub fn process(&mut self, beyond_stop: bool, beyond_follow: bool) -> (a: PetAction)
        ensures
            old(self).is_following && beyond_stop ==> a == PetAction::Run && final(self).is_following,
            old(self).is_following && !beyond_stop ==> a == PetAction::Idle && !final(self).is_following,
            !old(self).is_following ==> a == PetAction::Wait && final(self).is_following == beyond_follow,
    {
        if self.is_following {
            if beyond_stop {
                PetAction::Run
            } else {
                self.is_following = false;
                PetAction::Idle
            }
        } else {
            if beyond_follow {
                self.is_following = true;
            }
            PetAction::Wait
        }
    }
}

} // verus!
