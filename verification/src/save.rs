//! Where saved games go: the base folder of each platform and the layout of
//! a saved world's files, and the save manager's own state.
use vstd::prelude::*;
use vstd::string::StringExecFns;

use crate::heart::{healed, ints};
use crate::player::Rustplayer;

verus! {

/// Largest serialized player record that is written (in bytes).
pub const SAVE_SIZE_LIMIT: usize = 1048576;

/// The folder for saved games on a platform named as `std::env::consts::OS`
/// names it: `user://` on Windows, the app's external files folder on
/// Android, the empty path elsewhere.
pub open spec fn os_base_path(os: Seq<char>) -> Seq<char> {
    if os == "windows"@ {
        "user://"@
    } else if os == "android"@ {
        "/storage/emulated/0/Android/data/com.example.proj/files/"@
    } else {
        ""@
    }
}

/// `<base>/games`
pub open spec fn games_dir(base: Seq<char>) -> Seq<char> {
    base + "/games"@
}

/// `<base>/games/<name>`
pub open spec fn world_dir(base: Seq<char>, name: Seq<char>) -> Seq<char> {
    base + "/games/"@ + name
}

/// `<base>/games/<name>/<name>.dat`
pub open spec fn player_file(base: Seq<char>, name: Seq<char>) -> Seq<char> {
    world_dir(base, name) + "/"@ + name + ".dat"@
}

/// `<base>/games/<name>/chunk`
pub open spec fn chunk_dir(base: Seq<char>, name: Seq<char>) -> Seq<char> {
    world_dir(base, name) + "/chunk"@
}

/// `<base>/games/<name>/<name>.png`
pub open spec fn screenshot_file(base: Seq<char>, name: Seq<char>) -> Seq<char> {
    world_dir(base, name) + "/"@ + name + ".png"@
}

/// `<base>/games/<name>/<name>_saveGame.json`
pub open spec fn world_info_file(base: Seq<char>, name: Seq<char>) -> Seq<char> {
    world_dir(base, name) + "/"@ + name + "_saveGame.json"@
}

/// The folder for saved games on platform `os` (see `os_base_path`).
pub fn get_os(os: &str) -> (base: String)
    ensures
        base@ == os_base_path(os@),
{
    proof {
        reveal_strlit("windows");
        reveal_strlit("android");
        assert("windows"@ != "android"@) by {
            assert("windows"@[0] != "android"@[0]);
        }
    }
    let name = String::from_str(os);
    let mut base = String::from_str("");
    if name == String::from_str("windows") {
        base = String::from_str("user://");
    }
    if name == String::from_str("android") {
        base = String::from_str("/storage/emulated/0/Android/data/com.example.proj/files/");
    }
    base
}

/// `<base>/games`
pub fn games_path(base: &str) -> (p: String)
    ensures
        p@ == games_dir(base@),
{
    let mut p = String::from_str(base);
    p.append("/games");
    p
}

/// `<base>/games/<name>`
pub fn world_path(base: &str, name: &str) -> (p: String)
    ensures
        p@ == world_dir(base@, name@),
{
    let mut p = String::from_str(base);
    p.append("/games/");
    p.append(name);
    p
}

/// `<base>/games/<name>/<name>.dat`
pub fn player_file_path(base: &str, name: &str) -> (p: String)
    ensures
        p@ == player_file(base@, name@),
{
    let mut p = world_path(base, name);
    p.append("/");
    p.append(name);
    p.append(".dat");
    p
}

/// `<base>/games/<name>/chunk`
pub fn chunk_path(base: &str, name: &str) -> (p: String)
    ensures
        p@ == chunk_dir(base@, name@),
{
    let mut p = world_path(base, name);
    p.append("/chunk");
    p
}

/// `<base>/games/<name>/<name>.png`
pub fn screenshot_path(base: &str, name: &str) -> (p: String)
    ensures
        p@ == screenshot_file(base@, name@),
{
    let mut p = world_path(base, name);
    p.append("/");
    p.append(name);
    p.append(".png");
    p
}

/// `<base>/games/<name>/<name>_saveGame.json`
pub fn world_info_path(base: &str, name: &str) -> (p: String)
    ensures
        p@ == world_info_file(base@, name@),
{
    let mut p = world_path(base, name);
    p.append("/");
    p.append(name);
    p.append("_saveGame.json");
    p
}

/// Whether a serialized player record is small enough to be written.
pub fn fits_save_limit(len: usize) -> (r: bool)
    ensures
        r == (len <= SAVE_SIZE_LIMIT),
{
    len <= SAVE_SIZE_LIMIT
}

/// The save manager: the world being played, its seed and the player's
/// health.
pub struct SaveManagerRust {
    pub current_world_name: String,
    pub load_game: String,
    pub world_seed: i32,
    pub player_health: i32,
}

impl SaveManagerRust {
    /// No world, seed 0, no health.
    pub fn new() -> (m: SaveManagerRust)
        ensures
            m.current_world_name@ == Seq::<char>::empty(),
            m.load_game@ == Seq::<char>::empty(),
            m.world_seed == 0,
            m.player_health == 0,
    {
        SaveManagerRust {
            current_world_name: String::new(),
            load_game: String::new(),
            world_seed: 0,
            player_health: 0,
        }
    }

    /// Starts a new saved world called `name` (its folders are made by the
    /// caller, see `games_path`, `world_path`, `chunk_path`) and gives the
    /// player 20 health.
    pub fn save_game_rust(&mut self, name: &str, player: &mut Rustplayer)
        requires
            i32::MIN <= old(player).heart_ui.current_health + 20 <= i32::MAX,
        ensures
            final(self).load_game@ == name@,
            final(self).current_world_name@ == name@,
            final(self).player_health == 20,
            final(self).world_seed == old(self).world_seed,
            final(player).health == 20,
            ints(final(player).heart_ui.hearts@) == healed(ints(old(player).heart_ui.hearts@), 20),
            final(player).heart_ui.current_health == old(player).heart_ui.current_health + 20,
    {
        self.load_game = String::from_str(name);
        self.current_world_name = String::from_str(name);
        self.set_player_health(player, 20);
    }

    /// Sets the player's health (healing its health bar by as much) and
    /// records it.
    pub fn set_player_health(&mut self, player: &mut Rustplayer, health: i32)
        requires
            i32::MIN <= old(player).heart_ui.current_health + health <= i32::MAX,
        ensures
            final(self).player_health == health,
            final(self).load_game == old(self).load_game,
            final(self).current_world_name == old(self).current_world_name,
            final(self).world_seed == old(self).world_seed,
            final(player).health == health,
            ints(final(player).heart_ui.hearts@) == healed(ints(old(player).heart_ui.hearts@), health as int),
            final(player).heart_ui.current_health == old(player).heart_ui.current_health + health,
    {
        player.set_health(health);
        self.player_health = health;
    }

    /// Selects the saved world to load.
    pub fn load_game(&mut self, name: String)
        ensures
            final(self).load_game@ == name@,
            final(self).current_world_name == old(self).current_world_name,
            final(self).world_seed == old(self).world_seed,
            final(self).player_health == old(self).player_health,
    {
        self.load_game = name;
    }

    /// Autosaving happens only while a world is selected.
    pub fn should_auto_save(&self) -> (r: bool)
        ensures
            r == (self.load_game@.len() > 0),
    {
        !self.load_game.as_str().is_empty()
    }
}

} // verus!
