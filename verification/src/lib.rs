//! Game-world logic: chunked terrain streaming, chunk persistence, player
//! health hearts, the inventory, player and pet state machines, save paths
//! and the multiplayer room list.
pub mod coords;
pub mod chunk;
pub mod codec;
pub mod terrain;
pub mod heart;
pub mod inventory;
pub mod player;
pub mod save;
pub mod rooms;
pub mod terra;
