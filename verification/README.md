# world_logic

The game logic of a 2-D multiplayer Godot game, verified with Verus: the
streaming of terrain chunks around the players, the chunk file format, the
health bar, the inventory, the player's and the pet's per-frame decisions, the
save-folder layout and the lobby's room list.

## Layout

- `src/` — the verified library.
  - `coords.rs`: tile and chunk coordinates, chunk keys.
  - `chunk.rs`: the tiles of one chunk.
  - `codec.rs`: the chunk file format (`bincode` pairs in an LZ4 block).
  - `terrain.rs`: the chunk manager (queues, frame budgets, cache clean-up).
  - `terra.rs`: the first, block-based terrain generator.
  - `heart.rs`: the health bar.
  - `inventory.rs`: slots, stacking and swapping.
  - `player.rs`: the player, the multiplayer player and the pet.
  - `save.rs`: where saved games go, and the save manager's state.
  - `rooms.rs`: the lobby's room list.
- `app/` — the Godot extension: the scene classes, which draw, read input,
  sample noise, read and write files and talk to the network, and hand the
  decisions to the library.
- `tests/` — tests of the library on concrete values.
