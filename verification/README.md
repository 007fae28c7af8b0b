# my_library

Verified game logic for a family of small Bevy games (Mars Base One, Flappy
Dragon, a bouncing-balls collision demo).

- `src/` is the verified library:
  - `world.rs`: the Mars world grid, its blasts, lines and digging walks
    (in exact arithmetic), and the world generator;
  - `physics.rs`: the fixed-step physics clock and the resolution of
    impulses (deduplicated by source, absolute impulses win);
  - `quadtree.rs`: the static quad tree over opaque regions, its searches,
    and the spatial index that lists collision candidates;
  - `game_state.rs`: the menu phases and what the menu keys do;
  - `walls.rs`: which rows of a Flappy Dragon wall hold blocks;
  - `random.rs`: a random number generator on `rand`'s `StdRng`.
- `app/` is the Bevy side: components, resources, messages and systems that
  read the engine's world, call the library and apply its decisions,
  including everything in floating point.
- `tests/` runs the library on concrete values.
