# dungeon_gen

A seeded dungeon generator for a roguelike, with its logic proved in Verus.

A dungeon is a tree of rooms (keys, locked rooms, switches and switch
doors), decoded onto a grid of room cells, filled with content (a boss on
the goal room, an exit beside it, enemy groups, switch puzzles off the
critical path, signs) and laid out as 11×11 tile rooms.

## Layout

- `src/` — the verified library:
  - `rng` — the seeded generator (xoshiro256** seeded by splitmix64);
  - `room`, `tree` — rooms, the tree arena, its generation and the mutation
    operators;
  - `crossover` — the exchange of subtrees between two trees;
  - `evolution` — the mutation step of the search;
  - `grid` — decoding a tree onto the room grid;
  - `content` — switch parity, enemies, signs and their placement;
  - `pathfinding` — passability, goal finding, critical path, A* and
    randomised walks;
  - `fitness` — the integer measures behind the fitness;
  - `layout` — tile rooms and the tile map;
  - `connect` — keeping every walkable tile of a room reachable from its
    doors by carving through obstacles;
  - `render`, `export` — the text maps and the served text form.
- `app/` — the HTTP server and the evolutionary search, which ranks trees by
  a floating-point fitness.
- `tests/` — tests of the library.
