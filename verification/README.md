# infinity_loop

A hexagonal "infinity loop" puzzle: every cell of a hexagonal board holds a tile
with pipe endings on some of its six sides, and the level is solved when every
ending meets an ending of the neighbouring tile. Levels are generated from a seed
by constraint propagation, then shuffled by turning the tiles.

The library in `src/` is written in Verus and verified:

- `hex`, `map`: axial coordinates and a board of a given radius, stored in a flat
  array with a proved bijection between cells and indices.
- `tiles`: the tile shapes, their rotations and their endings.
- `generator`: the option map used to generate a level; propagation keeps every
  solution of the border constraints.
- `world`: a level with its exact set of incomplete cells; generation, shuffling,
  turning a tile, saving and loading.
- `game`, `touch`: the phases of a game and the touches on the screen.
- `gl`, `color`, `animation`: values used by the OpenGL renderer.
- `bitset`, `random`, `position_set`: the contracts of the outside crates
  (`smallbitset`, `fastrand`, `hashbrown`) that the library calls.

`app/` is a terminal front end: it prints the board, reads moves from standard
input and holds what works with floating-point numbers (angles, screen points,
the camera).
