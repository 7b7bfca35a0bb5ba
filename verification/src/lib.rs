//! The verified core of the hexagonal "infinity loop" puzzle: grid geometry,
//! tile rotations, level generation by constraint propagation and the rules
//! that decide when a level is solved.
pub mod hex;
pub mod map;
pub mod tiles;
pub mod bitset;
pub mod random;
pub mod generator;
pub mod position_set;
pub mod util;
pub mod world;
pub mod gl;
pub mod color;
pub mod animation;
pub mod touch;
pub mod game;
