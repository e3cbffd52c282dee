//! The core of a tile-based dungeon game: a binary-space-partition dungeon
//! generator, proven to carve exactly its recorded rooms and corridors into
//! an otherwise solid grid, and a position-keyed occupancy index with a
//! movement resolver that blocks motion into cells held by solid occupants.

pub mod mapgen;
pub mod rng;
pub mod tile;
