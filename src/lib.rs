//! Board-mutation engine of a sliding-tile merge puzzle: shifting and
//! merging rows in four directions, and placing weighted random tiles.

pub mod board;
pub mod in_place;
pub mod matrix;
pub mod random;
pub mod row;
pub mod tile_generator;
