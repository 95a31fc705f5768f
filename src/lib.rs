//! Rules of a Rummikub-style tile game: the tiles, the pool they are dealt
//! from, and the check that decides whether a selection of tiles is a legal
//! group or run.

pub mod tile;
pub mod validate;
pub mod pool;
