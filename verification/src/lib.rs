//! A level-of-detail chunk-streaming grid.
//!
//! The library keeps a fixed-size toroidal 2D grid of chunk slots around a
//! moving integer anchor. Each slot holds a small ring of optional chunk
//! handles, one per level-of-detail transition state. As the anchor moves by
//! whole cells, rows and columns are shifted out of the grid one step at a
//! time, evicted handles are reported for despawning, and slots whose required
//! level of detail changed are recorded in an invalidation set until a
//! replacement chunk is reported ready.

pub mod d2;
pub mod ring;
