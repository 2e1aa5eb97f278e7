//! The bookkeeping of a game tree: chip accounting, its walk over the node arena, storage layout
//! and memory estimates.
pub mod base;
pub mod bunching;
pub mod placement;
pub mod removal;
pub mod state;
pub mod storage;
pub mod tree;
