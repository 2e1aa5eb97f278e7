//! Game-tree bookkeeping of a postflop poker solver: save/load options, payout normalization for
//! tournament ICM, and the chip accounting along a line of actions.
pub mod action_tree;
pub mod game;
pub mod icm;
pub mod solution;

pub use action_tree::{Action, BoardState, Card, NOT_DEALT};
pub use solution::{check_storage_mode, LoadOptions, SaveOptions, StorageModeError};
