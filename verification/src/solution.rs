//! Save and load options of a solved game.
//!
//! A solution is saved with a storage mode (the deepest street that is persisted), an optional
//! zstd compression level and a free-form memo. River mode keeps the whole tree navigable: only
//! the strategy is written and counterfactual values are recomputed on load. Turn and Flop mode
//! drop the deeper streets.
use vstd::prelude::*;

use crate::action_tree::BoardState;

verus! {

/// Options controlling how a solved game is serialized.
#[derive(Debug, Clone)]
pub struct SaveOptions {
    /// Deepest board street to persist.
    pub storage_mode: BoardState,
    /// zstd compression level (1-22). `None` disables compression.
    pub compression: Option<i32>,
    /// Free-form memo persisted in the file header and returned on load.
    pub memo: String,
}

impl SaveOptions {
    /// River storage mode, no compression, empty memo.
    ///
    /// The whole tree stays navigable after loading.
    pub fn navigable() -> (r: Self)
        ensures
            r.storage_mode == BoardState::River,
            r.compression == None::<i32>,
            r.memo@ == Seq::<char>::empty(),
    {
        SaveOptions { storage_mode: BoardState::River, compression: None, memo: String::new() }
    }

    /// River storage mode compressed with zstd at `level` (1-22), empty memo.
    pub fn compact(level: i32) -> (r: Self)
        ensures
            r.storage_mode == BoardState::River,
            r.compression == Some(level),
            r.memo@ == Seq::<char>::empty(),
    {
        SaveOptions {
            storage_mode: BoardState::River,
            compression: Some(level),
            memo: String::new(),
        }
    }

    /// Sets the memo persisted in the file header; the other options are kept.
    pub fn with_memo(self, memo: &str) -> (r: Self)
        ensures
            r.memo@ == memo@,
            r.storage_mode == self.storage_mode,
            r.compression == self.compression,
    {
        let mut options = self;
        options.memo = memo.to_string();
        options
    }

    /// Sets the deepest board street to persist; the other options are kept.
    pub fn with_storage_mode(self, storage_mode: BoardState) -> (r: Self)
        ensures
            r.storage_mode == storage_mode,
            r.compression == self.compression,
            r.memo == self.memo,
    {
        let mut options = self;
        options.storage_mode = storage_mode;
        options
    }

    /// Sets the zstd compression level (`None` disables compression); the other options are kept.
    pub fn with_compression(self, compression: Option<i32>) -> (r: Self)
        ensures
            r.compression == compression,
            r.storage_mode == self.storage_mode,
            r.memo == self.memo,
    {
        let mut options = self;
        options.compression = compression;
        options
    }
}

impl Default for SaveOptions {
    /// Same as [`SaveOptions::navigable`]: River mode, no compression, empty memo.
    fn default() -> (r: Self)
        ensures
            r.storage_mode == BoardState::River,
            r.compression == None::<i32>,
            r.memo@ == Seq::<char>::empty(),
    {
        Self::navigable()
    }
}

/// Options controlling how a solution is loaded.
#[derive(Debug, Clone)]
pub struct LoadOptions {
    /// Optional cap (in bytes) on the estimated memory usage of the loaded game.
    /// `None` means no limit.
    pub max_memory_usage: Option<u64>,
}

impl LoadOptions {
    /// Sets the maximum estimated memory usage allowed when loading.
    pub fn with_max_memory_usage(self, max_memory_usage: Option<u64>) -> (r: Self)
        ensures
            r.max_memory_usage == max_memory_usage,
    {
        let mut options = self;
        options.max_memory_usage = max_memory_usage;
        options
    }
}

impl Default for LoadOptions {
    /// No memory limit.
    fn default() -> (r: Self)
        ensures
            r.max_memory_usage == None::<u64>,
    {
        LoadOptions { max_memory_usage: None }
    }
}

/// Why a storage mode cannot be the target of a save.
#[derive(Clone, Copy, Debug, PartialEq, Eq, Structural)]
pub enum StorageModeError {
    /// The mode is deeper than the storage that is allocated.
    AboveStorage,
    /// The mode is shallower than the initial state of the tree.
    BelowInitialState,
}

impl StorageModeError {
    /// The error message of this error.
    pub fn message(self) -> (r: &'static str)
        ensures
            r@ == (match self {
                StorageModeError::AboveStorage => {
                    "Cannot set target to a higher value than the current storage"@
                },
                StorageModeError::BelowInitialState => {
                    "Cannot set target to a lower value than the initial state"@
                },
            }),
    {
        match self {
            StorageModeError::AboveStorage => {
                "Cannot set target to a higher value than the current storage"
            },
            StorageModeError::BelowInitialState => {
                "Cannot set target to a lower value than the initial state"
            },
        }
    }
}

/// Checks that `mode` can be the storage mode of a save: no deeper than the allocated
/// `storage_mode` and no shallower than the tree's `initial_state`.
pub fn check_storage_mode(
    mode: BoardState,
    initial_state: BoardState,
    storage_mode: BoardState,
) -> (r: Result<(), StorageModeError>)
    ensures
        mode.rank() > storage_mode.rank() ==> r == Err::<(), _>(StorageModeError::AboveStorage),
        mode.rank() <= storage_mode.rank() && mode.rank() < initial_state.rank() ==> r == Err::<
            (),
            _,
        >(StorageModeError::BelowInitialState),
        r is Ok <==> initial_state.rank() <= mode.rank() <= storage_mode.rank(),
{
    if mode.street_index() > storage_mode.street_index() {
        return Err(StorageModeError::AboveStorage);
    }
    if mode.street_index() < initial_state.street_index() {
        return Err(StorageModeError::BelowInitialState);
    }
    Ok(())
}

} // verus!
