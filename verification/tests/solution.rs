use postflop_solver::{check_storage_mode, BoardState, LoadOptions, SaveOptions, StorageModeError};

#[test]
fn default_save_options_is_navigable() {
    let options = SaveOptions::default();
    assert_eq!(options.storage_mode, BoardState::River);
    assert!(options.compression.is_none());
    assert!(options.memo.is_empty());
}

#[test]
fn navigable_is_uncompressed_river() {
    let options = SaveOptions::navigable();
    assert_eq!(options.storage_mode, BoardState::River);
    assert_eq!(options.compression, None);
    assert_eq!(options.memo, "");
}

#[test]
fn compact_is_compressed_river() {
    let options = SaveOptions::compact(12);
    assert_eq!(options.storage_mode, BoardState::River);
    assert_eq!(options.compression, Some(12));
    assert!(options.memo.is_empty());
}

#[test]
fn builders_set_one_option_each() {
    let options = SaveOptions::compact(3)
        .with_memo("memo")
        .with_storage_mode(BoardState::Turn);
    assert_eq!(options.memo, "memo");
    assert_eq!(options.storage_mode, BoardState::Turn);
    assert_eq!(options.compression, Some(3));

    let options = options.with_compression(None);
    assert_eq!(options.compression, None);
    assert_eq!(options.storage_mode, BoardState::Turn);
    assert_eq!(options.memo, "memo");
}

#[test]
fn load_options_default_and_limit() {
    let options = LoadOptions::default();
    assert_eq!(options.max_memory_usage, None);
    let options = options.with_max_memory_usage(Some(1 << 30));
    assert_eq!(options.max_memory_usage, Some(1 << 30));
    let options = options.with_max_memory_usage(None);
    assert_eq!(options.max_memory_usage, None);
}

#[test]
fn save_solution_rejects_mode_below_initial_state() {
    // A turn-initial tree whose storage is allocated up to the river cannot be saved as `Flop`.
    let options = SaveOptions::navigable().with_storage_mode(BoardState::Flop);
    let err = check_storage_mode(options.storage_mode, BoardState::Turn, BoardState::River)
        .unwrap_err();
    assert_eq!(err, StorageModeError::BelowInitialState);
    assert!(
        err.message().contains("lower value than the initial state"),
        "unexpected error: {}",
        err.message()
    );
}

#[test]
fn storage_mode_above_storage_is_rejected() {
    let err = check_storage_mode(BoardState::River, BoardState::Flop, BoardState::Turn).unwrap_err();
    assert_eq!(err, StorageModeError::AboveStorage);
    assert!(err.message().contains("higher value than the current storage"));
}

#[test]
fn storage_modes_between_initial_state_and_storage_are_accepted() {
    for mode in [BoardState::Flop, BoardState::Turn, BoardState::River] {
        assert_eq!(check_storage_mode(mode, BoardState::Flop, BoardState::River), Ok(()));
    }
    assert_eq!(check_storage_mode(BoardState::Turn, BoardState::Turn, BoardState::Turn), Ok(()));
    assert_eq!(
        check_storage_mode(BoardState::Flop, BoardState::River, BoardState::River),
        Err(StorageModeError::BelowInitialState)
    );
}
