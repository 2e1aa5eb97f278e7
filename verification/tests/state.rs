use postflop_solver::game::base::StorageCounts;
use postflop_solver::game::state::{
    allocate_memory, check_icm_clearable, check_icm_configurable, check_initialized,
    check_lines_removable, is_memory_allocated, is_ready, is_solved, GameState, GameStatus, StateError,
};
use postflop_solver::BoardState;

fn status(state: GameState) -> GameStatus {
    GameStatus { state, storage_mode: BoardState::River, is_compression_enabled: true }
}

#[test]
fn memory_reads_as_allocated_from_allocation_on() {
    assert_eq!(is_memory_allocated(status(GameState::ConfigError)), None);
    assert_eq!(is_memory_allocated(status(GameState::Uninitialized)), None);
    assert_eq!(is_memory_allocated(status(GameState::TreeBuilt)), None);
    assert_eq!(is_memory_allocated(status(GameState::MemoryAllocated)), Some(true));
    assert_eq!(is_memory_allocated(status(GameState::Solved)), Some(true));
}

#[test]
fn lines_are_removable_only_on_a_built_tree() {
    assert_eq!(check_lines_removable(GameState::ConfigError), Err(StateError::NotInitialized));
    assert_eq!(check_lines_removable(GameState::Uninitialized), Err(StateError::NotInitialized));
    assert_eq!(check_lines_removable(GameState::TreeBuilt), Ok(()));
    assert_eq!(check_lines_removable(GameState::MemoryAllocated), Err(StateError::AlreadyAllocated));
    assert_eq!(check_lines_removable(GameState::Solved), Err(StateError::AlreadyAllocated));
}

#[test]
fn configuration_checks() {
    assert_eq!(check_initialized(GameState::Uninitialized), Err(StateError::NotInitialized));
    assert_eq!(check_initialized(GameState::Solved), Ok(()));
    assert_eq!(check_icm_configurable(GameState::TreeBuilt), Ok(()));
    assert_eq!(check_icm_configurable(GameState::MemoryAllocated), Err(StateError::IcmNotConfigurable));
    assert_eq!(check_icm_clearable(GameState::TreeBuilt), Ok(()));
    assert_eq!(check_icm_clearable(GameState::Solved), Err(StateError::IcmNotClearable));
    assert_eq!(
        StateError::AlreadyAllocated.message(),
        "Game has already been allocated"
    );
    assert_eq!(
        StateError::IcmNotClearable.message(),
        "Tournament ICM can only be cleared before memory allocation"
    );
}

#[test]
fn solved_and_ready() {
    assert!(is_solved(status(GameState::Solved)));
    assert!(!is_solved(status(GameState::MemoryAllocated)));
    assert!(is_ready(status(GameState::MemoryAllocated)));
    let mut turn_only = status(GameState::MemoryAllocated);
    turn_only.storage_mode = BoardState::Turn;
    assert!(!is_ready(turn_only));
}

#[test]
fn allocation_sizes_the_buffers_and_ends_line_removal() {
    let counts = StorageCounts { num_storage: 10, num_storage_ip: 3, num_storage_chance: 5 };
    let mut game = GameStatus {
        state: GameState::TreeBuilt,
        storage_mode: BoardState::River,
        is_compression_enabled: false,
    };
    assert_eq!(allocate_memory(&mut game, counts, false), Some((40, 12, 20)));
    assert_eq!(game.state, GameState::MemoryAllocated);
    assert_eq!(is_memory_allocated(game), Some(false));
    assert_eq!(check_lines_removable(game.state), Err(StateError::AlreadyAllocated));
    // The same allocation again has nothing to do.
    assert_eq!(allocate_memory(&mut game, counts, false), None);
    // Switching to compression allocates 2 bytes per element.
    assert_eq!(allocate_memory(&mut game, counts, true), Some((20, 6, 10)));
    assert_eq!(is_memory_allocated(game), Some(true));
}
