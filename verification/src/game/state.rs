//! The lifecycle of a game and the checks that gate its operations on it.
use vstd::prelude::*;

use crate::action_tree::BoardState;
use crate::game::base::StorageCounts;

verus! {

/// The lifecycle of a game, in order: a configuration that failed, not configured yet, tree
/// built, memory allocated, solved.
#[derive(Clone, Copy, Debug, PartialEq, Eq, Structural)]
pub enum GameState {
    ConfigError,
    Uninitialized,
    TreeBuilt,
    MemoryAllocated,
    Solved,
}

impl GameState {
    /// Position of the state in the lifecycle.
    pub open spec fn rank(self) -> int {
        match self {
            GameState::ConfigError => 0,
            GameState::Uninitialized => 1,
            GameState::TreeBuilt => 2,
            GameState::MemoryAllocated => 3,
            GameState::Solved => 4,
        }
    }

    /// Executable form of [`GameState::rank`].
    pub fn stage(self) -> (r: u8)
        ensures
            r as int == self.rank(),
    {
        match self {
            GameState::ConfigError => 0,
            GameState::Uninitialized => 1,
            GameState::TreeBuilt => 2,
            GameState::MemoryAllocated => 3,
            GameState::Solved => 4,
        }
    }
}

/// What the lifecycle checks read of a game: its state, the deepest street its storage holds,
/// and whether its memory is compressed.
#[derive(Clone, Copy, Debug, PartialEq, Eq, Structural)]
pub struct GameStatus {
    pub state: GameState,
    pub storage_mode: BoardState,
    pub is_compression_enabled: bool,
}

/// Why an operation is refused in the game's current state.
#[derive(Clone, Copy, Debug, PartialEq, Eq, Structural)]
pub enum StateError {
    /// The game has no valid configuration yet.
    NotInitialized,
    /// The game's memory is already allocated.
    AlreadyAllocated,
    /// Tournament ICM is configured only between tree build and memory allocation.
    IcmNotConfigurable,
    /// Tournament ICM is cleared only between tree build and memory allocation.
    IcmNotClearable,
}

impl StateError {
    /// The error message.
    pub fn message(self) -> (r: &'static str)
        ensures
            r@ == (match self {
                StateError::NotInitialized => "Game is not successfully initialized"@,
                StateError::AlreadyAllocated => "Game has already been allocated"@,
                StateError::IcmNotConfigurable => "Tournament ICM can only be configured after tree build and before memory allocation"@,
                StateError::IcmNotClearable => "Tournament ICM can only be cleared before memory allocation"@,
            }),
    {
        match self {
            StateError::NotInitialized => "Game is not successfully initialized",
            StateError::AlreadyAllocated => "Game has already been allocated",
            StateError::IcmNotConfigurable => "Tournament ICM can only be configured after tree build and before memory allocation",
            StateError::IcmNotClearable => "Tournament ICM can only be cleared before memory allocation",
        }
    }
}

/// Whether the game is solved.
pub fn is_solved(status: GameStatus) -> (r: bool)
    ensures
        r == (status.state == GameState::Solved),
{
    status.state == GameState::Solved
}

/// Whether the game is ready to be solved: its memory is allocated and holds every street.
pub fn is_ready(status: GameStatus) -> (r: bool)
    ensures
        r == (status.state == GameState::MemoryAllocated && status.storage_mode
            == BoardState::River),
{
    status.state == GameState::MemoryAllocated && status.storage_mode == BoardState::River
}

/// Whether the memory is allocated: `Some(is_compression_enabled)` once it is, `None` before.
pub open spec fn allocation_view(status: GameStatus) -> Option<bool> {
    if status.state.rank() <= GameState::TreeBuilt.rank() {
        None
    } else {
        Some(status.is_compression_enabled)
    }
}

/// Executable form of [`allocation_view`].
pub fn is_memory_allocated(status: GameStatus) -> (r: Option<bool>)
    ensures
        r == allocation_view(status),
{
    if status.state.stage() <= GameState::TreeBuilt.stage() {
        None
    } else {
        Some(status.is_compression_enabled)
    }
}

/// The check of operations that need a configured game (such as the bunching effect).
pub fn check_initialized(state: GameState) -> (r: Result<(), StateError>)
    ensures
        r == (if state.rank() <= GameState::Uninitialized.rank() {
            Err(StateError::NotInitialized)
        } else {
            Ok::<(), StateError>(())
        }),
{
    if state.stage() <= GameState::Uninitialized.stage() {
        Err(StateError::NotInitialized)
    } else {
        Ok(())
    }
}

/// Line removal asks for a built tree whose memory is not allocated yet.
pub open spec fn removal_check(state: GameState) -> Result<(), StateError> {
    if state.rank() <= GameState::Uninitialized.rank() {
        Err(StateError::NotInitialized)
    } else if state.rank() >= GameState::MemoryAllocated.rank() {
        Err(StateError::AlreadyAllocated)
    } else {
        Ok(())
    }
}

/// Executable form of [`removal_check`].
pub fn check_lines_removable(state: GameState) -> (r: Result<(), StateError>)
    ensures
        r == removal_check(state),
        r is Ok <==> state == GameState::TreeBuilt,
{
    if state.stage() <= GameState::Uninitialized.stage() {
        Err(StateError::NotInitialized)
    } else if state.stage() >= GameState::MemoryAllocated.stage() {
        Err(StateError::AlreadyAllocated)
    } else {
        Ok(())
    }
}

/// Setting a tournament ICM configuration asks for a built tree.
pub open spec fn icm_config_check(state: GameState) -> Result<(), StateError> {
    if state == GameState::TreeBuilt {
        Ok(())
    } else {
        Err(StateError::IcmNotConfigurable)
    }
}

/// Executable form of [`icm_config_check`].
pub fn check_icm_configurable(state: GameState) -> (r: Result<(), StateError>)
    ensures
        r == icm_config_check(state),
{
    if state == GameState::TreeBuilt {
        Ok(())
    } else {
        Err(StateError::IcmNotConfigurable)
    }
}

/// The check of clearing a tournament ICM configuration: only on a built tree.
pub fn check_icm_clearable(state: GameState) -> (r: Result<(), StateError>)
    ensures
        r == (if state == GameState::TreeBuilt {
            Ok::<(), StateError>(())
        } else {
            Err(StateError::IcmNotClearable)
        }),
{
    if state == GameState::TreeBuilt {
        Ok(())
    } else {
        Err(StateError::IcmNotClearable)
    }
}

/// The bytes of each storage buffer of an allocation: `num_bytes` per element (2 compressed, 4
/// uncompressed) for the action-node, IP and chance storage.
pub open spec fn storage_bytes(counts: StorageCounts, num_bytes: int) -> (int, int, int) {
    (
        num_bytes * counts.num_storage,
        num_bytes * counts.num_storage_ip,
        num_bytes * counts.num_storage_chance,
    )
}

/// The bytes an allocation spends per storage element: 2 compressed, 4 uncompressed.
pub open spec fn bytes_per_element(enable_compression: bool) -> int {
    if enable_compression {
        2
    } else {
        4
    }
}

/// An allocation is needed unless the memory already holds every street with the asked
/// compression.
pub open spec fn allocation_needed(status: GameStatus, enable_compression: bool) -> bool {
    !(status.state == GameState::MemoryAllocated && status.storage_mode == BoardState::River
        && status.is_compression_enabled == enable_compression)
}

/// The status after an allocation with the asked compression: the memory is allocated for
/// every street.
pub open spec fn after_allocation(status: GameStatus, enable_compression: bool) -> GameStatus {
    if allocation_needed(status, enable_compression) {
        GameStatus {
            state: GameState::MemoryAllocated,
            storage_mode: BoardState::River,
            is_compression_enabled: enable_compression,
        }
    } else {
        status
    }
}

/// Allocates the memory of a built game: `None` when it already holds every street with the
/// asked compression (nothing to do), otherwise the game's memory becomes allocated for every
/// street with that compression and the bytes of its storage buffers are returned.
pub fn allocate_memory(status: &mut GameStatus, counts: StorageCounts, enable_compression: bool) -> (r:
    Option<(u64, u64, u64)>)
    requires
        old(status).state.rank() > GameState::Uninitialized.rank(),
        allocation_needed(*old(status), enable_compression) ==> ({
            let num_bytes: int = if enable_compression {
                2
            } else {
                4
            };
            &&& storage_bytes(counts, num_bytes).0 <= isize::MAX
            &&& storage_bytes(counts, num_bytes).1 <= u64::MAX
            &&& storage_bytes(counts, num_bytes).2 <= isize::MAX
        }),
    ensures
        *final(status) == after_allocation(*old(status), enable_compression),
        ({
            let num_bytes: int = if enable_compression {
                2
            } else {
                4
            };
            if allocation_needed(*old(status), enable_compression) {
                r matches Some(bytes) && bytes.0 == storage_bytes(counts, num_bytes).0 && bytes.1
                    == storage_bytes(counts, num_bytes).1 && bytes.2 == storage_bytes(
                    counts,
                    num_bytes,
                ).2
            } else {
                r is None
            }
        }),
        r matches Some(bytes) ==> bytes.0 == storage_bytes(counts, bytes_per_element(enable_compression)).0
            && bytes.1 == storage_bytes(counts, bytes_per_element(enable_compression)).1
            && bytes.2 == storage_bytes(counts, bytes_per_element(enable_compression)).2,
{
    if status.state == GameState::MemoryAllocated && status.storage_mode == BoardState::River
        && status.is_compression_enabled == enable_compression {
        return None;
    }
    let num_bytes: u64 = if enable_compression {
        2
    } else {
        4
    };
    status.state = GameState::MemoryAllocated;
    status.is_compression_enabled = enable_compression;
    status.storage_mode = BoardState::River;
    Some(
        (
            num_bytes * counts.num_storage,
            num_bytes * counts.num_storage_ip,
            num_bytes * counts.num_storage_chance,
        ),
    )
}

/// An allocation always leaves the game ready to be solved, with the asked compression: its
/// memory is allocated and holds every street, also when it held only some streets before
/// (as after loading a save of the flop and turn).
pub proof fn law_allocation_makes_ready(status: GameStatus, enable_compression: bool)
    requires
        status.state.rank() > GameState::Uninitialized.rank(),
    ensures
        after_allocation(status, enable_compression).state == GameState::MemoryAllocated,
        after_allocation(status, enable_compression).storage_mode == BoardState::River,
        after_allocation(status, enable_compression).is_compression_enabled == enable_compression,
{
}

/// An allocation is skipped only when the memory is already allocated for every street with the
/// asked compression; a game that holds only some streets, is not allocated yet or uses the
/// other compression is allocated.
pub proof fn law_allocation_skipped_only_when_complete(status: GameStatus, enable_compression: bool)
    ensures
        !allocation_needed(status, enable_compression) <==> (status.state
            == GameState::MemoryAllocated && status.storage_mode == BoardState::River
            && status.is_compression_enabled == enable_compression),
        status.storage_mode != BoardState::River ==> allocation_needed(status, enable_compression),
{
}

/// Compressed storage takes 2 bytes per element and uncompressed 4, so a compressed allocation
/// sizes every buffer at half the uncompressed one.
pub proof fn law_compressed_buffers_are_half(counts: StorageCounts)
    ensures
        bytes_per_element(true) == 2,
        bytes_per_element(false) == 4,
        2 * storage_bytes(counts, bytes_per_element(true)).0 == storage_bytes(counts, bytes_per_element(false)).0,
        2 * storage_bytes(counts, bytes_per_element(true)).1 == storage_bytes(counts, bytes_per_element(false)).1,
        2 * storage_bytes(counts, bytes_per_element(true)).2 == storage_bytes(counts, bytes_per_element(false)).2,
{
}

/// A built tree whose memory is not allocated yet accepts line removal and tournament ICM
/// configuration and reads as not allocated; a game without a valid configuration accepts
/// neither.
pub proof fn law_tree_edits_only_before_allocation(status: GameStatus)
    ensures
        status.state == GameState::TreeBuilt ==> removal_check(status.state) is Ok && icm_config_check(
            status.state,
        ) is Ok && allocation_view(status) is None,
        status.state.rank() <= GameState::Uninitialized.rank() ==> removal_check(status.state)
            == Err::<(), StateError>(StateError::NotInitialized) && icm_config_check(status.state)
            is Err && allocation_view(status) is None,
        removal_check(status.state) is Ok ==> status.state == GameState::TreeBuilt,
{
}

/// After an allocation, the memory reads as allocated with the asked compression, lines can no
/// longer be removed, and tournament ICM can no longer be configured.
pub proof fn law_allocation_ends_tree_edits(status: GameStatus, enable_compression: bool)
    requires
        status.state.rank() > GameState::Uninitialized.rank(),
    ensures
        allocation_view(after_allocation(status, enable_compression)) == Some(enable_compression),
        removal_check(after_allocation(status, enable_compression).state) == Err::<(), StateError>(
            StateError::AlreadyAllocated,
        ),
        icm_config_check(after_allocation(status, enable_compression).state) == Err::<(), StateError>(
            StateError::IcmNotConfigurable,
        ),
{
}

} // verus!
