use postflop_solver::game::bunching::{memory_usage_bunching, LayoutSizes};
use postflop_solver::NOT_DEALT;

const SIZES: LayoutSizes = LayoutSizes { vec_pair: 48, index: 8, vec: 24 };

#[test]
fn bunching_memory_on_a_river_board() {
    // Board 0 1 2 | 3 | 4; one hand each, not blocked by the board.
    let r = memory_usage_bunching(
        &vec![true, false],
        &vec![(10, 11)],
        &vec![(12, 13)],
        [0, 1, 2],
        3,
        4,
        &vec![],
        &[vec![], vec![], vec![], vec![]],
        SIZES,
    );
    // 4 + 2 * 48 + 2 * 2 * 1, then per player 1326 * 24 + one board (8 + 4 * 1 * 1).
    assert_eq!(r, 4 + 96 + 4 + 2 * (1326 * 24 + 12));
}

#[test]
fn bunching_memory_counts_blocked_hands_once() {
    // The OOP hand holds the river card, so the board leaves it no opponent entries.
    let r = memory_usage_bunching(
        &vec![],
        &vec![(4, 11)],
        &vec![(12, 13)],
        [0, 1, 2],
        3,
        4,
        &vec![],
        &[vec![], vec![], vec![], vec![]],
        SIZES,
    );
    assert_eq!(r, 4 + (1326 * 24 + 8) + (1326 * 24 + 8 + 4));
}

#[test]
fn bunching_memory_on_a_turn_board_adds_turn_tables() {
    let river_dealt = memory_usage_bunching(
        &vec![], &vec![(10, 11)], &vec![(12, 13)], [0, 1, 2], 3, 4, &vec![],
        &[vec![], vec![], vec![], vec![]], SIZES,
    );
    let river_open = memory_usage_bunching(
        &vec![], &vec![(10, 11)], &vec![(12, 13)], [0, 1, 2], 3, NOT_DEALT, &vec![],
        &[vec![], vec![], vec![], vec![]], SIZES,
    );
    assert!(river_open > river_dealt);
}
