use postflop_solver::game::base::ContributionError;
use postflop_solver::game::tree::{
    amounts_within_bound, is_well_formed, terminal_contributions, TreeNode, AMOUNT_BOUND,
};
use postflop_solver::Action;

fn node(is_terminal: bool, player: usize, num_children: u16, children_offset: u32, prev_action: Action) -> TreeNode {
    TreeNode {
        is_terminal,
        is_chance: false,
        player,
        num_children,
        children_offset,
        prev_action,
        num_elements: 0,
        num_elements_ip: 0,
    }
}

/// Root: OOP checks or bets 30. After a check IP checks (showdown); after the bet IP folds or
/// calls (showdown).
fn small_tree() -> Vec<TreeNode> {
    vec![
        node(false, 0, 2, 1, Action::NoAction), // 0: OOP, children 1..3
        node(false, 1, 1, 2, Action::Check),    // 1: IP after check, child 3
        node(false, 1, 2, 2, Action::Bet(30)),  // 2: IP after bet, children 4..6
        node(true, 0, 0, 0, Action::Check),     // 3: check-check
        node(true, 0, 0, 0, Action::Fold),      // 4: bet-fold
        node(true, 0, 0, 0, Action::Call),      // 5: bet-call
    ]
}

#[test]
fn small_tree_is_well_formed() {
    assert!(is_well_formed(&small_tree()));
}

#[test]
fn malformed_arenas_are_detected() {
    assert!(!is_well_formed(&Vec::new()));
    let mut self_loop = small_tree();
    self_loop[1].children_offset = 0;
    assert!(!is_well_formed(&self_loop));
    let mut shared_child = small_tree();
    shared_child[1].children_offset = 3; // node 4 would have two parents
    assert!(!is_well_formed(&shared_child));
}

#[test]
fn amounts_beyond_the_bound_are_detected() {
    assert!(amounts_within_bound(&small_tree(), 970));
    let mut huge_bet = small_tree();
    huge_bet[2].prev_action = Action::Bet(i32::MAX);
    // The shape is fine; only the amount is out of range.
    assert!(is_well_formed(&huge_bet));
    assert!(!amounts_within_bound(&huge_bet, 970));
    assert!(!amounts_within_bound(&small_tree(), -1));
    assert!(!amounts_within_bound(&small_tree(), AMOUNT_BOUND + 1));
    assert!(amounts_within_bound(&small_tree(), AMOUNT_BOUND));
    // A node that the root does not reach is not looked at.
    let mut unreached = small_tree();
    unreached.push(node(false, 0, 0, 1, Action::Raise(i32::MIN)));
    assert!(amounts_within_bound(&unreached, 970));
}

#[test]
fn terminal_contributions_of_small_tree() {
    let c = terminal_contributions(&small_tree(), 970).unwrap();
    assert_eq!(c, vec![None, None, None, Some([0, 0]), Some([30, 0]), Some([30, 30])]);
}

#[test]
fn truncated_arena_skips_missing_children() {
    let mut tree = small_tree();
    tree.truncate(5); // the bet-call terminal is dropped
    let c = terminal_contributions(&tree, 970).unwrap();
    assert_eq!(c, vec![None, None, None, Some([0, 0]), Some([30, 0])]);
}

#[test]
fn terminal_contributions_report_failing_steps() {
    let mut tree = small_tree();
    tree[2].prev_action = Action::Bet(2000); // more than the effective stack
    assert_eq!(
        terminal_contributions(&tree, 970),
        Err(ContributionError::ExceedsStack(0, Action::Bet(2000)))
    );
}

/// The arena left after removing the root's first action (a check) from a tree whose root
/// checks or bets 10: the bet node moved to slot 1 with its offset raised by one, and the
/// removed check node sits unreachable in slot 2, still claiming slots 4 and 5.
fn arena_after_removed_line() -> Vec<TreeNode> {
    vec![
        node(false, 0, 1, 1, Action::NoAction), // 0: root, one action left
        node(false, 1, 2, 4, Action::Bet(10)),  // 1: IP after the bet, children 5..7
        node(false, 1, 2, 2, Action::Check),    // 2: removed, unreachable, claims 4..6
        node(true, 0, 0, 0, Action::Check),     // 3: removed line's terminal
        node(true, 0, 0, 0, Action::Fold),      // 4: removed line's terminal
        node(true, 0, 0, 0, Action::Fold),      // 5: bet-fold
        node(true, 0, 0, 0, Action::Call),      // 6: bet-call
    ]
}

#[test]
fn arena_after_removed_line_is_well_formed() {
    assert!(is_well_formed(&arena_after_removed_line()));
}

#[test]
fn terminal_contributions_after_removed_line() {
    let c = terminal_contributions(&arena_after_removed_line(), 970).unwrap();
    assert_eq!(c, vec![None, None, None, None, None, Some([10, 0]), Some([10, 10])]);
}
