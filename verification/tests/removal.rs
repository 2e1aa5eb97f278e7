use postflop_solver::game::base::StorageCounts;
use postflop_solver::game::removal::{
    find_line_target, is_complete, remove_line, remove_lines, RemoveLineError,
};
use postflop_solver::game::tree::{is_well_formed, terminal_contributions, TreeNode};
use postflop_solver::Action;

const HANDS: [u32; 2] = [5, 4];

fn decision(player: usize, num_children: u16, children_offset: u32, prev_action: Action, num_elements: u32) -> TreeNode {
    TreeNode {
        is_terminal: false,
        is_chance: false,
        player,
        num_children,
        children_offset,
        prev_action,
        num_elements,
        num_elements_ip: 0,
    }
}

fn terminal(prev_action: Action) -> TreeNode {
    TreeNode {
        is_terminal: true,
        is_chance: false,
        player: 0,
        num_children: 0,
        children_offset: 0,
        prev_action,
        num_elements: 0,
        num_elements_ip: 0,
    }
}

/// Root: OOP checks, bets 30 or goes all-in for 100. After the check IP checks or bets 30, and
/// OOP then folds or calls; after either bet IP folds or calls.
fn tree() -> Vec<TreeNode> {
    let mut root = decision(0, 3, 1, Action::NoAction, 15);
    root.num_elements_ip = 4;
    vec![
        root,                                        // 0: children 1..4
        decision(1, 2, 3, Action::Check, 8),         // 1: children 4..6
        decision(1, 2, 4, Action::Bet(30), 8),       // 2: children 6..8
        decision(1, 2, 5, Action::AllIn(100), 8),    // 3: children 8..10
        terminal(Action::Check),                     // 4
        decision(0, 2, 5, Action::Bet(30), 10),      // 5: children 10..12
        terminal(Action::Fold),                      // 6
        terminal(Action::Call),                      // 7
        terminal(Action::Fold),                      // 8
        terminal(Action::Call),                      // 9
        terminal(Action::Fold),                      // 10
        terminal(Action::Call),                      // 11
    ]
}

fn child_actions(arena: &[TreeNode], i: usize) -> Vec<Action> {
    let node = arena[i];
    let base = i + node.children_offset as usize;
    (0..node.num_children as usize).map(|k| arena[base + k].prev_action).collect()
}

#[test]
fn removing_a_root_action_releases_its_subtree() {
    let mut arena = tree();
    let counts = remove_line(&mut arena, &vec![Action::Bet(30)], HANDS);
    // The root's 5 OOP hands for the action, and the 8 elements of the IP node after the bet.
    assert_eq!(counts, Ok(StorageCounts { num_storage: 13, num_storage_ip: 0, num_storage_chance: 0 }));
    assert_eq!(child_actions(&arena, 0), vec![Action::Check, Action::AllIn(100)]);
    assert_eq!(arena[0].num_children, 2);
    assert_eq!(arena[0].num_elements, 10);
    assert_eq!(arena[0].num_elements_ip, 4);
    // The all-in node moved one slot to the front and still reaches its own children.
    assert_eq!(arena[2].prev_action, Action::AllIn(100));
    assert_eq!(arena[2].children_offset, 6);
    assert_eq!(child_actions(&arena, 2), vec![Action::Fold, Action::Call]);
    // The removed node sits behind the remaining children, with its storage released.
    assert_eq!(arena[3].prev_action, Action::Bet(30));
    assert_eq!(arena[3].num_elements, 0);
}

#[test]
fn removing_a_deeper_action_releases_its_subtree() {
    let mut arena = tree();
    let counts = remove_line(&mut arena, &vec![Action::Check, Action::Bet(30)], HANDS);
    // IP's 4 hands for the bet, and the 10 elements of OOP's node facing it.
    assert_eq!(counts, Ok(StorageCounts { num_storage: 14, num_storage_ip: 0, num_storage_chance: 0 }));
    assert_eq!(child_actions(&arena, 1), vec![Action::Check]);
    assert_eq!(arena[1].num_elements, 4);
    assert_eq!(arena[5].num_elements, 0);
    assert_eq!(child_actions(&arena, 0), vec![Action::Check, Action::Bet(30), Action::AllIn(100)]);
}

#[test]
fn removed_storage_and_remaining_storage_add_up() {
    let mut arena = tree();
    let before: u64 = arena.iter().filter(|n| !n.is_terminal).map(|n| n.num_elements as u64).sum();
    let counts = remove_line(&mut arena, &vec![Action::Bet(30)], HANDS).unwrap();
    let after: u64 = arena.iter().filter(|n| !n.is_terminal).map(|n| n.num_elements as u64).sum();
    assert_eq!(counts.num_storage + after, before);
}

#[test]
fn the_last_action_of_a_node_cannot_be_removed() {
    let mut arena = tree();
    remove_line(&mut arena, &vec![Action::Check, Action::Bet(30)], HANDS).unwrap();
    let before = arena.clone();
    assert_eq!(
        remove_line(&mut arena, &vec![Action::Check, Action::Check], HANDS),
        Err(RemoveLineError::LastAction)
    );
    assert_eq!(arena, before);
}

#[test]
fn malformed_lines_are_refused_and_leave_the_tree_alone() {
    let cases = [
        (vec![], RemoveLineError::EmptyLine),
        (vec![Action::Check, Action::Check, Action::Call], RemoveLineError::UnexpectedTerminal),
        (vec![Action::Raise(50)], RemoveLineError::ActionNotFound(Action::Raise(50))),
        (vec![Action::Check, Action::Fold], RemoveLineError::ActionNotFound(Action::Fold)),
    ];
    for (line, err) in cases {
        let mut arena = tree();
        assert_eq!(remove_line(&mut arena, &line, HANDS), Err(err));
        assert_eq!(arena, tree());
    }
}

#[test]
fn a_line_ending_in_a_chance_action_is_refused() {
    let mut root = terminal(Action::NoAction);
    root.is_terminal = false;
    root.is_chance = true;
    root.num_children = 2;
    root.children_offset = 1;
    root.num_elements = 9;
    let mut arena = vec![root, terminal(Action::Chance(1)), terminal(Action::Chance(2))];
    assert_eq!(remove_line(&mut arena, &vec![Action::Chance(1)], HANDS), Err(RemoveLineError::ChanceLine));
}

#[test]
fn the_target_of_a_line_is_its_last_node_and_slot() {
    let arena = tree();
    assert_eq!(find_line_target(&arena, &vec![Action::AllIn(100)]), Ok((0, 2)));
    assert_eq!(find_line_target(&arena, &vec![Action::Check, Action::Bet(30), Action::Call]), Ok((5, 1)));
}

#[test]
fn a_pruned_tree_is_still_walked_from_the_root() {
    let mut arena = tree();
    remove_line(&mut arena, &vec![Action::Bet(30)], HANDS).unwrap();
    assert!(is_complete(&arena));
    assert!(is_well_formed(&arena));
    // Terminals: check-check, check-bet-fold, check-bet-call, allin-fold, allin-call, plus the
    // released bet-fold and bet-call, which the root no longer reaches.
    let contributions = terminal_contributions(&arena, 970).unwrap();
    assert_eq!(contributions[8], Some([100, 0]));
    assert_eq!(contributions[9], Some([100, 100]));
    assert_eq!(contributions[11], Some([30, 30]));
}

#[test]
fn completeness_needs_children_inside_the_arena() {
    assert!(is_complete(&tree()));
    let mut arena = tree();
    arena[3].children_offset = 9;
    assert!(!is_complete(&arena));
    let mut arena = tree();
    arena[1].children_offset = 0;
    assert!(!is_complete(&arena));
    assert!(!is_complete(&Vec::new()));
    // A node that the root does not reach is not looked at.
    let mut arena = tree();
    arena.push(decision(0, 4, 100, Action::Check, 0));
    assert!(is_complete(&arena));
}

#[test]
fn lines_are_removed_in_turn_and_their_storage_taken_off() {
    let mut arena = tree();
    let mut counts = StorageCounts { num_storage: 57, num_storage_ip: 4, num_storage_chance: 0 };
    let lines = vec![vec![Action::Bet(30)], vec![Action::Check, Action::Bet(30)]];
    assert_eq!(remove_lines(&mut arena, &mut counts, &lines, HANDS), Ok(()));
    // 13 released by the first line, 14 by the second.
    assert_eq!(counts, StorageCounts { num_storage: 30, num_storage_ip: 4, num_storage_chance: 0 });
    assert_eq!(child_actions(&arena, 0), vec![Action::Check, Action::AllIn(100)]);
    assert_eq!(child_actions(&arena, 1), vec![Action::Check]);
}

#[test]
fn the_first_line_that_fails_stops_the_removal() {
    let mut arena = tree();
    let mut counts = StorageCounts { num_storage: 57, num_storage_ip: 4, num_storage_chance: 0 };
    let lines = vec![
        vec![Action::Bet(30)],
        vec![Action::Bet(30)],
        vec![Action::Check, Action::Bet(30)],
    ];
    // The second line names the action the first one removed.
    assert_eq!(
        remove_lines(&mut arena, &mut counts, &lines, HANDS),
        Err(RemoveLineError::ActionNotFound(Action::Bet(30)))
    );
    assert_eq!(counts.num_storage, 44);
    assert_eq!(child_actions(&arena, 0), vec![Action::Check, Action::AllIn(100)]);
    assert_eq!(child_actions(&arena, 1), vec![Action::Check, Action::Bet(30)]);
}
