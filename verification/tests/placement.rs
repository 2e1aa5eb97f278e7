use postflop_solver::game::base::StorageCounts;
use postflop_solver::game::placement::push_actions;
use postflop_solver::game::tree::TreeNode;
use postflop_solver::Action;

fn blank(player: usize) -> TreeNode {
    TreeNode {
        is_terminal: false,
        is_chance: false,
        player,
        num_children: 0,
        children_offset: 0,
        prev_action: Action::NoAction,
        num_elements: 0,
        num_elements_ip: 0,
    }
}

#[test]
fn actions_of_the_root_take_the_next_slots() {
    let mut arena = vec![blank(0), blank(1), blank(1), blank(1), blank(0)];
    let mut next = 1;
    let mut counts = StorageCounts { num_storage: 0, num_storage_ip: 0, num_storage_chance: 7 };
    let actions = vec![Action::Check, Action::Bet(30), Action::AllIn(100)];
    push_actions(&mut arena, 0, &actions, &mut next, &mut counts, [5, 4]);
    assert_eq!(arena[0].children_offset, 1);
    assert_eq!(arena[0].num_children, 3);
    // Three actions for each of OOP's 5 hands, and IP's 4 values at the street's start.
    assert_eq!(arena[0].num_elements, 15);
    assert_eq!(arena[0].num_elements_ip, 4);
    assert_eq!(
        arena[1..4].iter().map(|n| n.prev_action).collect::<Vec<_>>(),
        actions
    );
    assert_eq!(arena[4], blank(0));
    assert_eq!(next, 4);
    assert_eq!(counts, StorageCounts { num_storage: 15, num_storage_ip: 4, num_storage_chance: 7 });
}

#[test]
fn a_node_inside_a_street_stores_no_ip_values() {
    let mut arena = vec![blank(0), blank(1), blank(0), blank(0)];
    arena[1].prev_action = Action::Bet(30);
    let mut next = 2;
    let mut counts = StorageCounts { num_storage: 15, num_storage_ip: 4, num_storage_chance: 0 };
    push_actions(&mut arena, 1, &vec![Action::Fold, Action::Call], &mut next, &mut counts, [5, 4]);
    assert_eq!(arena[1].children_offset, 1);
    assert_eq!(arena[1].num_elements, 8);
    assert_eq!(arena[1].num_elements_ip, 0);
    assert_eq!(arena[2].prev_action, Action::Fold);
    assert_eq!(arena[3].prev_action, Action::Call);
    assert_eq!(next, 4);
    assert_eq!(counts, StorageCounts { num_storage: 23, num_storage_ip: 4, num_storage_chance: 0 });
}
