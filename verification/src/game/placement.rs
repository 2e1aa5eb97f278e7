//! Placing the actions of a decision node in the arena while the game tree is built.
use vstd::prelude::*;

use crate::action_tree::Action;
use crate::game::base::StorageCounts;
use crate::game::tree::TreeNode;

verus! {

/// The IP counterfactual values a decision node stores: one per IP hand at the root and right
/// after a chance node (where a street starts), none elsewhere.
pub open spec fn ip_elements_at(prev_action: Action, hands_ip: u32) -> u16 {
    match prev_action {
        Action::NoAction | Action::Chance(_) => hands_ip as u16,
        _ => 0,
    }
}

/// The decision node `node` with `num_children` children placed `offset` slots after it, and
/// storage for `hands` strategy elements per action.
pub open spec fn with_actions(node: TreeNode, offset: int, num_children: u16, hands: u32, hands_ip: u32) -> TreeNode {
    TreeNode {
        children_offset: offset as u32,
        num_children: num_children,
        num_elements: (num_children * hands) as u32,
        num_elements_ip: ip_elements_at(node.prev_action, hands_ip),
        ..node
    }
}

/// Places the actions of decision node `node_index`: its children take the next
/// `actions.len()` slots of its street, from `*next_child` on, each reached by its action in
/// order; the node gets storage for `num_private_hands[player]` elements per action (and IP
/// values where a street starts), which `counts` adds up. Counts are kept at the widths the
/// game tree stores them: the number of children as `u16`, the element counts as `u32` and the
/// IP count as `u16`.
pub fn push_actions(
    arena: &mut Vec<TreeNode>,
    node_index: usize,
    actions: &Vec<Action>,
    next_child: &mut usize,
    counts: &mut StorageCounts,
    num_private_hands: [u32; 2],
)
    requires
        node_index < *old(next_child),
        *old(next_child) + (actions.len() as u16) <= old(arena).len(),
        old(arena)[node_index as int].player < 2,
        old(counts).num_storage + ((actions.len() as u16) * num_private_hands[old(arena)[node_index as int].player as int]) as u32 <= u64::MAX,
        old(counts).num_storage_ip + ip_elements_at(
            old(arena)[node_index as int].prev_action,
            num_private_hands[1],
        ) <= u64::MAX,
    ensures
        ({
            let a = old(arena)@;
            let node = a[node_index as int];
            let next = *old(next_child);
            let n = actions.len() as u16;
            let hands = num_private_hands[node.player as int];
            let placed = with_actions(node, next - node_index, n, hands, num_private_hands[1]);
            &&& final(arena)@.len() == a.len()
            &&& final(arena)@[node_index as int] == placed
            &&& forall|k: int|
                0 <= k < n ==> #[trigger] final(arena)@[next + k] == (TreeNode {
                    prev_action: actions@[k],
                    ..a[next + k]
                })
            &&& forall|i: int|
                0 <= i < a.len() && i != node_index && !(next <= i < next + n) ==> #[trigger] final(arena)@[i] == a[i]
            &&& *final(next_child) == next + n
            &&& final(counts).num_storage == old(counts).num_storage + placed.num_elements
            &&& final(counts).num_storage_ip == old(counts).num_storage_ip + placed.num_elements_ip
            &&& final(counts).num_storage_chance == old(counts).num_storage_chance
        }),
{
    let ghost a = arena@;
    let node = arena[node_index];
    let next = *next_child;
    let n = actions.len() as u16;
    let hands = num_private_hands[node.player];
    proof {
        assert(n * hands <= 0xffff * 0xffff_ffff) by (nonlinear_arith)
            requires
                n <= 0xffff,
                hands <= 0xffff_ffff,
        ;
    }
    let num_elements = ((n as u64) * (hands as u64)) as u32;
    let num_elements_ip: u16 = match node.prev_action {
        Action::NoAction | Action::Chance(_) => num_private_hands[1] as u16,
        _ => 0,
    };
    let placed = TreeNode {
        children_offset: (next - node_index) as u32,
        num_children: n,
        num_elements: num_elements,
        num_elements_ip: num_elements_ip,
        ..node
    };
    arena.set(node_index, placed);
    let mut k: u16 = 0;
    while k < n
        invariant
            k <= n,
            node_index < next,
            next + n <= a.len(),
            n <= actions@.len(),
            arena@.len() == a.len(),
            arena.len() == a.len(),
            arena@[node_index as int] == placed,
            forall|j: int|
                0 <= j < k ==> #[trigger] arena@[next + j] == (TreeNode {
                    prev_action: actions@[j],
                    ..a[next + j]
                }),
            forall|i: int|
                0 <= i < a.len() && i != node_index && !(next <= i < next + k) ==> #[trigger] arena@[i]
                    == a[i],
        decreases n - k,
    {
        let child = arena[next + k as usize];
        arena.set(next + k as usize, TreeNode { prev_action: actions[k as usize], ..child });
        k = k + 1;
    }
    *next_child = next + n as usize;
    counts.num_storage = counts.num_storage + num_elements as u64;
    counts.num_storage_ip = counts.num_storage_ip + num_elements_ip as u64;
}

} // verus!
