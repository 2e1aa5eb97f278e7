//! The walk of a game-tree arena that finds, for every terminal node, how many chips each
//! player contributed along the line that leads to it.
//!
//! A game tree is stored as an arena: node 0 is the root, and the children of a decision or
//! chance node `i` are the nodes `i + children_offset + k` for `k < num_children`. A save that
//! drops the deeper streets truncates the arena, so children past its end are skipped.
use vstd::prelude::*;
use vstd::set_lib::{lemma_int_range, lemma_len_subset, set_int_range};

use crate::action_tree::Action;
use crate::game::base::{
    bet_amount, contribution_step, law_step_keeps_stacks_in_range, line_state,
    next_icm_contribution_state, stacks_in_range, step_fits, ContributionError,
};

verus! {

/// A node of a game-tree arena, as the chip accounting and the storage bookkeeping read it.
#[derive(Clone, Copy, Debug, PartialEq, Eq, Structural)]
pub struct TreeNode {
    /// Whether the node ends the hand (a fold or a showdown).
    pub is_terminal: bool,
    /// Whether the node deals a card.
    pub is_chance: bool,
    /// The acting player at a decision node (0 = OOP, 1 = IP).
    pub player: usize,
    /// The number of children.
    pub num_children: u16,
    /// The distance from the node to its first child in the arena.
    pub children_offset: u32,
    /// The action that leads to the node.
    pub prev_action: Action,
    /// The number of storage elements of the node: strategy values at a decision node,
    /// counterfactual values at a chance node.
    pub num_elements: u32,
    /// The number of IP counterfactual values stored at a decision node.
    pub num_elements_ip: u16,
}

/// A bound on chip amounts under which the chip accounting cannot overflow `i32`.
pub const AMOUNT_BOUND: i32 = 0x1fff_ffffi32;

/// Node `j` is a child of node `i` that the arena holds.
pub open spec fn is_parent(arena: Seq<TreeNode>, i: int, j: int) -> bool {
    &&& 0 <= i < arena.len()
    &&& !arena[i].is_terminal
    &&& i + arena[i].children_offset <= j < i + arena[i].children_offset + arena[i].num_children
    &&& j < arena.len()
}

/// The root reaches node `x` through a line of parents that it reaches.
pub open spec fn reachable(arena: Seq<TreeNode>, x: int) -> bool
    decreases x,
{
    if x <= 0 {
        x == 0 && arena.len() > 0
    } else {
        exists|i: int| 0 <= i < x && #[trigger] is_parent(arena, i, x) && reachable(arena, i)
    }
}

/// The chip amount of a node's action is within [`AMOUNT_BOUND`].
pub open spec fn amount_ok(node: TreeNode) -> bool {
    match bet_amount(node.prev_action) {
        Some(a) => -AMOUNT_BOUND <= a <= AMOUNT_BOUND,
        None => true,
    }
}

/// A well-formed arena: it has a root, and among the nodes the root reaches, children come
/// after their parent and have one parent each, and child indices fit in `usize`. Nodes the
/// root does not reach (such as a removed line's nodes) are unconstrained.
pub open spec fn wf(arena: Seq<TreeNode>) -> bool {
    &&& arena.len() > 0
    &&& forall|i: int|
        #[trigger] reachable(arena, i) && !arena[i].is_terminal ==> arena[i].children_offset >= 1
            && i + arena[i].children_offset + arena[i].num_children <= usize::MAX
    &&& forall|i1: int, i2: int, j: int|
        reachable(arena, i1) && reachable(arena, i2) && #[trigger] is_parent(arena, i1, j)
            && #[trigger] is_parent(arena, i2, j) ==> i1 == i2
}

/// The chip accounting of the walk stays within `i32`: for every node the root reaches whose
/// line's accounting succeeds, the step into each of its children fits (see [`step_fits`]), and
/// at a terminal node the contributions `effective_stack - remaining` fit.
pub open spec fn chips_fit(arena: Seq<TreeNode>, effective_stack: i32) -> bool {
    &&& forall|j: int, c: int| #[trigger]
        is_parent(arena, j, c) && reachable(arena, j) ==> (path_to(arena, j) matches Some(p)
            ==> (line_state(p, [effective_stack, effective_stack], 0) matches Ok((r, pa))
            ==> step_fits(arena[j].player, arena[c].prev_action, r, pa)))
    &&& forall|j: int| #[trigger]
        reachable(arena, j) && arena[j].is_terminal ==> (path_to(arena, j) matches Some(p)
            ==> (line_state(p, [effective_stack, effective_stack], 0) matches Ok((r, pa))
            ==> i32::MIN <= effective_stack - r[0] <= i32::MAX && i32::MIN <= effective_stack
            - r[1] <= i32::MAX))
}

/// The line of `(acting player, action)` steps from the root to node `j`, when the root reaches
/// `j` within the arena.
pub open spec fn path_to(arena: Seq<TreeNode>, j: int) -> Option<Seq<(usize, Action)>>
    decreases j,
{
    if j <= 0 {
        if j == 0 && arena.len() > 0 {
            Some(Seq::empty())
        } else {
            None
        }
    } else if exists|i: int| 0 <= i < j && is_parent(arena, i, j) && reachable(arena, i) {
        let i = choose|i: int| 0 <= i < j && is_parent(arena, i, j) && reachable(arena, i);
        match path_to(arena, i) {
            Some(p) => Some(p.push((arena[i].player, arena[j].prev_action))),
            None => None,
        }
    } else {
        None
    }
}

/// Node `a` lies on the line from the root to node `x` (or is `x`).
pub open spec fn ancestor(arena: Seq<TreeNode>, a: int, x: int) -> bool
    decreases x,
{
    if x <= 0 || a == x {
        a == x
    } else if exists|i: int| 0 <= i < x && is_parent(arena, i, x) && reachable(arena, i) {
        ancestor(
            arena,
            a,
            choose|i: int| 0 <= i < x && is_parent(arena, i, x) && reachable(arena, i),
        )
    } else {
        false
    }
}

/// The root reaches exactly the nodes that have a line from it.
pub proof fn lemma_reachable_path(arena: Seq<TreeNode>, x: int)
    ensures
        reachable(arena, x) <==> path_to(arena, x) is Some,
    decreases x,
{
    if x > 0 {
        if reachable(arena, x) {
            assert(exists|i: int| 0 <= i < x && #[trigger] is_parent(arena, i, x) && reachable(arena, i));
            let i = choose|i: int| 0 <= i < x && is_parent(arena, i, x) && reachable(arena, i);
            assert(0 <= i < x);
            lemma_reachable_path(arena, i);
        }
        if path_to(arena, x) is Some {
            let i = choose|i: int| 0 <= i < x && is_parent(arena, i, x) && reachable(arena, i);
            assert(is_parent(arena, i, x) && reachable(arena, i));
        }
    }
}

/// The chip accounting fails somewhere on the line to node `x`, which the root reaches.
pub open spec fn reachable_fails(arena: Seq<TreeNode>, effective_stack: i32, x: int) -> bool {
    path_to(arena, x) matches Some(p) && line_state(
        p,
        [effective_stack, effective_stack],
        0,
    ) is Err
}

/// The chip accounting of the line to node `x`, which the root reaches, fails with `err`.
pub open spec fn line_fails_with(
    arena: Seq<TreeNode>,
    effective_stack: i32,
    x: int,
    err: ContributionError,
) -> bool {
    path_to(arena, x) matches Some(p) && line_state(p, [effective_stack, effective_stack], 0)
        == Err::<([i32; 2], i32), ContributionError>(err)
}

/// The contribution `[effective_stack - remaining[0], effective_stack - remaining[1]]` of each
/// player at node `i`, when `i` is a terminal node that the root reaches with a chip accounting
/// that succeeds; `None` otherwise.
pub open spec fn terminal_contribution(arena: Seq<TreeNode>, effective_stack: i32, i: int) -> Option<
    [i32; 2],
> {
    match path_to(arena, i) {
        Some(p) => if arena[i].is_terminal {
            match line_state(p, [effective_stack, effective_stack], 0) {
                Ok((rem, _)) => Some(
                    [(effective_stack - rem[0]) as i32, (effective_stack - rem[1]) as i32],
                ),
                Err(_) => None,
            }
        } else {
            None
        },
        None => None,
    }
}

/// Extending a line by one step extends its chip accounting by that step.
pub proof fn lemma_line_state_push(
    line: Seq<(usize, Action)>,
    s: (usize, Action),
    remaining: [i32; 2],
    prev_amount: i32,
)
    ensures
        line_state(line.push(s), remaining, prev_amount) == (match line_state(
            line,
            remaining,
            prev_amount,
        ) {
            Ok((r, p)) => contribution_step(s.0, s.1, r, p),
            Err(e) => Err(e),
        }),
    decreases line.len(),
{
    if line.len() == 0 {
        let t = line.push(s);
        assert(t.drop_first() =~= Seq::<(usize, Action)>::empty());
        assert(t[0] == s);
        assert(line_state(line, remaining, prev_amount) == Ok::<([i32; 2], i32), ContributionError>(
            (remaining, prev_amount),
        ));
        match contribution_step(s.0, s.1, remaining, prev_amount) {
            Ok((next, next_prev)) => {
                assert(line_state(t.drop_first(), next, next_prev) == Ok::<
                    ([i32; 2], i32),
                    ContributionError,
                >((next, next_prev)));
            },
            Err(_) => {},
        }
    } else {
        assert(line.push(s).drop_first() =~= line.drop_first().push(s));
        assert(line.push(s)[0] == line[0]);
        match contribution_step(line[0].0, line[0].1, remaining, prev_amount) {
            Ok((next, next_prev)) => {
                lemma_line_state_push(line.drop_first(), s, next, next_prev);
            },
            Err(_) => {},
        }
    }
}

/// The line to a child is the line to its parent followed by the step into the child.
pub proof fn lemma_path_child(arena: Seq<TreeNode>, j: int, c: int)
    requires
        wf(arena),
        is_parent(arena, j, c),
        path_to(arena, j) is Some,
    ensures
        reachable(arena, c),
        path_to(arena, c) == Some(
            path_to(arena, j)->0.push((arena[j].player, arena[c].prev_action)),
        ),
{
    lemma_reachable_path(arena, j);
    assert(reachable(arena, j));
    assert(!arena[j].is_terminal);
    assert(0 <= j < c && is_parent(arena, j, c) && reachable(arena, j));
    assert(reachable(arena, c));
    let i = choose|i: int| 0 <= i < c && is_parent(arena, i, c) && reachable(arena, i);
    assert(is_parent(arena, i, c) && is_parent(arena, j, c));
    assert(i == j);
}

/// The root lies on the line to every node it reaches.
pub proof fn lemma_root_ancestor(arena: Seq<TreeNode>, x: int)
    requires
        path_to(arena, x) is Some,
    ensures
        ancestor(arena, 0, x),
    decreases x,
{
    if x > 0 {
        let i = choose|i: int| 0 <= i < x && is_parent(arena, i, x) && reachable(arena, i);
        lemma_reachable_path(arena, i);
        lemma_root_ancestor(arena, i);
    }
}

/// If `a` lies on the line to `x` and is not `x`, one of `a`'s children lies on it.
pub proof fn lemma_ancestor_child(arena: Seq<TreeNode>, a: int, x: int)
    requires
        ancestor(arena, a, x),
        a != x,
    ensures
        exists|c: int| is_parent(arena, a, c) && ancestor(arena, c, x),
    decreases x,
{
    let i = choose|i: int| 0 <= i < x && is_parent(arena, i, x) && reachable(arena, i);
    if i == a {
        assert(is_parent(arena, a, x) && ancestor(arena, x, x));
    } else {
        lemma_ancestor_child(arena, a, i);
        let c = choose|c: int| is_parent(arena, a, c) && ancestor(arena, c, i);
        assert(ancestor(arena, c, x));
    }
}

/// Chip amounts within the bounds keep the arithmetic of a step within `i32` and the new state
/// within the bounds.
proof fn lemma_step_bounded(
    player: usize,
    action: Action,
    remaining: [i32; 2],
    prev_amount: i32,
    effective_stack: i32,
)
    requires
        0 <= effective_stack <= AMOUNT_BOUND,
        stacks_in_range(remaining, effective_stack),
        -AMOUNT_BOUND <= prev_amount <= AMOUNT_BOUND,
        bet_amount(action) matches Some(a) ==> -AMOUNT_BOUND <= a <= AMOUNT_BOUND,
    ensures
        step_fits(player, action, remaining, prev_amount),
        contribution_step(player, action, remaining, prev_amount) matches Ok((r, p)) ==> (
        stacks_in_range(r, effective_stack) && -AMOUNT_BOUND <= p <= AMOUNT_BOUND),
{
    law_step_keeps_stacks_in_range(player, action, remaining, prev_amount, effective_stack);
}

/// A pending entry of the walk: a node the root reaches, with the chip accounting of its line.
pub open spec fn entry_ok(
    arena: Seq<TreeNode>,
    effective_stack: i32,
    entry: (usize, [i32; 2], i32),
) -> bool {
    &&& entry.0 < arena.len()
    &&& path_to(arena, entry.0 as int) matches Some(p) && line_state(
        p,
        [effective_stack, effective_stack],
        0,
    ) == Ok::<([i32; 2], i32), ContributionError>((entry.1, entry.2))
}

/// A node the walk has finished: the root reaches it with a chip accounting that succeeds.
pub open spec fn node_ok(arena: Seq<TreeNode>, effective_stack: i32, x: int) -> bool {
    path_to(arena, x) matches Some(p) && line_state(
        p,
        [effective_stack, effective_stack],
        0,
    ) is Ok
}

/// The stack holds node `x`.
pub open spec fn in_stack(stack: Seq<(usize, [i32; 2], i32)>, x: int) -> bool {
    exists|k: int| 0 <= k < stack.len() && stack[k].0 == x
}

/// Everything the walk keeps between steps: `out` holds the results of the `visited` nodes,
/// every pending entry on `stack` is a reachable node with its chip accounting, nodes are
/// pending or finished at most once, every pending or finished node other than the root has a
/// finished parent, and every reachable node is finished or below a pending one.
#[verifier::opaque]
pub open spec fn walk_inv(
    a: Seq<TreeNode>,
    e: i32,
    out: Seq<Option<[i32; 2]>>,
    stack: Seq<(usize, [i32; 2], i32)>,
    visited: Set<int>,
) -> bool {
    &&& out.len() == a.len()
    &&& visited.finite()
    &&& visited.subset_of(set_int_range(0, a.len() as int))
    &&& forall|k: int| 0 <= k < stack.len() ==> #[trigger] entry_ok(a, e, stack[k])
    &&& forall|k: int| 0 <= k < stack.len() ==> !visited.contains(#[trigger] stack[k].0 as int)
    &&& forall|k1: int, k2: int|
        0 <= k1 < stack.len() && 0 <= k2 < stack.len() && k1 != k2 ==> #[trigger] stack[k1].0
            != #[trigger] stack[k2].0
    &&& forall|x: int|
        (visited.contains(x) || in_stack(stack, x)) && x != 0 ==> exists|p: int|
            #[trigger] is_parent(a, p, x) && visited.contains(p)
    &&& forall|x: int| visited.contains(x) ==> #[trigger] node_ok(a, e, x)
    &&& forall|x: int|
        0 <= x < a.len() ==> #[trigger] out[x] == (if visited.contains(x) {
            terminal_contribution(a, e, x)
        } else {
            None
        })
    &&& forall|x: int|
        path_to(a, x) is Some ==> visited.contains(x) || exists|k: int|
            0 <= k < stack.len() && #[trigger] ancestor(a, stack[k].0 as int, x)
}

proof fn lemma_walk_init(a: Seq<TreeNode>, e: i32, out: Seq<Option<[i32; 2]>>)
    requires
        wf(a),
        out.len() == a.len(),
        forall|x: int| 0 <= x < out.len() ==> out[x] is None,
    ensures
        walk_inv(a, e, out, seq![(0usize, [e, e], 0i32)], Set::empty()),
{
    reveal(walk_inv);
    let stack = seq![(0usize, [e, e], 0i32)];
    assert(path_to(a, 0) == Some(Seq::<(usize, Action)>::empty()));
    assert(line_state(Seq::<(usize, Action)>::empty(), [e, e], 0) == Ok::<
        ([i32; 2], i32),
        ContributionError,
    >(([e, e], 0)));
    assert(entry_ok(a, e, stack[0]));
    assert forall|x: int| path_to(a, x) is Some implies Set::<int>::empty().contains(x) || exists|
        k: int,
    | 0 <= k < stack.len() && #[trigger] ancestor(a, stack[k].0 as int, x) by {
        lemma_root_ancestor(a, x);
        assert(ancestor(a, stack[0].0 as int, x));
    }
    assert forall|x: int|
        (Set::<int>::empty().contains(x) || in_stack(stack, x)) && x != 0 implies exists|p: int|
        #[trigger] is_parent(a, p, x) && Set::<int>::empty().contains(p) by {
        let k = choose|k: int| 0 <= k < stack.len() && stack[k].0 == x;
    }
}

proof fn lemma_walk_top(
    a: Seq<TreeNode>,
    e: i32,
    out: Seq<Option<[i32; 2]>>,
    stack: Seq<(usize, [i32; 2], i32)>,
    visited: Set<int>,
)
    requires
        walk_inv(a, e, out, stack, visited),
        stack.len() > 0,
    ensures
        entry_ok(a, e, stack.last()),
        !visited.contains(stack.last().0 as int),
        out[stack.last().0 as int] is None,
        visited.len() < a.len(),
        out.len() == a.len(),
        forall|k: int| 0 <= k < stack.len() ==> #[trigger] entry_ok(a, e, stack[k]),
{
    reveal(walk_inv);
    let j = stack.last().0 as int;
    assert(entry_ok(a, e, stack[stack.len() - 1]));
    assert(!visited.contains(stack[stack.len() - 1].0 as int));
    assert(out[j] == (if visited.contains(j) {
        terminal_contribution(a, e, j)
    } else {
        None
    }));
    lemma_int_range(0, a.len() as int);
    let with_j = visited.insert(j);
    assert(with_j.subset_of(set_int_range(0, a.len() as int)));
    lemma_len_subset(with_j, set_int_range(0, a.len() as int));
}

proof fn lemma_walk_step(
    a: Seq<TreeNode>,
    e: i32,
    out: Seq<Option<[i32; 2]>>,
    new_out: Seq<Option<[i32; 2]>>,
    old_stack: Seq<(usize, [i32; 2], i32)>,
    stack: Seq<(usize, [i32; 2], i32)>,
    visited: Set<int>,
)
    requires
        wf(a),
        walk_inv(a, e, out, old_stack, visited),
        old_stack.len() > 0,
        stack.len() >= old_stack.len() - 1,
        forall|m: int| 0 <= m < old_stack.len() - 1 ==> stack[m] == old_stack[m],
        forall|m: int|
            old_stack.len() - 1 <= m < stack.len() ==> is_parent(
                a,
                old_stack.last().0 as int,
                #[trigger] stack[m].0 as int,
            ),
        forall|m1: int, m2: int|
            old_stack.len() - 1 <= m1 < m2 < stack.len() ==> #[trigger] stack[m1].0
                < #[trigger] stack[m2].0,
        forall|c: int|
            is_parent(a, old_stack.last().0 as int, c) ==> #[trigger] in_stack(stack, c),
        forall|m: int| 0 <= m < stack.len() ==> #[trigger] entry_ok(a, e, stack[m]),
        new_out == out.update(
            old_stack.last().0 as int,
            terminal_contribution(a, e, old_stack.last().0 as int),
        ),
    ensures
        walk_inv(a, e, new_out, stack, visited.insert(old_stack.last().0 as int)),
        visited.insert(old_stack.last().0 as int).len() == visited.len() + 1,
{
    reveal(walk_inv);
    let j = old_stack.last().0 as int;
    let mid = old_stack.len() - 1;
    assert(entry_ok(a, e, old_stack[mid]));
    assert(!visited.contains(old_stack[mid].0 as int));
    lemma_reachable_path(a, j);
    let new_visited = visited.insert(j);
    lemma_int_range(0, a.len() as int);
    assert(new_visited.subset_of(set_int_range(0, a.len() as int)));
    assert forall|m: int| mid <= m < stack.len() implies !visited.contains(
        #[trigger] stack[m].0 as int,
    ) && !in_stack(old_stack, stack[m].0 as int) by {
        let c = stack[m].0 as int;
        assert(is_parent(a, j, c));
        if visited.contains(c) || in_stack(old_stack, c) {
            assert(reachable(a, j));
            assert(c != 0);
            let p = choose|p: int| #[trigger] is_parent(a, p, c) && visited.contains(p);
            assert(node_ok(a, e, p));
            lemma_reachable_path(a, p);
            assert(p == j);
        }
    }
    assert forall|m: int| 0 <= m < stack.len() implies !new_visited.contains(
        #[trigger] stack[m].0 as int,
    ) by {
        if m < mid {
            assert(stack[m] == old_stack[m]);
            assert(old_stack[m].0 != old_stack[mid].0);
            assert(!visited.contains(old_stack[m].0 as int));
        } else {
            assert(is_parent(a, j, stack[m].0 as int));
        }
    }
    assert forall|k1: int, k2: int|
        0 <= k1 < stack.len() && 0 <= k2 < stack.len() && k1 != k2 implies #[trigger] stack[k1].0
            != #[trigger] stack[k2].0 by {
        if k1 < mid && k2 < mid {
            assert(stack[k1] == old_stack[k1] && stack[k2] == old_stack[k2]);
        } else if k1 >= mid && k2 >= mid {
            if k1 < k2 {
                assert(stack[k1].0 < stack[k2].0);
            } else {
                assert(stack[k2].0 < stack[k1].0);
            }
        } else if k1 < mid {
            assert(stack[k1] == old_stack[k1]);
            assert(in_stack(old_stack, stack[k1].0 as int));
        } else {
            assert(stack[k2] == old_stack[k2]);
            assert(in_stack(old_stack, stack[k2].0 as int));
        }
    }
    assert forall|x: int|
        (new_visited.contains(x) || in_stack(stack, x)) && x != 0 implies exists|p: int|
        #[trigger] is_parent(a, p, x) && new_visited.contains(p) by {
        if x == j {
            assert(in_stack(old_stack, x));
            let p = choose|p: int| #[trigger] is_parent(a, p, x) && visited.contains(p);
            assert(new_visited.contains(p));
        } else if visited.contains(x) {
            let p = choose|p: int| #[trigger] is_parent(a, p, x) && visited.contains(p);
            assert(new_visited.contains(p));
        } else {
            let m = choose|m: int| 0 <= m < stack.len() && stack[m].0 == x;
            if m < mid {
                assert(stack[m] == old_stack[m]);
                assert(in_stack(old_stack, x));
                let p = choose|p: int| #[trigger] is_parent(a, p, x) && visited.contains(p);
                assert(new_visited.contains(p));
            } else {
                assert(is_parent(a, j, x) && new_visited.contains(j));
            }
        }
    }
    assert forall|x: int| new_visited.contains(x) implies #[trigger] node_ok(a, e, x) by {
        if x == j {
            assert(entry_ok(a, e, old_stack[mid]));
        }
    }
    assert forall|x: int| 0 <= x < a.len() implies #[trigger] new_out[x] == (if new_visited.contains(
        x,
    ) {
        terminal_contribution(a, e, x)
    } else {
        None
    }) by {
        if x != j {
            assert(out[x] == (if visited.contains(x) {
                terminal_contribution(a, e, x)
            } else {
                None
            }));
        }
    }
    assert forall|x: int| path_to(a, x) is Some implies new_visited.contains(x) || exists|k: int|
        0 <= k < stack.len() && #[trigger] ancestor(a, stack[k].0 as int, x) by {
        if !visited.contains(x) {
            let k = choose|k: int|
                0 <= k < old_stack.len() && #[trigger] ancestor(a, old_stack[k].0 as int, x);
            if k < mid {
                assert(stack[k] == old_stack[k]);
                assert(ancestor(a, stack[k].0 as int, x));
            } else if x != j {
                lemma_ancestor_child(a, j, x);
                let c = choose|c: int| is_parent(a, j, c) && ancestor(a, c, x);
                assert(in_stack(stack, c));
                let m = choose|m: int| 0 <= m < stack.len() && stack[m].0 == c;
                assert(ancestor(a, stack[m].0 as int, x));
            }
        }
    }
}

proof fn lemma_walk_done(a: Seq<TreeNode>, e: i32, out: Seq<Option<[i32; 2]>>, visited: Set<int>)
    requires
        walk_inv(a, e, out, Seq::empty(), visited),
    ensures
        forall|x: int| !reachable_fails(a, e, x),
        out.len() == a.len(),
        forall|x: int| 0 <= x < a.len() ==> out[x] == terminal_contribution(a, e, x),
{
    reveal(walk_inv);
    assert forall|x: int| !reachable_fails(a, e, x) by {
        if path_to(a, x) is Some {
            assert(visited.contains(x));
            assert(node_ok(a, e, x));
        }
    }
    assert forall|x: int| 0 <= x < a.len() implies out[x] == terminal_contribution(a, e, x) by {
        assert(out[x] == (if visited.contains(x) {
            terminal_contribution(a, e, x)
        } else {
            None
        }));
        if !visited.contains(x) {
            assert(path_to(a, x) is None);
        }
    }
}

/// Walks the arena from the root and records, for every terminal node the root reaches, the
/// chips each player contributed along its line (measured from `effective_stack`). Children
/// past the end of the arena are skipped. Fails with the chip accounting's error when a step of
/// some reachable line fails.
pub fn terminal_contributions(arena: &Vec<TreeNode>, effective_stack: i32) -> (r: Result<
    Vec<Option<[i32; 2]>>,
    ContributionError,
>)
    requires
        wf(arena@),
        chips_fit(arena@, effective_stack),
    ensures
        r is Err <==> exists|x: int| reachable_fails(arena@, effective_stack, x),
        r matches Err(err) ==> exists|x: int| #[trigger] line_fails_with(arena@, effective_stack, x, err),
        r matches Ok(c) ==> c@.len() == arena@.len() && forall|i: int|
            0 <= i < arena@.len() ==> c@[i] == terminal_contribution(arena@, effective_stack, i),
{
    let n = arena.len();
    let ghost a = arena@;
    let ghost e = effective_stack;
    let mut out: Vec<Option<[i32; 2]>> = Vec::new();
    let mut i: usize = 0;
    while i < n
        invariant
            i <= n,
            n == arena@.len(),
            out@.len() == i,
            forall|x: int| 0 <= x < i ==> out@[x] is None,
        decreases n - i,
    {
        out.push(None);
        i = i + 1;
    }
    let mut stack: Vec<(usize, [i32; 2], i32)> = Vec::new();
    stack.push((0, [effective_stack, effective_stack], 0));
    let ghost mut visited: Set<int> = Set::empty();
    proof {
        assert(stack@ =~= seq![(0usize, [e, e], 0i32)]);
        lemma_walk_init(a, e, out@);
    }
    while stack.len() > 0
        invariant
            a == arena@,
            wf(a),
            chips_fit(a, e),
            e == effective_stack,
            n == a.len(),
            walk_inv(a, e, out@, stack@, visited),
        decreases n - visited.len(),
    {
        let ghost old_stack = stack@;
        let ghost old_out = out@;
        proof {
            lemma_walk_top(a, e, out@, stack@, visited);
        }
        let (j, remaining, prev_amount) = stack.pop().unwrap();
        proof {
            assert(stack@ =~= old_stack.drop_last());
            assert(old_stack.last() == (j, remaining, prev_amount));
        }
        let ghost path_j = path_to(a, j as int)->0;
        let ghost mid_stack = stack@;
        let node = arena[j];
        proof {
            lemma_reachable_path(a, j as int);
            assert(reachable(a, j as int));
        }
        if node.is_terminal {
            out.set(j, Some([effective_stack - remaining[0], effective_stack - remaining[1]]));
            proof {
                assert(out@ =~= old_out.update(j as int, terminal_contribution(a, e, j as int)));
            }
        } else {
            let offset = node.children_offset as usize;
            let count = node.num_children as usize;
            let player = node.player;
            proof {
                lemma_reachable_path(a, j as int);
                assert(reachable(a, j as int));
            }
            let mut k: usize = 0;
            while k < count
                invariant
                    a == arena@,
                    wf(a),
                    chips_fit(a, e),
                    e == effective_stack,
                    n == a.len(),
                    j < n,
                    reachable(a, j as int),
                    !a[j as int].is_terminal,
                    j + offset + count <= usize::MAX,
                    offset == a[j as int].children_offset,
                    count == a[j as int].num_children,
                    player == a[j as int].player,
                    k <= count,
                    path_to(a, j as int) == Some(path_j),
                    line_state(path_j, [e, e], 0) == Ok::<([i32; 2], i32), ContributionError>(
                        (remaining, prev_amount),
                    ),
                    stack@.len() >= mid_stack.len(),
                    forall|m: int| 0 <= m < mid_stack.len() ==> stack@[m] == mid_stack[m],
                    forall|m: int|
                        mid_stack.len() <= m < stack@.len() ==> is_parent(
                            a,
                            j as int,
                            #[trigger] stack@[m].0 as int,
                        ) && stack@[m].0 < j + offset + k,
                    forall|m1: int, m2: int|
                        mid_stack.len() <= m1 < m2 < stack@.len() ==> #[trigger] stack@[m1].0
                            < #[trigger] stack@[m2].0,
                    forall|m: int| 0 <= m < stack@.len() ==> #[trigger] entry_ok(a, e, stack@[m]),
                    forall|c: int|
                        is_parent(a, j as int, c) && c < j + offset + k ==> #[trigger] in_stack(
                            stack@,
                            c,
                        ),
                decreases count - k,
            {
                let child = j + offset + k;
                if child < n {
                    let action = arena[child].prev_action;
                    proof {
                        assert(is_parent(a, j as int, child as int));
                        assert(a[child as int].prev_action == action);
                        lemma_path_child(a, j as int, child as int);
                        assert(is_parent(a, j as int, child as int) && reachable(a, j as int));
                        lemma_line_state_push(path_j, (player, action), [e, e], 0);
                    }
                    match next_icm_contribution_state(player, action, remaining, prev_amount) {
                        Err(err) => {
                            proof {
                                assert(reachable_fails(a, e, child as int));
                                assert(line_fails_with(a, e, child as int, err));
                            }
                            return Err(err);
                        },
                        Ok((next_remaining, next_prev)) => {
                            let ghost before = stack@;
                            stack.push((child, next_remaining, next_prev));
                            proof {
                                assert(entry_ok(a, e, stack@[stack@.len() - 1]));
                                assert forall|c: int|
                                    is_parent(a, j as int, c) && c < j + offset + k
                                        + 1 implies #[trigger] in_stack(stack@, c) by {
                                    if c == child {
                                        assert(stack@[stack@.len() - 1].0 == c);
                                    } else {
                                        assert(in_stack(before, c));
                                        let m = choose|m: int|
                                            0 <= m < before.len() && before[m].0 == c;
                                        assert(stack@[m] == before[m]);
                                    }
                                }
                            }
                        },
                    }
                } else {
                    proof {
                        assert forall|c: int|
                            is_parent(a, j as int, c) && c < j + offset + k
                                + 1 implies #[trigger] in_stack(stack@, c) by {
                            assert(c < j + offset + k);
                        }
                    }
                }
                k = k + 1;
            }
            proof {
                assert(terminal_contribution(a, e, j as int) is None);
                assert(out@ =~= old_out.update(j as int, terminal_contribution(a, e, j as int)));
            }
        }
        proof {
            assert forall|m: int| 0 <= m < old_stack.len() - 1 implies stack@[m] == old_stack[m] by {
                assert(mid_stack[m] == old_stack[m]);
            }
            lemma_walk_step(a, e, old_out, out@, old_stack, stack@, visited);
            visited = visited.insert(j as int);
        }
    }
    proof {
        assert(stack@ =~= Seq::<(usize, [i32; 2], i32)>::empty());
        lemma_walk_done(a, e, out@, visited);
    }
    Ok(out)
}

} // verus!

verus! {

/// Whether node `i`'s children are placed after it and within `usize`.
pub open spec fn children_ok(arena: Seq<TreeNode>, i: int) -> bool {
    !arena[i].is_terminal ==> arena[i].children_offset >= 1 && i + arena[i].children_offset
        + arena[i].num_children <= usize::MAX
}

/// The pending node `x` is on the walk's stack.
pub open spec fn on_stack(stack: Seq<usize>, x: int) -> bool {
    exists|k: int| 0 <= k < stack.len() && stack[k] == x
}

/// Everything the well-formedness walk keeps between steps: `seen` marks the finished and
/// pending nodes, pending nodes are reachable, unfinished and listed once, every marked node
/// other than the root has a finished parent, finished nodes are reachable and locally well
/// formed with all their children marked, no two finished nodes share a child, and every
/// reachable node is finished or below a pending one.
#[verifier::opaque]
pub open spec fn check_inv(a: Seq<TreeNode>, seen: Seq<bool>, stack: Seq<usize>, visited: Set<int>) -> bool {
    &&& a.len() > 0
    &&& seen.len() == a.len()
    &&& visited.finite()
    &&& visited.subset_of(set_int_range(0, a.len() as int))
    &&& forall|k: int| 0 <= k < stack.len() ==> #[trigger] stack[k] < a.len()
    &&& forall|k: int| 0 <= k < stack.len() ==> reachable(a, #[trigger] stack[k] as int)
    &&& forall|k: int| 0 <= k < stack.len() ==> !visited.contains(#[trigger] stack[k] as int)
    &&& forall|k1: int, k2: int|
        0 <= k1 < stack.len() && 0 <= k2 < stack.len() && k1 != k2 ==> #[trigger] stack[k1]
            != #[trigger] stack[k2]
    &&& forall|y: int|
        0 <= y < a.len() ==> (#[trigger] seen[y] <==> (visited.contains(y) || on_stack(stack, y)))
    &&& forall|y: int|
        0 <= y < a.len() && seen[y] && y != 0 ==> exists|p: int|
            #[trigger] is_parent(a, p, y) && visited.contains(p)
    &&& forall|y: int|
        #[trigger] visited.contains(y) ==> reachable(a, y) && children_ok(a, y)
    &&& forall|p: int, c: int| visited.contains(p) && #[trigger] is_parent(a, p, c) ==> seen[c]
    &&& forall|p1: int, p2: int, c: int|
        visited.contains(p1) && visited.contains(p2) && #[trigger] is_parent(a, p1, c)
            && #[trigger] is_parent(a, p2, c) ==> p1 == p2
    &&& forall|y: int|
        reachable(a, y) ==> visited.contains(y) || exists|k: int|
            0 <= k < stack.len() && #[trigger] ancestor(a, stack[k] as int, y)
}

proof fn lemma_check_init(a: Seq<TreeNode>, seen: Seq<bool>)
    requires
        a.len() > 0,
        seen.len() == a.len(),
        seen[0],
        forall|c: int| 0 < c < a.len() ==> !seen[c],
    ensures
        check_inv(a, seen, seq![0usize], Set::empty()),
{
    reveal(check_inv);
    let stack = seq![0usize];
    assert(reachable(a, 0));
    assert forall|y: int| reachable(a, y) implies Set::<int>::empty().contains(y) || exists|k: int|
        0 <= k < stack.len() && #[trigger] ancestor(a, stack[k] as int, y) by {
        lemma_reachable_path(a, y);
        lemma_root_ancestor(a, y);
        assert(ancestor(a, stack[0] as int, y));
    }
    assert forall|y: int|
        0 <= y < a.len() implies (#[trigger] seen[y] <==> (Set::<int>::empty().contains(y) || on_stack(stack, y))) by {
        if y == 0 {
            assert(stack[0] == y);
        }
    }
}

proof fn lemma_check_top(a: Seq<TreeNode>, seen: Seq<bool>, stack: Seq<usize>, visited: Set<int>)
    requires
        check_inv(a, seen, stack, visited),
        stack.len() > 0,
    ensures
        ({
            let j = stack.last() as int;
            let mid = stack.drop_last();
            &&& 0 <= j < a.len()
            &&& seen.len() == a.len()
            &&& reachable(a, j)
            &&& !visited.contains(j)
            &&& visited.insert(j).len() == visited.len() + 1 <= a.len()
            &&& forall|y: int|
                0 <= y < a.len() ==> (#[trigger] seen[y] <==> (visited.insert(j).contains(y)
                    || on_stack(mid, y)))
            &&& forall|y: int|
                0 <= y < a.len() && seen[y] && y != 0 ==> exists|p: int|
                    #[trigger] is_parent(a, p, y) && visited.contains(p)
            &&& forall|y: int| #[trigger] visited.contains(y) ==> reachable(a, y)
            &&& forall|p: int, c: int| visited.contains(p) && #[trigger] is_parent(a, p, c) ==> seen[c]
            &&& forall|m: int| 0 <= m < mid.len() ==> #[trigger] mid[m] != j
        }),
{
    reveal(check_inv);
    let j = stack.last() as int;
    let mid = stack.drop_last();
    assert(stack[stack.len() - 1] == j);
    lemma_int_range(0, a.len() as int);
    assert(visited.insert(j).subset_of(set_int_range(0, a.len() as int)));
    lemma_len_subset(visited.insert(j), set_int_range(0, a.len() as int));
    assert forall|y: int|
        0 <= y < a.len() implies (#[trigger] seen[y] <==> (visited.insert(j).contains(y) || on_stack(mid, y))) by {
        if on_stack(stack, y) && y != j {
            let k = choose|k: int| 0 <= k < stack.len() && stack[k] == y;
            assert(k != stack.len() - 1);
            assert(mid[k] == y);
        }
        if on_stack(mid, y) {
            let k = choose|k: int| 0 <= k < mid.len() && mid[k] == y;
            assert(stack[k] == y);
        }
        if y == j {
            assert(on_stack(stack, y));
        }
    }
    assert forall|m: int| 0 <= m < mid.len() implies #[trigger] mid[m] != j by {
        assert(stack[m] == mid[m]);
        assert(stack[m] != stack[stack.len() - 1]);
    }
}

#[verifier::rlimit(100)]
#[verifier::spinoff_prover]
proof fn lemma_check_step(
    a: Seq<TreeNode>,
    old_seen: Seq<bool>,
    seen: Seq<bool>,
    old_stack: Seq<usize>,
    stack: Seq<usize>,
    before: Set<int>,
)
    requires
        check_inv(a, old_seen, old_stack, before),
        old_stack.len() > 0,
        children_ok(a, old_stack.last() as int),
        seen.len() == a.len(),
        stack.len() >= old_stack.len() - 1,
        forall|m: int| 0 <= m < old_stack.len() - 1 ==> stack[m] == old_stack[m],
        forall|m: int|
            old_stack.len() - 1 <= m < stack.len() ==> is_parent(a, old_stack.last() as int, #[trigger] stack[m] as int),
        forall|m1: int, m2: int|
            old_stack.len() - 1 <= m1 < m2 < stack.len() ==> #[trigger] stack[m1] < #[trigger] stack[m2],
        forall|m: int| old_stack.len() - 1 <= m < stack.len() ==> !before.contains(#[trigger] stack[m] as int),
        forall|m: int, m2: int|
            old_stack.len() - 1 <= m < stack.len() && 0 <= m2 < old_stack.len() - 1 ==> #[trigger] stack[m]
                != #[trigger] old_stack[m2],
        forall|c: int|
            #[trigger] is_parent(a, old_stack.last() as int, c) ==> seen[c] && exists|m: int|
                old_stack.len() - 1 <= m < stack.len() && stack[m] == c,
        forall|y: int|
            0 <= y < a.len() ==> (#[trigger] seen[y] <==> (before.insert(old_stack.last() as int).contains(y)
                || on_stack(stack, y))),
        forall|y: int|
            0 <= y < a.len() && seen[y] && y != 0 && !is_parent(a, old_stack.last() as int, y) ==> exists|p: int|
                #[trigger] is_parent(a, p, y) && before.contains(p),
        forall|p: int, c: int| before.contains(p) && #[trigger] is_parent(a, p, c) ==> seen[c],
        forall|p: int, c: int|
            before.contains(p) && #[trigger] is_parent(a, p, c) && is_parent(a, old_stack.last() as int, c) ==> false,
    ensures
        check_inv(a, seen, stack, before.insert(old_stack.last() as int)),
{
    reveal(check_inv);
    let j = old_stack.last() as int;
    let mid = old_stack.len() - 1;
    let visited = before.insert(j);
    assert(old_stack[mid] == j);
    assert(reachable(a, j));
    assert(!before.contains(j));
    lemma_int_range(0, a.len() as int);
    assert(visited.subset_of(set_int_range(0, a.len() as int)));
    assert forall|k: int| 0 <= k < stack.len() implies #[trigger] stack[k] < a.len() by {
        if k < mid {
            assert(stack[k] == old_stack[k]);
        } else {
            assert(is_parent(a, j, stack[k] as int));
        }
    }
    assert forall|m: int| 0 <= m < stack.len() implies !visited.contains(#[trigger] stack[m] as int) by {
        if m < mid {
            assert(stack[m] == old_stack[m]);
            assert(old_stack[m] != old_stack[mid]);
        } else {
            assert(is_parent(a, j, stack[m] as int));
        }
    }
    assert forall|m: int| 0 <= m < stack.len() implies reachable(a, #[trigger] stack[m] as int) by {
        if m < mid {
            assert(stack[m] == old_stack[m]);
        } else {
            let cc = stack[m] as int;
            assert(0 <= j < cc && is_parent(a, j, cc) && reachable(a, j));
        }
    }
    assert forall|k1: int, k2: int|
        0 <= k1 < stack.len() && 0 <= k2 < stack.len() && k1 != k2 implies #[trigger] stack[k1]
            != #[trigger] stack[k2] by {
        if k1 < mid && k2 < mid {
            assert(stack[k1] == old_stack[k1] && stack[k2] == old_stack[k2]);
        } else if k1 >= mid && k2 >= mid {
            if k1 < k2 {
                assert(stack[k1] < stack[k2]);
            } else {
                assert(stack[k2] < stack[k1]);
            }
        } else if k1 < mid {
            assert(stack[k2] != old_stack[k1]);
        } else {
            assert(stack[k1] != old_stack[k2]);
        }
    }
    assert forall|y: int|
        0 <= y < a.len() && seen[y] && y != 0 implies exists|p: int|
        #[trigger] is_parent(a, p, y) && visited.contains(p) by {
        if is_parent(a, j, y) {
            assert(visited.contains(j));
        } else {
            let p = choose|p: int| #[trigger] is_parent(a, p, y) && before.contains(p);
            assert(visited.contains(p));
        }
    }
    assert forall|y: int| #[trigger] visited.contains(y) implies reachable(a, y) && children_ok(a, y) by {
        if y != j {
            assert(before.contains(y));
        }
    }
    assert forall|p: int, c: int| visited.contains(p) && #[trigger] is_parent(a, p, c) implies seen[c] by {
        if p == j {
        } else {
            assert(before.contains(p));
        }
    }
    assert forall|p1: int, p2: int, c: int|
        visited.contains(p1) && visited.contains(p2) && #[trigger] is_parent(a, p1, c)
            && #[trigger] is_parent(a, p2, c) implies p1 == p2 by {
        if p1 != p2 {
            if p1 == j {
                assert(before.contains(p2));
            } else if p2 == j {
                assert(before.contains(p1));
            }
        }
    }
    assert forall|y: int|
        reachable(a, y) implies visited.contains(y) || exists|k: int|
        0 <= k < stack.len() && #[trigger] ancestor(a, stack[k] as int, y) by {
        if !before.contains(y) {
            let k = choose|k: int|
                0 <= k < old_stack.len() && #[trigger] ancestor(a, old_stack[k] as int, y);
            if k < mid {
                assert(stack[k] == old_stack[k]);
                assert(ancestor(a, stack[k] as int, y));
            } else if y != j {
                lemma_ancestor_child(a, j, y);
                let cc = choose|cc: int| is_parent(a, j, cc) && ancestor(a, cc, y);
                let m = choose|m: int| mid <= m < stack.len() && stack[m] == cc;
                assert(ancestor(a, stack[m] as int, y));
            }
        }
    }
}

proof fn lemma_check_done(a: Seq<TreeNode>, seen: Seq<bool>, visited: Set<int>)
    requires
        check_inv(a, seen, Seq::empty(), visited),
    ensures
        wf(a),
{
    reveal(check_inv);
    assert forall|i: int| #[trigger] reachable(a, i) && !a[i].is_terminal implies a[i].children_offset
        >= 1 && i + a[i].children_offset + a[i].num_children <= usize::MAX by {
        assert(visited.contains(i));
    }
    assert forall|i1: int, i2: int, jj: int|
        reachable(a, i1) && reachable(a, i2) && #[trigger] is_parent(a, i1, jj)
            && #[trigger] is_parent(a, i2, jj) implies i1 == i2 by {
        assert(visited.contains(i1) && visited.contains(i2));
    }
}

/// The nodes that a parent before index `i` (or the arena's start, for the root) reaches.
pub open spec fn reached_before(a: Seq<TreeNode>, i: int, j: int) -> bool {
    j == 0 || exists|q: int| 0 <= q < i && #[trigger] is_parent(a, q, j) && reachable(a, q)
}

/// A checkable bound under which the chip accounting fits `i32`: the effective stack and every
/// bet, raise or all-in amount of a node the root reaches are within [`AMOUNT_BOUND`].
pub open spec fn amounts_bounded(a: Seq<TreeNode>, effective_stack: i32) -> bool {
    &&& 0 <= effective_stack <= AMOUNT_BOUND
    &&& forall|j: int| #[trigger] reachable(a, j) ==> amount_ok(a[j])
}

proof fn lemma_bounded_state(a: Seq<TreeNode>, e: i32, j: int)
    requires
        wf(a),
        amounts_bounded(a, e),
        reachable(a, j),
    ensures
        path_to(a, j) matches Some(p) ==> (line_state(p, [e, e], 0) matches Ok((r, pa))
            ==> stacks_in_range(r, e) && -AMOUNT_BOUND <= pa <= AMOUNT_BOUND),
    decreases j,
{
    if j > 0 {
        let i = choose|i: int| 0 <= i < j && #[trigger] is_parent(a, i, j) && reachable(a, i);
        lemma_bounded_state(a, e, i);
        lemma_reachable_path(a, i);
        let pi = path_to(a, i)->0;
        lemma_line_state_push(pi, (a[i].player, a[j].prev_action), [e, e], 0);
        match line_state(pi, [e, e], 0) {
            Ok((r, pa)) => {
                lemma_step_bounded(a[i].player, a[j].prev_action, r, pa, e);
            },
            Err(_) => {},
        }
    }
}

/// Within [`AMOUNT_BOUND`], the chip accounting of a well-formed arena fits `i32`.
pub proof fn law_bounded_amounts_fit(a: Seq<TreeNode>, effective_stack: i32)
    requires
        wf(a),
        amounts_bounded(a, effective_stack),
    ensures
        chips_fit(a, effective_stack),
{
    let e = effective_stack;
    assert forall|j: int, c: int| #[trigger]
        is_parent(a, j, c) && reachable(a, j) implies (path_to(a, j) matches Some(p) ==> (line_state(
        p,
        [e, e],
        0,
    ) matches Ok((r, pa)) ==> step_fits(a[j].player, a[c].prev_action, r, pa))) by {
        lemma_bounded_state(a, e, j);
        assert(reachable(a, c));
        match path_to(a, j) {
            Some(p) => match line_state(p, [e, e], 0) {
                Ok((r, pa)) => {
                    lemma_step_bounded(a[j].player, a[c].prev_action, r, pa, e);
                },
                Err(_) => {},
            },
            None => {},
        }
    }
    assert forall|j: int| #[trigger] reachable(a, j) && a[j].is_terminal implies (path_to(a, j) matches Some(p)
        ==> (line_state(p, [e, e], 0) matches Ok((r, pa)) ==> i32::MIN <= e - r[0] <= i32::MAX
        && i32::MIN <= e - r[1] <= i32::MAX)) by {
        lemma_bounded_state(a, e, j);
    }
}

/// Checks [`amounts_bounded`], in one pass over the nodes in order: a node's parents come
/// before it, so whether the root reaches it is known when the pass gets there.
pub fn amounts_within_bound(arena: &Vec<TreeNode>, effective_stack: i32) -> (r: bool)
    ensures
        r == amounts_bounded(arena@, effective_stack),
{
    let ghost a = arena@;
    if effective_stack < 0 || effective_stack > AMOUNT_BOUND {
        return false;
    }
    let n = arena.len();
    if n == 0 {
        return true;
    }
    let mut reach: Vec<bool> = Vec::new();
    let mut x: usize = 0;
    while x < n
        invariant
            x <= n,
            reach@.len() == x,
            forall|j: int| 0 <= j < x ==> reach@[j] == (j == 0),
        decreases n - x,
    {
        reach.push(x == 0);
        x = x + 1;
    }
    let mut i: usize = 0;
    while i < n
        invariant
            a == arena@,
            n == a.len(),
            i <= n,
            reach@.len() == n,
            forall|j: int| 0 <= j < i ==> (#[trigger] reach@[j]) == reachable(a, j),
            forall|j: int| i <= j < n ==> (#[trigger] reach@[j]) == reached_before(a, i as int, j),
            forall|j: int| 0 <= j < i && #[trigger] reachable(a, j) ==> amount_ok(a[j]),
        decreases n - i,
    {
        proof {
            assert(reach@[i as int] == reachable(a, i as int));
        }
        if reach[i] {
            let node = arena[i];
            let amount_fits = match node.prev_action {
                Action::Bet(amount) | Action::Raise(amount) | Action::AllIn(amount) => {
                    -AMOUNT_BOUND <= amount && amount <= AMOUNT_BOUND
                },
                _ => true,
            };
            if !amount_fits {
                proof {
                    assert(reachable(a, i as int) && !amount_ok(a[i as int]));
                }
                return false;
            }
            let offset = node.children_offset as usize;
            let count = node.num_children as usize;
            if !node.is_terminal && offset <= n - i {
                let start = i + offset;
                let ghost before = reach@;
                let mut k: usize = 0;
                while k < count && k < n - start
                    invariant
                        a == arena@,
                        n == a.len(),
                        i < n,
                        start == i + a[i as int].children_offset,
                        start <= n,
                        count == a[i as int].num_children,
                        k <= count,
                        k <= n - start,
                        reach@.len() == n,
                        forall|j: int|
                            0 <= j < n ==> (#[trigger] reach@[j]) == (before[j] || (i < j && start <= j
                                < start + k)),
                    decreases count - k,
                {
                    if start + k > i {
                        reach.set(start + k, true);
                    }
                    k = k + 1;
                }
            }
            proof {
                assert forall|j: int| (i + 1) as int <= j < n implies (#[trigger] reach@[j])
                    == reached_before(a, (i + 1) as int, j) by {
                    if reached_before(a, (i + 1) as int, j) && !reached_before(a, i as int, j) {
                        let q = choose|q: int|
                            0 <= q < i + 1 && #[trigger] is_parent(a, q, j) && reachable(a, q);
                        assert(q == i);
                    }
                    if !a[i as int].is_terminal && i + a[i as int].children_offset <= j < i
                        + a[i as int].children_offset + a[i as int].num_children && i < j {
                        assert(is_parent(a, i as int, j));
                    }
                }
            }
        } else {
            proof {
                assert forall|j: int| (i + 1) as int <= j < n implies (#[trigger] reach@[j])
                    == reached_before(a, (i + 1) as int, j) by {
                    if reached_before(a, (i + 1) as int, j) && !reached_before(a, i as int, j) {
                        let q = choose|q: int|
                            0 <= q < i + 1 && #[trigger] is_parent(a, q, j) && reachable(a, q);
                        assert(q == i);
                    }
                }
            }
        }
        i = i + 1;
    }
    proof {
        assert forall|j: int| #[trigger] reachable(a, j) implies amount_ok(a[j]) by {
            if j > 0 {
                let q = choose|q: int| 0 <= q < j && #[trigger] is_parent(a, q, j) && reachable(a, q);
            }
        }
    }
    true
}

/// Checks whether an arena is well formed ([`wf`]), walking the nodes the root reaches.
pub fn is_well_formed(arena: &Vec<TreeNode>) -> (r: bool)
    ensures
        r == wf(arena@),
{
    let n = arena.len();
    let ghost a = arena@;
    if n == 0 {
        return false;
    }
    let mut seen: Vec<bool> = Vec::new();
    let mut x: usize = 0;
    while x < n
        invariant
            x <= n,
            seen@.len() == x,
            forall|c: int| 0 <= c < x ==> !seen@[c],
        decreases n - x,
    {
        seen.push(false);
        x = x + 1;
    }
    seen.set(0, true);
    let mut stack: Vec<usize> = Vec::new();
    stack.push(0);
    let ghost mut visited: Set<int> = Set::empty();
    proof {
        assert(stack@ =~= seq![0usize]);
        lemma_check_init(a, seen@);
    }
    while stack.len() > 0
        invariant
            a == arena@,
            n == a.len(),
            check_inv(a, seen@, stack@, visited),
        decreases n - visited.len(),
    {
        let ghost old_stack = stack@;
        let ghost old_seen = seen@;
        proof {
            lemma_check_top(a, seen@, stack@, visited);
        }
        let j = stack.pop().unwrap();
        let ghost before = visited;
        let ghost mid_stack = stack@;
        proof {
            assert(stack@ =~= old_stack.drop_last());
            assert(old_stack.last() == j);
        }
        let node = arena[j];
        if !node.is_terminal {
            let offset = node.children_offset as usize;
            let count = node.num_children as usize;
            if offset < 1 || usize::MAX - j < offset || usize::MAX - j - offset < count {
                proof {
                    assert(!children_ok(a, j as int));
                }
                return false;
            }
            proof {
                visited = visited.insert(j as int);
            }
            let mut k: usize = 0;
            while k < count
                invariant
                    a == arena@,
                    n == a.len(),
                    j < n,
                    reachable(a, j as int),
                    !a[j as int].is_terminal,
                    offset == a[j as int].children_offset,
                    count == a[j as int].num_children,
                    offset >= 1,
                    j + offset + count <= usize::MAX,
                    k <= count,
                    seen@.len() == n,
                    visited == before.insert(j as int),
                    !before.contains(j as int),
                    stack@.len() >= mid_stack.len(),
                    forall|m: int| 0 <= m < mid_stack.len() ==> stack@[m] == mid_stack[m],
                    forall|m: int|
                        mid_stack.len() <= m < stack@.len() ==> is_parent(a, j as int, #[trigger] stack@[m] as int)
                            && stack@[m] < j + offset + k,
                    forall|m1: int, m2: int|
                        mid_stack.len() <= m1 < m2 < stack@.len() ==> #[trigger] stack@[m1]
                            < #[trigger] stack@[m2],
                    forall|c: int|
                        is_parent(a, j as int, c) && c < j + offset + k ==> #[trigger] seen@[c]
                            && exists|m: int| mid_stack.len() <= m < stack@.len() && stack@[m] == c,
                    forall|y: int|
                        0 <= y < n ==> (#[trigger] seen@[y] <==> (visited.contains(y) || on_stack(stack@, y))),
                    forall|m: int| mid_stack.len() <= m < stack@.len() ==> !before.contains(#[trigger] stack@[m] as int),
                    forall|m: int, m2: int| mid_stack.len() <= m < stack@.len() && 0 <= m2 < mid_stack.len() ==> #[trigger] stack@[m] != #[trigger] mid_stack[m2],
                    forall|p: int, c: int|
                        before.contains(p) && #[trigger] is_parent(a, p, c) && is_parent(a, j as int, c) && c < j + offset + k ==> false,
                    forall|y: int|
                        0 <= y < n && seen@[y] && y != 0 && !(is_parent(a, j as int, y) && y < j + offset + k)
                            ==> exists|p: int| #[trigger] is_parent(a, p, y) && before.contains(p),
                    forall|y: int| #[trigger] before.contains(y) ==> reachable(a, y),
                    forall|p: int, c: int| before.contains(p) && #[trigger] is_parent(a, p, c) ==> seen@[c],
                decreases count - k,
            {
                let ghost body_seen = seen@;
                let ghost body_stack = stack@;
                let c = j + offset + k;
                if c < n {
                    if seen[c] {
                        proof {
                            assert(is_parent(a, j as int, c as int));
                            assert(c != 0);
                            let p = choose|p: int| #[trigger] is_parent(a, p, c as int) && before.contains(p);
                            assert(reachable(a, p));
                            assert(p != j);
                            assert(!wf(a));
                        }
                        return false;
                    }
                    let ghost prev_stack = stack@;
                    let ghost prev_seen = seen@;
                    proof {
                        assert(is_parent(a, j as int, c as int));
                        assert(!before.contains(c as int));
                        assert forall|m2: int| 0 <= m2 < prev_stack.len() implies prev_stack[m2] != c by {
                            assert(!on_stack(prev_stack, c as int));
                        }
                        assert forall|p: int| before.contains(p) && #[trigger] is_parent(a, p, c as int) implies false by {}
                    }
                    seen.set(c, true);
                    stack.push(c);
                    proof {
                        assert(stack@ == prev_stack.push(c));
                        assert forall|cc: int|
                            is_parent(a, j as int, cc) && cc < j + offset + k + 1 implies #[trigger] seen@[cc]
                                && exists|m: int| mid_stack.len() <= m < stack@.len() && stack@[m] == cc by {
                            if cc == c {
                                assert(stack@[stack@.len() - 1] == cc);
                            } else {
                                assert(prev_seen[cc]);
                                let m = choose|m: int| mid_stack.len() <= m < prev_stack.len() && prev_stack[m] == cc;
                                assert(stack@[m] == cc);
                            }
                        }
                        assert forall|y: int|
                            0 <= y < n implies (#[trigger] seen@[y] <==> (visited.contains(y) || on_stack(stack@, y))) by {
                            if y != c {
                                assert(prev_seen[y] == seen@[y]);
                                if on_stack(stack@, y) {
                                    let m = choose|m: int| 0 <= m < stack@.len() && stack@[m] == y;
                                    assert(prev_stack[m] == y);
                                }
                                if on_stack(prev_stack, y) {
                                    let m = choose|m: int| 0 <= m < prev_stack.len() && prev_stack[m] == y;
                                    assert(stack@[m] == y);
                                }
                            } else {
                                assert(stack@[stack@.len() - 1] == y);
                            }
                        }
                    }
                } else {
                    proof {
                        assert(stack@ == body_stack);
                    }
                }
                proof {
                    assert forall|cc: int|
                        is_parent(a, j as int, cc) && cc < j + offset + k + 1 implies #[trigger] seen@[cc]
                            && exists|m: int| mid_stack.len() <= m < stack@.len() && stack@[m] == cc by {
                        if cc < j + offset + k {
                            assert(body_seen[cc]);
                            let m = choose|m: int| mid_stack.len() <= m < body_stack.len() && body_stack[m] == cc;
                            assert(stack@[m] == cc);
                        } else {
                            assert(cc == c);
                            assert(stack@[stack@.len() - 1] == cc);
                        }
                    }
                }
                k = k + 1;
            }
            proof {
                assert forall|y: int|
                    0 <= y < n && seen@[y] && y != 0 && !is_parent(a, j as int, y) implies exists|p: int|
                    #[trigger] is_parent(a, p, y) && before.contains(p) by {}
                assert forall|c: int| #[trigger] is_parent(a, j as int, c) implies seen@[c] && exists|m: int|
                    mid_stack.len() <= m < stack@.len() && stack@[m] == c by {
                    assert(c < j + offset + count);
                    assert(seen@[c]);
                }
                assert forall|p: int, c: int|
                    before.contains(p) && #[trigger] is_parent(a, p, c) && is_parent(a, j as int, c) implies false by {}
            }
        } else {
            proof {
                visited = visited.insert(j as int);
                assert forall|y: int|
                    0 <= y < n implies (#[trigger] seen@[y] <==> (visited.contains(y) || on_stack(stack@, y))) by {}
            }
        }
        proof {
            assert forall|m: int| 0 <= m < old_stack.len() - 1 implies stack@[m] == old_stack[m] by {
                assert(mid_stack[m] == old_stack[m]);
            }
            assert forall|m: int, m2: int|
                old_stack.len() - 1 <= m < stack@.len() && 0 <= m2 < old_stack.len() - 1 implies #[trigger] stack@[m]
                    != #[trigger] old_stack[m2] by {
                assert(mid_stack[m2] == old_stack[m2]);
                assert(stack@[m] != mid_stack[m2]);
            }
            lemma_check_step(a, old_seen, seen@, old_stack, stack@, before);
        }
    }
    proof {
        assert(stack@ =~= Seq::<usize>::empty());
        lemma_check_done(a, seen@, visited);
    }
    true
}

} // verus!
