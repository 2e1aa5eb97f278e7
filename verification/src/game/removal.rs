//! Removing a line from a built game tree.
//!
//! The last action of the line is taken out of the node it starts from: its child moves behind
//! the remaining children, which keep their order, and the storage of the subtree it led to is
//! released. Nodes of the removed subtree stay in the arena, behind the remaining children.
use vstd::prelude::*;

use crate::action_tree::Action;
use crate::game::base::StorageCounts;
use crate::game::tree::{is_parent, reachable, reached_before, TreeNode};

verus! {

/// Why a line cannot be removed.
#[derive(Clone, Copy, Debug, PartialEq, Eq, Structural)]
pub enum RemoveLineError {
    /// The line has no action.
    EmptyLine,
    /// The line goes on past a terminal node.
    UnexpectedTerminal,
    /// No child of a node on the line is reached by the carried action.
    ActionNotFound(Action),
    /// The line ends in a chance action.
    ChanceLine,
    /// The line's last action is the only action of its node.
    LastAction,
}

impl RemoveLineError {
    /// The error message; `ActionNotFound` carries the missing action.
    pub fn message(self) -> (r: &'static str)
        ensures
            r@ == (match self {
                RemoveLineError::EmptyLine => "Empty line"@,
                RemoveLineError::UnexpectedTerminal => "Unexpected terminal node"@,
                RemoveLineError::ActionNotFound(_) => "Action does not exist"@,
                RemoveLineError::ChanceLine => "Cannot remove a line ending in a chance action"@,
                RemoveLineError::LastAction => "Cannot remove the last action from a node"@,
            }),
    {
        match self {
            RemoveLineError::EmptyLine => "Empty line",
            RemoveLineError::UnexpectedTerminal => "Unexpected terminal node",
            RemoveLineError::ActionNotFound(_) => "Action does not exist",
            RemoveLineError::ChanceLine => "Cannot remove a line ending in a chance action",
            RemoveLineError::LastAction => "Cannot remove the last action from a node",
        }
    }
}

/// The storage elements of kind `kind` that a node holds: 0 for the action-node values, 1 for
/// the IP values, 2 for the chance values. Terminal nodes hold none.
pub open spec fn elements(n: TreeNode, kind: int) -> int {
    if n.is_terminal {
        0
    } else if kind == 0 {
        if n.is_chance { 0 } else { n.num_elements as int }
    } else if kind == 1 {
        if n.is_chance { 0 } else { n.num_elements_ip as int }
    } else {
        if n.is_chance { n.num_elements as int } else { 0 }
    }
}

/// The storage elements of kind `kind` held by all nodes of the arena.
pub open spec fn total(a: Seq<TreeNode>, kind: int) -> int
    decreases a.len(),
{
    if a.len() == 0 {
        0
    } else {
        total(a.drop_last(), kind) + elements(a.last(), kind)
    }
}

/// A node whose storage is released.
pub open spec fn cleared(n: TreeNode) -> TreeNode {
    if n.is_terminal {
        n
    } else if n.is_chance {
        TreeNode { num_elements: 0, ..n }
    } else {
        TreeNode { num_elements: 0, num_elements_ip: 0, ..n }
    }
}

/// A node moved one slot towards the front of its siblings: its distance to its children grows
/// by one.
pub open spec fn shifted(n: TreeNode) -> TreeNode {
    if n.children_offset > 0 {
        TreeNode { children_offset: (n.children_offset + 1) as u32, ..n }
    } else {
        n
    }
}

/// Node `i` lies in the subtree of node `x` (or is `x`).
pub open spec fn descends(a: Seq<TreeNode>, x: int, i: int) -> bool
    decreases i - x,
{
    if i <= x {
        i == x
    } else {
        exists|c: int| x < c <= i && #[trigger] is_parent(a, x, c) && descends(a, c, i)
    }
}

/// The arena with the storage of the subtree of node `x` released.
pub open spec fn cleared_below(a: Seq<TreeNode>, x: int) -> Seq<TreeNode> {
    Seq::new(a.len(), |i: int| if descends(a, x, i) { cleared(a[i]) } else { a[i] })
}

/// Every node that the root reaches keeps its children within the arena, after itself.
pub open spec fn complete(a: Seq<TreeNode>) -> bool {
    &&& a.len() > 0
    &&& forall|i: int| #[trigger]
        reachable(a, i) ==> i + a[i].children_offset + a[i].num_children <= a.len() && (
        !a[i].is_terminal ==> a[i].children_offset >= 1)
}

/// Every node of the subtree of `x` keeps its children within the arena, after itself.
pub open spec fn subtree_complete(a: Seq<TreeNode>, x: int) -> bool {
    forall|i: int| #[trigger]
        descends(a, x, i) && !a[i].is_terminal ==> a[i].children_offset >= 1 && i
            + a[i].children_offset + a[i].num_children <= a.len()
}

/// Two arenas of one length whose nodes agree on what the tree's shape is made of.
pub open spec fn same_shape(a: Seq<TreeNode>, b: Seq<TreeNode>) -> bool {
    &&& a.len() == b.len()
    &&& forall|i: int|
        0 <= i < a.len() ==> (#[trigger] a[i]).is_terminal == b[i].is_terminal
            && a[i].children_offset == b[i].children_offset && a[i].num_children
            == b[i].num_children
}

/// The first slot, from slot `k` on, among the `n` children starting at `base` whose action is
/// `action`.
pub open spec fn first_slot(a: Seq<TreeNode>, base: int, action: Action, k: int, n: int) -> Option<
    int,
>
    decreases n - k,
{
    if k >= n {
        None
    } else if a[base + k].prev_action == action {
        Some(k)
    } else {
        first_slot(a, base, action, k + 1, n)
    }
}

/// Where `line`, followed from node `x`, ends: the node whose action it removes and the slot of
/// that action among the node's children, or why it cannot be removed.
pub open spec fn line_target(a: Seq<TreeNode>, x: int, line: Seq<Action>) -> Result<
    (int, int),
    RemoveLineError,
>
    decreases line.len(),
{
    if line.len() == 0 {
        Err(RemoveLineError::EmptyLine)
    } else if a[x].is_terminal {
        Err(RemoveLineError::UnexpectedTerminal)
    } else {
        let base = x + a[x].children_offset;
        match first_slot(a, base, line[0], 0, a[x].num_children as int) {
            None => Err(RemoveLineError::ActionNotFound(line[0])),
            Some(k) => if line.len() > 1 {
                line_target(a, base + k, line.drop_first())
            } else if a[x].is_chance {
                Err(RemoveLineError::ChanceLine)
            } else if a[x].num_children <= 1 {
                Err(RemoveLineError::LastAction)
            } else {
                Ok((x, k))
            },
        }
    }
}

/// The arena after the action in slot `s` of node `p` is removed: the subtree of that action's
/// child is released, the child moves to the last slot, the later siblings move one slot to the
/// front, and node `p` has one child less and `hands` elements less.
pub open spec fn without_child(a: Seq<TreeNode>, p: int, s: int, hands: u32) -> Seq<TreeNode> {
    let base = p + a[p].children_offset;
    let c = base + s;
    let last = base + a[p].num_children - 1;
    let mid = cleared_below(a, c);
    Seq::new(
        a.len(),
        |i: int|
            if i == p {
                TreeNode {
                    num_children: (a[p].num_children - 1) as u16,
                    num_elements: (a[p].num_elements - hands) as u32,
                    ..a[p]
                }
            } else if c <= i < last {
                shifted(mid[i + 1])
            } else if i == last {
                mid[c]
            } else {
                mid[i]
            },
    )
}

proof fn lemma_total_update(a: Seq<TreeNode>, i: int, v: TreeNode, kind: int)
    requires
        0 <= i < a.len(),
    ensures
        total(a.update(i, v), kind) == total(a, kind) - elements(a[i], kind) + elements(v, kind),
    decreases a.len(),
{
    let b = a.update(i, v);
    if i == a.len() - 1 {
        assert(b.drop_last() =~= a.drop_last());
    } else {
        assert(b.drop_last() =~= a.drop_last().update(i, v));
        lemma_total_update(a.drop_last(), i, v, kind);
    }
}

proof fn lemma_total_bound(a: Seq<TreeNode>, kind: int)
    ensures
        0 <= total(a, kind) <= a.len() * 0xffff_ffff,
    decreases a.len(),
{
    if a.len() > 0 {
        lemma_total_bound(a.drop_last(), kind);
    }
}

proof fn lemma_descends_le(a: Seq<TreeNode>, x: int, i: int)
    requires
        descends(a, x, i),
    ensures
        x <= i,
{
}

proof fn lemma_descends_in(a: Seq<TreeNode>, x: int, i: int)
    requires
        0 <= x < a.len(),
        descends(a, x, i),
    ensures
        x <= i < a.len(),
    decreases i - x,
{
    if i > x {
        let c = choose|c: int| x < c <= i && #[trigger] is_parent(a, x, c) && descends(a, c, i);
        lemma_descends_in(a, c, i);
    }
}

proof fn lemma_descends_child(a: Seq<TreeNode>, x: int, c: int, i: int)
    requires
        x < c,
        is_parent(a, x, c),
        descends(a, c, i),
    ensures
        descends(a, x, i),
{
    lemma_descends_le(a, c, i);
}

proof fn lemma_descends_shape(a: Seq<TreeNode>, b: Seq<TreeNode>, x: int, i: int)
    requires
        same_shape(a, b),
    ensures
        descends(a, x, i) == descends(b, x, i),
    decreases i - x,
{
    if i > x {
        if descends(a, x, i) {
            let c = choose|c: int| x < c <= i && #[trigger] is_parent(a, x, c) && descends(a, c, i);
            lemma_descends_shape(a, b, c, i);
            assert(is_parent(b, x, c));
        }
        if descends(b, x, i) {
            let c = choose|c: int| x < c <= i && #[trigger] is_parent(b, x, c) && descends(b, c, i);
            lemma_descends_shape(a, b, c, i);
            assert(is_parent(a, x, c));
        }
    }
}

proof fn lemma_reachable_descends(a: Seq<TreeNode>, x: int, i: int)
    requires
        reachable(a, x),
        descends(a, x, i),
    ensures
        reachable(a, i),
    decreases i - x,
{
    if i > x {
        let c = choose|c: int| x < c <= i && #[trigger] is_parent(a, x, c) && descends(a, c, i);
        assert(0 <= x);
        assert(reachable(a, c));
        lemma_reachable_descends(a, c, i);
    }
}

proof fn lemma_cleared_shape(a: Seq<TreeNode>, x: int)
    ensures
        same_shape(a, cleared_below(a, x)),
{
}

/// The subtree of a node is the node and the subtrees of its children.
proof fn lemma_descends_split(a: Seq<TreeNode>, x: int, i: int)
    requires
        0 <= x < a.len(),
        !a[x].is_terminal,
        a[x].children_offset >= 1,
        x + a[x].children_offset + a[x].num_children <= a.len(),
    ensures
        descends(a, x, i) <==> (i == x || exists|d: int|
            x + a[x].children_offset <= d < x + a[x].children_offset + a[x].num_children
                && #[trigger] descends(a, d, i)),
{
    let base = x + a[x].children_offset;
    if descends(a, x, i) && i != x {
        let c = choose|c: int| x < c <= i && #[trigger] is_parent(a, x, c) && descends(a, c, i);
        assert(descends(a, c, i));
    }
    if exists|d: int| base <= d < base + a[x].num_children && #[trigger] descends(a, d, i) {
        let d = choose|d: int| base <= d < base + a[x].num_children && #[trigger] descends(a, d, i);
        assert(is_parent(a, x, d));
        lemma_descends_child(a, x, d, i);
    }
}

fn clear_node(n: TreeNode) -> (r: TreeNode)
    ensures
        r == cleared(n),
{
    if n.is_terminal {
        n
    } else if n.is_chance {
        TreeNode { num_elements: 0, ..n }
    } else {
        TreeNode { num_elements: 0, num_elements_ip: 0, ..n }
    }
}

/// Releases the storage of the subtree of node `x` and adds it to `counts`.
fn clear_subtree(arena: &mut Vec<TreeNode>, x: usize, counts: &mut StorageCounts)
    requires
        x < old(arena).len(),
        subtree_complete(old(arena)@, x as int),
        old(counts).num_storage + total(old(arena)@, 0) <= u64::MAX,
        old(counts).num_storage_ip + total(old(arena)@, 1) <= u64::MAX,
        old(counts).num_storage_chance + total(old(arena)@, 2) <= u64::MAX,
    ensures
        final(arena)@ == cleared_below(old(arena)@, x as int),
        final(counts).num_storage + total(final(arena)@, 0) == old(counts).num_storage + total(
            old(arena)@,
            0,
        ),
        final(counts).num_storage_ip + total(final(arena)@, 1) == old(counts).num_storage_ip
            + total(old(arena)@, 1),
        final(counts).num_storage_chance + total(final(arena)@, 2) == old(counts).num_storage_chance
            + total(old(arena)@, 2),
    decreases old(arena).len() - x,
{
    let ghost a0 = arena@;
    let ghost c0 = *counts;
    let node = arena[x];
    if node.is_terminal {
        proof {
            assert forall|i: int| descends(a0, x as int, i) implies i == x by {
                if i > x {
                    let c = choose|c: int|
                        x < c <= i && #[trigger] is_parent(a0, x as int, c) && descends(a0, c, i);
                }
            }
            assert(cleared_below(a0, x as int) =~= a0);
        }
        return ;
    }
    proof {
        assert(descends(a0, x as int, x as int));
        lemma_total_update(a0, x as int, cleared(node), 0);
        lemma_total_update(a0, x as int, cleared(node), 1);
        lemma_total_update(a0, x as int, cleared(node), 2);
        lemma_total_bound(a0.update(x as int, cleared(node)), 0);
        lemma_total_bound(a0.update(x as int, cleared(node)), 1);
        lemma_total_bound(a0.update(x as int, cleared(node)), 2);
    }
    if node.is_chance {
        counts.num_storage_chance = counts.num_storage_chance + node.num_elements as u64;
    } else {
        counts.num_storage = counts.num_storage + node.num_elements as u64;
        counts.num_storage_ip = counts.num_storage_ip + node.num_elements_ip as u64;
    }
    arena.set(x, clear_node(node));
    let base = x + node.children_offset as usize;
    let n = node.num_children as usize;
    let mut k: usize = 0;
    proof {
        assert(arena@ =~= Seq::new(
            a0.len(),
            |i: int|
                if i == x || exists|d: int| base <= d < base + k && #[trigger] descends(a0, d, i) {
                    cleared(a0[i])
                } else {
                    a0[i]
                },
        ));
    }
    while k < n
        invariant
            a0.len() == arena@.len(),
            a0.len() == arena.len(),
            a0.len() == old(arena)@.len(),
            x < base,
            base == x + a0[x as int].children_offset,
            n == a0[x as int].num_children,
            base + n <= a0.len(),
            !a0[x as int].is_terminal,
            subtree_complete(a0, x as int),
            k <= n,
            same_shape(a0, arena@),
            arena@ == Seq::new(
                a0.len(),
                |i: int|
                    if i == x || exists|d: int| base <= d < base + k && #[trigger] descends(a0, d, i) {
                        cleared(a0[i])
                    } else {
                        a0[i]
                    },
            ),
            counts.num_storage + total(arena@, 0) == c0.num_storage + total(a0, 0),
            counts.num_storage_ip + total(arena@, 1) == c0.num_storage_ip + total(a0, 1),
            counts.num_storage_chance + total(arena@, 2) == c0.num_storage_chance + total(a0, 2),
            c0.num_storage + total(a0, 0) <= u64::MAX,
            c0.num_storage_ip + total(a0, 1) <= u64::MAX,
            c0.num_storage_chance + total(a0, 2) <= u64::MAX,
        decreases n - k,
    {
        let c = base + k;
        let ghost prev = arena@;
        proof {
            assert(is_parent(a0, x as int, c as int));
            assert forall|i: int| #[trigger]
                descends(prev, c as int, i) && !prev[i].is_terminal implies prev[i].children_offset
                >= 1 && i + prev[i].children_offset + prev[i].num_children <= prev.len() by {
                lemma_descends_shape(a0, prev, c as int, i);
                lemma_descends_child(a0, x as int, c as int, i);
                lemma_descends_in(a0, c as int, i);
                assert(descends(a0, x as int, i));
            }
        }
        clear_subtree(arena, c, counts);
        proof {
            assert forall|i: int| 0 <= i < a0.len() implies #[trigger] arena@[i] == (if i == x
                || exists|d: int| base <= d < base + k + 1 && #[trigger] descends(a0, d, i) {
                cleared(a0[i])
            } else {
                a0[i]
            }) by {
                lemma_descends_shape(a0, prev, c as int, i);
                if descends(a0, c as int, i) {
                    assert(base <= c < base + k + 1);
                }
                if exists|d: int| base <= d < base + k + 1 && #[trigger] descends(a0, d, i) {
                    let d = choose|d: int| base <= d < base + k + 1 && #[trigger] descends(a0, d, i);
                    if d < base + k {
                        assert(exists|d: int| base <= d < base + k && #[trigger] descends(a0, d, i));
                    }
                }
            }
            assert(arena@ =~= Seq::new(
                a0.len(),
                |i: int|
                    if i == x || exists|d: int| base <= d < base + k + 1 && #[trigger] descends(a0, d, i) {
                        cleared(a0[i])
                    } else {
                        a0[i]
                    },
            ));
            lemma_cleared_shape(prev, c as int);
        }
        k = k + 1;
    }
    proof {
        assert forall|i: int| 0 <= i < a0.len() implies #[trigger] arena@[i] == cleared_below(
            a0,
            x as int,
        )[i] by {
            lemma_descends_split(a0, x as int, i);
        }
        assert(arena@ =~= cleared_below(a0, x as int));
    }
}

/// The first slot among the children of node `x` whose action is `action`.
fn find_slot(arena: &Vec<TreeNode>, x: usize, action: Action) -> (r: Option<usize>)
    requires
        x < arena.len(),
        x + arena[x as int].children_offset + arena[x as int].num_children <= arena.len(),
    ensures
        match r {
            Some(k) => first_slot(
                arena@,
                x + arena[x as int].children_offset,
                action,
                0,
                arena[x as int].num_children as int,
            ) == Some(k as int),
            None => first_slot(
                arena@,
                x + arena[x as int].children_offset,
                action,
                0,
                arena[x as int].num_children as int,
            ) is None,
        },
        r matches Some(k) ==> k < arena[x as int].num_children,
{
    let base = x + arena[x].children_offset as usize;
    let n = arena[x].num_children as usize;
    let mut k: usize = 0;
    while k < n
        invariant
            base == x + arena[x as int].children_offset,
            n == arena[x as int].num_children,
            base + n <= arena.len(),
            k <= n,
            first_slot(arena@, base as int, action, 0, n as int) == first_slot(
                arena@,
                base as int,
                action,
                k as int,
                n as int,
            ),
        decreases n - k,
    {
        if arena[base + k].prev_action == action {
            return Some(k);
        }
        k = k + 1;
    }
    None
}

/// Follows `line` from the root to the node whose action it removes, and the slot of that
/// action among the node's children.
pub fn find_line_target(arena: &Vec<TreeNode>, line: &Vec<Action>) -> (r: Result<
    (usize, usize),
    RemoveLineError,
>)
    requires
        complete(arena@),
    ensures
        match r {
            Ok((p, s)) => line_target(arena@, 0, line@) == Ok::<(int, int), RemoveLineError>(
                (p as int, s as int),
            ) && reachable(arena@, p as int) && p < arena.len() && !arena[p as int].is_terminal
                && !arena[p as int].is_chance && s < arena[p as int].num_children
                && arena[p as int].num_children >= 2,
            Err(e) => line_target(arena@, 0, line@) == Err::<(int, int), RemoveLineError>(e),
        },
{
    if line.len() == 0 {
        return Err(RemoveLineError::EmptyLine);
    }
    let mut x: usize = 0;
    let mut pos: usize = 0;
    proof {
        assert(line@.skip(0) =~= line@);
    }
    loop
        invariant
            complete(arena@),
            reachable(arena@, x as int),
            pos < line.len(),
            line_target(arena@, 0, line@) == line_target(arena@, x as int, line@.skip(pos as int)),
        decreases line.len() - pos,
    {
        let node = arena[x];
        proof {
            assert(reachable(arena@, x as int));
        }
        if node.is_terminal {
            return Err(RemoveLineError::UnexpectedTerminal);
        }
        let action = line[pos];
        match find_slot(arena, x, action) {
            None => {
                return Err(RemoveLineError::ActionNotFound(action));
            },
            Some(k) => {
                if pos + 1 < line.len() {
                    let c = x + node.children_offset as usize + k;
                    proof {
                        assert(line@.skip(pos as int).drop_first() =~= line@.skip(pos + 1));
                        assert(is_parent(arena@, x as int, c as int));
                        assert(reachable(arena@, c as int));
                    }
                    x = c;
                    pos = pos + 1;
                } else if node.is_chance {
                    return Err(RemoveLineError::ChanceLine);
                } else if node.num_children <= 1 {
                    return Err(RemoveLineError::LastAction);
                } else {
                    return Ok((x, k));
                }
            },
        }
    }
}

fn shift_node(n: TreeNode) -> (r: TreeNode)
    requires
        n.children_offset < u32::MAX,
    ensures
        r == shifted(n),
{
    if n.children_offset > 0 {
        TreeNode { children_offset: n.children_offset + 1, ..n }
    } else {
        n
    }
}

/// Removes `line` from the game tree in `arena`, as it is followed from the root, and returns
/// the storage that the removal releases.
///
/// The line's last action is removed from the node it starts from: that node keeps its other
/// actions in their order and has `num_private_hands[player]` elements less; the subtree of the
/// removed action is released and its child moves behind the remaining children. The released
/// storage counts the node's `num_private_hands[player]` strategy elements and every element of
/// the subtree. On an error the arena is unchanged.
pub fn remove_line(arena: &mut Vec<TreeNode>, line: &Vec<Action>, num_private_hands: [u32; 2]) -> (r:
    Result<StorageCounts, RemoveLineError>)
    requires
        complete(old(arena)@),
        old(arena).len() < 0x1_0000_0000,
        line_target(old(arena)@, 0, line@) matches Ok((p, _)) ==> old(arena)[p].player < 2
            && old(arena)[p].num_elements >= num_private_hands[old(arena)[p].player as int],
    ensures
        match line_target(old(arena)@, 0, line@) {
            Err(e) => r == Err::<StorageCounts, RemoveLineError>(e) && final(arena)@ == old(arena)@,
            Ok((p, s)) => {
                let a = old(arena)@;
                let hands = num_private_hands[a[p].player as int];
                let c = p + a[p].children_offset + s;
                &&& final(arena)@ == without_child(a, p, s, hands)
                &&& r matches Ok(counts) && counts.num_storage == hands + total(a, 0) - total(
                    cleared_below(a, c),
                    0,
                ) && counts.num_storage_ip == total(a, 1) - total(cleared_below(a, c), 1)
                    && counts.num_storage_chance == total(a, 2) - total(cleared_below(a, c), 2)
                &&& r matches Ok(counts) && counts.num_storage + total(final(arena)@, 0) == total(a, 0)
                    && counts.num_storage_ip + total(final(arena)@, 1) == total(a, 1)
                    && counts.num_storage_chance + total(final(arena)@, 2) == total(a, 2)
                &&& r matches Ok(counts) && (
                    counts.num_storage as int,
                    counts.num_storage_ip as int,
                    counts.num_storage_chance as int,
                ) == released(a, p, s, hands)
            },
        },
{
    let (p, s) = match find_line_target(arena, line) {
        Ok(t) => t,
        Err(e) => {
            return Err(e);
        },
    };
    let ghost a = arena@;
    let node = arena[p];
    let hands = num_private_hands[node.player];
    let base = p + node.children_offset as usize;
    let n = node.num_children as usize;
    let c = base + s;
    let ghost mid = cleared_below(a, c as int);
    proof {
        assert(is_parent(a, p as int, c as int));
        assert forall|i: int| #[trigger]
            descends(a, c as int, i) && !a[i].is_terminal implies a[i].children_offset >= 1 && i
            + a[i].children_offset + a[i].num_children <= a.len() by {
            lemma_descends_child(a, p as int, c as int, i);
            lemma_reachable_descends(a, p as int, i);
        }
        lemma_total_bound(a, 0);
        lemma_total_bound(a, 1);
        lemma_total_bound(a, 2);
        assert(a.len() * 0xffff_ffff <= 0xffff_ffff * 0xffff_ffff) by (nonlinear_arith)
            requires
                a.len() < 0x1_0000_0000,
        ;
    }
    let mut counts = StorageCounts { num_storage: hands as u64, num_storage_ip: 0, num_storage_chance: 0 };
    clear_subtree(arena, c, &mut counts);
    proof {
        lemma_cleared_shape(a, c as int);
        assert forall|t: int| c < t < base + n implies #[trigger] mid[t].children_offset < u32::MAX by {
            assert(is_parent(a, p as int, t));
            assert(reachable(a, t));
        }
        assert(arena@ =~= Seq::new(
            mid.len(),
            |t: int|
                if base + s <= t < base + s {
                    shifted(mid[t + 1])
                } else if t == base + s {
                    mid[c as int]
                } else {
                    mid[t]
                },
        ));
    }
    let mut i = s;
    while i + 1 < n
        invariant
            s <= i < n,
            c == base + s,
            base + n <= mid.len(),
            arena.len() == mid.len(),
            forall|t: int| c < t < base + n ==> #[trigger] mid[t].children_offset < u32::MAX,
            total(arena@, 0) == total(mid, 0),
            total(arena@, 1) == total(mid, 1),
            total(arena@, 2) == total(mid, 2),
            arena@ == Seq::new(
                mid.len(),
                |t: int|
                    if c <= t < base + i {
                        shifted(mid[t + 1])
                    } else if t == base + i {
                        mid[c as int]
                    } else {
                        mid[t]
                    },
            ),
        decreases n - i,
    {
        let left = arena[base + i];
        let right = arena[base + i + 1];
        let ghost before = arena@;
        proof {
            let once = before.update(base + i, shifted(right));
            lemma_total_update(before, base + i, shifted(right), 0);
            lemma_total_update(before, base + i, shifted(right), 1);
            lemma_total_update(before, base + i, shifted(right), 2);
            lemma_total_update(once, base + i + 1, left, 0);
            lemma_total_update(once, base + i + 1, left, 1);
            lemma_total_update(once, base + i + 1, left, 2);
        }
        arena.set(base + i, shift_node(right));
        arena.set(base + i + 1, left);
        i = i + 1;
        proof {
            assert(arena@ =~= Seq::new(
                mid.len(),
                |t: int|
                    if c <= t < base + i {
                        shifted(mid[t + 1])
                    } else if t == base + i {
                        mid[c as int]
                    } else {
                        mid[t]
                    },
            ));
        }
    }
    let parent = arena[p];
    let ghost rotated = arena@;
    let updated = TreeNode {
        num_children: parent.num_children - 1,
        num_elements: parent.num_elements - hands,
        ..parent
    };
    proof {
        lemma_total_update(rotated, p as int, updated, 0);
        lemma_total_update(rotated, p as int, updated, 1);
        lemma_total_update(rotated, p as int, updated, 2);
    }
    arena.set(p, updated);
    proof {
        assert(arena@ =~= without_child(a, p as int, s as int, hands));
    }
    Ok(counts)
}

/// Checks whether an arena is [`complete`], in one pass over the nodes in order: a node's
/// parents come before it, so whether the root reaches it is known when the pass gets there.
pub fn is_complete(arena: &Vec<TreeNode>) -> (r: bool)
    ensures
        r == complete(arena@),
{
    let n = arena.len();
    let ghost a = arena@;
    if n == 0 {
        return false;
    }
    let mut reach: Vec<bool> = Vec::new();
    let mut x: usize = 0;
    while x < n
        invariant
            x <= n,
            reach@.len() == x,
            forall|j: int| 0 <= j < x ==> reach@[j] == (j == 0),
        decreases n - x,
    {
        reach.push(x == 0);
        x = x + 1;
    }
    let mut i: usize = 0;
    while i < n
        invariant
            a == arena@,
            n == a.len(),
            i <= n,
            reach@.len() == n,
            forall|j: int| 0 <= j < i ==> (#[trigger] reach@[j]) == reachable(a, j),
            forall|j: int| i <= j < n ==> (#[trigger] reach@[j]) == reached_before(a, i as int, j),
            forall|j: int|
                0 <= j < i && #[trigger] reachable(a, j) ==> j + a[j].children_offset
                    + a[j].num_children <= a.len() && (!a[j].is_terminal ==> a[j].children_offset >= 1),
        decreases n - i,
    {
        proof {
            assert(reach@[i as int] == reachable(a, i as int));
        }
        if reach[i] {
            let node = arena[i];
            let offset = node.children_offset as usize;
            let count = node.num_children as usize;
            if offset > n - i || count > n - i - offset || (!node.is_terminal && offset < 1) {
                proof {
                    assert(reachable(a, i as int));
                }
                return false;
            }
            if !node.is_terminal {
                let ghost before = reach@;
                let mut k: usize = 0;
                while k < count
                    invariant
                        a == arena@,
                        n == a.len(),
                        i < n,
                        reachable(a, i as int),
                        !a[i as int].is_terminal,
                        offset == a[i as int].children_offset,
                        count == a[i as int].num_children,
                        offset >= 1,
                        i + offset + count <= n,
                        k <= count,
                        reach@.len() == n,
                        forall|j: int|
                            0 <= j < n ==> (#[trigger] reach@[j]) == (before[j] || (i + offset <= j
                                < i + offset + k)),
                    decreases count - k,
                {
                    reach.set(i + offset + k, true);
                    k = k + 1;
                }
                proof {
                    assert forall|j: int| (i + 1) as int <= j < n implies (#[trigger] reach@[j])
                        == reached_before(a, (i + 1) as int, j) by {
                        if reached_before(a, (i + 1) as int, j) && !reached_before(a, i as int, j) {
                            assert(is_parent(a, i as int, j));
                        }
                        if i + offset <= j < i + offset + count {
                            assert(is_parent(a, i as int, j));
                        }
                    }
                }
            } else {
                proof {
                    assert forall|j: int| (i + 1) as int <= j < n implies (#[trigger] reach@[j])
                        == reached_before(a, (i + 1) as int, j) by {
                        if reached_before(a, (i + 1) as int, j) && !reached_before(a, i as int, j) {
                            let q = choose|q: int|
                                0 <= q < i + 1 && #[trigger] is_parent(a, q, j) && reachable(a, q);
                            assert(q == i);
                        }
                    }
                }
            }
        } else {
            proof {
                assert forall|j: int| (i + 1) as int <= j < n implies (#[trigger] reach@[j])
                    == reached_before(a, (i + 1) as int, j) by {
                    if reached_before(a, (i + 1) as int, j) && !reached_before(a, i as int, j) {
                        let q = choose|q: int|
                            0 <= q < i + 1 && #[trigger] is_parent(a, q, j) && reachable(a, q);
                        assert(q == i);
                    }
                }
            }
        }
        i = i + 1;
    }
    proof {
        assert forall|j: int| #[trigger] reachable(a, j) implies j + a[j].children_offset
            + a[j].num_children <= a.len() && (!a[j].is_terminal ==> a[j].children_offset >= 1) by {
            if j > 0 {
                let q = choose|q: int| 0 <= q < j && #[trigger] is_parent(a, q, j) && reachable(a, q);
            }
        }
    }
    true
}

proof fn lemma_first_slot(a: Seq<TreeNode>, base: int, action: Action, k: int, n: int)
    ensures
        first_slot(a, base, action, k, n) matches Some(j) ==> k <= j < n && a[base + j].prev_action
            == action && forall|i: int| k <= i < j ==> #[trigger] a[base + i].prev_action != action,
        first_slot(a, base, action, k, n) is None ==> forall|i: int|
            k <= i < n ==> #[trigger] a[base + i].prev_action != action,
    decreases n - k,
{
    if k < n {
        lemma_first_slot(a, base, action, k + 1, n);
    }
}

/// A line removes its last action, at a decision node that keeps another: when a line can be
/// removed, its target node is neither terminal nor a chance node, has at least two children,
/// and the child in the target slot is the first one reached by the line's last action.
pub proof fn law_line_target_is_last_action(a: Seq<TreeNode>, x: int, line: Seq<Action>)
    ensures
        line_target(a, x, line) matches Ok((p, s)) ==> {
            let base = p + a[p].children_offset;
            &&& !a[p].is_terminal
            &&& !a[p].is_chance
            &&& a[p].num_children >= 2
            &&& 0 <= s < a[p].num_children
            &&& a[base + s].prev_action == line.last()
            &&& forall|i: int| 0 <= i < s ==> #[trigger] a[base + i].prev_action != line.last()
        },
    decreases line.len(),
{
    if line.len() > 0 && !a[x].is_terminal {
        let base = x + a[x].children_offset;
        lemma_first_slot(a, base, line[0], 0, a[x].num_children as int);
        match first_slot(a, base, line[0], 0, a[x].num_children as int) {
            Some(k) => {
                if line.len() > 1 {
                    law_line_target_is_last_action(a, base + k, line.drop_first());
                    assert(line.drop_first().last() == line.last());
                }
            },
            None => {},
        }
    }
}

/// Releasing a node's storage leaves it holding no elements of any kind: a decision node loses
/// its strategy and IP values, a chance node its counterfactual values; a terminal node holds
/// none to begin with. Everything else about the node is kept.
pub proof fn law_released_node_holds_nothing(n: TreeNode)
    ensures
        elements(cleared(n), 0) == 0,
        elements(cleared(n), 1) == 0,
        elements(cleared(n), 2) == 0,
        !n.is_terminal ==> cleared(n).num_elements == 0,
        !n.is_terminal && !n.is_chance ==> cleared(n).num_elements_ip == 0,
        cleared(n).is_terminal == n.is_terminal && cleared(n).is_chance == n.is_chance
            && cleared(n).player == n.player && cleared(n).num_children == n.num_children
            && cleared(n).children_offset == n.children_offset && cleared(n).prev_action
            == n.prev_action,
{
}

/// Removing the action in slot `s` of node `p` releases its whole subtree: afterwards the
/// removed child (now in the node's last slot) and every deeper node of its subtree hold no
/// elements of any kind, so the storage released is all the storage the subtree held.
pub proof fn law_removal_releases_subtree(a: Seq<TreeNode>, p: int, s: int, hands: u32)
    requires
        0 <= p < a.len(),
        !a[p].is_terminal,
        a[p].children_offset >= 1,
        0 <= s < a[p].num_children,
        p + a[p].children_offset + a[p].num_children <= a.len(),
    ensures
        ({
            let b = without_child(a, p, s, hands);
            let base = p + a[p].children_offset;
            let c = base + s;
            let last = base + a[p].num_children - 1;
            &&& forall|k: int| #[trigger] elements(b[last], k) == 0
            &&& forall|i: int, k: int|
                0 <= i < a.len() && descends(a, c, i) && !(c <= i <= last) ==> #[trigger] elements(
                    b[i],
                    k,
                ) == 0
        }),
{
    let base = p + a[p].children_offset;
    let c = base + s;
    assert(descends(a, c, c));
    assert forall|i: int, k: int|
        0 <= i < a.len() && descends(a, c, i) && !(c <= i <= base + a[p].num_children - 1)
            implies #[trigger] elements(without_child(a, p, s, hands)[i], k) == 0 by {
        lemma_descends_le(a, c, i);
    }
}

/// The children's slots `c..=i` after `i - c` steps of moving the child in slot `c` towards the
/// back.
pub open spec fn rotated(mid: Seq<TreeNode>, c: int, i: int) -> Seq<TreeNode> {
    Seq::new(
        mid.len(),
        |t: int|
            if c <= t < i {
                shifted(mid[t + 1])
            } else if t == i {
                mid[c]
            } else {
                mid[t]
            },
    )
}

proof fn lemma_rotated_total(mid: Seq<TreeNode>, c: int, i: int, kind: int)
    requires
        0 <= c <= i < mid.len(),
    ensures
        total(rotated(mid, c, i), kind) == total(mid, kind),
    decreases i - c,
{
    if i == c {
        assert(rotated(mid, c, i) =~= mid);
    } else {
        lemma_rotated_total(mid, c, i - 1, kind);
        let prev = rotated(mid, c, i - 1);
        let once = prev.update(i - 1, shifted(mid[i]));
        lemma_total_update(prev, i - 1, shifted(mid[i]), kind);
        lemma_total_update(once, i, mid[c], kind);
        assert(once.update(i, mid[c]) =~= rotated(mid, c, i));
    }
}

/// Removing a line moves storage out of the tree and nowhere else: what it releases plus what
/// the tree holds afterwards is what the tree held before, for the action-node, IP and chance
/// storage alike.
pub proof fn law_removal_conserves_storage(a: Seq<TreeNode>, p: int, s: int, hands: u32)
    requires
        0 <= p < a.len(),
        !a[p].is_terminal,
        !a[p].is_chance,
        a[p].children_offset >= 1,
        0 <= s < a[p].num_children,
        p + a[p].children_offset + a[p].num_children <= a.len(),
        a[p].num_elements >= hands,
    ensures
        released(a, p, s, hands).0 + total(without_child(a, p, s, hands), 0) == total(a, 0),
        released(a, p, s, hands).1 + total(without_child(a, p, s, hands), 1) == total(a, 1),
        released(a, p, s, hands).2 + total(without_child(a, p, s, hands), 2) == total(a, 2),
{
    let base = p + a[p].children_offset;
    let c = base + s;
    let last = base + a[p].num_children - 1;
    let mid = cleared_below(a, c);
    assert(!descends(a, c, p)) by {
        if descends(a, c, p) {
            lemma_descends_le(a, c, p);
        }
    }
    let rot = rotated(mid, c, last);
    let node = TreeNode {
        num_children: (a[p].num_children - 1) as u16,
        num_elements: (a[p].num_elements - hands) as u32,
        ..a[p]
    };
    assert(rot.update(p, node) =~= without_child(a, p, s, hands));
    lemma_rotated_total(mid, c, last, 0);
    lemma_rotated_total(mid, c, last, 1);
    lemma_rotated_total(mid, c, last, 2);
    lemma_total_update(rot, p, node, 0);
    lemma_total_update(rot, p, node, 1);
    lemma_total_update(rot, p, node, 2);
}

/// Removing the action in slot `s` of node `p` leaves the node's other actions in their order:
/// the node has one child less, and its children's actions are the old ones without slot `s`.
pub proof fn law_removal_keeps_other_actions(a: Seq<TreeNode>, p: int, s: int, hands: u32)
    requires
        0 <= p < a.len(),
        !a[p].is_terminal,
        a[p].children_offset >= 1,
        0 <= s < a[p].num_children,
        p + a[p].children_offset + a[p].num_children <= a.len(),
    ensures
        ({
            let b = without_child(a, p, s, hands);
            let base = p + a[p].children_offset;
            &&& b.len() == a.len()
            &&& b[p].num_children == a[p].num_children - 1
            &&& b[p].children_offset == a[p].children_offset
            &&& b[p].prev_action == a[p].prev_action
            &&& forall|j: int|
                0 <= j < a[p].num_children - 1 ==> (#[trigger] b[base + j]).prev_action == a[base
                    + if j < s {
                    j
                } else {
                    j + 1
                }].prev_action
        }),
{
}

/// Removing the action in slot `s` of node `p` takes `hands` strategy elements off the node,
/// and each remaining child keeps its shape and still reaches its own children.
pub proof fn law_removal_keeps_children_reachable(a: Seq<TreeNode>, p: int, s: int, hands: u32)
    requires
        0 <= p < a.len(),
        !a[p].is_terminal,
        a[p].children_offset >= 1,
        0 <= s < a[p].num_children,
        p + a[p].children_offset + a[p].num_children <= a.len(),
        a[p].num_elements >= hands,
        forall|t: int|
            p + a[p].children_offset <= t < p + a[p].children_offset + a[p].num_children
                ==> #[trigger] a[t].children_offset < u32::MAX,
    ensures
        ({
            let b = without_child(a, p, s, hands);
            let base = p + a[p].children_offset;
            &&& b[p].num_elements == a[p].num_elements - hands
            &&& forall|j: int|
                0 <= j < a[p].num_children - 1 ==> {
                    let from = base + if j < s {
                        j
                    } else {
                        j + 1
                    };
                    &&& (#[trigger] b[base + j]).num_children == a[from].num_children
                    &&& b[base + j].is_terminal == a[from].is_terminal
                    &&& a[from].children_offset > 0 ==> base + j + b[base + j].children_offset
                        == from + a[from].children_offset
                }
        }),
{
}

/// The storage that removing the action in slot `s` of node `p` releases: the node's `hands`
/// strategy elements for the action and every element of the action's subtree, as action-node,
/// IP and chance elements.
pub open spec fn released(a: Seq<TreeNode>, p: int, s: int, hands: u32) -> (int, int, int) {
    let c = p + a[p].children_offset + s;
    let mid = cleared_below(a, c);
    (hands + total(a, 0) - total(mid, 0), total(a, 1) - total(mid, 1), total(a, 2) - total(mid, 2))
}

/// Removing `lines` in turn from `a`, with the storage counts `counts`, keeps within what every
/// removal asks, and never takes more storage off `counts` than they hold, up to the first line
/// that cannot be removed.
pub open spec fn lines_removable(
    a: Seq<TreeNode>,
    counts: StorageCounts,
    lines: Seq<Vec<Action>>,
    hands: [u32; 2],
) -> bool
    decreases lines.len(),
{
    if lines.len() == 0 {
        true
    } else {
        &&& complete(a)
        &&& a.len() < 0x1_0000_0000
        &&& match line_target(a, 0, lines[0]@) {
            Err(_) => true,
            Ok((p, s)) => {
                let h = hands[a[p].player as int];
                let rel = released(a, p, s, h);
                &&& a[p].player < 2
                &&& a[p].num_elements >= h
                &&& rel.0 <= counts.num_storage
                &&& rel.1 <= counts.num_storage_ip
                &&& rel.2 <= counts.num_storage_chance
                &&& lines_removable(
                    without_child(a, p, s, h),
                    StorageCounts {
                        num_storage: (counts.num_storage - rel.0) as u64,
                        num_storage_ip: (counts.num_storage_ip - rel.1) as u64,
                        num_storage_chance: (counts.num_storage_chance - rel.2) as u64,
                    },
                    lines.drop_first(),
                    hands,
                )
            },
        }
    }
}

/// The arena, the storage counts and the outcome after removing `lines` in turn: each removal
/// takes its released storage off the counts, and the first line that cannot be removed stops
/// the removal with its error, the earlier lines staying removed.
pub open spec fn lines_removed(
    a: Seq<TreeNode>,
    counts: StorageCounts,
    lines: Seq<Vec<Action>>,
    hands: [u32; 2],
) -> (Seq<TreeNode>, StorageCounts, Result<(), RemoveLineError>)
    decreases lines.len(),
{
    if lines.len() == 0 {
        (a, counts, Ok(()))
    } else {
        match line_target(a, 0, lines[0]@) {
            Err(e) => (a, counts, Err(e)),
            Ok((p, s)) => {
                let h = hands[a[p].player as int];
                let rel = released(a, p, s, h);
                lines_removed(
                    without_child(a, p, s, h),
                    StorageCounts {
                        num_storage: (counts.num_storage - rel.0) as u64,
                        num_storage_ip: (counts.num_storage_ip - rel.1) as u64,
                        num_storage_chance: (counts.num_storage_chance - rel.2) as u64,
                    },
                    lines.drop_first(),
                    hands,
                )
            },
        }
    }
}

/// Removes `lines` in turn from the game tree in `arena`, as [`remove_line`] removes one, and
/// takes the storage each releases off `counts`.
///
/// This allows the removal of chance-specific lines (e.g., overbets on board-pairing turns),
/// which an action tree cannot express. The first line that cannot be removed stops the removal
/// with its error; the lines before it stay removed.
pub fn remove_lines(
    arena: &mut Vec<TreeNode>,
    counts: &mut StorageCounts,
    lines: &[Vec<Action>],
    num_private_hands: [u32; 2],
) -> (r: Result<(), RemoveLineError>)
    requires
        lines_removable(old(arena)@, *old(counts), lines@, num_private_hands),
    ensures
        (final(arena)@, *final(counts), r) == lines_removed(
            old(arena)@,
            *old(counts),
            lines@,
            num_private_hands,
        ),
{
    let ghost a0 = arena@;
    let ghost c0 = *counts;
    let mut i: usize = 0;
    proof {
        assert(lines@.skip(0) =~= lines@);
    }
    while i < lines.len()
        invariant
            a0 == old(arena)@,
            c0 == *old(counts),
            i <= lines@.len(),
            lines_removable(arena@, *counts, lines@.skip(i as int), num_private_hands),
            lines_removed(a0, c0, lines@, num_private_hands) == lines_removed(
                arena@,
                *counts,
                lines@.skip(i as int),
                num_private_hands,
            ),
        decreases lines@.len() - i,
    {
        let ghost rest = lines@.skip(i as int);
        proof {
            assert(rest[0] == lines@[i as int]);
            assert(rest.drop_first() =~= lines@.skip(i + 1));
        }
        match remove_line(arena, &lines[i], num_private_hands) {
            Err(e) => {
                return Err(e);
            },
            Ok(info) => {
                counts.num_storage = counts.num_storage - info.num_storage;
                counts.num_storage_ip = counts.num_storage_ip - info.num_storage_ip;
                counts.num_storage_chance = counts.num_storage_chance - info.num_storage_chance;
            },
        }
        i = i + 1;
    }
    proof {
        assert(lines@.skip(i as int).len() == 0);
    }
    Ok(())
}

} // verus!
