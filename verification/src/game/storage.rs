//! Where each node's values live in the game's storage buffers.
//!
//! Action nodes keep their values in two buffers of `num_elements` entries each (at the same
//! offset) and the IP values of a street root in a third; chance nodes keep theirs in a chance
//! buffer. Every entry takes 4 bytes, or 2 bytes when compression is enabled. Nodes are laid
//! out one after another in arena order.
use vstd::prelude::*;

verus! {

/// The kind of a game-tree node.
#[derive(Clone, Copy, Debug, PartialEq, Eq, Structural)]
pub enum NodeKind {
    Terminal,
    Chance,
    Action,
}

/// What the storage layout reads of a node.
#[derive(Clone, Copy, Debug, PartialEq, Eq, Structural)]
pub struct StorageNode {
    pub kind: NodeKind,
    /// Entries in the action buffers (action node) or the chance buffer (chance node).
    pub num_elements: u32,
    /// Entries in the IP buffer (action node at a street root).
    pub num_elements_ip: u16,
}

/// Byte offsets of a node's values: into the action buffers (or the chance buffer for a
/// chance node) and into the IP buffer.
#[derive(Clone, Copy, Debug, PartialEq, Eq, Structural)]
pub struct NodeOffsets {
    pub storage: usize,
    pub storage_ip: usize,
}

/// Bytes per stored entry.
pub open spec fn entry_bytes(compression: bool) -> int {
    if compression {
        2
    } else {
        4
    }
}

/// Entries of the action buffers taken by the nodes before `i`.
pub open spec fn action_entries(nodes: Seq<StorageNode>, i: int) -> int
    decreases i,
{
    if i <= 0 {
        0
    } else {
        action_entries(nodes, i - 1) + if nodes[i - 1].kind == NodeKind::Action {
            nodes[i - 1].num_elements as int
        } else {
            0
        }
    }
}

/// Entries of the IP buffer taken by the nodes before `i`.
pub open spec fn ip_entries(nodes: Seq<StorageNode>, i: int) -> int
    decreases i,
{
    if i <= 0 {
        0
    } else {
        ip_entries(nodes, i - 1) + if nodes[i - 1].kind == NodeKind::Action {
            nodes[i - 1].num_elements_ip as int
        } else {
            0
        }
    }
}

/// Entries of the chance buffer taken by the nodes before `i`.
pub open spec fn chance_entries(nodes: Seq<StorageNode>, i: int) -> int
    decreases i,
{
    if i <= 0 {
        0
    } else {
        chance_entries(nodes, i - 1) + if nodes[i - 1].kind == NodeKind::Chance {
            nodes[i - 1].num_elements as int
        } else {
            0
        }
    }
}

/// The byte offsets of node `i`: the bytes its kind's buffers hold for the nodes before it;
/// zero for a terminal node.
pub open spec fn node_offsets(nodes: Seq<StorageNode>, compression: bool, i: int) -> (int, int) {
    match nodes[i].kind {
        NodeKind::Terminal => (0, 0),
        NodeKind::Chance => (entry_bytes(compression) * chance_entries(nodes, i), 0),
        NodeKind::Action => (
            entry_bytes(compression) * action_entries(nodes, i),
            entry_bytes(compression) * ip_entries(nodes, i),
        ),
    }
}

/// Prefix sums never decrease.
pub proof fn lemma_entries_monotone(nodes: Seq<StorageNode>, i: int, j: int)
    requires
        0 <= i <= j <= nodes.len(),
    ensures
        action_entries(nodes, i) <= action_entries(nodes, j),
        ip_entries(nodes, i) <= ip_entries(nodes, j),
        chance_entries(nodes, i) <= chance_entries(nodes, j),
    decreases j - i,
{
    if i < j {
        lemma_entries_monotone(nodes, i, j - 1);
    }
}

/// Computes the byte offsets of every node's values in the storage buffers.
pub fn storage_offsets(nodes: &Vec<StorageNode>, compression: bool) -> (r: Vec<NodeOffsets>)
    requires
        4 * action_entries(nodes@, nodes@.len() as int) <= usize::MAX,
        4 * ip_entries(nodes@, nodes@.len() as int) <= usize::MAX,
        4 * chance_entries(nodes@, nodes@.len() as int) <= usize::MAX,
    ensures
        r@.len() == nodes@.len(),
        forall|i: int|
            0 <= i < nodes@.len() ==> (r@[i].storage as int, r@[i].storage_ip as int)
                == node_offsets(nodes@, compression, i),
{
    let num_bytes: usize = if compression {
        2
    } else {
        4
    };
    let ghost a = nodes@;
    let ghost n = a.len() as int;
    let mut action_counter: usize = 0;
    let mut ip_counter: usize = 0;
    let mut chance_counter: usize = 0;
    let mut r: Vec<NodeOffsets> = Vec::new();
    let mut i: usize = 0;
    while i < nodes.len()
        invariant
            a == nodes@,
            n == a.len(),
            i <= n,
            num_bytes == entry_bytes(compression),
            4 * action_entries(a, n) <= usize::MAX,
            4 * ip_entries(a, n) <= usize::MAX,
            4 * chance_entries(a, n) <= usize::MAX,
            action_counter == num_bytes * action_entries(a, i as int),
            ip_counter == num_bytes * ip_entries(a, i as int),
            chance_counter == num_bytes * chance_entries(a, i as int),
            r@.len() == i,
            forall|j: int|
                0 <= j < i ==> (r@[j].storage as int, r@[j].storage_ip as int) == node_offsets(
                    a,
                    compression,
                    j,
                ),
        decreases n - i,
    {
        let node = nodes[i];
        proof {
            lemma_entries_monotone(a, i + 1, n);
        }
        match node.kind {
            NodeKind::Terminal => {
                r.push(NodeOffsets { storage: 0, storage_ip: 0 });
            },
            NodeKind::Chance => {
                r.push(NodeOffsets { storage: chance_counter, storage_ip: 0 });
                chance_counter = chance_counter + num_bytes * node.num_elements as usize;
            },
            NodeKind::Action => {
                r.push(NodeOffsets { storage: action_counter, storage_ip: ip_counter });
                action_counter = action_counter + num_bytes * node.num_elements as usize;
                ip_counter = ip_counter + num_bytes * node.num_elements_ip as usize;
            },
        }
        i = i + 1;
    }
    r
}

/// The values of every node fit inside its buffers, and the values of two different nodes that
/// share a buffer do not overlap: node `i`'s entries end no later than node `j`'s begin when
/// `i < j`.
pub proof fn law_offsets_disjoint_and_in_bounds(
    nodes: Seq<StorageNode>,
    compression: bool,
    i: int,
    j: int,
)
    requires
        0 <= i < j < nodes.len(),
    ensures
        nodes[i].kind == NodeKind::Action && nodes[j].kind == NodeKind::Action ==> {
            &&& node_offsets(nodes, compression, i).0 + entry_bytes(compression)
                * nodes[i].num_elements <= node_offsets(nodes, compression, j).0
            &&& node_offsets(nodes, compression, i).1 + entry_bytes(compression)
                * nodes[i].num_elements_ip <= node_offsets(nodes, compression, j).1
        },
        nodes[i].kind == NodeKind::Chance && nodes[j].kind == NodeKind::Chance ==> node_offsets(
            nodes,
            compression,
            i,
        ).0 + entry_bytes(compression) * nodes[i].num_elements <= node_offsets(
            nodes,
            compression,
            j,
        ).0,
        nodes[j].kind == NodeKind::Action ==> node_offsets(nodes, compression, j).0 + entry_bytes(
            compression,
        ) * nodes[j].num_elements <= entry_bytes(compression) * action_entries(
            nodes,
            nodes.len() as int,
        ),
        nodes[j].kind == NodeKind::Chance ==> node_offsets(nodes, compression, j).0 + entry_bytes(
            compression,
        ) * nodes[j].num_elements <= entry_bytes(compression) * chance_entries(
            nodes,
            nodes.len() as int,
        ),
{
    lemma_entries_monotone(nodes, i + 1, j);
    lemma_entries_monotone(nodes, j + 1, nodes.len() as int);
    let eb = entry_bytes(compression);
    assert(action_entries(nodes, i + 1) == action_entries(nodes, i) + if nodes[i].kind
        == NodeKind::Action {
        nodes[i].num_elements as int
    } else {
        0
    });
    assert(ip_entries(nodes, i + 1) == ip_entries(nodes, i) + if nodes[i].kind == NodeKind::Action {
        nodes[i].num_elements_ip as int
    } else {
        0
    });
    assert(chance_entries(nodes, i + 1) == chance_entries(nodes, i) + if nodes[i].kind
        == NodeKind::Chance {
        nodes[i].num_elements as int
    } else {
        0
    });
    assert(action_entries(nodes, j + 1) == action_entries(nodes, j) + if nodes[j].kind
        == NodeKind::Action {
        nodes[j].num_elements as int
    } else {
        0
    });
    assert(chance_entries(nodes, j + 1) == chance_entries(nodes, j) + if nodes[j].kind
        == NodeKind::Chance {
        nodes[j].num_elements as int
    } else {
        0
    });
    lemma_scaled_sum(eb, action_entries(nodes, i), nodes[i].num_elements as int, action_entries(nodes, j));
    lemma_scaled_sum(eb, ip_entries(nodes, i), nodes[i].num_elements_ip as int, ip_entries(nodes, j));
    lemma_scaled_sum(eb, chance_entries(nodes, i), nodes[i].num_elements as int, chance_entries(nodes, j));
    lemma_scaled_sum(eb, action_entries(nodes, j), nodes[j].num_elements as int, action_entries(nodes, nodes.len() as int));
    lemma_scaled_sum(eb, chance_entries(nodes, j), nodes[j].num_elements as int, chance_entries(nodes, nodes.len() as int));
}

proof fn lemma_scaled_sum(eb: int, x: int, e: int, y: int)
    by (nonlinear_arith)
    requires
        eb >= 0,
    ensures
        x + e <= y ==> eb * x + eb * e <= eb * y,
{
}

} // verus!
