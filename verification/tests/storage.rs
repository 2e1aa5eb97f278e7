use postflop_solver::game::storage::{storage_offsets, NodeKind, NodeOffsets, StorageNode};

fn n(kind: NodeKind, num_elements: u32, num_elements_ip: u16) -> StorageNode {
    StorageNode { kind, num_elements, num_elements_ip }
}

#[test]
fn offsets_follow_arena_order_per_buffer() {
    let nodes = vec![
        n(NodeKind::Action, 10, 5),
        n(NodeKind::Chance, 7, 0),
        n(NodeKind::Terminal, 0, 0),
        n(NodeKind::Action, 3, 0),
        n(NodeKind::Chance, 2, 0),
        n(NodeKind::Action, 4, 5),
    ];
    let o = storage_offsets(&nodes, false);
    assert_eq!(
        o,
        vec![
            NodeOffsets { storage: 0, storage_ip: 0 },
            NodeOffsets { storage: 0, storage_ip: 0 },
            NodeOffsets { storage: 0, storage_ip: 0 },
            NodeOffsets { storage: 40, storage_ip: 20 },
            NodeOffsets { storage: 28, storage_ip: 0 },
            NodeOffsets { storage: 52, storage_ip: 20 },
        ]
    );
    let c = storage_offsets(&nodes, true);
    assert_eq!(c[3], NodeOffsets { storage: 20, storage_ip: 10 });
    assert_eq!(c[5], NodeOffsets { storage: 26, storage_ip: 10 });
}
