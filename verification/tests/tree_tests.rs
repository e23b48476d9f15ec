use dungeon_gen::rng::Rng;
use dungeon_gen::room::RoomKind;
use dungeon_gen::tree::DungeonTree;

#[test]
fn root_is_normal() {
    let mut rng = Rng::new(0);
    let tree = DungeonTree::generate(&mut rng);
    assert!(matches!(tree.rooms[tree.root].kind, RoomKind::Normal));
}

#[test]
fn key_lock_pairing_valid() {
    for seed in 0u64..50 {
        let mut rng = Rng::new(seed * 31 + 1);
        let tree = DungeonTree::generate(&mut rng);
        let key_ids: std::collections::HashSet<u32> = tree
            .rooms
            .iter()
            .filter_map(|r| {
                if let RoomKind::Key { key_id } = r.kind {
                    Some(key_id)
                } else {
                    None
                }
            })
            .collect();
        for room in &tree.rooms {
            if let RoomKind::Locked { key_id } = room.kind {
                assert!(
                    key_ids.contains(&key_id),
                    "Locked room {} references missing key {}",
                    room.id,
                    key_id
                );
            }
        }
    }
}

#[test]
fn bfs_visits_each_node_once() {
    let mut rng = Rng::new(55);
    let tree = DungeonTree::generate(&mut rng);
    let bfs = tree.bfs_order();
    let mut seen = std::collections::HashSet::new();
    for &id in &bfs {
        assert!(seen.insert(id), "BFS visited {} twice", id);
    }
}

#[test]
fn switch_kinds_generated() {
    let found = (0u64..100).any(|seed| {
        let mut rng = Rng::new(seed);
        let tree = DungeonTree::generate(&mut rng);
        tree.rooms.iter().any(|r| r.kind.is_switch())
    });
    assert!(found, "No Switch rooms found across 100 seeds");
}

#[test]
fn generated_ids_follow_breadth_first_order() {
    for seed in 0u64..40 {
        let mut rng = Rng::new(seed);
        let tree = DungeonTree::generate(&mut rng);
        let order = tree.bfs_order();
        let expected: Vec<usize> = (0..tree.rooms.len()).collect();
        assert_eq!(order, expected);
        let mut next_key: u32 = 0;
        for room in &tree.rooms {
            if let RoomKind::Key { key_id } = room.kind {
                assert_eq!(key_id, next_key);
                next_key += 1;
            }
        }
    }
}

#[test]
fn generation_is_a_function_of_the_seed() {
    let mut a = Rng::new(7);
    let mut b = Rng::new(7);
    let ta = DungeonTree::generate(&mut a);
    let tb = DungeonTree::generate(&mut b);
    assert_eq!(ta.rooms.len(), tb.rooms.len());
    for i in 0..ta.rooms.len() {
        assert_eq!(ta.rooms[i].kind, tb.rooms[i].kind);
        assert_eq!(ta.rooms[i].children, tb.rooms[i].children);
    }
    assert_eq!(a.next_u64(), b.next_u64());
}

#[test]
fn subtree_ids_walk_a_stack_of_children() {
    for seed in 0u64..10 {
        let mut rng = Rng::new(seed);
        let tree = DungeonTree::generate(&mut rng);
        for node in 0..tree.rooms.len() {
            let mut expected = Vec::new();
            let mut stack = vec![node];
            while let Some(id) = stack.pop() {
                expected.push(id);
                for &c in &tree.rooms[id].children {
                    stack.push(c);
                }
            }
            assert_eq!(tree.subtree_ids(node), expected, "seed {} node {}", seed, node);
        }
    }
}
