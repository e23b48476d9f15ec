use dungeon_gen::evolution::mutate;
use dungeon_gen::fitness::inner_room_count;
use dungeon_gen::grid::DungeonGrid;
use dungeon_gen::rng::Rng;
use dungeon_gen::room::{Direction, Room, RoomKind};
use dungeon_gen::tree::DungeonTree;

fn room(id: usize, kind: RoomKind, dir: Option<Direction>, children: Vec<usize>) -> Room {
    let mut r = Room::new(id, kind, dir, if id == 0 { 0 } else { 1 });
    r.children = children;
    r
}

fn tree_of(rooms: Vec<Room>) -> DungeonTree {
    DungeonTree { rooms, root: 0 }
}

/// Root with three children (east key, west lock, south normal); the east
/// child has a child that lands south-east, and the south child has one
/// that would land on the same cell.
fn sample_tree() -> DungeonTree {
    tree_of(vec![
        room(0, RoomKind::Normal, None, vec![1, 2, 3]),
        room(1, RoomKind::Key { key_id: 7 }, Some(Direction::Right), vec![4]),
        room(2, RoomKind::Locked { key_id: 7 }, Some(Direction::Left), vec![]),
        room(3, RoomKind::Normal, Some(Direction::Down), vec![5]),
        room(4, RoomKind::Normal, Some(Direction::Right), vec![]),
        room(5, RoomKind::Switch, Some(Direction::Right), vec![]),
    ])
}

fn kinds(t: &DungeonTree) -> Vec<RoomKind> {
    t.rooms.iter().map(|r| r.kind).collect()
}

#[test]
fn decoding_discards_the_overlapping_room() {
    let t = sample_tree();
    let g = DungeonGrid::from_tree(&t);
    assert_eq!(g.pos_of(0), Some((0, 0)));
    assert_eq!(g.pos_of(1), Some((1, 0)));
    assert_eq!(g.pos_of(2), Some((-1, 0)));
    assert_eq!(g.pos_of(3), Some((0, 1)));
    assert_eq!(g.pos_of(4), Some((1, 1)));
    assert_eq!(g.pos_of(5), None);
    assert_eq!((g.width(), g.height()), (3, 2));
    assert_eq!(g.placed_room_ids(), vec![0, 1, 2, 3, 4]);
}

#[test]
fn grid_ascii_map_exact() {
    let t = sample_tree();
    let g = DungeonGrid::from_tree(&t);
    assert_eq!(g.ascii_map(&t), "LSK\n ..");
}

#[test]
fn grid_neighbours_in_east_west_south_north_order() {
    let t = sample_tree();
    let g = DungeonGrid::from_tree(&t);
    assert_eq!(g.neighbours(0), vec![1, 2, 3]);
    assert_eq!(g.neighbours(4), vec![3, 1]);
    assert_eq!(g.neighbours(5), Vec::<usize>::new());
}

#[test]
fn remove_overlapping_drops_unplaced_children() {
    let mut t = sample_tree();
    let g = DungeonGrid::from_tree(&t);
    t.remove_overlapping(&g);
    assert_eq!(t.rooms[3].children, Vec::<usize>::new());
    assert_eq!(t.rooms[0].children, vec![1, 2, 3]);
    assert_eq!(t.rooms[1].children, vec![4]);
    assert_eq!(t.rooms.len(), 6);
}

#[test]
fn rooms_in_subtree_counts_placed_only() {
    let t = sample_tree();
    let g = DungeonGrid::from_tree(&t);
    assert_eq!(g.rooms_in_subtree(3, &t), 1);
    assert_eq!(g.rooms_in_subtree(0, &t), 5);
    assert_eq!(g.rooms_in_subtree(1, &t), 2);
}

#[test]
fn counts_by_kind() {
    let t = sample_tree();
    let g = DungeonGrid::from_tree(&t);
    assert_eq!(t.room_count(), 6);
    assert_eq!(t.key_count(), 1);
    assert_eq!(t.lock_count(), 1);
    assert_eq!(t.switch_count(), 1);
    assert_eq!(t.switch_door_count(), 0);
    assert_eq!(t.placed_room_count(&g), 5);
    assert_eq!(t.placed_key_count(&g), 1);
    assert_eq!(t.placed_lock_count(&g), 1);
    assert_eq!(t.placed_switch_count(&g), 0);
    assert_eq!(t.placed_switch_door_count(&g), 0);
}

#[test]
fn inner_rooms_have_a_placed_child() {
    let t = sample_tree();
    let g = DungeonGrid::from_tree(&t);
    // Room 0 (children placed) and room 1 (child 4 placed); room 3's only
    // child is unplaced.
    assert_eq!(inner_room_count(&t, &g), 2);
    let single = tree_of(vec![room(0, RoomKind::Normal, None, vec![])]);
    let gs = DungeonGrid::from_tree(&single);
    assert_eq!(inner_room_count(&single, &gs), 0);
}

#[test]
fn parent_and_subtree_queries() {
    let t = sample_tree();
    assert_eq!(t.parent_of(0), None);
    assert_eq!(t.parent_of(4), Some(1));
    assert_eq!(t.parent_of(5), Some(3));
    let mut sub = t.subtree_ids(0);
    assert_eq!(sub[0], 0);
    sub.sort();
    assert_eq!(sub, vec![0, 1, 2, 3, 4, 5]);
    let mut s3 = t.subtree_ids(3);
    s3.sort();
    assert_eq!(s3, vec![3, 5]);
    assert_eq!(t.bfs_order(), vec![0, 1, 2, 3, 4, 5]);
}

#[test]
fn special_rooms_of_subtrees() {
    let t = sample_tree();
    assert_eq!(t.special_count_in_subtree(0), 2);
    assert_eq!(t.special_count_in_subtree(3), 0);
    assert_eq!(t.special_count_in_subtree(4), 0);
    assert_eq!(
        t.save_special_rooms(0),
        vec![RoomKind::Key { key_id: 7 }, RoomKind::Locked { key_id: 7 }, RoomKind::Switch]
    );
    assert_eq!(t.save_special_rooms(4), Vec::<RoomKind>::new());
}

#[test]
fn renumber_keys_exact() {
    let mut t = tree_of(vec![
        room(0, RoomKind::Normal, None, vec![1, 2, 3, 4, 5]),
        room(1, RoomKind::Key { key_id: 7 }, Some(Direction::Right), vec![]),
        room(2, RoomKind::Locked { key_id: 7 }, Some(Direction::Left), vec![]),
        room(3, RoomKind::Key { key_id: 3 }, Some(Direction::Down), vec![]),
        room(4, RoomKind::Locked { key_id: 9 }, Some(Direction::Down), vec![]),
        room(5, RoomKind::Locked { key_id: 3 }, Some(Direction::Down), vec![]),
    ]);
    t.renumber_keys();
    assert_eq!(
        kinds(&t),
        vec![
            RoomKind::Normal,
            RoomKind::Key { key_id: 0 },
            RoomKind::Locked { key_id: 0 },
            RoomKind::Key { key_id: 1 },
            RoomKind::Normal,
            RoomKind::Locked { key_id: 1 },
        ]
    );
}

#[test]
fn renumber_keys_keeps_lock_before_its_key() {
    let mut t = tree_of(vec![
        room(0, RoomKind::Normal, None, vec![1, 2]),
        room(1, RoomKind::Locked { key_id: 5 }, Some(Direction::Right), vec![]),
        room(2, RoomKind::Key { key_id: 5 }, Some(Direction::Left), vec![]),
    ]);
    t.renumber_keys();
    assert_eq!(kinds(&t), vec![RoomKind::Normal, RoomKind::Locked { key_id: 0 }, RoomKind::Key { key_id: 0 }]);
}

#[test]
fn renumber_keys_is_idempotent() {
    for seed in 0u64..10 {
        let mut rng = Rng::new(seed);
        let mut t = DungeonTree::generate(&mut rng);
        t.renumber_keys();
        let once = kinds(&t);
        t.renumber_keys();
        assert_eq!(kinds(&t), once);
    }
}

#[test]
fn repair_orphaned_locks_exact() {
    let mut t = tree_of(vec![
        room(0, RoomKind::Normal, None, vec![1, 4]),
        room(1, RoomKind::Locked { key_id: 4 }, Some(Direction::Right), vec![]),
        room(2, RoomKind::Key { key_id: 4 }, Some(Direction::Down), vec![]),
        room(3, RoomKind::Locked { key_id: 8 }, Some(Direction::Down), vec![]),
        room(4, RoomKind::Key { key_id: 1 }, Some(Direction::Down), vec![5]),
        room(5, RoomKind::Locked { key_id: 1 }, Some(Direction::Down), vec![]),
    ]);
    let g = DungeonGrid::from_tree(&t);
    t.repair_orphaned_locks(&g);
    assert_eq!(
        kinds(&t),
        vec![
            RoomKind::Normal,
            RoomKind::Normal,
            RoomKind::Key { key_id: 4 },
            RoomKind::Locked { key_id: 8 },
            RoomKind::Key { key_id: 1 },
            RoomKind::Locked { key_id: 1 },
        ]
    );
}

#[test]
fn assign_lock_ids_keys_come_first() {
    let mut t = tree_of(vec![
        room(0, RoomKind::Normal, None, vec![1, 2]),
        room(1, RoomKind::Locked { key_id: 0 }, Some(Direction::Right), vec![3]),
        room(2, RoomKind::Key { key_id: 9 }, Some(Direction::Left), vec![]),
        room(3, RoomKind::Locked { key_id: 0 }, Some(Direction::Down), vec![]),
    ]);
    let mut rng = Rng::new(1);
    t.assign_lock_ids(&mut rng);
    // Breadth-first: 0, 1 (no key yet: demoted), 2 (key 0), 3 (takes key 0).
    assert_eq!(
        kinds(&t),
        vec![RoomKind::Normal, RoomKind::Normal, RoomKind::Key { key_id: 0 }, RoomKind::Locked { key_id: 0 }]
    );
}

#[test]
fn fix_branch_with_nothing_saved_clears_the_branch() {
    let mut t = sample_tree();
    let mut rng = Rng::new(4);
    t.fix_branch(1, &[], &mut rng);
    assert_eq!(t.rooms[1].kind, RoomKind::Normal);
    assert_eq!(t.rooms[4].kind, RoomKind::Normal);
    assert_eq!(t.rooms[2].kind, RoomKind::Locked { key_id: 7 });
    assert_eq!(t.rooms[5].kind, RoomKind::Switch);
}

#[test]
fn fix_branch_places_saved_kinds_in_branch() {
    for seed in 0u64..20 {
        let mut t = sample_tree();
        let mut rng = Rng::new(seed);
        let saved = [RoomKind::Switch, RoomKind::Key { key_id: 2 }];
        t.fix_branch(1, &saved, &mut rng);
        // Two rooms in the branch, two kinds: each room takes the next kind.
        assert_eq!(t.rooms[1].kind, RoomKind::Switch);
        assert_eq!(t.rooms[4].kind, RoomKind::Key { key_id: 2 });
        assert_eq!(t.rooms[0].kind, RoomKind::Normal);
    }
}

#[test]
fn duplicate_copies_every_room() {
    let t = sample_tree();
    let d = t.duplicate();
    assert_eq!(d.root, t.root);
    assert_eq!(d.rooms.len(), t.rooms.len());
    for (a, b) in t.rooms.iter().zip(d.rooms.iter()) {
        assert_eq!(a.id, b.id);
        assert_eq!(a.kind, b.kind);
        assert_eq!(a.direction, b.direction);
        assert_eq!(a.depth, b.depth);
        assert_eq!(a.grid_pos, b.grid_pos);
        assert_eq!(a.children, b.children);
    }
}

#[test]
fn push_child_appends_leaf() {
    let mut t = sample_tree();
    let id = t.push_child(4, RoomKind::Normal, Some(Direction::Down), 3, (1, 2));
    assert_eq!(id, 6);
    assert_eq!(t.rooms[4].children, vec![6]);
    assert_eq!(t.rooms[6].id, 6);
    assert!(t.rooms[6].children.is_empty());
}

fn well_formed(t: &DungeonTree) -> bool {
    let n = t.rooms.len();
    let mut seen = vec![false; n];
    for (i, r) in t.rooms.iter().enumerate() {
        if r.id != i {
            return false;
        }
        for &c in &r.children {
            if c <= i || c >= n || seen[c] {
                return false;
            }
            seen[c] = true;
        }
    }
    t.root == 0 && n > 0
}

fn plain_chain(len: usize) -> DungeonTree {
    let mut rooms = Vec::new();
    for i in 0..len {
        let children = if i + 1 < len { vec![i + 1] } else { vec![] };
        let dir = if i == 0 { None } else { Some(Direction::Down) };
        rooms.push(room(i, RoomKind::Normal, dir, children));
    }
    tree_of(rooms)
}

#[test]
fn crossover_of_plain_trees_succeeds() {
    for seed in 0u64..10 {
        let mut a = plain_chain(4);
        let mut b = plain_chain(3);
        let mut rng = Rng::new(seed);
        assert!(DungeonTree::crossover(&mut a, &mut b, &mut rng));
        assert!(well_formed(&a) && well_formed(&b));
        // Each tree gained a copy of the other's cut subtree.
        assert!(a.rooms.len() > 4 && a.rooms.len() <= 4 + 2);
        assert!(b.rooms.len() > 3 && b.rooms.len() <= 3 + 3);
        assert!(a.rooms.iter().all(|r| r.kind == RoomKind::Normal));
    }
}

#[test]
fn crossover_with_special_subtrees_fails_and_keeps_trees() {
    let mut a = tree_of(vec![
        room(0, RoomKind::Normal, None, vec![1]),
        room(1, RoomKind::Key { key_id: 0 }, Some(Direction::Down), vec![]),
    ]);
    let mut b = tree_of(vec![
        room(0, RoomKind::Normal, None, vec![1]),
        room(1, RoomKind::Locked { key_id: 0 }, Some(Direction::Right), vec![]),
    ]);
    let mut rng = Rng::new(9);
    assert!(!DungeonTree::crossover(&mut a, &mut b, &mut rng));
    assert_eq!(a.rooms.len(), 2);
    assert_eq!(a.rooms[1].kind, RoomKind::Key { key_id: 0 });
    assert_eq!(a.rooms[0].children, vec![1]);
    assert_eq!(b.rooms[1].kind, RoomKind::Locked { key_id: 0 });
}

#[test]
fn crossover_with_switch_subtrees_succeeds() {
    let mut a = tree_of(vec![
        room(0, RoomKind::Normal, None, vec![1]),
        room(1, RoomKind::Switch, Some(Direction::Down), vec![]),
    ]);
    let mut b = tree_of(vec![
        room(0, RoomKind::Normal, None, vec![1]),
        room(1, RoomKind::SwitchDoor, Some(Direction::Right), vec![]),
    ]);
    let mut rng = Rng::new(9);
    assert!(DungeonTree::crossover(&mut a, &mut b, &mut rng));
    assert!(a.rooms.iter().all(|r| !matches!(r.kind, RoomKind::Key { .. } | RoomKind::Locked { .. })));
    assert!(matches!(a.rooms[1].kind, RoomKind::Normal | RoomKind::SwitchDoor));
}

#[test]
fn crossover_of_single_rooms_fails() {
    let mut a = plain_chain(1);
    let mut b = plain_chain(5);
    let mut rng = Rng::new(2);
    assert!(!DungeonTree::crossover(&mut a, &mut b, &mut rng));
    assert_eq!(a.rooms.len(), 1);
    assert_eq!(b.rooms.len(), 5);
}

#[test]
fn crossover_exact_single_cut() {
    // Only room 1 can be cut in each tree.
    let mut a = tree_of(vec![
        room(0, RoomKind::Normal, None, vec![1]),
        room(1, RoomKind::Normal, Some(Direction::Down), vec![]),
    ]);
    let mut b = tree_of(vec![
        room(0, RoomKind::Normal, None, vec![1]),
        room(1, RoomKind::Normal, Some(Direction::Right), vec![2]),
        room(2, RoomKind::Normal, Some(Direction::Left), vec![]),
    ]);
    let mut rng = Rng::new(0);
    assert!(DungeonTree::crossover(&mut a, &mut b, &mut rng));
    // a: room 1 detached, copies of b's rooms 1, 2 appended as 2, 3.
    assert_eq!(a.rooms.len(), 4);
    assert_eq!(a.rooms[0].children, vec![2]);
    assert!(a.rooms[1].children.is_empty());
    assert_eq!(a.rooms[2].children, vec![3]);
    assert_eq!(a.rooms[2].direction, Some(Direction::Down));
    assert_eq!(a.rooms[3].direction, Some(Direction::Left));
    // b: rooms 1, 2 detached, copy of a's room 1 appended as 3.
    assert_eq!(b.rooms.len(), 4);
    assert_eq!(b.rooms[0].children, vec![3]);
    assert!(b.rooms[1].children.is_empty());
    assert_eq!(b.rooms[3].direction, Some(Direction::Right));
}

#[test]
fn mutation_keeps_trees_well_formed_and_keys_renumbered() {
    for seed in 0u64..30 {
        let mut rng = Rng::new(seed);
        let mut t = DungeonTree::generate(&mut rng);
        for _ in 0..5 {
            mutate(&mut t, &mut rng);
            assert!(well_formed(&t));
            let mut next = 0u32;
            let mut keys = std::collections::HashSet::new();
            for r in &t.rooms {
                match r.kind {
                    RoomKind::Key { key_id } => {
                        if !keys.contains(&key_id) {
                            assert_eq!(key_id, next);
                            keys.insert(key_id);
                            next += 1;
                        }
                    }
                    RoomKind::Locked { key_id } => assert!(keys.contains(&key_id)),
                    _ => {}
                }
            }
        }
    }
}

#[test]
fn mutation_operators_keep_trees_well_formed() {
    for seed in 0u64..20 {
        let mut rng = Rng::new(seed);
        let mut t = DungeonTree::generate(&mut rng);
        let n = t.rooms.len();
        t.mutate_mission(&mut rng);
        assert_eq!(t.rooms.len(), n);
        t.mutate_switches(&mut rng);
        assert_eq!(t.rooms.len(), n);
        t.mutate_play_space(&mut rng);
        assert!(t.rooms.len() == n || t.rooms.len() == n + 1);
        assert!(well_formed(&t));
    }
}

#[test]
fn generated_trees_respect_depth_and_fanout() {
    for seed in 0u64..30 {
        let mut rng = Rng::new(seed);
        let t = DungeonTree::generate(&mut rng);
        assert!(well_formed(&t));
        for r in &t.rooms {
            assert!(r.children.len() <= 3);
            assert!(r.depth <= 10);
            for &c in &r.children {
                assert_eq!(t.rooms[c].depth, r.depth + 1);
            }
        }
    }
}

#[test]
fn critical_path_respects_a_lock_without_key() {
    let t = tree_of(vec![
        room(0, RoomKind::Normal, None, vec![1, 2]),
        room(1, RoomKind::Locked { key_id: 0 }, Some(Direction::Right), vec![3]),
        room(2, RoomKind::Normal, Some(Direction::Left), vec![]),
        room(3, RoomKind::Normal, Some(Direction::Right), vec![]),
    ]);
    let g = DungeonGrid::from_tree(&t);
    assert!(dungeon_gen::pathfinding::critical_path_rooms(&t, &g, 0, 3).is_empty());
}

#[test]
fn critical_path_passes_a_lock_with_its_key() {
    let t = tree_of(vec![
        room(0, RoomKind::Normal, None, vec![1, 2]),
        room(1, RoomKind::Locked { key_id: 0 }, Some(Direction::Right), vec![3]),
        room(2, RoomKind::Key { key_id: 0 }, Some(Direction::Left), vec![]),
        room(3, RoomKind::Normal, Some(Direction::Right), vec![]),
    ]);
    let g = DungeonGrid::from_tree(&t);
    let mut path = dungeon_gen::pathfinding::critical_path_rooms(&t, &g, 0, 3);
    path.sort();
    assert_eq!(path, vec![0, 1, 3]);
}

#[test]
fn special_count_counts_keys_and_locks_only() {
    let t = tree_of(vec![
        room(0, RoomKind::Normal, None, vec![1, 2]),
        room(1, RoomKind::Switch, Some(Direction::Right), vec![]),
        room(2, RoomKind::Key { key_id: 0 }, Some(Direction::Left), vec![]),
    ]);
    assert_eq!(t.special_count_in_subtree(0), 1);
}

#[test]
fn astar_fetches_the_key_before_the_lock() {
    let t = tree_of(vec![
        room(0, RoomKind::Normal, None, vec![1, 2]),
        room(1, RoomKind::Locked { key_id: 0 }, Some(Direction::Right), vec![3]),
        room(2, RoomKind::Key { key_id: 0 }, Some(Direction::Left), vec![]),
        room(3, RoomKind::Normal, Some(Direction::Right), vec![]),
    ]);
    let g = DungeonGrid::from_tree(&t);
    assert_eq!(dungeon_gen::pathfinding::astar_locks_opened(&t, &g, 0, 3), Some(1));
    assert_eq!(dungeon_gen::pathfinding::astar_locks_opened(&t, &g, 0, 2), Some(0));
    assert_eq!(dungeon_gen::pathfinding::astar_locks_opened(&t, &g, 0, 1), Some(1));
}

#[test]
fn astar_stops_at_a_lock_without_key() {
    let t = tree_of(vec![
        room(0, RoomKind::Normal, None, vec![1, 2]),
        room(1, RoomKind::Locked { key_id: 0 }, Some(Direction::Right), vec![3]),
        room(2, RoomKind::Normal, Some(Direction::Left), vec![]),
        room(3, RoomKind::Normal, Some(Direction::Right), vec![]),
    ]);
    let g = DungeonGrid::from_tree(&t);
    assert_eq!(dungeon_gen::pathfinding::astar_locks_opened(&t, &g, 0, 3), None);
    assert_eq!(dungeon_gen::pathfinding::astar_locks_opened_with_content(&t, &g, 0, 3, &[]), None);
}

#[test]
fn grid_neighbours_are_symmetric() {
    for seed in 0u64..10 {
        let mut rng = Rng::new(seed);
        let t = DungeonTree::generate(&mut rng);
        let g = DungeonGrid::from_tree(&t);
        for a in g.placed_room_ids() {
            for b in g.neighbours(a) {
                assert!(g.neighbours(b).contains(&a), "{} next to {} but not back (seed {})", a, b, seed);
            }
        }
    }
}

#[test]
fn rooms_in_subtree_bounded_by_subtree() {
    for seed in 0u64..10 {
        let mut rng = Rng::new(seed);
        let t = DungeonTree::generate(&mut rng);
        let g = DungeonGrid::from_tree(&t);
        for id in 0..t.rooms.len() {
            assert!(g.rooms_in_subtree(id, &t) <= t.subtree_ids(id).len());
            assert!(g.rooms_in_subtree(id, &t) <= g.placed_room_ids().len());
        }
        assert_eq!(g.rooms_in_subtree(t.root, &t), g.placed_room_ids().len());
    }
}
