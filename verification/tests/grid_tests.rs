use dungeon_gen::grid::DungeonGrid;
use dungeon_gen::rng::Rng;
use dungeon_gen::tree::DungeonTree;

#[test]
fn root_at_origin() {
    let mut rng = Rng::new(11);
    let tree = DungeonTree::generate(&mut rng);
    let grid = DungeonGrid::from_tree(&tree);
    assert_eq!(grid.pos_of(tree.root), Some((0, 0)));
}

#[test]
fn no_duplicate_cells() {
    for seed in 0u64..30 {
        let mut rng = Rng::new(seed);
        let tree = DungeonTree::generate(&mut rng);
        let grid = DungeonGrid::from_tree(&tree);
        let ids = grid.placed_room_ids();
        let unique: std::collections::HashSet<_> = ids.iter().copied().collect();
        assert_eq!(ids.len(), unique.len(), "Duplicate room IDs for seed {}", seed);
    }
}

#[test]
fn every_decoded_room_has_a_neighbour() {
    for seed in 0u64..30 {
        let mut rng = Rng::new(seed);
        let tree = DungeonTree::generate(&mut rng);
        let grid = DungeonGrid::from_tree(&tree);
        let ids = grid.placed_room_ids();
        if ids.len() < 2 {
            continue;
        }
        for &id in &ids {
            assert!(!grid.neighbours(id).is_empty(), "room {} alone (seed {})", id, seed);
        }
    }
}

#[test]
fn placed_rooms_hang_below_the_root() {
    for seed in 0u64..20 {
        let mut rng = Rng::new(seed);
        let tree = DungeonTree::generate(&mut rng);
        let grid = DungeonGrid::from_tree(&tree);
        for id in grid.placed_room_ids() {
            let mut cur = id;
            let mut steps = 0;
            while cur != tree.root {
                assert!(tree.rooms[cur].direction.is_some(), "seed {} room {}", seed, cur);
                let p = tree.parent_of(cur).expect("a placed room other than the root has a parent");
                assert!(grid.is_placed(p), "seed {} parent {} of {}", seed, p, cur);
                cur = p;
                steps += 1;
                assert!(steps <= tree.rooms.len());
            }
        }
    }
}
