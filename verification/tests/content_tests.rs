use dungeon_gen::content::{place_content, ContentConfig, RoomContent, SignKind};
use dungeon_gen::grid::DungeonGrid;
use dungeon_gen::pathfinding::{all_switches, find_goal_in_grid};
use dungeon_gen::rng::Rng;
use dungeon_gen::room::RoomKind;
use dungeon_gen::tree::DungeonTree;

fn make(seed: u64) -> (DungeonTree, DungeonGrid, Vec<RoomContent>, usize) {
    let mut rng = Rng::new(seed);
    let tree = DungeonTree::generate(&mut rng);
    let grid = DungeonGrid::from_tree(&tree);
    let goal = find_goal_in_grid(&tree, Some(&grid));
    let cfg = ContentConfig::default();
    let mut tree = tree;
    let mut grid = grid;
    let (content, exit_id) = place_content(&mut tree, &mut grid, goal, &cfg, &mut rng);
    (tree, grid, content, exit_id)
}

#[test]
fn boss_on_goal_room() {
    for seed in 0u64..20 {
        let mut rng = Rng::new(seed);
        let tree = DungeonTree::generate(&mut rng);
        let grid = DungeonGrid::from_tree(&tree);
        let goal = find_goal_in_grid(&tree, Some(&grid));
        let cfg = ContentConfig { target_enemy_groups: 2, ..Default::default() };
        let mut tree = tree;
        let mut grid = grid;
        let (content, _) = place_content(&mut tree, &mut grid, goal, &cfg, &mut rng);
        let eg = content.get(goal).and_then(|c| c.enemies.as_ref());
        assert!(eg.is_some_and(|e| e.is_boss), "Goal room {} should have boss (seed {})", goal, seed);
    }
}

#[test]
fn enemies_not_on_root() {
    for seed in 0u64..20 {
        let (tree, _, content, _) = make(seed);
        let has_enemies_on_root = content
            .get(tree.root)
            .and_then(|c| c.enemies.as_ref())
            .is_some_and(|e| !e.is_boss);
        assert!(!has_enemies_on_root, "Root should never have enemy group (seed {})", seed);
    }
}

#[test]
fn switch_door_signals_non_empty() {
    for seed in 0u64..30 {
        let (_, _, content, _) = make(seed);
        for c in &content {
            if let Some(door) = &c.switch_door {
                assert!(!door.signals.is_empty(), "SwitchDoor has empty signal list");
            }
            if let Some(sw) = &c.switch {
                assert!(!sw.signals.is_empty(), "SwitchState has empty signal list");
            }
        }
    }
}

#[test]
fn signs_have_nonempty_text() {
    for seed in 0u64..20 {
        let (_, _, content, _) = make(seed);
        for c in &content {
            if let Some(sign) = &c.sign {
                assert!(!sign.text.is_empty(), "Sign has empty text");
            }
        }
    }
}

#[test]
fn content_vec_length_matches_rooms() {
    for seed in 0u64..10 {
        let (tree, _, content, _) = make(seed);
        assert_eq!(content.len(), tree.rooms.len(), "Content vec length mismatch for seed {}", seed);
    }
}

// The exit room is a new room, the child of the boss room, placed on the
// grid, and the only room flagged as the exit.
#[test]
fn exit_room_appended_under_boss() {
    for seed in 0u64..20 {
        let mut rng = Rng::new(seed);
        let mut tree = DungeonTree::generate(&mut rng);
        let mut grid = DungeonGrid::from_tree(&tree);
        let n_before = tree.rooms.len();
        let goal = find_goal_in_grid(&tree, Some(&grid));
        let (content, exit_id) = place_content(&mut tree, &mut grid, goal, &ContentConfig::default(), &mut rng);
        assert_eq!(exit_id, n_before);
        assert!(tree.rooms[goal].children.contains(&exit_id));
        assert!(grid.pos_of(exit_id).is_some());
        let exits: Vec<usize> = (0..content.len()).filter(|&i| content[i].is_exit).collect();
        assert_eq!(exits, vec![exit_id]);
    }
}

#[test]
fn default_content_config_values() {
    let cfg = ContentConfig::default();
    assert_eq!(cfg.target_enemy_groups, 4);
    assert_eq!(cfg.max_enemies_per_group, 3);
    assert_eq!(cfg.target_switch_pairs, 2);
    assert_eq!(cfg.max_signals_per_pair, 2);
    assert_eq!(cfg.prob_contextual_sign, 1u64 << 52);
    assert_eq!(cfg.prob_atmospheric_sign, 720575940379280);
}

#[test]
fn empty_content_is_empty() {
    let c = RoomContent::default();
    assert!(c.is_empty());
    let mut d = RoomContent::default();
    d.is_exit = true;
    assert!(!d.is_empty());
}

#[test]
fn enemy_group_constructors() {
    let r = dungeon_gen::content::EnemyGroup::regular(3);
    assert_eq!((r.count, r.is_boss), (3, false));
    let b = dungeon_gen::content::EnemyGroup::boss(1);
    assert_eq!((b.count, b.is_boss), (1, true));
}

// No enemy group count exceeds the configured maximum.
#[test]
fn enemy_counts_within_config() {
    for seed in 0u64..15 {
        let (_, _, content, _) = make(seed);
        for c in &content {
            if let Some(e) = &c.enemies {
                if !e.is_boss {
                    assert!(e.count >= 1 && e.count <= 3);
                }
            }
        }
    }
}

#[test]
fn each_switch_door_is_worked_by_its_own_switch() {
    let mut doors_seen = 0;
    for seed in 0u64..40 {
        let (_tree, _grid, content, _exit) = make(seed);
        let switches = all_switches(&content);
        for c in &content {
            if let Some(door) = &c.switch_door {
                doors_seen += 1;
                let sw = switches.iter().find(|s| s.switch_id == door.door_id).expect("paired switch");
                assert_eq!(sw.signals, door.signals);
                assert!(!door.is_open(0, &switches));
                if sw.switch_id < 64 {
                    assert!(door.is_open(1u64 << sw.switch_id, &switches));
                }
                for other in &switches {
                    if other.switch_id != sw.switch_id && other.switch_id < 64 {
                        assert!(!door.is_open(1u64 << other.switch_id, &switches));
                    }
                }
            }
        }
    }
    assert!(doors_seen > 0);
}

#[test]
fn enemy_groups_and_signs_follow_the_rules() {
    let cfg = ContentConfig::default();
    for seed in 0u64..40 {
        let (tree, grid, content, _exit) = make(seed);
        for (id, c) in content.iter().enumerate() {
            if let Some(e) = &c.enemies {
                if !e.is_boss {
                    assert!(e.count >= 1 && e.count <= cfg.max_enemies_per_group);
                }
            }
            if let Some(sign) = &c.sign {
                assert!(tree.rooms[id].kind.is_normal());
                match sign.kind {
                    SignKind::Atmospheric => assert!(c.enemies.is_none()),
                    SignKind::Contextual => {
                        assert!(grid.neighbours(id).iter().any(|&nb| !tree.rooms[nb].kind.is_normal()));
                    }
                }
            }
        }
    }
}

#[test]
fn enemy_groups_and_switch_pairs_within_targets() {
    let cfg = ContentConfig::default();
    for seed in 0u64..40 {
        let (_tree, _grid, content, _exit) = make(seed);
        let groups = content.iter().filter(|c| c.enemies.as_ref().is_some_and(|e| !e.is_boss)).count();
        let switches = content.iter().filter(|c| c.switch.is_some()).count();
        let doors = content.iter().filter(|c| c.switch_door.is_some()).count();
        assert!(groups <= cfg.target_enemy_groups as usize);
        assert!(switches <= cfg.target_switch_pairs as usize);
        assert_eq!(switches, doors);
    }
}

#[test]
fn enemy_groups_follow_the_shuffled_pool() {
    for seed in 0u64..12 {
        let mut rng = Rng::new(seed);
        let tree = DungeonTree::generate(&mut rng);
        let grid = DungeonGrid::from_tree(&tree);
        let goal = find_goal_in_grid(&tree, Some(&grid));
        let cfg = ContentConfig::default();
        let n = tree.rooms.len();
        let mut pool: Vec<usize> = tree
            .bfs_order()
            .into_iter()
            .filter(|&id| {
                grid.is_placed(id) && id != tree.root && id != goal && id != n && tree.rooms[id].kind == RoomKind::Normal
            })
            .collect();
        let mut twin = rng.clone();
        let mut tree = tree;
        let mut grid = grid;
        let (content, exit_id) = place_content(&mut tree, &mut grid, goal, &cfg, &mut rng);
        assert_eq!(exit_id, n, "seed {}", seed);
        twin.shuffle(&mut pool);
        let k = (cfg.target_enemy_groups as usize).min(pool.len());
        for j in 0..k {
            let size = 1 + twin.next_usize(cfg.max_enemies_per_group as usize);
            let e = content[pool[j]].enemies.expect("group on a drawn room");
            assert!(!e.is_boss);
            assert_eq!(e.count as usize, size, "seed {} room {}", seed, pool[j]);
        }
        for id in 0..content.len() {
            if let Some(e) = content[id].enemies {
                assert!(e.is_boss || pool[..k].contains(&id), "seed {} room {}", seed, id);
            }
        }
    }
}

#[test]
fn switch_and_door_ids_run_from_zero() {
    for seed in 0u64..20 {
        let (_, _, content, _) = make(seed);
        let mut sw: Vec<u32> = content.iter().filter_map(|c| c.switch.as_ref().map(|s| s.switch_id)).collect();
        let mut dr: Vec<u32> = content.iter().filter_map(|c| c.switch_door.as_ref().map(|d| d.door_id)).collect();
        sw.sort();
        dr.sort();
        let expected: Vec<u32> = (0..sw.len() as u32).collect();
        assert_eq!(sw, expected, "seed {}", seed);
        assert_eq!(dr, expected, "seed {}", seed);
    }
}
