use dungeon_gen::content::{place_content, ContentConfig};
use dungeon_gen::grid::DungeonGrid;
use dungeon_gen::pathfinding::{
    astar_locks_opened, astar_locks_opened_with_content, critical_path_rooms, dfs_total_rooms_visited,
    find_goal, find_goal_in_grid,
};
use dungeon_gen::rng::Rng;
use dungeon_gen::tree::DungeonTree;

#[test]
fn astar_reaches_goal_when_reachable() {
    for seed in 0u64..30 {
        let mut rng = Rng::new(seed);
        let tree = DungeonTree::generate(&mut rng);
        let grid = DungeonGrid::from_tree(&tree);
        let mut tree = tree;
        let mut grid = grid;
        tree.repair_orphaned_locks(&grid);
        let goal = find_goal_in_grid(&tree, Some(&grid));
        let cfg = ContentConfig::default();
        let (content, exit_id) = place_content(&mut tree, &mut grid, goal, &cfg, &mut rng);
        let result = astar_locks_opened_with_content(&tree, &grid, tree.root, exit_id, &content);
        assert!(result.is_some(), "A* could not reach exit for seed {}", seed);
    }
}

#[test]
fn dfs_visits_positive_rooms() {
    let mut rng = Rng::new(7);
    let tree = DungeonTree::generate(&mut rng);
    let grid = DungeonGrid::from_tree(&tree);
    let total = dfs_total_rooms_visited(&tree, &grid, tree.root, &[], &mut rng);
    let avg = total as f64 / 3.0;
    assert!(avg >= 1.0, "DFS should visit at least the start room");
}

#[test]
fn astar_start_is_goal() {
    let mut rng = Rng::new(21);
    let tree = DungeonTree::generate(&mut rng);
    let grid = DungeonGrid::from_tree(&tree);
    assert_eq!(astar_locks_opened(&tree, &grid, tree.root, tree.root), Some(0));
}

#[test]
fn astar_unplaced_goal_is_none() {
    let mut rng = Rng::new(22);
    let tree = DungeonTree::generate(&mut rng);
    let grid = DungeonGrid::from_tree(&tree);
    let outside = tree.rooms.len() + 5;
    assert_eq!(astar_locks_opened(&tree, &grid, tree.root, outside), None);
}

#[test]
fn goal_is_a_room() {
    for seed in 0u64..20 {
        let mut rng = Rng::new(seed);
        let tree = DungeonTree::generate(&mut rng);
        let g = find_goal(&tree);
        assert!(g < tree.rooms.len());
        let grid = DungeonGrid::from_tree(&tree);
        let gg = find_goal_in_grid(&tree, Some(&grid));
        assert!(grid.pos_of(gg).is_some());
    }
}

#[test]
fn critical_path_contains_both_ends() {
    for seed in 0u64..10 {
        let mut rng = Rng::new(seed);
        let tree = DungeonTree::generate(&mut rng);
        let grid = DungeonGrid::from_tree(&tree);
        let goal = find_goal_in_grid(&tree, Some(&grid));
        let path = critical_path_rooms(&tree, &grid, tree.root, goal);
        assert!(path.contains(&tree.root));
        assert!(path.contains(&goal));
    }
}

#[test]
fn dfs_total_within_bounds() {
    for seed in 0u64..10 {
        let mut rng = Rng::new(seed);
        let tree = DungeonTree::generate(&mut rng);
        let grid = DungeonGrid::from_tree(&tree);
        let total = dfs_total_rooms_visited(&tree, &grid, tree.root, &[], &mut rng);
        assert!(total >= 3 && total <= 3 * tree.rooms.len());
    }
}

#[test]
fn critical_path_from_an_id_without_a_room() {
    let mut rng = Rng::new(5);
    let tree = DungeonTree::generate(&mut rng);
    let grid = DungeonGrid::from_tree(&tree);
    let far = tree.rooms.len() + 7;
    assert_eq!(critical_path_rooms(&tree, &grid, far, far), vec![far]);
    assert!(critical_path_rooms(&tree, &grid, tree.root, far).is_empty());
    assert!(critical_path_rooms(&tree, &grid, far, tree.root).is_empty());
}

#[test]
fn goal_in_grid_is_the_full_goal_without_content() {
    for seed in 0u64..20 {
        let mut rng = Rng::new(seed);
        let tree = DungeonTree::generate(&mut rng);
        let grid = DungeonGrid::from_tree(&tree);
        assert_eq!(find_goal_in_grid(&tree, Some(&grid)), dungeon_gen::pathfinding::find_goal_full(&tree, Some(&grid), &[]));
        assert_eq!(find_goal(&tree), dungeon_gen::pathfinding::find_goal_full(&tree, None, &[]));
    }
}
