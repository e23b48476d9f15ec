use dungeon_gen::content::{
    ascii_map_with_content, enemies_of, place_content, signs_of, ContentConfig,
};
use dungeon_gen::grid::DungeonGrid;
use dungeon_gen::pathfinding::find_goal_in_grid;
use dungeon_gen::rng::Rng;
use dungeon_gen::room::{Direction, Room, RoomKind};
use dungeon_gen::tree::DungeonTree;

#[test]
fn direction_offsets() {
    assert_eq!(Direction::Right.offset(), (1, 0));
    assert_eq!(Direction::Left.offset(), (-1, 0));
    assert_eq!(Direction::Down.offset(), (0, 1));
    assert_eq!(Direction::all(), [Direction::Right, Direction::Left, Direction::Down]);
}

#[test]
fn rotation_keeps_parent_north() {
    let (r, l, d) = (Direction::Right, Direction::Left, Direction::Down);
    assert_eq!(r.rotate_for_parent(d), r);
    assert_eq!(r.rotate_for_parent(r), d);
    assert_eq!(l.rotate_for_parent(r), r);
    assert_eq!(d.rotate_for_parent(r), l);
    assert_eq!(r.rotate_for_parent(l), d);
    assert_eq!(l.rotate_for_parent(l), l);
    assert_eq!(d.rotate_for_parent(l), r);
    for p in Direction::all() {
        let mut seen = Vec::new();
        for c in Direction::all() {
            let r = c.rotate_for_parent(p);
            assert!(r.offset().1 >= 0);
            assert!(!seen.contains(&r));
            seen.push(r);
        }
    }
}

#[test]
fn room_kind_predicates() {
    let k = RoomKind::Key { key_id: 4 };
    assert!(k.is_key() && k.is_special() && !k.is_normal());
    assert_eq!(k.key_id(), Some(4));
    let l = RoomKind::Locked { key_id: 2 };
    assert!(l.is_locked());
    assert_eq!(l.key_id(), Some(2));
    assert!(RoomKind::Switch.is_switch());
    assert!(RoomKind::SwitchDoor.is_switch_door());
    assert_eq!(RoomKind::Normal.key_id(), None);
    assert!(!RoomKind::Normal.is_special());
}

#[test]
fn room_new_has_no_children() {
    let r = Room::new(3, RoomKind::Switch, Some(Direction::Left), 2);
    assert_eq!((r.id, r.kind, r.direction, r.depth, r.grid_pos), (3, RoomKind::Switch, Some(Direction::Left), 2, (0, 0)));
    assert!(r.children.is_empty());
}

#[test]
fn content_map_shows_exit_and_boss() {
    for seed in 0u64..10 {
        let mut rng = Rng::new(seed);
        let mut tree = DungeonTree::generate(&mut rng);
        let mut grid = DungeonGrid::from_tree(&tree);
        let goal = find_goal_in_grid(&tree, Some(&grid));
        let (content, exit_id) = place_content(&mut tree, &mut grid, goal, &ContentConfig::default(), &mut rng);
        let text = ascii_map_with_content(&tree, &grid, &content);
        assert!(text.contains('X'));
        assert!(text.contains('S'));
        if goal != tree.root {
            assert!(text.contains('B'));
        }
        assert!(grid.pos_of(exit_id).is_some());
        let signs = signs_of(&grid, &content);
        for (x, y, s) in &signs {
            assert!(!s.text.is_empty());
            assert!(grid.min_x <= *x && *x <= grid.max_x && grid.min_y <= *y && *y <= grid.max_y);
        }
        let enemies = enemies_of(&grid, &content);
        assert!(enemies.iter().filter(|(_, _, e)| e.is_boss).count() <= 1);
    }
}
