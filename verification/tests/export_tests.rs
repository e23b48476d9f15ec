use dungeon_gen::content::{
    place_content, ContentConfig, EnemyGroup, RoomContent, Sign, SignKind, SwitchDoor, SwitchState,
};
use dungeon_gen::export::dungeon_text;
use dungeon_gen::grid::DungeonGrid;
use dungeon_gen::layout::{TileKind, TileMap, TileRoom, TOTAL_TILES};
use dungeon_gen::pathfinding::find_goal_in_grid;
use dungeon_gen::rng::Rng;
use dungeon_gen::room::{Direction, Room, RoomKind};
use dungeon_gen::tree::DungeonTree;

fn two_room_dungeon() -> (DungeonTree, DungeonGrid) {
    let mut root = Room::new(0, RoomKind::Normal, None, 0);
    root.children = vec![1];
    let key = Room::new(1, RoomKind::Key { key_id: 12 }, Some(Direction::Left), 1);
    let tree = DungeonTree { rooms: vec![root, key], root: 0 };
    let grid = DungeonGrid::from_tree(&tree);
    (tree, grid)
}

fn tiles_with(col: usize, row: usize, t: TileKind) -> [TileKind; TOTAL_TILES] {
    let mut tiles = [TileKind::Floor; TOTAL_TILES];
    tiles[row * 11 + col] = t;
    tiles
}

#[test]
fn dungeon_text_exact() {
    let (tree, grid) = two_room_dungeon();
    assert_eq!((grid.min_x, grid.min_y), (-1, 0));
    let mut c0 = RoomContent::default();
    c0.enemies = Some(EnemyGroup::boss(1));
    c0.switch = Some(SwitchState { switch_id: 2, signals: vec![3, 40] });
    c0.switch_door = Some(SwitchDoor { door_id: 5, signals: vec![] });
    c0.sign = Some(Sign { kind: SignKind::Atmospheric, text: "hello there".to_string() });
    let c1 = RoomContent::default();
    let map = TileMap {
        rooms: vec![
            TileRoom { room_id: 0, world_origin: (0, 0), tiles: tiles_with(1, 0, TileKind::Stairs) },
            TileRoom { room_id: 1, world_origin: (-11, 0), tiles: tiles_with(0, 2, TileKind::LockedDoor) },
        ],
        world_min: (-11, 0),
        world_max: (11, 11),
    };
    let text = dungeon_text(&tree, &grid, &[c0, c1], &map);

    let mut expected = String::new();
    expected.push_str("1\n0\n");
    for col in 0..11 {
        for row in 0..11 {
            expected.push(if col == 1 && row == 0 { 'X' } else { '.' });
        }
        expected.push('\n');
    }
    expected.push_str("boss\nenemies 1\nswitch 2 : 3 40\ndoor 5 :\nsign hello there\n\n");
    expected.push_str("0\n0\n");
    for col in 0..11 {
        for row in 0..11 {
            expected.push(if col == 0 && row == 2 { 'l' } else { '.' });
        }
        expected.push('\n');
    }
    expected.push_str("key : 12\n\n");
    assert_eq!(text, expected);
}

#[test]
fn dungeon_text_tile_codes() {
    let (tree, grid) = two_room_dungeon();
    let kinds = [
        (TileKind::Wall, '#'),
        (TileKind::Pillar, '#'),
        (TileKind::Water, '#'),
        (TileKind::Door, 'D'),
        (TileKind::SwitchDoor, 'd'),
        (TileKind::Pit, 'p'),
        (TileKind::Chest, 'k'),
        (TileKind::SwitchTile, 's'),
        (TileKind::Sign, '?'),
        (TileKind::Spawn, '@'),
        (TileKind::EnemySpawn, 'e'),
        (TileKind::BossSpawn, 'e'),
    ];
    for (kind, ch) in kinds {
        let map = TileMap {
            rooms: vec![TileRoom { room_id: 0, world_origin: (0, 0), tiles: tiles_with(3, 4, kind) }],
            world_min: (0, 0),
            world_max: (11, 11),
        };
        let text = dungeon_text(&tree, &grid, &[RoomContent::default(), RoomContent::default()], &map);
        let lines: Vec<&str> = text.split('\n').collect();
        // Lines 0 and 1 are the room's column and row; line 2 + c is column c.
        assert_eq!(lines[2 + 3].chars().nth(4), Some(ch));
        assert_eq!(lines[2 + 3].chars().count(), 11);
    }
}

#[test]
fn dungeon_text_for_built_dungeon() {
    let mut rng = Rng::new(8);
    let mut tree = DungeonTree::generate(&mut rng);
    let mut grid = DungeonGrid::from_tree(&tree);
    let goal = find_goal_in_grid(&tree, Some(&grid));
    let (content, exit) = place_content(&mut tree, &mut grid, goal, &ContentConfig::default(), &mut rng);
    let map = TileMap::build(&tree, &grid, &content, exit, &mut rng);
    let text = dungeon_text(&tree, &grid, &content, &map);
    // One block per tile room, each ended by a blank line.
    assert_eq!(text.matches("\n\n").count(), map.rooms.len());
    assert!(text.contains('X'));
    assert!(text.contains("boss\nenemies"));
}
