use dungeon_gen::content::{place_content, ContentConfig, RoomContent};
use dungeon_gen::grid::DungeonGrid;
use dungeon_gen::layout::{TileKind, TileMap, CELL_SIZE, TOTAL_TILES};
use dungeon_gen::pathfinding::find_goal_in_grid;
use dungeon_gen::rng::Rng;
use dungeon_gen::tree::DungeonTree;

struct Built {
    tree: DungeonTree,
    grid: DungeonGrid,
    content: Vec<RoomContent>,
    exit_id: usize,
    map: TileMap,
}

fn dungeon(seed: u64) -> Built {
    let mut rng = Rng::new(seed);
    let mut tree = DungeonTree::generate(&mut rng);
    let mut grid = DungeonGrid::from_tree(&tree);
    tree.repair_orphaned_locks(&grid);
    let goal = find_goal_in_grid(&tree, Some(&grid));
    let (content, exit_id) = place_content(&mut tree, &mut grid, goal, &ContentConfig::default(), &mut rng);
    let map = TileMap::build(&tree, &grid, &content, exit_id, &mut rng);
    Built { tree, grid, content, exit_id, map }
}

const DOORS: [(usize, usize); 4] = [(5, 0), (5, 10), (0, 5), (10, 5)];

#[test]
fn one_tile_room_per_placed_room() {
    for seed in 0u64..10 {
        let d = dungeon(seed);
        assert_eq!(d.map.rooms.len(), d.grid.placed_room_ids().len());
    }
}

#[test]
fn tile_rooms_framed_by_walls_and_doors() {
    for seed in 0u64..10 {
        let d = dungeon(seed);
        for tr in &d.map.rooms {
            for i in 0..CELL_SIZE {
                for (col, row) in [(i, 0usize), (i, 10), (0, i), (10, i)] {
                    let t = tr.get(col, row);
                    if DOORS.contains(&(col, row)) {
                        assert!(matches!(t, TileKind::Wall | TileKind::Door | TileKind::LockedDoor | TileKind::SwitchDoor));
                    } else {
                        assert_eq!(t, TileKind::Wall);
                    }
                }
            }
            for row in 1..=9 {
                for col in 1..=9 {
                    assert_ne!(tr.get(col, row), TileKind::Wall);
                }
            }
        }
    }
}

#[test]
fn tile_origins_follow_grid() {
    for seed in 0u64..5 {
        let d = dungeon(seed);
        for tr in &d.map.rooms {
            let gp = d.grid.pos_of(tr.room_id).unwrap();
            assert_eq!(tr.world_origin, (gp.0 * CELL_SIZE as i32, gp.1 * CELL_SIZE as i32));
            assert_eq!(tr.to_world(3, 4), (tr.world_origin.0 + 3, tr.world_origin.1 + 4));
        }
    }
}

#[test]
fn door_kinds_agree_across_walls() {
    for seed in 0u64..30 {
        let d = dungeon(seed);
        for tr in &d.map.rooms {
            let p = d.grid.pos_of(tr.room_id).unwrap();
            for nb in d.grid.neighbours(tr.room_id) {
                let q = d.grid.pos_of(nb).unwrap();
                let (mc, mr, nc, nr) = match (q.0 - p.0, q.1 - p.1) {
                    (1, 0) => (10, 5, 0, 5),
                    (-1, 0) => (0, 5, 10, 5),
                    (0, 1) => (5, 10, 5, 0),
                    (0, -1) => (5, 0, 5, 10),
                    _ => continue,
                };
                let other = d.map.room_for(nb).unwrap();
                assert_eq!(tr.get(mc, mr), other.get(nc, nr));
            }
        }
    }
}

#[test]
fn spawn_stairs_and_boss_markers() {
    for seed in 0u64..10 {
        let d = dungeon(seed);
        let count = |id: usize, k: TileKind| {
            let tr = d.map.room_for(id).unwrap();
            (0..TOTAL_TILES).filter(|&i| tr.tiles[i] == k).count()
        };
        assert_eq!(count(d.tree.root, TileKind::Spawn), 1);
        assert_eq!(count(d.exit_id, TileKind::Stairs), 1);
        for (id, c) in d.content.iter().enumerate() {
            if c.enemies.as_ref().is_some_and(|e| e.is_boss) {
                if d.map.room_for(id).is_some() {
                    assert_eq!(count(id, TileKind::BossSpawn), 1);
                }
            }
        }
    }
}

#[test]
fn door_positions_are_on_the_frame() {
    for seed in 0u64..5 {
        let d = dungeon(seed);
        for tr in &d.map.rooms {
            for (col, row, _) in tr.door_positions() {
                assert!(DOORS.contains(&(col, row)));
                assert!(matches!(tr.get(col, row), TileKind::Door | TileKind::LockedDoor | TileKind::SwitchDoor));
            }
        }
    }
}

#[test]
fn map_ascii_dimensions() {
    for seed in 0u64..5 {
        let d = dungeon(seed);
        let text = d.map.ascii();
        let lines: Vec<&str> = text.split('\n').collect();
        assert_eq!(lines.len() as i32, d.map.height());
        for l in lines {
            assert_eq!(l.chars().count() as i32, d.map.width());
        }
    }
}

#[test]
fn tile_walkability() {
    assert!(TileKind::Floor.is_walkable());
    assert!(TileKind::Door.is_walkable());
    assert!(TileKind::Chest.is_walkable());
    assert!(!TileKind::Wall.is_walkable());
    assert!(!TileKind::Pit.is_walkable());
    assert!(TileKind::Water.is_solid());
    assert!(!TileKind::Spawn.is_solid());
}

#[test]
fn tile_set_then_get() {
    let d = dungeon(1);
    let mut tr = d.map.rooms.into_iter().next().unwrap();
    tr.set(4, 6, TileKind::Pit);
    assert_eq!(tr.get(4, 6), TileKind::Pit);
    assert_eq!(tr.tiles[6 * CELL_SIZE + 4], TileKind::Pit);
}

/// Flood over walkable tiles from `start`, as the room layout walks.
fn walk_from(tiles: &[TileKind; TOTAL_TILES], start: usize, seen: &mut [bool; TOTAL_TILES]) {
    let mut stack = vec![start];
    seen[start] = true;
    while let Some(p) = stack.pop() {
        let (c, r) = (p % CELL_SIZE, p / CELL_SIZE);
        let mut next = Vec::new();
        if r + 1 < CELL_SIZE { next.push(p + CELL_SIZE); }
        if r >= 1 { next.push(p - CELL_SIZE); }
        if c + 1 < CELL_SIZE { next.push(p + 1); }
        if c >= 1 { next.push(p - 1); }
        for q in next {
            if !seen[q] && tiles[q].is_walkable() {
                seen[q] = true;
                stack.push(q);
            }
        }
    }
}

#[test]
fn every_walkable_tile_reached_from_a_door() {
    // the tile just inside north, south, east and west doors
    let inside: [((usize, usize), (usize, usize)); 4] = [((5, 0), (5, 1)), ((5, 10), (5, 9)), ((10, 5), (9, 5)), ((0, 5), (1, 5))];
    for seed in 0u64..20 {
        let d = dungeon(seed);
        for tr in &d.map.rooms {
            let mut seen = [false; TOTAL_TILES];
            let mut open = false;
            for &((dc, dr), (ic, ir)) in &inside {
                if tr.get(dc, dr) != TileKind::Wall {
                    open = true;
                    assert!(tr.get(ic, ir).is_walkable(), "entry blocked (seed {})", seed);
                    walk_from(&tr.tiles, ir * CELL_SIZE + ic, &mut seen);
                }
            }
            if !open {
                continue;
            }
            for row in 1..=9 {
                for col in 1..=9 {
                    if tr.get(col, row).is_walkable() {
                        assert!(seen[row * CELL_SIZE + col], "room {} tile ({},{}) unreachable (seed {})", tr.room_id, col, row, seed);
                    }
                }
            }
        }
    }
}

#[test]
fn key_rooms_have_chest_tile() {
    let mut seen = 0;
    for seed in 0u64..10 {
        let d = dungeon(seed);
        let placed = d.grid.placed_room_ids();
        for room in &d.tree.rooms {
            if !placed.contains(&room.id) {
                continue;
            }
            if !room.kind.is_key() {
                continue;
            }
            let tr = d.map.room_for(room.id).unwrap();
            let chests = (0..TOTAL_TILES).filter(|&i| tr.tiles[i] == TileKind::Chest).count();
            assert_eq!(chests, 1, "Key room {} should have exactly 1 Chest, got {} (seed {})", room.id, chests, seed);
            seen += 1;
        }
    }
    assert!(seen > 0);
}

#[test]
fn tile_room_count_matches_placed_rooms() {
    let d = dungeon(1);
    assert_eq!(d.map.rooms.len(), d.grid.placed_room_ids().len(), "TileMap should have one TileRoom per placed room");
}

#[test]
fn obstacle_density_in_range() {
    let d = dungeon(4);
    let interior = 81.0f64;
    for tr in &d.map.rooms {
        let obstacles = (1..=9usize)
            .flat_map(|row| (1..=9usize).map(move |col| (col, row)))
            .filter(|&(col, row)| matches!(tr.get(col, row), TileKind::Pillar | TileKind::Water | TileKind::Pit))
            .count();
        let density = obstacles as f64 / interior;
        assert!(density <= 0.30, "Room {} obstacle density {:.2} exceeds max 0.25+margin", tr.room_id, density);
    }
}

fn door_toward(room_pos: (i32, i32), parent_pos: (i32, i32)) -> Option<(usize, usize)> {
    match (parent_pos.0 - room_pos.0, parent_pos.1 - room_pos.1) {
        (1, 0) => Some((10, 5)),
        (-1, 0) => Some((0, 5)),
        (0, 1) => Some((5, 10)),
        (0, -1) => Some((5, 0)),
        _ => None,
    }
}

#[test]
fn locked_room_has_locked_door_toward_parent() {
    let mut placed_any = false;
    for seed in 0u64..50 {
        let d = dungeon(seed);
        let placed = d.grid.placed_room_ids();
        for room in &d.tree.rooms {
            if !placed.contains(&room.id) || !room.kind.is_locked() {
                continue;
            }
            let Some(parent_id) = d.tree.parent_of(room.id) else {
                continue;
            };
            if !placed.contains(&parent_id) {
                continue;
            }
            let room_pos = d.grid.pos_of(room.id).unwrap();
            let parent_pos = d.grid.pos_of(parent_id).unwrap();
            let Some((dc, dr)) = door_toward(room_pos, parent_pos) else {
                continue;
            };
            placed_any = true;
            let tr = d.map.room_for(room.id).unwrap();
            let tile = tr.get(dc, dr);
            assert_eq!(tile, TileKind::LockedDoor, "Locked room {} toward parent {}: expected LockedDoor, got {:?} (seed {})", room.id, parent_id, tile, seed);
        }
    }
    assert!(placed_any, "No placed Locked rooms found across 50 seeds");
}

#[test]
fn switch_door_room_has_switch_door_toward_parent() {
    for seed in 0u64..50 {
        let d = dungeon(seed);
        let placed = d.grid.placed_room_ids();
        for room in &d.tree.rooms {
            if !placed.contains(&room.id) || !room.kind.is_switch_door() {
                continue;
            }
            let Some(parent_id) = d.tree.parent_of(room.id) else {
                continue;
            };
            if !placed.contains(&parent_id) {
                continue;
            }
            let room_pos = d.grid.pos_of(room.id).unwrap();
            let parent_pos = d.grid.pos_of(parent_id).unwrap();
            let Some((dc, dr)) = door_toward(room_pos, parent_pos) else {
                continue;
            };
            let tr = d.map.room_for(room.id).unwrap();
            let tile = tr.get(dc, dr);
            assert_eq!(tile, TileKind::SwitchDoor, "SwitchDoor room {} toward parent {}: expected SwitchDoor, got {:?} (seed {})", room.id, parent_id, tile, seed);
        }
    }
}

#[test]
fn every_room_of_a_generated_dungeon_has_an_open_door() {
    for seed in 0u64..20 {
        let d = dungeon(seed);
        if d.map.rooms.len() < 2 {
            continue;
        }
        for tr in &d.map.rooms {
            assert!(DOORS.iter().any(|&(c, r)| tr.get(c, r) != TileKind::Wall), "room {} closed (seed {})", tr.room_id, seed);
        }
    }
}

#[test]
fn content_items_reach_the_tiles() {
    let mut switches = 0;
    let mut signs = 0;
    let mut groups = 0;
    for seed in 0u64..20 {
        let d = dungeon(seed);
        for tr in &d.map.rooms {
            let id = tr.room_id;
            if id == d.exit_id || id >= d.content.len() {
                continue;
            }
            let c = &d.content[id];
            let count = |k: TileKind| (0..TOTAL_TILES).filter(|&i| tr.tiles[i] == k).count();
            match &c.enemies {
                Some(e) if !e.is_boss => {
                    assert!(count(TileKind::EnemySpawn) >= 1, "room {} (seed {})", id, seed);
                    assert!(count(TileKind::EnemySpawn) <= e.count as usize);
                    groups += 1;
                },
                Some(_) => {},
                None => {
                    if c.switch.is_some() {
                        assert_eq!(count(TileKind::SwitchTile), 1, "room {} (seed {})", id, seed);
                        switches += 1;
                    }
                    if c.sign.is_some() {
                        assert_eq!(count(TileKind::Sign), 1, "room {} (seed {})", id, seed);
                        signs += 1;
                    }
                },
            }
        }
    }
    assert!(switches > 0 && signs > 0 && groups > 0);
}

#[test]
fn outer_ring_is_all_wall() {
    let door_cols_rows: &[(usize, usize)] = &[(5, 0), (5, 10), (0, 5), (10, 5)];
    let d = dungeon(2);
    for tr in &d.map.rooms {
        for col in 0..CELL_SIZE {
            for row in [0usize, 10] {
                let t = tr.get(col, row);
                if door_cols_rows.contains(&(col, row)) {
                    assert!(matches!(t, TileKind::Wall | TileKind::Door | TileKind::LockedDoor | TileKind::SwitchDoor));
                } else {
                    assert_eq!(t, TileKind::Wall, "Room {} at ({},{})", tr.room_id, col, row);
                }
            }
        }
        for row in 0..CELL_SIZE {
            for col in [0usize, 10] {
                let t = tr.get(col, row);
                if door_cols_rows.contains(&(col, row)) {
                    assert!(matches!(t, TileKind::Wall | TileKind::Door | TileKind::LockedDoor | TileKind::SwitchDoor));
                } else {
                    assert_eq!(t, TileKind::Wall, "Room {} at ({},{})", tr.room_id, col, row);
                }
            }
        }
    }
}

#[test]
fn interior_has_no_outer_wall_tiles() {
    let d = dungeon(3);
    for tr in &d.map.rooms {
        for row in 1..=9 {
            for col in 1..=9 {
                assert_ne!(tr.get(col, row), TileKind::Wall, "Room {} at ({},{})", tr.room_id, col, row);
            }
        }
    }
}

#[test]
fn door_tiles_align_between_adjacent_rooms() {
    let d = dungeon(5);
    for tr in &d.map.rooms {
        let grid_pos = d.grid.pos_of(tr.room_id).unwrap();
        for nb_id in d.grid.neighbours(tr.room_id) {
            let nb_pos = d.grid.pos_of(nb_id).unwrap();
            let (my_dc, my_dr, nb_dc, nb_dr) = match (nb_pos.0 - grid_pos.0, nb_pos.1 - grid_pos.1) {
                (1, 0) => (10usize, 5usize, 0usize, 5usize),
                (-1, 0) => (0, 5, 10, 5),
                (0, 1) => (5, 10, 5, 0),
                (0, -1) => (5, 0, 5, 10),
                _ => continue,
            };
            let my_is_door = tr.get(my_dc, my_dr) != TileKind::Wall;
            let nb_is_door = d.map.room_for(nb_id).unwrap().get(nb_dc, nb_dr) != TileKind::Wall;
            assert_eq!(my_is_door, nb_is_door);
        }
    }
}

#[test]
fn door_tile_kinds_match_between_adjacent_rooms() {
    for seed in 0u64..50 {
        let d = dungeon(seed);
        for tr in &d.map.rooms {
            let grid_pos = d.grid.pos_of(tr.room_id).unwrap();
            for nb_id in d.grid.neighbours(tr.room_id) {
                let nb_pos = d.grid.pos_of(nb_id).unwrap();
                let (my_dc, my_dr, nb_dc, nb_dr) = match (nb_pos.0 - grid_pos.0, nb_pos.1 - grid_pos.1) {
                    (1, 0) => (10usize, 5usize, 0usize, 5usize),
                    (-1, 0) => (0, 5, 10, 5),
                    (0, 1) => (5, 10, 5, 0),
                    (0, -1) => (5, 0, 5, 10),
                    _ => continue,
                };
                let my_tile = tr.get(my_dc, my_dr);
                let nb_tile = d.map.room_for(nb_id).unwrap().get(nb_dc, nb_dr);
                assert_eq!(my_tile, nb_tile, "rooms {} and {} (seed {})", tr.room_id, nb_id, seed);
            }
        }
    }
}

#[test]
fn exactly_one_spawn_tile_in_root_room() {
    for seed in 0u64..10 {
        let d = dungeon(seed);
        let root_tr = d.map.room_for(d.tree.root).unwrap();
        let spawns = (0..TOTAL_TILES).filter(|&i| root_tr.tiles[i] == TileKind::Spawn).count();
        assert_eq!(spawns, 1, "seed {}", seed);
    }
}

#[test]
fn exactly_one_stairs_tile_in_exit_room() {
    for seed in 0u64..10 {
        let d = dungeon(seed);
        let exit_tr = d.map.room_for(d.exit_id).unwrap();
        let stairs = (0..TOTAL_TILES).filter(|&i| exit_tr.tiles[i] == TileKind::Stairs).count();
        assert_eq!(stairs, 1, "seed {}", seed);
    }
}

#[test]
fn boss_room_has_boss_spawn() {
    for seed in 0u64..10 {
        let d = dungeon(seed);
        let boss_id = d.content.iter().enumerate().find(|(_, c)| c.enemies.as_ref().is_some_and(|e| e.is_boss)).map(|(id, _)| id);
        if let Some(bid) = boss_id {
            if let Some(boss_tr) = d.map.room_for(bid) {
                let bosses = (0..TOTAL_TILES).filter(|&i| boss_tr.tiles[i] == TileKind::BossSpawn).count();
                assert_eq!(bosses, 1, "seed {}", seed);
            }
        }
    }
}

#[test]
fn world_origin_matches_grid_position() {
    let d = dungeon(7);
    for tr in &d.map.rooms {
        let gp = d.grid.pos_of(tr.room_id).unwrap();
        assert_eq!(tr.world_origin, (gp.0 * CELL_SIZE as i32, gp.1 * CELL_SIZE as i32));
    }
}

#[test]
fn ascii_map_has_correct_dimensions() {
    let d = dungeon(1);
    let text = d.map.ascii();
    let lines: Vec<&str> = text.split('\n').collect();
    assert_eq!(lines.len() as i32, d.map.height());
    for l in lines {
        assert_eq!(l.chars().count() as i32, d.map.width());
    }
}

/// Where the search outwards from the centre finds its first tile among
/// `free`: ring by ring, each ring row by row.
fn first_from_centre(free: &[(usize, usize)]) -> Option<(usize, usize)> {
    let ring = |(c, w): (usize, usize)| ((c as i32) - 5).abs().max(((w as i32) - 5).abs());
    free.iter().copied().min_by_key(|&(c, w)| (ring((c, w)), w, c))
}

#[test]
fn spawn_stands_nearest_the_centre() {
    for seed in 0u64..10 {
        let d = dungeon(seed);
        let tr = d.map.room_for(d.tree.root).unwrap();
        let spawn = (0..TOTAL_TILES).find(|&i| tr.tiles[i] == TileKind::Spawn).unwrap();
        let spawn = (spawn % CELL_SIZE, spawn / CELL_SIZE);
        // The spawn is placed first, on a tile that was free floor: every
        // floor tile nearer the centre would have been taken instead,
        // unless the doors cannot reach it.
        let mut seen = [false; TOTAL_TILES];
        for &(c, w) in DOORS.iter() {
            if tr.get(c, w) != TileKind::Wall {
                walk_from(&tr.tiles, w * CELL_SIZE + c, &mut seen);
            }
        }
        let mut free: Vec<(usize, usize)> = Vec::new();
        for w in 1..=9usize {
            for c in 1..=9usize {
                let k = tr.get(c, w);
                if seen[w * CELL_SIZE + c] && (k == TileKind::Floor || (c, w) == spawn) {
                    free.push((c, w));
                }
            }
        }
        assert_eq!(first_from_centre(&free), Some(spawn), "seed {}", seed);
    }
}

#[test]
fn content_populated_after_generate() {
    let d = dungeon(5);
    assert!(d.content.iter().any(|c| c.enemies.as_ref().is_some_and(|e| e.is_boss)));
}

#[test]
fn exit_room_exists_and_is_placed() {
    for seed in 0u64..10 {
        let d = dungeon(seed);
        assert!(d.exit_id < d.tree.rooms.len(), "seed {}", seed);
        assert!(d.grid.pos_of(d.exit_id).is_some(), "seed {}", seed);
        assert!(d.content[d.exit_id].is_exit, "seed {}", seed);
    }
}

#[test]
fn exit_is_child_of_boss_room() {
    for seed in 0u64..10 {
        let d = dungeon(seed);
        let parent = d.tree.parent_of(d.exit_id);
        let parent_is_boss = parent.is_some_and(|pid| d.content.get(pid).and_then(|c| c.enemies.as_ref()).is_some_and(|e| e.is_boss));
        if d.exit_id != d.tree.root {
            assert!(parent_is_boss, "seed {}", seed);
        }
    }
}

#[test]
fn exactly_one_exit_per_dungeon() {
    for seed in 0u64..20 {
        let d = dungeon(seed);
        assert_eq!(d.content.iter().filter(|c| c.is_exit).count(), 1, "seed {}", seed);
    }
}
