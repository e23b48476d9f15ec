//! Tile-level room layout.
//!
//! Each placed room becomes an **11×11 tile grid**: the outer ring is wall
//! except where a door is cut at the centre of a wall, and the inner 9×9
//! canvas is filled by one of three interior templates, kept connected to
//! the doors, with content items placed at tucked-away positions.
//!
//! ```text
//!   north  (5, 0)
//!   south  (5,10)
//!   east  (10, 5)
//!   west   (0, 5)
//! ```
use vstd::prelude::*;

use crate::content::{RoomContent, SignKind, grid_touching, touches, step_at};
use crate::grid::{DungeonGrid, effective_direction};
use crate::pathfinding::ids_below;
use crate::rng::{Rng, RngState, usize_draw, xoshiro_next, chance_hit, fisher_yates};
use crate::render::{render, render_canvas, is_glyph};
use crate::room::{Direction, RoomKind, direction_offset};
use crate::tree::{DungeonTree, lemma_distinct_below};
use crate::connect::{
    repair_connectivity, has_entry, has_open_door, all_reached, door_reached, door_spot, open_entry, inside, lemma_tix,
    lemma_same_walk_reach, lemma_clear_carved, lemma_open_door_entry, carve_chain, unreached_upto,
};

verus! {

// ── Constants ───────────────────────────────────────────────────────────────

/// Side of a room in tiles.
pub const CELL_SIZE: usize = 11;
/// Side of the interior canvas.
pub const INNER: usize = 9;
/// Tiles per room.
pub const TOTAL_TILES: usize = 121;

/// Chance, over 2^53, of an open layout in a room with enemies (0.6).
pub const ENEMY_OPEN_BELOW: u64 = 5404319552844595;
/// Chance, over 2^53, of a coin coming up (0.5).
pub const HALF_BELOW: u64 = 4503599627370496;
/// Chance, over 2^53, of hazards in an open layout (0.25).
pub const HAZARD_BELOW: u64 = 2251799813685248;
/// Chance, over 2^53, of extra pillars in an alcove layout (0.35).
pub const EXTRA_PILLARS_BELOW: u64 = 3152519739159347;
/// Chance, over 2^53, that a column of a columned layout stands (0.75).
pub const COLUMN_BELOW: u64 = 6755399441055744;
/// Most obstacles a columned layout keeps: a quarter of the interior.
pub const MAX_OBSTACLES: usize = 20;
/// Fewest obstacles an open layout aims for: a tenth of the interior.
pub const MIN_TARGET_OBSTACLES: usize = 8;
/// Spread of the obstacle target of an open layout.
pub const TARGET_OBSTACLE_SPREAD: usize = 13;

// ── Tile vocabulary ─────────────────────────────────────────────────────────

/// Every tile kind the generator can emit.
#[derive(Clone, Copy, Debug, PartialEq, Eq, Hash, Structural)]
pub enum TileKind {
    /// Solid impassable wall.
    Wall,
    /// Open floor.
    Floor,
    /// Passable opening in a wall towards an adjacent room.
    Door,
    /// Key-locked door.
    LockedDoor,
    /// Parity switch door.
    SwitchDoor,
    /// Impassable pillar.
    Pillar,
    /// Impassable water.
    Water,
    /// Impassable pit.
    Pit,
    /// Chest holding a key.
    Chest,
    /// Switch toggling linked switch doors.
    SwitchTile,
    /// Readable sign.
    Sign,
    /// Staircase: the dungeon exit.
    Stairs,
    /// Player spawn (root room only).
    Spawn,
    /// Enemy spawn marker.
    EnemySpawn,
    /// Boss spawn marker.
    BossSpawn,
}

/// The player can stand on the tile (ignoring locks and enemies).
pub open spec fn walkable(t: TileKind) -> bool {
    !(t is Wall || t is Pillar || t is Water || t is Pit)
}

/// A door tile of any kind.
pub open spec fn door_kind(t: TileKind) -> bool {
    t is Door || t is LockedDoor || t is SwitchDoor
}

/// An obstacle of the interior.
pub open spec fn obstacle(t: TileKind) -> bool {
    t is Pillar || t is Water || t is Pit
}

impl TileKind {
    /// True for tiles the player can stand on (ignoring locks and enemies).
    pub fn is_walkable(self) -> (r: bool)
        ensures
            r == walkable(self),
    {
        match self {
            TileKind::Wall | TileKind::Pillar | TileKind::Water | TileKind::Pit => false,
            _ => true,
        }
    }

    /// True for tiles that block movement.
    pub fn is_solid(self) -> (r: bool)
        ensures
            r == !walkable(self),
    {
        !self.is_walkable()
    }
}

// ── Tile geometry ───────────────────────────────────────────────────────────

/// `(col, row)` is the door position in the middle of a wall.
pub open spec fn door_pos(col: int, row: int) -> bool {
    (col == 5 && row == 0) || (col == 5 && row == 10) || (col == 10 && row == 5) || (col == 0 && row == 5)
}

/// `(col, row)` lies on the outer ring.
pub open spec fn on_ring(col: int, row: int) -> bool {
    col == 0 || col == 10 || row == 0 || row == 10
}

/// `(col, row)` lies in the 9×9 interior.
pub open spec fn interior(col: int, row: int) -> bool {
    1 <= col <= 9 && 1 <= row <= 9
}

/// The tiles of a room keep its frame: the outer ring is wall except that
/// the door positions may hold doors, and the interior holds no wall and
/// no door.
pub open spec fn tiles_framed(t: Seq<TileKind>) -> bool {
    &&& t.len() == TOTAL_TILES
    &&& forall|col: int, row: int| 0 <= col < 11 && 0 <= row < 11 ==> {
        let k = #[trigger] t[row * 11 + col];
        if interior(col, row) {
            !(k is Wall) && !door_kind(k)
        } else if door_pos(col, row) {
            k is Wall || door_kind(k)
        } else {
            k is Wall
        }
    }
}

/// Every interior tile within two steps of a door position is floor.
pub open spec fn near_doors_clear(t: Seq<TileKind>) -> bool {
    forall|col: int, row: int| #[trigger] interior(col, row) && near_door(col, row) ==> t[row * 11 + col] is Floor
}

/// `a` and `b` have the same walkable tiles.
pub open spec fn same_walk(a: Seq<TileKind>, b: Seq<TileKind>) -> bool {
    &&& b.len() == a.len()
    &&& forall|p: int| 0 <= p < a.len() ==> walkable(#[trigger] b[p]) == walkable(a[p])
}

/// A content item: chest, switch, sign, stairs, spawn or enemy marker.
pub open spec fn item(t: TileKind) -> bool {
    t is Chest || t is SwitchTile || t is Sign || t is Stairs || t is Spawn || t is EnemySpawn || t is BossSpawn
}

/// The interior holds only floor and obstacles: no item yet.
pub open spec fn plain_interior(t: Seq<TileKind>) -> bool {
    forall|col: int, row: int| #[trigger] interior(col, row) ==> t[row * 11 + col] is Floor || obstacle(t[row * 11 + col])
}

/// The interior is all floor.
pub open spec fn floor_interior(t: Seq<TileKind>) -> bool {
    forall|col: int, row: int| #[trigger] interior(col, row) ==> t[row * 11 + col] is Floor
}

/// Number of tiles of kind `k`.
pub open spec fn tile_count(t: Seq<TileKind>, k: TileKind) -> nat
    decreases t.len(),
{
    if t.len() == 0 {
        0
    } else {
        tile_count(t.drop_last(), k) + if t.last() == k {
            1nat
        } else {
            0nat
        }
    }
}

/// Manhattan distance of `(col, row)` from the door position `(dc, dr)`.
pub open spec fn tile_dist(col: int, row: int, dc: int, dr: int) -> int {
    (if col >= dc { col - dc } else { dc - col }) + (if row >= dr { row - dr } else { dr - row })
}

/// Within two steps of a door position.
pub open spec fn near_door(col: int, row: int) -> bool {
    ||| tile_dist(col, row, 5, 0) <= 2
    ||| tile_dist(col, row, 5, 10) <= 2
    ||| tile_dist(col, row, 10, 5) <= 2
    ||| tile_dist(col, row, 0, 5) <= 2
}

fn abs_diff(a: usize, b: usize) -> (r: usize)
    ensures
        r == (if a >= b { a - b } else { b - a }),
{
    if a >= b {
        a - b
    } else {
        b - a
    }
}

/// Whether `(col, row)` lies within two steps of a door position.
pub fn is_near_door(col: usize, row: usize) -> (r: bool)
    requires
        col < CELL_SIZE,
        row < CELL_SIZE,
    ensures
        r == near_door(col as int, row as int),
{
    abs_diff(col, 5) + abs_diff(row, 0) <= 2 || abs_diff(col, 5) + abs_diff(row, 10) <= 2 || abs_diff(col, 10) + abs_diff(row, 5) <= 2
        || abs_diff(col, 0) + abs_diff(row, 5) <= 2
}

// ── Room layout ─────────────────────────────────────────────────────────────

/// The tile layout of one placed room.
#[derive(Debug)]
pub struct TileRoom {
    /// The room in the dungeon tree.
    pub room_id: usize,
    /// Top-left corner in world tiles (`grid_pos * CELL_SIZE`).
    pub world_origin: (i32, i32),
    /// Row-major tiles: index `row * CELL_SIZE + col`.
    pub tiles: [TileKind; TOTAL_TILES],
}

impl TileRoom {
    /// Tile at `(col, row)`.
    pub fn get(&self, col: usize, row: usize) -> (r: TileKind)
        requires
            col < CELL_SIZE,
            row < CELL_SIZE,
        ensures
            r == self.tiles@[row * 11 + col],
    {
        self.tiles[row * CELL_SIZE + col]
    }

    /// Set the tile at `(col, row)`.
    pub fn set(&mut self, col: usize, row: usize, kind: TileKind)
        requires
            col < CELL_SIZE,
            row < CELL_SIZE,
        ensures
            final(self).tiles@ == old(self).tiles@.update(row * 11 + col, kind),
            final(self).room_id == old(self).room_id,
            final(self).world_origin == old(self).world_origin,
    {
        self.tiles[row * CELL_SIZE + col] = kind;
    }

    /// Local `(col, row)` in world tiles.
    pub fn to_world(&self, col: usize, row: usize) -> (r: (i32, i32))
        requires
            col < CELL_SIZE,
            row < CELL_SIZE,
            self.world_origin.0 + col <= i32::MAX,
            self.world_origin.1 + row <= i32::MAX,
        ensures
            r.0 == self.world_origin.0 + col,
            r.1 == self.world_origin.1 + row,
    {
        (self.world_origin.0 + col as i32, self.world_origin.1 + row as i32)
    }

    /// The door positions in local coordinates whose tile is not a wall,
    /// in the order north, south, east, west, each with the wall's
    /// direction (north and south both report `Down`).
    pub fn door_positions(&self) -> (r: Vec<(usize, usize, Direction)>)
        ensures
            r@ == door_list(self.tiles@),
    {
        let mut out: Vec<(usize, usize, Direction)> = Vec::new();
        if self.get(5, 0) != TileKind::Wall {
            out.push((5, 0, Direction::Down));
        }
        if self.get(5, 10) != TileKind::Wall {
            out.push((5, 10, Direction::Down));
        }
        if self.get(10, 5) != TileKind::Wall {
            out.push((10, 5, Direction::Right));
        }
        if self.get(0, 5) != TileKind::Wall {
            out.push((0, 5, Direction::Left));
        }
        proof {
            assert(out@ =~= door_list(self.tiles@));
        }
        out
    }
}

/// The doors of a room: the non-wall door positions, north, south, east, west.
pub open spec fn door_list(t: Seq<TileKind>) -> Seq<(usize, usize, Direction)> {
    (if !(t[5] is Wall) { seq![(5usize, 0usize, Direction::Down)] } else { Seq::empty() })
        + (if !(t[115] is Wall) { seq![(5usize, 10usize, Direction::Down)] } else { Seq::empty() })
        + (if !(t[65] is Wall) { seq![(10usize, 5usize, Direction::Right)] } else { Seq::empty() })
        + (if !(t[55] is Wall) { seq![(0usize, 5usize, Direction::Left)] } else { Seq::empty() })
}

/// The door tile between a room and the room it is entered from: a locked
/// room is behind a locked door, a switch-door room behind a switch door.
pub open spec fn door_tile(entering: RoomKind) -> TileKind {
    match entering {
        RoomKind::Locked { .. } => TileKind::LockedDoor,
        RoomKind::SwitchDoor => TileKind::SwitchDoor,
        _ => TileKind::Door,
    }
}

fn door_tile_kind(entering_room_kind: RoomKind) -> (r: TileKind)
    ensures
        r == door_tile(entering_room_kind),
        door_kind(r),
{
    match entering_room_kind {
        RoomKind::Locked { .. } => TileKind::LockedDoor,
        RoomKind::SwitchDoor => TileKind::SwitchDoor,
        _ => TileKind::Door,
    }
}

/// The character a tile is drawn with.
pub open spec fn tile_glyph(t: TileKind) -> char {
    match t {
        TileKind::Wall => '#',
        TileKind::Floor => '.',
        TileKind::Door => '+',
        TileKind::LockedDoor => 'L',
        TileKind::SwitchDoor => 'W',
        TileKind::Pillar => 'O',
        TileKind::Water => '~',
        TileKind::Pit => 'V',
        TileKind::Chest => 'C',
        TileKind::SwitchTile => 'S',
        TileKind::Sign => '?',
        TileKind::Stairs => 'X',
        TileKind::Spawn => '@',
        TileKind::EnemySpawn => 'E',
        TileKind::BossSpawn => 'B',
    }
}

/// The one-character string a tile is drawn with.
pub fn tile_char(t: TileKind) -> (r: &'static str)
    ensures
        r@ == seq![tile_glyph(t)],
{
    proof {
        reveal_strlit("#");
        reveal_strlit(".");
        reveal_strlit("+");
        reveal_strlit("L");
        reveal_strlit("W");
        reveal_strlit("O");
        reveal_strlit("~");
        reveal_strlit("V");
        reveal_strlit("C");
        reveal_strlit("S");
        reveal_strlit("?");
        reveal_strlit("X");
        reveal_strlit("@");
        reveal_strlit("E");
        reveal_strlit("B");
    }
    match t {
        TileKind::Wall => "#",
        TileKind::Floor => ".",
        TileKind::Door => "+",
        TileKind::LockedDoor => "L",
        TileKind::SwitchDoor => "W",
        TileKind::Pillar => "O",
        TileKind::Water => "~",
        TileKind::Pit => "V",
        TileKind::Chest => "C",
        TileKind::SwitchTile => "S",
        TileKind::Sign => "?",
        TileKind::Stairs => "X",
        TileKind::Spawn => "@",
        TileKind::EnemySpawn => "E",
        TileKind::BossSpawn => "B",
    }
}


// ── Interior templates ──────────────────────────────────────────────────────

/// `b` has the same outer ring as `a`.
pub open spec fn same_ring(a: Seq<TileKind>, b: Seq<TileKind>) -> bool {
    forall|col: int, row: int| 0 <= col < 11 && 0 <= row < 11 && !interior(col, row) ==> #[trigger] b[row * 11 + col] == a[row * 11 + col]
}

/// Set an interior tile to a tile that is neither wall nor door.
pub(crate) fn put(tiles: &mut [TileKind; TOTAL_TILES], col: usize, row: usize, kind: TileKind)
    requires
        tiles_framed(old(tiles)@),
        interior(col as int, row as int),
        !(kind is Wall),
        !door_kind(kind),
    ensures
        tiles_framed(final(tiles)@),
        same_ring(old(tiles)@, final(tiles)@),
        final(tiles)@ == old(tiles)@.update(row * 11 + col, kind),
        plain_interior(old(tiles)@) && (kind is Floor || obstacle(kind)) ==> plain_interior(final(tiles)@),
        near_doors_clear(old(tiles)@) && (kind is Floor || !near_door(col as int, row as int)) ==> near_doors_clear(final(tiles)@),
{
    let ghost t0 = tiles@;
    tiles[row * CELL_SIZE + col] = kind;
    proof {
        assert forall|c: int, r: int| 0 <= c < 11 && 0 <= r < 11 && (c != col || r != row) implies #[trigger] tiles@[r * 11 + c] == t0[r * 11 + c] by {
            assert(r * 11 + c != row * 11 + col) by (nonlinear_arith)
                requires 0 <= c < 11, 0 <= r < 11, 0 <= col < 11, 0 <= row < 11, c != col || r != row;
        }
        if plain_interior(t0) && (kind is Floor || obstacle(kind)) {
            assert forall|c: int, r: int| #[trigger] interior(c, r) implies tiles@[r * 11 + c] is Floor || obstacle(tiles@[r * 11 + c]) by {
                if c != col || r != row {
                    assert(tiles@[r * 11 + c] == t0[r * 11 + c]);
                }
            }
        }
        if near_doors_clear(t0) && (kind is Floor || !near_door(col as int, row as int)) {
            assert forall|c: int, r: int| #[trigger] interior(c, r) && near_door(c, r) implies tiles@[r * 11 + c] is Floor by {
                if c != col || r != row {
                    assert(tiles@[r * 11 + c] == t0[r * 11 + c]);
                }
            }
        }
    }
}

/// Read the tile at `(col, row)`.
fn tile_at(tiles: &[TileKind; TOTAL_TILES], col: usize, row: usize) -> (r: TileKind)
    requires
        col < CELL_SIZE,
        row < CELL_SIZE,
    ensures
        r == tiles@[row * 11 + col],
{
    tiles[row * CELL_SIZE + col]
}

/// The tiles and generator state left by scattering: after `attempts`
/// tries that placed `placed` tiles, while fewer than `count` stand and
/// fewer than fifty tries were made, draw a column and a row in `1..=9`
/// and put `kind` there when it is floor away from the doors.
pub open spec fn scatter_run(t: Seq<TileKind>, kind: TileKind, count: nat, s: RngState, attempts: nat, placed: nat) -> (Seq<TileKind>, RngState)
    decreases 50 - attempts,
{
    if placed < count && attempts < 50 {
        let dc = usize_draw(s, 9);
        let dr = usize_draw(dc.1, 9);
        let col = 1 + dc.0;
        let row = 1 + dr.0;
        if t[row * 11 + col] is Floor && !near_door(col, row) {
            scatter_run(t.update(row * 11 + col, kind), kind, count, dr.1, attempts + 1, placed + 1)
        } else {
            scatter_run(t, kind, count, dr.1, attempts + 1, placed)
        }
    } else {
        (t, s)
    }
}

/// Scatter up to `count` tiles of `kind` on free floor away from the doors,
/// trying at most fifty random interior positions.
fn scatter_hazard(tiles: &mut [TileKind; TOTAL_TILES], kind: TileKind, count: usize, rng: &mut Rng)
    requires
        tiles_framed(old(tiles)@),
        obstacle(kind),
    ensures
        tiles_framed(final(tiles)@),
        same_ring(old(tiles)@, final(tiles)@),
        plain_interior(old(tiles)@) ==> plain_interior(final(tiles)@),
        near_doors_clear(old(tiles)@) ==> near_doors_clear(final(tiles)@),
        (final(tiles)@, final(rng)@) == scatter_run(old(tiles)@, kind, count as nat, old(rng)@, 0, 0),
{
    let mut attempts: usize = 0;
    let mut placed: usize = 0;
    while placed < count && attempts < 50
        invariant
            scatter_run(tiles@, kind, count as nat, rng@, attempts as nat, placed as nat)
                == scatter_run(old(tiles)@, kind, count as nat, old(rng)@, 0, 0),
            tiles_framed(tiles@),
            same_ring(old(tiles)@, tiles@),
            plain_interior(old(tiles)@) ==> plain_interior(tiles@),
            near_doors_clear(old(tiles)@) ==> near_doors_clear(tiles@),
            obstacle(kind),
            placed <= attempts <= 50,
        decreases 50 - attempts,
    {
        let col = 1 + rng.next_usize(INNER);
        let row = 1 + rng.next_usize(INNER);
        let near_door = is_near_door(col, row);
        if tile_at(tiles, col, row) == TileKind::Floor && !near_door {
            put(tiles, col, row, kind);
            placed = placed + 1;
        }
        attempts = attempts + 1;
    }
}

/// One row of a pillar cluster centred on `(cx, cy)` with radius `r`:
/// from offset `dx` on, each floor tile inside the canvas draws (even odds)
/// whether it becomes a pillar, which it does away from the doors.
/// Also gives the running count of pillars put.
pub open spec fn open_row(t: Seq<TileKind>, s: RngState, cx: int, cy: int, r: int, dy: int, dx: int, placed: int) -> (Seq<TileKind>, RngState, int)
    decreases 2 * r + 1 - dx,
{
    if dx <= 2 * r {
        let col = cx + dx - r;
        let row = cy + dy - r;
        if 1 <= col <= 9 && 1 <= row <= 9 && t[row * 11 + col] is Floor {
            if chance_hit(s, HALF_BELOW) && !near_door(col, row) {
                open_row(t.update(row * 11 + col, TileKind::Pillar), xoshiro_next(s), cx, cy, r, dy, dx + 1, placed + 1)
            } else {
                open_row(t, xoshiro_next(s), cx, cy, r, dy, dx + 1, placed)
            }
        } else {
            open_row(t, s, cx, cy, r, dy, dx + 1, placed)
        }
    } else {
        (t, s, placed)
    }
}

/// The rows of a pillar cluster from row offset `dy` on.
pub open spec fn open_rows(t: Seq<TileKind>, s: RngState, cx: int, cy: int, r: int, dy: int, placed: int) -> (Seq<TileKind>, RngState, int)
    decreases 2 * r + 1 - dy,
{
    if dy <= 2 * r {
        let a = open_row(t, s, cx, cy, r, dy, 0, placed);
        open_rows(a.0, a.1, cx, cy, r, dy + 1, a.2)
    } else {
        (t, s, placed)
    }
}

/// Clusters `c` to `n` of the open layout, stopping once `target`
/// pillars stand: each draws a centre in `2..=7` both ways and a radius
/// of one or two.
pub open spec fn open_clusters(t: Seq<TileKind>, s: RngState, n: int, target: int, c: int, placed: int) -> (Seq<TileKind>, RngState)
    decreases n - c,
{
    if c < n && placed < target {
        let x = usize_draw(s, 6);
        let y = usize_draw(x.1, 6);
        let rr = usize_draw(y.1, 2);
        let a = open_rows(t, rr.1, 2 + x.0, 2 + y.0, 1 + rr.0, 0, placed);
        open_clusters(a.0, a.1, n, target, c + 1, a.2)
    } else {
        (t, s)
    }
}

/// What [`apply_open`] leaves: up to two clusters aiming at 8 to 20
/// pillars, then with chance 1/4 one or two water (even odds) or pit
/// tiles scattered.
pub open spec fn open_result(t: Seq<TileKind>, s: RngState) -> (Seq<TileKind>, RngState) {
    let nc = usize_draw(s, 3);
    let tg = usize_draw(nc.1, 13);
    let a = open_clusters(t, tg.1, nc.0 as int, tg.0 + 8, 0, 0);
    if chance_hit(a.1, HAZARD_BELOW) {
        let s1 = xoshiro_next(a.1);
        let kind = if chance_hit(s1, HALF_BELOW) { TileKind::Water } else { TileKind::Pit };
        let cnt = usize_draw(xoshiro_next(s1), 2);
        scatter_run(a.0, kind, (1 + cnt.0) as nat, cnt.1, 0, 0)
    } else {
        (a.0, xoshiro_next(a.1))
    }
}

/// Sparse pillar clusters and an occasional hazard.
fn apply_open(tiles: &mut [TileKind; TOTAL_TILES], rng: &mut Rng)
    requires
        tiles_framed(old(tiles)@),
    ensures
        tiles_framed(final(tiles)@),
        same_ring(old(tiles)@, final(tiles)@),
        plain_interior(old(tiles)@) ==> plain_interior(final(tiles)@),
        near_doors_clear(old(tiles)@) ==> near_doors_clear(final(tiles)@),
        (final(tiles)@, final(rng)@) == open_result(old(tiles)@, old(rng)@),
{
    let n_clusters = rng.next_usize(3);
    let target_obstacles = rng.next_usize(TARGET_OBSTACLE_SPREAD) + MIN_TARGET_OBSTACLES;
    let ghost s_start = rng@;
    let mut placed: usize = 0;
    let mut c: usize = 0;
    while c < n_clusters
        invariant
            open_clusters(tiles@, rng@, n_clusters as int, target_obstacles as int, c as int, placed as int)
                == open_clusters(old(tiles)@, s_start, n_clusters as int, target_obstacles as int, 0, 0),
            tiles_framed(tiles@),
            same_ring(old(tiles)@, tiles@),
            plain_interior(old(tiles)@) ==> plain_interior(tiles@),
            near_doors_clear(old(tiles)@) ==> near_doors_clear(tiles@),
            c <= n_clusters <= 2,
            placed <= c * 25,
        ensures
            (tiles@, rng@) == open_clusters(old(tiles)@, s_start, n_clusters as int, target_obstacles as int, 0, 0),
        decreases n_clusters - c,
    {
        if placed >= target_obstacles {
            break;
        }
        let cx = 2 + rng.next_usize(INNER - 3);
        let cy = 2 + rng.next_usize(INNER - 3);
        let r = 1 + rng.next_usize(2);
        let ghost t_c = tiles@;
        let ghost s_c = rng@;
        let ghost p_c = placed as int;
        let mut dy: usize = 0;
        while dy <= r * 2
            invariant
                open_rows(tiles@, rng@, cx as int, cy as int, r as int, dy as int, placed as int)
                    == open_rows(t_c, s_c, cx as int, cy as int, r as int, 0, p_c),
                tiles_framed(tiles@),
                same_ring(old(tiles)@, tiles@),
                plain_interior(old(tiles)@) ==> plain_interior(tiles@),
                near_doors_clear(old(tiles)@) ==> near_doors_clear(tiles@),
                2 <= cx <= 7,
                2 <= cy <= 7,
                1 <= r <= 2,
                dy <= r * 2 + 1,
                c < 2,
                placed <= c * 25 + dy * 5,
            decreases r * 2 + 1 - dy,
        {
            let ghost t_d = tiles@;
            let ghost s_d = rng@;
            let ghost p_d = placed as int;
            let mut dx: usize = 0;
            while dx <= r * 2
                invariant
                    open_row(tiles@, rng@, cx as int, cy as int, r as int, dy as int, dx as int, placed as int)
                        == open_row(t_d, s_d, cx as int, cy as int, r as int, dy as int, 0, p_d),
                    tiles_framed(tiles@),
                    same_ring(old(tiles)@, tiles@),
                    plain_interior(old(tiles)@) ==> plain_interior(tiles@),
                    near_doors_clear(old(tiles)@) ==> near_doors_clear(tiles@),
                    2 <= cx <= 7,
                    2 <= cy <= 7,
                    1 <= r <= 2,
                    dy <= r * 2,
                    dx <= r * 2 + 1,
                    c < 2,
                    placed <= c * 25 + dy * 5 + dx,
                decreases r * 2 + 1 - dx,
            {
                let col = cx + dx - r;
                let row = cy + dy - r;
                if 1 <= col && col <= 9 && 1 <= row && row <= 9 && tile_at(tiles, col, row) == TileKind::Floor
                    && rng.chance_below(HALF_BELOW) && !is_near_door(col, row) {
                    put(tiles, col, row, TileKind::Pillar);
                    placed = placed + 1;
                }
                dx = dx + 1;
            }
            dy = dy + 1;
        }
        c = c + 1;
    }
    if rng.chance_below(HAZARD_BELOW) {
        let variant = if rng.chance_below(HALF_BELOW) {
            TileKind::Water
        } else {
            TileKind::Pit
        };
        let count = 1 + rng.next_usize(2);
        scatter_hazard(tiles, variant, count, rng);
    }
}

/// The number of obstacle tiles among the first `i` tiles.
pub open spec fn obstacles_below(t: Seq<TileKind>, i: int) -> nat
    decreases i,
{
    if i <= 0 {
        0
    } else {
        obstacles_below(t, i - 1) + if obstacle(t[i - 1]) { 1nat } else { 0nat }
    }
}

/// The tiles and generator state left by thinning: from tile `i` on, with
/// `removed` of `to_remove` pillars gone, each pillar met in tile order
/// becomes floor when the next even-odds draw says so.
pub open spec fn clamp_run(t: Seq<TileKind>, s: RngState, i: nat, removed: nat, to_remove: nat) -> (Seq<TileKind>, RngState)
    decreases 121 - i,
{
    if i < 121 && removed < to_remove {
        if t[i as int] is Pillar {
            if chance_hit(s, HALF_BELOW) {
                clamp_run(t.update(i as int, TileKind::Floor), xoshiro_next(s), i + 1, removed + 1, to_remove)
            } else {
                clamp_run(t, xoshiro_next(s), i + 1, removed, to_remove)
            }
        } else {
            clamp_run(t, s, i + 1, removed, to_remove)
        }
    } else {
        (t, s)
    }
}

/// What [`clamp_density`] leaves: with more than `MAX_OBSTACLES` obstacles,
/// pillars thinned until that many are gone or the tiles run out.
pub open spec fn clamp_result(t: Seq<TileKind>, s: RngState) -> (Seq<TileKind>, RngState) {
    if obstacles_below(t, 121) > 20 {
        clamp_run(t, s, 0, 0, (obstacles_below(t, 121) - 20) as nat)
    } else {
        (t, s)
    }
}

/// Remove pillars at random, in tile order, while more than `MAX_OBSTACLES`
/// obstacles stand.
fn clamp_density(tiles: &mut [TileKind; TOTAL_TILES], rng: &mut Rng)
    requires
        tiles_framed(old(tiles)@),
    ensures
        tiles_framed(final(tiles)@),
        same_ring(old(tiles)@, final(tiles)@),
        plain_interior(old(tiles)@) ==> plain_interior(final(tiles)@),
        near_doors_clear(old(tiles)@) ==> near_doors_clear(final(tiles)@),
        (final(tiles)@, final(rng)@) == clamp_result(old(tiles)@, old(rng)@),
{
    let mut obstacle_count: usize = 0;
    let mut i: usize = 0;
    while i < TOTAL_TILES
        invariant
            i <= TOTAL_TILES,
            obstacle_count <= i,
            obstacle_count == obstacles_below(tiles@, i as int),
        decreases TOTAL_TILES - i,
    {
        let t = tiles[i];
        if t == TileKind::Pillar || t == TileKind::Water || t == TileKind::Pit {
            obstacle_count = obstacle_count + 1;
        }
        i = i + 1;
    }
    if obstacle_count > MAX_OBSTACLES {
        let to_remove = obstacle_count - MAX_OBSTACLES;
        let mut removed: usize = 0;
        let mut i: usize = 0;
        while i < TOTAL_TILES
            invariant
                clamp_run(tiles@, rng@, i as nat, removed as nat, to_remove as nat) == clamp_result(old(tiles)@, old(rng)@),
                tiles_framed(tiles@),
                same_ring(old(tiles)@, tiles@),
                plain_interior(old(tiles)@) ==> plain_interior(tiles@),
                near_doors_clear(old(tiles)@) ==> near_doors_clear(tiles@),
                i <= TOTAL_TILES,
                removed <= i,
            ensures
                (tiles@, rng@) == clamp_result(old(tiles)@, old(rng)@),
            decreases TOTAL_TILES - i,
        {
            if removed >= to_remove {
                break;
            }
            if tiles[i] == TileKind::Pillar && rng.chance_below(HALF_BELOW) {
                let row = i / CELL_SIZE;
                let col = i % CELL_SIZE;
                proof {
                    assert(row * 11 + col == i) by (nonlinear_arith)
                        requires row == i / 11, col == i % 11;
                    assert(col < 11 && row < 11);
                    assert(tiles@[row * 11 + col] is Pillar);
                }
                put(tiles, col, row, TileKind::Floor);
                removed = removed + 1;
            }
            i = i + 1;
        }
    }
}

/// One column of the columned layout: from `row` on, in steps of
/// `spacing`, each floor tile draws (chance `COLUMN_BELOW`) whether it
/// becomes a pillar, which it does away from the doors.
pub open spec fn column_run(t: Seq<TileKind>, s: RngState, col: int, row: int, spacing: int) -> (Seq<TileKind>, RngState)
    decreases 10 + spacing - row,
{
    if row <= 9 && spacing > 0 {
        if t[row * 11 + col] is Floor {
            if chance_hit(s, COLUMN_BELOW) && !near_door(col, row) {
                column_run(t.update(row * 11 + col, TileKind::Pillar), xoshiro_next(s), col, row + spacing, spacing)
            } else {
                column_run(t, xoshiro_next(s), col, row + spacing, spacing)
            }
        } else {
            column_run(t, s, col, row + spacing, spacing)
        }
    } else {
        (t, s)
    }
}

/// The columns of the columned layout from `col` on, in steps of
/// `spacing`; with `offset`, every second column starts half a step lower.
pub open spec fn columns_run(t: Seq<TileKind>, s: RngState, offset: bool, spacing: int, start_row: int, col: int, row_num: int) -> (Seq<TileKind>, RngState)
    decreases 10 + spacing - col,
{
    if col <= 9 && spacing > 0 {
        let row0 = start_row + if offset && row_num % 2 == 1 { spacing / 2 } else { 0 };
        let r = column_run(t, s, col, row0, spacing);
        columns_run(r.0, r.1, offset, spacing, start_row, col + spacing, row_num + 1)
    } else {
        (t, s)
    }
}

/// What [`apply_columned`] leaves: an even-odds offset flag, a spacing
/// of two or three, a start column and row below the spacing, the
/// columns, then [`clamp_result`].
pub open spec fn columned_result(t: Seq<TileKind>, s: RngState) -> (Seq<TileKind>, RngState) {
    let offset = chance_hit(s, HALF_BELOW);
    let sp = usize_draw(xoshiro_next(s), 2);
    let spacing = 2 + sp.0;
    let sc = usize_draw(sp.1, spacing as usize);
    let sr = usize_draw(sc.1, spacing as usize);
    let r = columns_run(t, sr.1, offset, spacing, 1 + sr.0, 1 + sc.0, 0);
    clamp_result(r.0, r.1)
}

/// A regular or offset grid of pillars with clear aisles.
fn apply_columned(tiles: &mut [TileKind; TOTAL_TILES], rng: &mut Rng)
    requires
        tiles_framed(old(tiles)@),
    ensures
        tiles_framed(final(tiles)@),
        same_ring(old(tiles)@, final(tiles)@),
        plain_interior(old(tiles)@) ==> plain_interior(final(tiles)@),
        near_doors_clear(old(tiles)@) ==> near_doors_clear(final(tiles)@),
        (final(tiles)@, final(rng)@) == columned_result(old(tiles)@, old(rng)@),
{
    let offset_mode = rng.chance_below(HALF_BELOW);
    let spacing = 2 + rng.next_usize(2);
    let start_col = 1 + rng.next_usize(spacing);
    let start_row = 1 + rng.next_usize(spacing);
    let ghost s_start = rng@;
    let mut col = start_col;
    let mut row_num: usize = 0;
    while col <= 9
        invariant
            columns_run(tiles@, rng@, offset_mode, spacing as int, start_row as int, col as int, row_num as int)
                == columns_run(old(tiles)@, s_start, offset_mode, spacing as int, start_row as int, start_col as int, 0),
            tiles_framed(tiles@),
            same_ring(old(tiles)@, tiles@),
            plain_interior(old(tiles)@) ==> plain_interior(tiles@),
            near_doors_clear(old(tiles)@) ==> near_doors_clear(tiles@),
            2 <= spacing <= 3,
            1 <= start_row <= 3,
            1 <= col <= 9 + spacing,
            row_num <= col,
        decreases 10 - col + spacing,
    {
        let mut row = start_row + if offset_mode && row_num % 2 == 1 { spacing / 2 } else { 0 };
        let ghost t_col = tiles@;
        let ghost s_col = rng@;
        let ghost row0 = row as int;
        while row <= 9
            invariant
                column_run(tiles@, rng@, col as int, row as int, spacing as int) == column_run(t_col, s_col, col as int, row0, spacing as int),
                tiles_framed(tiles@),
                same_ring(old(tiles)@, tiles@),
                plain_interior(old(tiles)@) ==> plain_interior(tiles@),
                near_doors_clear(old(tiles)@) ==> near_doors_clear(tiles@),
                2 <= spacing <= 3,
                1 <= col <= 9,
                1 <= row <= 9 + spacing,
            decreases 10 - row + spacing,
        {
            if tile_at(tiles, col, row) == TileKind::Floor {
                if rng.chance_below(COLUMN_BELOW) && !is_near_door(col, row) {
                    put(tiles, col, row, TileKind::Pillar);
                }
            }
            row = row + spacing;
        }
        col = col + spacing;
        row_num = row_num + 1;
    }
    clamp_density(tiles, rng);
}

/// The anchor of alcove site `i` (corners, then wall centres).
pub open spec fn alcove_anchor(i: int) -> (int, int) {
    if i == 0 {
        (2, 2)
    } else if i == 1 {
        (8, 2)
    } else if i == 2 {
        (2, 8)
    } else if i == 3 {
        (8, 8)
    } else if i == 4 {
        (5, 2)
    } else if i == 5 {
        (5, 8)
    } else if i == 6 {
        (2, 5)
    } else {
        (8, 5)
    }
}

/// The pillar offsets framing alcove site `i`.
pub open spec fn alcove_offsets(i: int) -> Seq<(int, int)> {
    if i == 0 {
        seq![(1, 0), (0, 1)]
    } else if i == 1 {
        seq![(-1, 0), (0, 1)]
    } else if i == 2 {
        seq![(1, 0), (0, -1)]
    } else if i == 3 {
        seq![(-1, 0), (0, -1)]
    } else if i == 4 {
        seq![(-1, 0), (1, 0), (0, 1)]
    } else if i == 5 {
        seq![(-1, 0), (1, 0), (0, -1)]
    } else if i == 6 {
        seq![(1, 0), (0, -1), (0, 1)]
    } else {
        seq![(-1, 0), (0, -1), (0, 1)]
    }
}

fn alcove_site(i: usize) -> (r: (usize, usize, Vec<(i32, i32)>))
    requires
        i < 8,
    ensures
        (r.0 as int, r.1 as int) == alcove_anchor(i as int),
        r.2@.len() == alcove_offsets(i as int).len(),
        forall|k: int| 0 <= k < r.2@.len() ==> ((#[trigger] r.2@[k]).0 as int, r.2@[k].1 as int) == alcove_offsets(i as int)[k],
{
    let r = if i == 0 {
        (2, 2, vec![(1, 0), (0, 1)])
    } else if i == 1 {
        (8, 2, vec![(-1, 0), (0, 1)])
    } else if i == 2 {
        (2, 8, vec![(1, 0), (0, -1)])
    } else if i == 3 {
        (8, 8, vec![(-1, 0), (0, -1)])
    } else if i == 4 {
        (5, 2, vec![(-1, 0), (1, 0), (0, 1)])
    } else if i == 5 {
        (5, 8, vec![(-1, 0), (1, 0), (0, -1)])
    } else if i == 6 {
        (2, 5, vec![(1, 0), (0, -1), (0, 1)])
    } else {
        (8, 5, vec![(-1, 0), (0, -1), (0, 1)])
    };
    proof {
        assert(r.2@.len() == alcove_offsets(i as int).len());
    }
    r
}

/// The frame of an alcove anchored at `(ac, ar)`, from offset `k` on: each
/// framing tile inside the canvas, away from the doors and on floor,
/// becomes a pillar.
pub open spec fn alcove_put(t: Seq<TileKind>, ac: int, ar: int, offs: Seq<(int, int)>, k: int) -> Seq<TileKind>
    decreases offs.len() - k,
{
    if k < offs.len() {
        let pc = ac + offs[k].0;
        let pr = ar + offs[k].1;
        if 1 <= pc <= 9 && 1 <= pr <= 9 && !near_door(pc, pr) && t[pr * 11 + pc] is Floor {
            alcove_put(t.update(pr * 11 + pc, TileKind::Pillar), ac, ar, offs, k + 1)
        } else {
            alcove_put(t, ac, ar, offs, k + 1)
        }
    } else {
        t
    }
}

/// The alcoves at the sites `frames[a]` to `frames[n - 1]`; a site whose
/// anchor lies near a door is left out.
pub open spec fn alcoves_run(t: Seq<TileKind>, frames: Seq<usize>, n: int, a: int) -> Seq<TileKind>
    decreases frames.len() - a,
{
    if a < n && a < frames.len() {
        let i = frames[a] as int;
        let anchor = alcove_anchor(i);
        let t1 = if !near_door(anchor.0, anchor.1) { alcove_put(t, anchor.0, anchor.1, alcove_offsets(i), 0) } else { t };
        alcoves_run(t1, frames, n, a + 1)
    } else {
        t
    }
}

/// What [`apply_alcove`] leaves: two to four alcoves at the first sites of
/// a shuffle of the eight, then with chance 0.35 one to three pillars
/// scattered.
pub open spec fn alcove_result(t: Seq<TileKind>, s: RngState) -> (Seq<TileKind>, RngState) {
    let na = usize_draw(s, 3);
    let sh = fisher_yates(seq![0usize, 1usize, 2usize, 3usize, 4usize, 5usize, 6usize, 7usize], na.1, 7);
    let t1 = alcoves_run(t, sh.0, 2 + na.0, 0);
    if chance_hit(sh.1, EXTRA_PILLARS_BELOW) {
        let cnt = usize_draw(xoshiro_next(sh.1), 3);
        scatter_run(t1, TileKind::Pillar, (1 + cnt.0) as nat, cnt.1, 0, 0)
    } else {
        (t1, xoshiro_next(sh.1))
    }
}

/// Recessed nooks framed by pillars at two to four random sites, and
/// sometimes a few extra pillars.
fn apply_alcove(tiles: &mut [TileKind; TOTAL_TILES], rng: &mut Rng)
    requires
        tiles_framed(old(tiles)@),
    ensures
        tiles_framed(final(tiles)@),
        same_ring(old(tiles)@, final(tiles)@),
        plain_interior(old(tiles)@) ==> plain_interior(final(tiles)@),
        near_doors_clear(old(tiles)@) ==> near_doors_clear(final(tiles)@),
        (final(tiles)@, final(rng)@) == alcove_result(old(tiles)@, old(rng)@),
{
    let n_alcoves = 2 + rng.next_usize(3);
    let mut frames: Vec<usize> = vec![0, 1, 2, 3, 4, 5, 6, 7];
    let ghost f0 = frames@;
    assert(f0 == seq![0usize, 1usize, 2usize, 3usize, 4usize, 5usize, 6usize, 7usize]);
    rng.shuffle(&mut frames);
    proof {
        crate::pathfinding::lemma_permutation_members(f0, frames@);
        assert forall|j: int| 0 <= j < frames@.len() implies #[trigger] frames@[j] < 8 by {
            assert(frames@.contains(frames@[j]));
            assert(f0.contains(frames@[j]));
        }
    }
    let mut a: usize = 0;
    while a < n_alcoves && a < frames.len()
        invariant
            alcoves_run(tiles@, frames@, n_alcoves as int, a as int) == alcoves_run(old(tiles)@, frames@, n_alcoves as int, 0),
            tiles_framed(tiles@),
            same_ring(old(tiles)@, tiles@),
            plain_interior(old(tiles)@) ==> plain_interior(tiles@),
            near_doors_clear(old(tiles)@) ==> near_doors_clear(tiles@),
            forall|j: int| 0 <= j < frames@.len() ==> #[trigger] frames@[j] < 8,
            a <= frames@.len(),
        decreases frames@.len() - a,
    {
        let (ac, ar, offsets) = alcove_site(frames[a]);
        let ghost fi = frames@[a as int] as int;
        let ghost t_a = tiles@;
        if !is_near_door(ac, ar) {
            let mut k: usize = 0;
            while k < offsets.len()
                invariant
                    alcove_put(tiles@, ac as int, ar as int, alcove_offsets(fi), k as int)
                        == alcove_put(t_a, ac as int, ar as int, alcove_offsets(fi), 0),
                    offsets@.len() == alcove_offsets(fi).len(),
                    forall|q: int| 0 <= q < offsets@.len() ==> ((#[trigger] offsets@[q]).0 as int, offsets@[q].1 as int) == alcove_offsets(fi)[q],
                    tiles_framed(tiles@),
                    same_ring(old(tiles)@, tiles@),
                    plain_interior(old(tiles)@) ==> plain_interior(tiles@),
                    near_doors_clear(old(tiles)@) ==> near_doors_clear(tiles@),
                    1 <= ac <= 9,
                    1 <= ar <= 9,
                    forall|q: int| 0 <= q < offsets@.len() ==> -1 <= (#[trigger] offsets@[q]).0 <= 1 && -1 <= offsets@[q].1 <= 1,
                    k <= offsets@.len(),
                decreases offsets@.len() - k,
            {
                let (dc, dr) = offsets[k];
                let pc = (ac as i32 + dc) as usize;
                let pr = (ar as i32 + dr) as usize;
                if 1 <= pc && pc <= 9 && 1 <= pr && pr <= 9 && !is_near_door(pc, pr) {
                    if tile_at(tiles, pc, pr) == TileKind::Floor {
                        put(tiles, pc, pr, TileKind::Pillar);
                    }
                }
                k = k + 1;
            }
        }
        a = a + 1;
    }
    if rng.chance_below(EXTRA_PILLARS_BELOW) {
        let count = 1 + rng.next_usize(3);
        scatter_hazard(tiles, TileKind::Pillar, count, rng);
    }
}


// ── Reachability inside a room ──────────────────────────────────────────────

/// Tiles `p` and `q` (row-major indices) are side by side.
pub open spec fn tile_adj(p: int, q: int) -> bool {
    &&& 0 <= p < 121
    &&& 0 <= q < 121
    &&& ((p / 11 == q / 11 && (p % 11 == q % 11 + 1 || q % 11 == p % 11 + 1))
        || (p % 11 == q % 11 && (p / 11 == q / 11 + 1 || q / 11 == p / 11 + 1)))
}

/// `m` marks the tiles reached from `start` by walking: the start, and
/// with every marked tile each walkable tile beside it; every marked tile
/// but the start is walkable.
pub open spec fn flood_ok(t: Seq<TileKind>, start: int, m: Seq<bool>) -> bool {
    &&& m.len() == 121
    &&& m[start]
    &&& forall|p: int| 0 <= p < 121 && #[trigger] m[p] && p != start ==> walkable(t[p])
    &&& forall|p: int, q: int| #[trigger] m[p] && #[trigger] tile_adj(p, q) && walkable(t[q]) ==> m[q]
}

/// `w` walks from `start`, one side-by-side step at a time, onto walkable
/// tiles only (the start itself may be any tile).
pub open spec fn tile_walk(t: Seq<TileKind>, start: int, w: Seq<int>) -> bool {
    &&& w.len() > 0
    &&& w[0] == start
    &&& forall|j: int| 0 < j < w.len() ==> #[trigger] walk_step(t, w, j)
}

/// Entry `j` of `w` is a walkable tile beside entry `j - 1`.
pub open spec fn walk_step(t: Seq<TileKind>, w: Seq<int>, j: int) -> bool {
    tile_adj(w[j - 1], w[j]) && walkable(t[w[j]])
}

/// Tile `p` can be walked to from `start`.
pub open spec fn walk_reaches(t: Seq<TileKind>, start: int, p: int) -> bool {
    exists|w: Seq<int>| #[trigger] tile_walk(t, start, w) && w.last() == p
}

/// A closed marking holds every tile that can be walked to.
proof fn lemma_walk_marked(t: Seq<TileKind>, start: int, m: Seq<bool>, w: Seq<int>)
    requires
        flood_ok(t, start, m),
        tile_walk(t, start, w),
    ensures
        m[w.last()],
    decreases w.len(),
{
    if w.len() > 1 {
        let v = w.drop_last();
        assert forall|j: int| 0 < j < v.len() implies #[trigger] walk_step(t, v, j) by {
            assert(walk_step(t, w, j));
        }
        lemma_walk_marked(t, start, m, v);
        assert(walk_step(t, w, w.len() - 1));
        assert(m[v.last()] && tile_adj(v.last(), w.last()) && walkable(t[w.last()]));
    }
}

/// The neighbour of tile `p` in direction `d` (south, north, east, west), if inside the room.
fn tile_step(p: usize, d: usize) -> (r: Option<usize>)
    requires
        p < 121,
        d < 4,
    ensures
        r matches Some(q) ==> q < 121 && tile_adj(p as int, q as int),
        r is None ==> forall|q: int| #[trigger] tile_adj(p as int, q) ==> !step_dir(p as int, q, d as int),
        forall|q: int| #[trigger] tile_adj(p as int, q) && step_dir(p as int, q, d as int) ==> r == Some(q as usize),
{
    let col = p % CELL_SIZE;
    let row = p / CELL_SIZE;
    if d == 0 {
        if row + 1 < CELL_SIZE { Some(p + CELL_SIZE) } else { None }
    } else if d == 1 {
        if row >= 1 { Some(p - CELL_SIZE) } else { None }
    } else if d == 2 {
        if col + 1 < CELL_SIZE { Some(p + 1) } else { None }
    } else {
        if col >= 1 { Some(p - 1) } else { None }
    }
}

/// `q` lies from `p` in direction `d` (south, north, east, west).
pub open spec fn step_dir(p: int, q: int, d: int) -> bool {
    if d == 0 {
        q == p + 11
    } else if d == 1 {
        q == p - 11
    } else if d == 2 {
        q == p + 1 && p % 11 != 10
    } else {
        q == p - 1 && p % 11 != 0
    }
}

pub(crate) proof fn lemma_adj_has_dir(p: int, q: int)
    requires
        tile_adj(p, q),
    ensures
        exists|d: int| 0 <= d < 4 && step_dir(p, q, d),
{
    if p / 11 == q / 11 && q % 11 == p % 11 + 1 {
        assert(q == p + 1) by (nonlinear_arith)
            requires p / 11 == q / 11, q % 11 == p % 11 + 1, 0 <= p, 0 <= q;
        assert(step_dir(p, q, 2));
    } else if p / 11 == q / 11 && p % 11 == q % 11 + 1 {
        assert(q == p - 1) by (nonlinear_arith)
            requires p / 11 == q / 11, p % 11 == q % 11 + 1, 0 <= p, 0 <= q;
        assert(step_dir(p, q, 3));
    } else if q / 11 == p / 11 + 1 {
        assert(q == p + 11) by (nonlinear_arith)
            requires p % 11 == q % 11, q / 11 == p / 11 + 1, 0 <= p, 0 <= q;
        assert(step_dir(p, q, 0));
    } else {
        assert(q == p - 11) by (nonlinear_arith)
            requires p % 11 == q % 11, p / 11 == q / 11 + 1, 0 <= p, 0 <= q;
        assert(step_dir(p, q, 1));
    }
}

/// The tiles reachable from `start` by walking (the start always counts).
pub fn flood_fill(tiles: &[TileKind; TOTAL_TILES], start: usize) -> (m: [bool; TOTAL_TILES])
    requires
        start < 121,
    ensures
        flood_ok(tiles@, start as int, m@),
        forall|p: int| 0 <= p < 121 ==> (#[trigger] m@[p] <==> walk_reaches(tiles@, start as int, p)),
{
    let mut visited: [bool; TOTAL_TILES] = [false; TOTAL_TILES];
    let ghost v0 = visited@;
    visited[start] = true;
    let mut queue: Vec<usize> = Vec::new();
    queue.push(start);
    proof {
        assert forall|p: int| 0 <= p < 121 implies (#[trigger] visited@[p] <==> queue@.contains(p as usize)) by {
            if p == start {
                assert(queue@[0] == start);
            } else {
                assert(visited@[p] == v0[p]);
                assert(!v0[p]);
                if queue@.contains(p as usize) {
                    let w = choose|w: int| 0 <= w < queue@.len() && queue@[w] == p as usize;
                    assert(w == 0);
                }
            }
        }
    }
    proof {
        let w0 = seq![start as int];
        assert(tile_walk(tiles@, start as int, w0));
        assert(walk_reaches(tiles@, start as int, queue@[0] as int));
    }
    let mut head: usize = 0;
    while head < queue.len()
        invariant
            start < 121,
            visited@.len() == 121,
            visited@[start as int],
            head <= queue@.len(),
            forall|j: int| 0 <= j < queue@.len() ==> #[trigger] walk_reaches(tiles@, start as int, queue@[j] as int),
            queue@.no_duplicates(),
            forall|j: int| 0 <= j < queue@.len() ==> #[trigger] queue@[j] < 121,
            forall|p: int| 0 <= p < 121 ==> (#[trigger] visited@[p] <==> queue@.contains(p as usize)),
            forall|p: int| 0 <= p < 121 && #[trigger] visited@[p] && p != start ==> walkable(tiles@[p]),
            forall|j: int, q: int| 0 <= j < head && #[trigger] tile_adj(queue@[j] as int, q) && walkable(tiles@[q]) ==> #[trigger] visited@[q],
        decreases 121 - head,
    {
        proof {
            lemma_distinct_below(queue@, 121);
        }
        let p = queue[head];
        let mut d: usize = 0;
        while d < 4
            invariant
                start < 121,
                p < 121,
                p == queue@[head as int],
                head < queue@.len(),
                forall|j: int| 0 <= j < queue@.len() ==> #[trigger] walk_reaches(tiles@, start as int, queue@[j] as int),
                visited@.len() == 121,
                visited@[start as int],
                queue@.no_duplicates(),
                forall|j: int| 0 <= j < queue@.len() ==> #[trigger] queue@[j] < 121,
                forall|x: int| 0 <= x < 121 ==> (#[trigger] visited@[x] <==> queue@.contains(x as usize)),
                forall|x: int| 0 <= x < 121 && #[trigger] visited@[x] && x != start ==> walkable(tiles@[x]),
                forall|j: int, q: int| 0 <= j < head && #[trigger] tile_adj(queue@[j] as int, q) && walkable(tiles@[q]) ==> #[trigger] visited@[q],
                forall|q: int, e: int| 0 <= e < d && tile_adj(p as int, q) && #[trigger] step_dir(p as int, q, e) && walkable(tiles@[q]) ==> #[trigger] visited@[q],
                d <= 4,
            decreases 4 - d,
        {
            match tile_step(p, d) {
                Some(q) => {
                    if !visited[q] && tiles[q].is_walkable() {
                        proof {
                            lemma_distinct_below(queue@, 121);
                            assert(!queue@.contains(q));
                        }
                        let ghost q0 = queue@;
                        let ghost v0 = visited@;
                        visited[q] = true;
                        queue.push(q);
                        proof {
                            assert(walk_reaches(tiles@, start as int, q0[head as int] as int));
                            let wp = choose|w: Seq<int>| #[trigger] tile_walk(tiles@, start as int, w) && w.last() == p as int;
                            let wq = wp.push(q as int);
                            assert forall|j: int| 0 < j < wq.len() implies #[trigger] walk_step(tiles@, wq, j) by {
                                if j < wp.len() {
                                    assert(walk_step(tiles@, wp, j));
                                }
                            }
                            assert(tile_walk(tiles@, start as int, wq));
                            assert forall|j: int| 0 <= j < queue@.len() implies #[trigger] walk_reaches(tiles@, start as int, queue@[j] as int) by {
                                if j < q0.len() {
                                    assert(queue@[j] == q0[j]);
                                } else {
                                    assert(queue@[j] == q);
                                    assert(wq.last() == q as int);
                                }
                            }
                            assert forall|a: int, b: int| 0 <= a < queue@.len() && 0 <= b < queue@.len() && a != b implies queue@[a] != queue@[b] by {
                                if a < q0.len() && b < q0.len() {
                                    assert(queue@[a] == q0[a] && queue@[b] == q0[b]);
                                } else if a == q0.len() {
                                    assert(q0[b] == queue@[b]);
                                } else {
                                    assert(q0[a] == queue@[a]);
                                }
                            }
                            assert forall|x: int| 0 <= x < 121 implies (#[trigger] visited@[x] <==> queue@.contains(x as usize)) by {
                                if x == q {
                                    assert(queue@[q0.len() as int] == q);
                                } else {
                                    assert(visited@[x] == v0[x]);
                                    if q0.contains(x as usize) {
                                        let w = choose|w: int| 0 <= w < q0.len() && q0[w] == x as usize;
                                        assert(queue@[w] == x as usize);
                                    }
                                    if queue@.contains(x as usize) {
                                        let w = choose|w: int| 0 <= w < queue@.len() && queue@[w] == x as usize;
                                        if w < q0.len() {
                                            assert(q0[w] == x as usize);
                                        }
                                    }
                                }
                            }
                            assert forall|j: int, y: int| 0 <= j < head && #[trigger] tile_adj(queue@[j] as int, y) && walkable(tiles@[y]) implies #[trigger] visited@[y] by {
                                assert(queue@[j] == q0[j]);
                                assert(v0[y]);
                            }
                        }
                    }
                },
                None => {},
            }
            d = d + 1;
        }
        proof {
            assert forall|j: int, q: int| 0 <= j < head + 1 && #[trigger] tile_adj(queue@[j] as int, q) && walkable(tiles@[q]) implies #[trigger] visited@[q] by {
                if j == head {
                    lemma_adj_has_dir(p as int, q);
                }
            }
        }
        head = head + 1;
    }
    proof {
        assert forall|x: int, q: int| #[trigger] visited@[x] && #[trigger] tile_adj(x, q) && walkable(tiles@[q]) implies visited@[q] by {
            assert(queue@.contains(x as usize));
            let w = choose|w: int| 0 <= w < queue@.len() && queue@[w] == x as usize;
            assert(queue@[w] as int == x);
        }
        assert forall|p: int| 0 <= p < 121 implies (#[trigger] visited@[p] <==> walk_reaches(tiles@, start as int, p)) by {
            if visited@[p] {
                assert(queue@.contains(p as usize));
                let w = choose|w: int| 0 <= w < queue@.len() && queue@[w] == p as usize;
                assert(walk_reaches(tiles@, start as int, queue@[w] as int));
            }
            if walk_reaches(tiles@, start as int, p) {
                let w = choose|w: Seq<int>| #[trigger] tile_walk(tiles@, start as int, w) && w.last() == p;
                lemma_walk_marked(tiles@, start as int, visited@, w);
            }
        }
    }
    visited
}


/// The tile index of `(col, row)`.
pub open spec fn tix(col: int, row: int) -> int {
    row * 11 + col
}

/// Index of `(col, row)`.
pub(crate) fn tile_index(col: usize, row: usize) -> (r: usize)
    requires
        col < 11,
        row < 11,
    ensures
        r == tix(col as int, row as int),
        r < 121,
{
    row * CELL_SIZE + col
}

/// Mark in `acc` every tile marked in `m`.
pub(crate) fn union_into(acc: &mut [bool; TOTAL_TILES], m: &[bool; TOTAL_TILES])
    ensures
        forall|p: int| 0 <= p < 121 ==> (#[trigger] final(acc)@[p] <==> (old(acc)@[p] || m@[p])),
{
    let mut i: usize = 0;
    while i < TOTAL_TILES
        invariant
            i <= 121,
            forall|p: int| 0 <= p < i ==> (#[trigger] acc@[p] <==> (old(acc)@[p] || m@[p])),
            forall|p: int| i <= p < 121 ==> #[trigger] acc@[p] == old(acc)@[p],
        decreases 121 - i,
    {
        if m[i] {
            acc[i] = true;
        }
        i = i + 1;
    }
}

/// The `k`-th tile tried inside the door at `(dc, dr)`: south, north, east, west.
pub open spec fn entry_candidate(dc: int, dr: int, k: int) -> (int, int) {
    if k == 0 {
        (dc, dr + 1)
    } else if k == 1 {
        (dc, dr - 1)
    } else if k == 2 {
        (dc + 1, dr)
    } else {
        (dc - 1, dr)
    }
}

/// The first walkable interior tile among the candidates `k..4` inside the
/// door at `(dc, dr)`.
pub open spec fn first_entry(t: Seq<TileKind>, dc: int, dr: int, k: int) -> Option<int>
    decreases 4 - k,
{
    if k >= 4 {
        None
    } else {
        let (c, r) = entry_candidate(dc, dr, k);
        if interior(c, r) && walkable(t[tix(c, r)]) {
            Some(tix(c, r))
        } else {
            first_entry(t, dc, dr, k + 1)
        }
    }
}

/// Tile `p` can be walked to from the first walkable tile inside one of
/// the doors; from the centre tile when there is no door.
pub open spec fn door_reach(t: Seq<TileKind>, doors: Seq<(usize, usize)>, p: int) -> bool {
    if doors.len() == 0 {
        walk_reaches(t, 60, p)
    } else {
        exists|j: int| 0 <= j < doors.len() && #[trigger] first_entry(t, doors[j].0 as int, doors[j].1 as int, 0) is Some
            && walk_reaches(t, first_entry(t, doors[j].0 as int, doors[j].1 as int, 0).unwrap(), p)
    }
}

/// The first walkable interior tile one step in from the door at
/// `(dc, dr)`, trying south, north, east, west.
pub(crate) fn door_entry(tiles: &[TileKind; TOTAL_TILES], dc: usize, dr: usize) -> (r: Option<usize>)
    requires
        dc < 11,
        dr < 11,
    ensures
        r matches Some(p) ==> p < 121 && walkable(tiles@[p as int]) && interior((p % 11) as int, (p / 11) as int),
        r matches Some(p) ==> first_entry(tiles@, dc as int, dr as int, 0) == Some(p as int),
        r is None ==> first_entry(tiles@, dc as int, dr as int, 0) is None,
{
    let mut k: usize = 0;
    while k < 4
        invariant
            k <= 4,
            dc < 11,
            dr < 11,
            first_entry(tiles@, dc as int, dr as int, 0) == first_entry(tiles@, dc as int, dr as int, k as int),
        decreases 4 - k,
    {
        let (dx, dy): (i32, i32) = if k == 0 {
            (0, 1)
        } else if k == 1 {
            (0, -1)
        } else if k == 2 {
            (1, 0)
        } else {
            (-1, 0)
        };
        let nc = dc as i32 + dx;
        let nr = dr as i32 + dy;
        if 1 <= nc && nc <= 9 && 1 <= nr && nr <= 9 {
            let p = tile_index(nc as usize, nr as usize);
            if tiles[p].is_walkable() {
                proof {
                    assert(p % 11 == nc && p / 11 == nr) by (nonlinear_arith)
                        requires p == nr * 11 + nc, 1 <= nc <= 9, 1 <= nr <= 9;
                    assert(entry_candidate(dc as int, dr as int, k as int) == (nc as int, nr as int));
                }
                return Some(p);
            }
        }
        proof {
            assert(entry_candidate(dc as int, dr as int, k as int) == (nc as int, nr as int));
        }
        k = k + 1;
    }
    None
}

/// The tiles reachable from the doors: the union of the walks from the
/// first walkable tile inside each door; from the centre when there is no door.
pub fn reachable_from_doors(tiles: &[TileKind; TOTAL_TILES], door_positions: &[(usize, usize)]) -> (m: [bool; TOTAL_TILES])
    requires
        forall|j: int| 0 <= j < door_positions@.len() ==> (#[trigger] door_positions@[j]).0 < 11 && door_positions@[j].1 < 11,
    ensures
        forall|p: int| 0 <= p < 121 && #[trigger] m@[p] ==> walkable(tiles@[p]) || p == 60,
        forall|p: int| 0 <= p < 121 ==> (#[trigger] m@[p] <==> door_reach(tiles@, door_positions@, p)),
{
    if door_positions.len() == 0 {
        let m = flood_fill(tiles, 60);
        return m;
    }
    let mut reachable: [bool; TOTAL_TILES] = [false; TOTAL_TILES];
    let ghost r0 = reachable@;
    proof {
        assert forall|p: int| 0 <= p < 121 implies !#[trigger] reachable@[p] by {
            assert(reachable@[p] == r0[p]);
        }
    }
    let mut j: usize = 0;
    while j < door_positions.len()
        invariant
            j <= door_positions@.len(),
            forall|q: int| 0 <= q < door_positions@.len() ==> (#[trigger] door_positions@[q]).0 < 11 && door_positions@[q].1 < 11,
            forall|p: int| 0 <= p < 121 && #[trigger] reachable@[p] ==> walkable(tiles@[p]),
            forall|p: int| 0 <= p < 121 ==> (#[trigger] reachable@[p] <==> exists|q: int| 0 <= q < j
                && #[trigger] first_entry(tiles@, door_positions@[q].0 as int, door_positions@[q].1 as int, 0) is Some
                && walk_reaches(tiles@, first_entry(tiles@, door_positions@[q].0 as int, door_positions@[q].1 as int, 0).unwrap(), p)),
        decreases door_positions@.len() - j,
    {
        let (dc, dr) = door_positions[j];
        let ghost r0 = reachable@;
        let ghost ent = first_entry(tiles@, dc as int, dr as int, 0);
        assert(door_positions@[j as int] == (dc, dr));
        match door_entry(tiles, dc, dr) {
            Some(e) => {
                let f = flood_fill(tiles, e);
                union_into(&mut reachable, &f);
                proof {
                    assert(ent == Some(e as int));
                    assert forall|p: int| 0 <= p < 121 implies (#[trigger] reachable@[p] <==> exists|q: int| 0 <= q < j + 1
                        && #[trigger] first_entry(tiles@, door_positions@[q].0 as int, door_positions@[q].1 as int, 0) is Some
                        && walk_reaches(tiles@, first_entry(tiles@, door_positions@[q].0 as int, door_positions@[q].1 as int, 0).unwrap(), p)) by {
                        if f@[p] {
                            assert(walk_reaches(tiles@, e as int, p));
                            assert(first_entry(tiles@, door_positions@[j as int].0 as int, door_positions@[j as int].1 as int, 0) is Some);
                        }
                        if exists|q: int| 0 <= q < j + 1
                            && #[trigger] first_entry(tiles@, door_positions@[q].0 as int, door_positions@[q].1 as int, 0) is Some
                            && walk_reaches(tiles@, first_entry(tiles@, door_positions@[q].0 as int, door_positions@[q].1 as int, 0).unwrap(), p) {
                            let q = choose|q: int| 0 <= q < j + 1
                                && #[trigger] first_entry(tiles@, door_positions@[q].0 as int, door_positions@[q].1 as int, 0) is Some
                                && walk_reaches(tiles@, first_entry(tiles@, door_positions@[q].0 as int, door_positions@[q].1 as int, 0).unwrap(), p);
                            if q == j {
                                assert(f@[p]);
                            } else {
                                assert(r0[p]);
                            }
                        }
                    }
                }
            },
            None => {
                proof {
                    assert(ent is None);
                    assert forall|p: int| 0 <= p < 121 implies (#[trigger] reachable@[p] <==> exists|q: int| 0 <= q < j + 1
                        && #[trigger] first_entry(tiles@, door_positions@[q].0 as int, door_positions@[q].1 as int, 0) is Some
                        && walk_reaches(tiles@, first_entry(tiles@, door_positions@[q].0 as int, door_positions@[q].1 as int, 0).unwrap(), p)) by {
                        if exists|q: int| 0 <= q < j + 1
                            && #[trigger] first_entry(tiles@, door_positions@[q].0 as int, door_positions@[q].1 as int, 0) is Some
                            && walk_reaches(tiles@, first_entry(tiles@, door_positions@[q].0 as int, door_positions@[q].1 as int, 0).unwrap(), p) {
                            let q = choose|q: int| 0 <= q < j + 1
                                && #[trigger] first_entry(tiles@, door_positions@[q].0 as int, door_positions@[q].1 as int, 0) is Some
                                && walk_reaches(tiles@, first_entry(tiles@, door_positions@[q].0 as int, door_positions@[q].1 as int, 0).unwrap(), p);
                            assert(q != j);
                        }
                    }
                }
            },
        }
        j = j + 1;
    }
    reachable
}

/// One when the tile at `(c, w)` blocks walking, zero otherwise.
pub open spec fn solid_at(t: Seq<TileKind>, c: int, w: int) -> int {
    if walkable(t[tix(c, w)]) { 0 } else { 1 }
}

/// The walking distance from `(c, w)` to the nearest of the first `n`
/// door positions; ten without any.
pub open spec fn door_distance(doors: Seq<(usize, usize)>, c: int, w: int, n: int) -> int
    decreases n,
{
    if n <= 0 {
        10
    } else if n == 1 {
        tile_dist(c, w, doors[0].0 as int, doors[0].1 as int)
    } else {
        let d = tile_dist(c, w, doors[n - 1].0 as int, doors[n - 1].1 as int);
        let m = door_distance(doors, c, w, n - 1);
        if d < m { d } else { m }
    }
}

/// How tucked away the tile at `(c, w)` is: three per solid neighbour
/// plus the distance to the nearest door.
pub open spec fn interest(t: Seq<TileKind>, doors: Seq<(usize, usize)>, c: int, w: int) -> int {
    3 * (solid_at(t, c, w + 1) + solid_at(t, c, w - 1) + solid_at(t, c + 1, w) + solid_at(t, c - 1, w))
        + door_distance(doors, c, w, doors.len() as int)
}

/// An interior walkable tile not in `excl`.
pub open spec fn open_spot(t: Seq<TileKind>, excl: Seq<bool>, c: int, w: int) -> bool {
    interior(c, w) && walkable(t[tix(c, w)]) && !excl[tix(c, w)]
}

/// The tile `(c, w)` with its interest, when it is an open spot.
pub open spec fn scored_entry(t: Seq<TileKind>, doors: Seq<(usize, usize)>, excl: Seq<bool>, c: int, w: int) -> Seq<(usize, usize, usize)> {
    if open_spot(t, excl, c, w) {
        seq![(interest(t, doors, c, w) as usize, c as usize, w as usize)]
    } else {
        Seq::empty()
    }
}

/// The scored open spots of row `w` left of column `c`, left to right.
pub open spec fn row_scored(t: Seq<TileKind>, doors: Seq<(usize, usize)>, excl: Seq<bool>, w: int, c: int) -> Seq<(usize, usize, usize)>
    decreases c,
{
    if c <= 1 {
        Seq::empty()
    } else {
        row_scored(t, doors, excl, w, c - 1) + scored_entry(t, doors, excl, c - 1, w)
    }
}

/// The scored open spots of the interior rows above row `w`, in row-major order.
pub open spec fn grid_scored(t: Seq<TileKind>, doors: Seq<(usize, usize)>, excl: Seq<bool>, w: int) -> Seq<(usize, usize, usize)>
    decreases w,
{
    if w <= 1 {
        Seq::empty()
    } else {
        grid_scored(t, doors, excl, w - 1) + row_scored(t, doors, excl, w - 1, 10)
    }
}

/// The positions of the entries of `s` scored `sc`, in order.
pub open spec fn with_score(s: Seq<(usize, usize, usize)>, sc: int) -> Seq<(usize, usize)>
    decreases s.len(),
{
    if s.len() == 0 {
        Seq::empty()
    } else if s.last().0 == sc {
        with_score(s.drop_last(), sc).push((s.last().1, s.last().2))
    } else {
        with_score(s.drop_last(), sc)
    }
}

/// The positions of the entries of `s`, score by score from forty down to `sc`.
pub open spec fn desc_from(s: Seq<(usize, usize, usize)>, sc: int) -> Seq<(usize, usize)>
    decreases 41 - sc,
{
    if sc >= 41 {
        Seq::empty()
    } else {
        desc_from(s, sc + 1) + with_score(s, sc)
    }
}

/// The open spots ordered by descending interest, ties in row-major order.
pub open spec fn interesting_order(t: Seq<TileKind>, doors: Seq<(usize, usize)>, excl: Seq<bool>) -> Seq<(usize, usize)> {
    desc_from(grid_scored(t, doors, excl, 10), 0)
}

/// Position `p` comes before `q` in order of interest: it is more
/// interesting, or as interesting and earlier in row-major order.
pub open spec fn interest_before(t: Seq<TileKind>, doors: Seq<(usize, usize)>, p: (usize, usize), q: (usize, usize)) -> bool {
    ||| interest(t, doors, p.0 as int, p.1 as int) > interest(t, doors, q.0 as int, q.1 as int)
    ||| interest(t, doors, p.0 as int, p.1 as int) == interest(t, doors, q.0 as int, q.1 as int)
        && tix(p.0 as int, p.1 as int) < tix(q.0 as int, q.1 as int)
}

/// Every interior walkable tile not in `exclude`, ordered by descending
/// "interest" (three per solid neighbour plus the distance to the nearest
/// door, or 10 without doors), ties in row-major order.
fn interesting_positions(tiles: &[TileKind; TOTAL_TILES], door_positions: &[(usize, usize)], exclude: &[bool; TOTAL_TILES]) -> (r: Vec<(usize, usize)>)
    requires
        forall|j: int| 0 <= j < door_positions@.len() ==> (#[trigger] door_positions@[j]).0 < 11 && door_positions@[j].1 < 11,
    ensures
        forall|k: int| 0 <= k < r@.len() ==> {
            let (c, w) = #[trigger] r@[k];
            &&& interior(c as int, w as int)
            &&& walkable(tiles@[tix(c as int, w as int)])
            &&& !exclude@[tix(c as int, w as int)]
        },
        r@ == interesting_order(tiles@, door_positions@, exclude@),
        forall|c: int, w: int| #[trigger] open_spot(tiles@, exclude@, c, w) ==> r@.contains((c as usize, w as usize)),
        forall|i: int, j: int| 0 <= i < j < r@.len() ==> interest_before(tiles@, door_positions@, #[trigger] r@[i], #[trigger] r@[j]),
{
    let mut scored: Vec<(usize, usize, usize)> = Vec::new();
    let mut row: usize = 1;
    while row <= 9
        invariant
            1 <= row <= 10,
            scored@ == grid_scored(tiles@, door_positions@, exclude@, row as int),
            forall|j: int| 0 <= j < door_positions@.len() ==> (#[trigger] door_positions@[j]).0 < 11 && door_positions@[j].1 < 11,
            forall|k: int| 0 <= k < scored@.len() ==> {
                let (s, c, w) = #[trigger] scored@[k];
                &&& interior(c as int, w as int)
                &&& walkable(tiles@[tix(c as int, w as int)])
                &&& !exclude@[tix(c as int, w as int)]
                &&& s <= 40
            },
            forall|k: int| 0 <= k < scored@.len() ==> (#[trigger] scored@[k]).0 == interest(tiles@, door_positions@, scored@[k].1 as int, scored@[k].2 as int),
            forall|k: int| 0 <= k < scored@.len() ==> (#[trigger] scored@[k]).2 < row,
            forall|i: int, j: int| 0 <= i < j < scored@.len() ==> tix((#[trigger] scored@[i]).1 as int, scored@[i].2 as int)
                < tix((#[trigger] scored@[j]).1 as int, scored@[j].2 as int),
            forall|c: int, w: int| #[trigger] open_spot(tiles@, exclude@, c, w) && w < row
                ==> exists|k: int| 0 <= k < scored@.len() && (#[trigger] scored@[k]).1 == c && scored@[k].2 == w,
        decreases 10 - row,
    {
        let mut col: usize = 1;
        proof {
            assert(scored@ =~= grid_scored(tiles@, door_positions@, exclude@, row as int)
                + row_scored(tiles@, door_positions@, exclude@, row as int, 1));
        }
        while col <= 9
            invariant
                1 <= row <= 9,
                1 <= col <= 10,
                scored@ == grid_scored(tiles@, door_positions@, exclude@, row as int)
                    + row_scored(tiles@, door_positions@, exclude@, row as int, col as int),
                forall|j: int| 0 <= j < door_positions@.len() ==> (#[trigger] door_positions@[j]).0 < 11 && door_positions@[j].1 < 11,
                forall|k: int| 0 <= k < scored@.len() ==> {
                    let (s, c, w) = #[trigger] scored@[k];
                    &&& interior(c as int, w as int)
                    &&& walkable(tiles@[tix(c as int, w as int)])
                    &&& !exclude@[tix(c as int, w as int)]
                    &&& s <= 40
                },
                forall|k: int| 0 <= k < scored@.len() ==> (#[trigger] scored@[k]).0 == interest(tiles@, door_positions@, scored@[k].1 as int, scored@[k].2 as int),
                forall|k: int| 0 <= k < scored@.len() ==> tix((#[trigger] scored@[k]).1 as int, scored@[k].2 as int) < tix(col as int, row as int),
                forall|i: int, j: int| 0 <= i < j < scored@.len() ==> tix((#[trigger] scored@[i]).1 as int, scored@[i].2 as int)
                    < tix((#[trigger] scored@[j]).1 as int, scored@[j].2 as int),
                forall|c: int, w: int| #[trigger] open_spot(tiles@, exclude@, c, w) && (w < row || (w == row && c < col))
                    ==> exists|k: int| 0 <= k < scored@.len() && (#[trigger] scored@[k]).1 == c && scored@[k].2 == w,
            decreases 10 - col,
        {
            let p = tile_index(col, row);
            let t = tiles[p];
            let ghost before = scored@;
            if t.is_walkable() && t != TileKind::Wall && !exclude[p] {
                let mut wall_adj: usize = 0;
                if tiles[tile_index(col, row + 1)].is_solid() {
                    wall_adj = wall_adj + 1;
                }
                if tiles[tile_index(col, row - 1)].is_solid() {
                    wall_adj = wall_adj + 1;
                }
                if tiles[tile_index(col + 1, row)].is_solid() {
                    wall_adj = wall_adj + 1;
                }
                if tiles[tile_index(col - 1, row)].is_solid() {
                    wall_adj = wall_adj + 1;
                }
                let mut door_dist: usize = 10;
                let mut j: usize = 0;
                while j < door_positions.len()
                    invariant
                        j <= door_positions@.len(),
                        1 <= col <= 9,
                        1 <= row <= 9,
                        forall|q: int| 0 <= q < door_positions@.len() ==> (#[trigger] door_positions@[q]).0 < 11 && door_positions@[q].1 < 11,
                        j == 0 ==> door_dist == 10,
                        door_dist <= 20,
                        door_dist == door_distance(door_positions@, col as int, row as int, j as int),
                    decreases door_positions@.len() - j,
                {
                    let (dc, dr) = door_positions[j];
                    let d = abs_diff(col, dc) + abs_diff(row, dr);
                    if j == 0 || d < door_dist {
                        door_dist = d;
                    }
                    j = j + 1;
                }
                proof {
                    assert(wall_adj == solid_at(tiles@, col as int, row as int + 1) + solid_at(tiles@, col as int, row as int - 1)
                        + solid_at(tiles@, col as int + 1, row as int) + solid_at(tiles@, col as int - 1, row as int));
                }
                scored.push((wall_adj * 3 + door_dist, col, row));
                proof {
                    assert(scored@[before.len() as int] == ((wall_adj * 3 + door_dist) as usize, col, row));
                    assert forall|k: int| 0 <= k < before.len() implies #[trigger] scored@[k] == before[k] by {}
                }
            }
            proof {
                assert(scored@ =~= grid_scored(tiles@, door_positions@, exclude@, row as int)
                    + row_scored(tiles@, door_positions@, exclude@, row as int, col as int + 1));
                assert forall|c: int, w: int| #[trigger] open_spot(tiles@, exclude@, c, w) && (w < row || (w == row && c < col + 1))
                    implies exists|k: int| 0 <= k < scored@.len() && (#[trigger] scored@[k]).1 == c && scored@[k].2 == w by {
                    if w == row && c == col {
                        assert(scored@[before.len() as int].1 == c && scored@[before.len() as int].2 == w);
                    } else {
                        let k = choose|k: int| 0 <= k < before.len() && (#[trigger] before[k]).1 == c && before[k].2 == w;
                        assert(scored@[k] == before[k]);
                    }
                }
            }
            col = col + 1;
        }
        proof {
            assert forall|k: int| 0 <= k < scored@.len() implies (#[trigger] scored@[k]).2 < row + 1 by {
                assert(tix(scored@[k].1 as int, scored@[k].2 as int) < tix(10, row as int));
            }
        }
        row = row + 1;
    }
    let mut out: Vec<(usize, usize)> = Vec::new();
    let mut s: usize = 41;
    while s > 0
        invariant
            s <= 41,
            out@ == desc_from(scored@, s as int),
            forall|k: int| 0 <= k < scored@.len() ==> (#[trigger] scored@[k]).0 == interest(tiles@, door_positions@, scored@[k].1 as int, scored@[k].2 as int),
            forall|i: int, j: int| 0 <= i < j < scored@.len() ==> tix((#[trigger] scored@[i]).1 as int, scored@[i].2 as int)
                < tix((#[trigger] scored@[j]).1 as int, scored@[j].2 as int),
            forall|c: int, w: int| #[trigger] open_spot(tiles@, exclude@, c, w)
                ==> exists|k: int| 0 <= k < scored@.len() && (#[trigger] scored@[k]).1 == c && scored@[k].2 == w,
            forall|k: int| 0 <= k < out@.len() ==> interest(tiles@, door_positions@, (#[trigger] out@[k]).0 as int, out@[k].1 as int) >= s,
            forall|i: int, j: int| 0 <= i < j < out@.len() ==> interest_before(tiles@, door_positions@, #[trigger] out@[i], #[trigger] out@[j]),
            forall|q: int| 0 <= q < scored@.len() && (#[trigger] scored@[q]).0 >= s ==> out@.contains((scored@[q].1, scored@[q].2)),
            forall|k: int| 0 <= k < scored@.len() ==> {
                let (sc, c, w) = #[trigger] scored@[k];
                &&& interior(c as int, w as int)
                &&& walkable(tiles@[tix(c as int, w as int)])
                &&& !exclude@[tix(c as int, w as int)]
            },
            forall|k: int| 0 <= k < out@.len() ==> {
                let (c, w) = #[trigger] out@[k];
                &&& interior(c as int, w as int)
                &&& walkable(tiles@[tix(c as int, w as int)])
                &&& !exclude@[tix(c as int, w as int)]
            },
        decreases s,
    {
        s = s - 1;
        let mut k: usize = 0;
        proof {
            assert(out@ =~= desc_from(scored@, s as int + 1) + with_score(scored@.take(0), s as int));
        }
        while k < scored.len()
            invariant
                k <= scored@.len(),
                out@ == desc_from(scored@, s as int + 1) + with_score(scored@.take(k as int), s as int),
                forall|q: int| 0 <= q < scored@.len() ==> (#[trigger] scored@[q]).0 == interest(tiles@, door_positions@, scored@[q].1 as int, scored@[q].2 as int),
                forall|i: int, j: int| 0 <= i < j < scored@.len() ==> tix((#[trigger] scored@[i]).1 as int, scored@[i].2 as int)
                    < tix((#[trigger] scored@[j]).1 as int, scored@[j].2 as int),
                forall|c: int, w: int| #[trigger] open_spot(tiles@, exclude@, c, w)
                    ==> exists|q: int| 0 <= q < scored@.len() && (#[trigger] scored@[q]).1 == c && scored@[q].2 == w,
                forall|q: int| 0 <= q < out@.len() ==> interest(tiles@, door_positions@, (#[trigger] out@[q]).0 as int, out@[q].1 as int) >= s,
                forall|i: int, j: int| 0 <= i < j < out@.len() ==> interest_before(tiles@, door_positions@, #[trigger] out@[i], #[trigger] out@[j]),
                forall|q: int| 0 <= q < scored@.len() && (#[trigger] scored@[q]).0 > s ==> out@.contains((scored@[q].1, scored@[q].2)),
                forall|q: int| 0 <= q < k && (#[trigger] scored@[q]).0 == s ==> out@.contains((scored@[q].1, scored@[q].2)),
                forall|q: int| 0 <= q < out@.len() && interest(tiles@, door_positions@, (#[trigger] out@[q]).0 as int, out@[q].1 as int) == s
                    ==> k > 0 && tix(out@[q].0 as int, out@[q].1 as int) <= tix(scored@[k - 1].1 as int, scored@[k - 1].2 as int),
                forall|q: int| 0 <= q < scored@.len() ==> {
                    let (sc, c, w) = #[trigger] scored@[q];
                    &&& interior(c as int, w as int)
                    &&& walkable(tiles@[tix(c as int, w as int)])
                    &&& !exclude@[tix(c as int, w as int)]
                },
                forall|q: int| 0 <= q < out@.len() ==> {
                    let (c, w) = #[trigger] out@[q];
                    &&& interior(c as int, w as int)
                    &&& walkable(tiles@[tix(c as int, w as int)])
                    &&& !exclude@[tix(c as int, w as int)]
                },
            decreases scored@.len() - k,
        {
            let (sc, c, w) = scored[k];
            proof {
                assert(scored@.take(k as int + 1).drop_last() =~= scored@.take(k as int));
            }
            let ghost prev = out@;
            if sc == s {
                out.push((c, w));
                proof {
                    assert forall|q: int| 0 <= q < prev.len() implies #[trigger] out@[q] == prev[q] by {}
                    assert(out@[prev.len() as int] == (c, w));
                    assert forall|i: int, j: int| 0 <= i < j < out@.len() implies interest_before(tiles@, door_positions@,
                        #[trigger] out@[i], #[trigger] out@[j]) by {
                        if j == prev.len() {
                            assert(out@[i] == prev[i]);
                            if interest(tiles@, door_positions@, prev[i].0 as int, prev[i].1 as int) == s {
                                assert(tix(scored@[k - 1].1 as int, scored@[k - 1].2 as int) < tix(scored@[k as int].1 as int, scored@[k as int].2 as int));
                            }
                        } else {
                            assert(out@[i] == prev[i] && out@[j] == prev[j]);
                        }
                    }
                    assert forall|q: int| 0 <= q < scored@.len() && (#[trigger] scored@[q]).0 > s
                        implies out@.contains((scored@[q].1, scored@[q].2)) by {
                        let x = choose|x: int| 0 <= x < prev.len() && prev[x] == (scored@[q].1, scored@[q].2);
                        assert(out@[x] == prev[x]);
                    }
                    assert forall|q: int| 0 <= q < k + 1 && (#[trigger] scored@[q]).0 == s
                        implies out@.contains((scored@[q].1, scored@[q].2)) by {
                        if q < k {
                            let x = choose|x: int| 0 <= x < prev.len() && prev[x] == (scored@[q].1, scored@[q].2);
                            assert(out@[x] == prev[x]);
                        } else {
                            assert(out@[prev.len() as int] == (scored@[q].1, scored@[q].2));
                        }
                    }
                    assert forall|q: int| 0 <= q < out@.len() && interest(tiles@, door_positions@, (#[trigger] out@[q]).0 as int, out@[q].1 as int) == s
                        implies tix(out@[q].0 as int, out@[q].1 as int) <= tix(scored@[k as int].1 as int, scored@[k as int].2 as int) by {
                        if q < prev.len() {
                            assert(out@[q] == prev[q]);
                            assert(tix(scored@[k - 1].1 as int, scored@[k - 1].2 as int) < tix(scored@[k as int].1 as int, scored@[k as int].2 as int));
                        }
                    }
                }
            } else {
                proof {
                    assert forall|q: int| 0 <= q < out@.len() && interest(tiles@, door_positions@, (#[trigger] out@[q]).0 as int, out@[q].1 as int) == s
                        implies tix(out@[q].0 as int, out@[q].1 as int) <= tix(scored@[k as int].1 as int, scored@[k as int].2 as int) by {
                        assert(tix(scored@[k - 1].1 as int, scored@[k - 1].2 as int) < tix(scored@[k as int].1 as int, scored@[k as int].2 as int));
                    }
                }
            }
            proof {
                assert(out@ =~= desc_from(scored@, s as int + 1) + with_score(scored@.take(k as int + 1), s as int));
            }
            k = k + 1;
        }
        proof {
            assert(scored@.take(scored@.len() as int) =~= scored@);
        }
    }
    proof {
        assert forall|c: int, w: int| #[trigger] open_spot(tiles@, exclude@, c, w) implies out@.contains((c as usize, w as usize)) by {
            let q = choose|q: int| 0 <= q < scored@.len() && (#[trigger] scored@[q]).1 == c && scored@[q].2 == w;
            assert(scored@[q].0 >= 0);
        }
    }
    out
}


// ── Content tiles ───────────────────────────────────────────────────────────

/// The entries of `s` whose tile can be walked to from the doors, in order.
pub open spec fn reachable_only(t: Seq<TileKind>, doors: Seq<(usize, usize)>, s: Seq<(usize, usize)>) -> Seq<(usize, usize)>
    decreases s.len(),
{
    if s.len() == 0 {
        Seq::empty()
    } else if door_reach(t, doors, tix(s.last().0 as int, s.last().1 as int)) {
        reachable_only(t, doors, s.drop_last()).push(s.last())
    } else {
        reachable_only(t, doors, s.drop_last())
    }
}

/// The reachable entries of a prefix of `s` begin the reachable entries of `s`.
pub proof fn lemma_reachable_prefix(t: Seq<TileKind>, doors: Seq<(usize, usize)>, s: Seq<(usize, usize)>, k: int)
    requires
        0 <= k <= s.len(),
    ensures
        reachable_only(t, doors, s.take(k)).len() <= reachable_only(t, doors, s).len(),
        reachable_only(t, doors, s).take(reachable_only(t, doors, s.take(k)).len() as int) == reachable_only(t, doors, s.take(k)),
    decreases s.len(),
{
    if k == s.len() {
        assert(s.take(k) =~= s);
        assert(reachable_only(t, doors, s).take(reachable_only(t, doors, s).len() as int) =~= reachable_only(t, doors, s));
    } else {
        lemma_reachable_prefix(t, doors, s.drop_last(), k);
        assert(s.drop_last().take(k) =~= s.take(k));
        let a = reachable_only(t, doors, s.take(k));
        let b = reachable_only(t, doors, s.drop_last());
        assert(reachable_only(t, doors, s).take(a.len() as int) =~= b.take(a.len() as int));
    }
}

/// An element of `s` that the doors reach is kept by [`reachable_only`].
pub proof fn lemma_reachable_keeps(t: Seq<TileKind>, doors: Seq<(usize, usize)>, s: Seq<(usize, usize)>, x: (usize, usize))
    requires
        s.contains(x),
        door_reach(t, doors, tix(x.0 as int, x.1 as int)),
    ensures
        reachable_only(t, doors, s).contains(x),
    decreases s.len(),
{
    if s.last() == x {
        assert(reachable_only(t, doors, s).last() == x);
        assert(reachable_only(t, doors, s)[reachable_only(t, doors, s).len() - 1] == x);
    } else {
        let i = choose|i: int| 0 <= i < s.len() && s[i] == x;
        assert(s.drop_last()[i] == x);
        lemma_reachable_keeps(t, doors, s.drop_last(), x);
        let r0 = reachable_only(t, doors, s.drop_last());
        let j = choose|j: int| 0 <= j < r0.len() && r0[j] == x;
        if door_reach(t, doors, tix(s.last().0 as int, s.last().1 as int)) {
            assert(r0.push(s.last())[j] == x);
        }
    }
}

/// What [`reachable_only`] keeps comes from `s`, and it repeats nothing
/// that `s` does not repeat.
pub proof fn lemma_reachable_sub(t: Seq<TileKind>, doors: Seq<(usize, usize)>, s: Seq<(usize, usize)>)
    ensures
        forall|i: int| 0 <= i < reachable_only(t, doors, s).len() ==> s.contains(#[trigger] reachable_only(t, doors, s)[i]),
        s.no_duplicates() ==> reachable_only(t, doors, s).no_duplicates(),
    decreases s.len(),
{
    if s.len() > 0 {
        lemma_reachable_sub(t, doors, s.drop_last());
        let r0 = reachable_only(t, doors, s.drop_last());
        let r = reachable_only(t, doors, s);
        assert forall|i: int| 0 <= i < r.len() implies s.contains(#[trigger] r[i]) by {
            if i < r0.len() {
                assert(r[i] == r0[i]);
                let k = choose|k: int| 0 <= k < s.drop_last().len() && s.drop_last()[k] == r0[i];
                assert(s[k] == r0[i]);
            } else {
                assert(r[i] == s.last());
                assert(s[s.len() - 1] == s.last());
            }
        }
        if s.no_duplicates() {
            assert(s.drop_last().no_duplicates()) by {
                assert forall|a: int, b: int| 0 <= a < b < s.drop_last().len() implies s.drop_last()[a] != s.drop_last()[b] by {
                    assert(s[a] == s.drop_last()[a] && s[b] == s.drop_last()[b]);
                }
            }
            if door_reach(t, doors, tix(s.last().0 as int, s.last().1 as int)) {
                assert forall|a: int, b: int| 0 <= a < b < r.len() implies r[a] != r[b] by {
                    if b == r.len() - 1 {
                        assert(r[a] == r0[a]);
                        let k = choose|k: int| 0 <= k < s.drop_last().len() && s.drop_last()[k] == r0[a];
                        assert(s[k] == r0[a]);
                        assert(r[b] == s[s.len() - 1]);
                    } else {
                        assert(r[a] == r0[a] && r[b] == r0[b]);
                    }
                }
            }
        }
    }
}

/// A tile of kind `k` makes the count of `k` positive.
pub proof fn lemma_count_present(t: Seq<TileKind>, k: TileKind, i: int)
    requires
        0 <= i < t.len(),
        t[i] == k,
    ensures
        tile_count(t, k) >= 1,
    decreases t.len(),
{
    if i < t.len() - 1 {
        assert(t.drop_last()[i] == k);
        lemma_count_present(t.drop_last(), k, i);
    }
}

/// `(c, w)` is unused interior floor and, with `reach`, can be walked to
/// from the doors.
pub open spec fn unused_floor(t: Seq<TileKind>, used: Seq<bool>, doors: Seq<(usize, usize)>, reach: bool, c: int, w: int) -> bool {
    &&& interior(c, w)
    &&& !used[tix(c, w)]
    &&& t[tix(c, w)] is Floor
    &&& (reach ==> door_reach(t, doors, tix(c, w)))
}

/// `(c, w)` is the first such tile in row-major order.
pub open spec fn first_free(t: Seq<TileKind>, used: Seq<bool>, doors: Seq<(usize, usize)>, reach: bool, c: int, w: int) -> bool {
    &&& unused_floor(t, used, doors, reach, c, w)
    &&& forall|c2: int, w2: int| interior(c2, w2) && tix(c2, w2) < tix(c, w) ==> !#[trigger] unused_floor(t, used, doors, reach, c2, w2)
}

/// There is but one first such tile.
pub proof fn lemma_first_free_unique(t: Seq<TileKind>, used: Seq<bool>, doors: Seq<(usize, usize)>, reach: bool, c1: int, w1: int, c2: int, w2: int)
    requires
        first_free(t, used, doors, reach, c1, w1),
        first_free(t, used, doors, reach, c2, w2),
    ensures
        c1 == c2 && w1 == w2,
{
    assert(!(tix(c1, w1) < tix(c2, w2)));
    assert(!(tix(c2, w2) < tix(c1, w1)));
    crate::connect::lemma_tix(c1, w1);
    crate::connect::lemma_tix(c2, w2);
}

/// The tile [`best_interesting_pos`] picks: the most interesting reachable
/// open spot; failing that, the first reachable unused floor tile in
/// row-major order; failing that, the first unused floor tile.
pub open spec fn best_spot(t: Seq<TileKind>, doors: Seq<(usize, usize)>, used: Seq<bool>) -> Option<(usize, usize)> {
    let picks = reachable_only(t, doors, interesting_order(t, doors, used));
    if picks.len() > 0 {
        Some(picks[0])
    } else if exists|c: int, w: int| first_free(t, used, doors, true, c, w) {
        let (c, w) = choose|c: int, w: int| first_free(t, used, doors, true, c, w);
        Some((c as usize, w as usize))
    } else if exists|c: int, w: int| first_free(t, used, doors, false, c, w) {
        let (c, w) = choose|c: int, w: int| first_free(t, used, doors, false, c, w);
        Some((c as usize, w as usize))
    } else {
        None
    }
}

/// The most interesting reachable interior tile not in `used`; failing
/// that, the first reachable unused floor tile in row-major order; failing
/// that, the first unused floor tile.
fn best_interesting_pos(tiles: &[TileKind; TOTAL_TILES], door_positions: &[(usize, usize)], used: &[bool; TOTAL_TILES]) -> (r: Option<(usize, usize)>)
    requires
        forall|j: int| 0 <= j < door_positions@.len() ==> (#[trigger] door_positions@[j]).0 < 11 && door_positions@[j].1 < 11,
    ensures
        r matches Some(p) ==> interior(p.0 as int, p.1 as int) && walkable(tiles@[tix(p.0 as int, p.1 as int)])
            && !used@[tix(p.0 as int, p.1 as int)],
        r is None ==> forall|c: int, w: int| interior(c, w) ==> !(#[trigger] tiles@[tix(c, w)] is Floor && !used@[tix(c, w)]),
        r == best_spot(tiles@, door_positions@, used@),
{
    let reachable = reachable_from_doors(tiles, door_positions);
    let scored = interesting_positions(tiles, door_positions, used);
    let ghost picks = reachable_only(tiles@, door_positions@, scored@);
    let mut k: usize = 0;
    while k < scored.len()
        invariant
            k <= scored@.len(),
            reachable_only(tiles@, door_positions@, scored@.take(k as int)).len() == 0,
            picks == reachable_only(tiles@, door_positions@, scored@),
            scored@ == interesting_order(tiles@, door_positions@, used@),
            forall|p: int| 0 <= p < 121 ==> (#[trigger] reachable@[p] <==> door_reach(tiles@, door_positions@, p)),
            forall|q: int| 0 <= q < scored@.len() ==> {
                let (c, w) = #[trigger] scored@[q];
                &&& interior(c as int, w as int)
                &&& walkable(tiles@[tix(c as int, w as int)])
                &&& !used@[tix(c as int, w as int)]
            },
        decreases scored@.len() - k,
    {
        let (c, w) = scored[k];
        proof {
            assert(scored@.take(k as int + 1).drop_last() =~= scored@.take(k as int));
        }
        if reachable[tile_index(c, w)] {
            proof {
                lemma_reachable_prefix(tiles@, door_positions@, scored@, k + 1);
                assert(reachable_only(tiles@, door_positions@, scored@.take(k as int + 1)) =~= seq![(c, w)]);
                assert(picks.take(1) == seq![(c, w)]);
                assert(picks.take(1)[0] == picks[0]);
            }
            return Some((c, w));
        }
        k = k + 1;
    }
    proof {
        assert(scored@.take(scored@.len() as int) =~= scored@);
    }
    let mut row: usize = 1;
    while row <= 9
        invariant
            1 <= row <= 10,
            picks.len() == 0,
            picks == reachable_only(tiles@, door_positions@, scored@),
            scored@ == interesting_order(tiles@, door_positions@, used@),
            forall|p: int| 0 <= p < 121 ==> (#[trigger] reachable@[p] <==> door_reach(tiles@, door_positions@, p)),
            forall|c: int, w: int| interior(c, w) && w < row ==> !#[trigger] unused_floor(tiles@, used@, door_positions@, true, c, w),
        decreases 10 - row,
    {
        let mut col: usize = 1;
        while col <= 9
            invariant
                1 <= row <= 9,
                1 <= col <= 10,
                picks.len() == 0,
                picks == reachable_only(tiles@, door_positions@, scored@),
                scored@ == interesting_order(tiles@, door_positions@, used@),
                forall|p: int| 0 <= p < 121 ==> (#[trigger] reachable@[p] <==> door_reach(tiles@, door_positions@, p)),
                forall|c: int, w: int| interior(c, w) && (w < row || (w == row && c < col))
                    ==> !#[trigger] unused_floor(tiles@, used@, door_positions@, true, c, w),
            decreases 10 - col,
        {
            let p = tile_index(col, row);
            if !used[p] && tiles[p] == TileKind::Floor && reachable[p] {
                proof {
                    assert(first_free(tiles@, used@, door_positions@, true, col as int, row as int));
                    let (c2, w2) = choose|c: int, w: int| first_free(tiles@, used@, door_positions@, true, c, w);
                    lemma_first_free_unique(tiles@, used@, door_positions@, true, col as int, row as int, c2, w2);
                }
                return Some((col, row));
            }
            col = col + 1;
        }
        row = row + 1;
    }
    proof {
        assert forall|c: int, w: int| !first_free(tiles@, used@, door_positions@, true, c, w) by {
            if first_free(tiles@, used@, door_positions@, true, c, w) {
                assert(unused_floor(tiles@, used@, door_positions@, true, c, w));
            }
        }
    }
    let mut row: usize = 1;
    while row <= 9
        invariant
            1 <= row <= 10,
            forall|c: int, w: int| interior(c, w) && w < row ==> !(#[trigger] tiles@[tix(c, w)] is Floor && !used@[tix(c, w)]),
            forall|c: int, w: int| !first_free(tiles@, used@, door_positions@, true, c, w),
            picks.len() == 0,
            picks == reachable_only(tiles@, door_positions@, scored@),
            scored@ == interesting_order(tiles@, door_positions@, used@),
        decreases 10 - row,
    {
        let mut col: usize = 1;
        while col <= 9
            invariant
                1 <= row <= 9,
                1 <= col <= 10,
                forall|c: int, w: int| interior(c, w) && w < row ==> !(#[trigger] tiles@[tix(c, w)] is Floor && !used@[tix(c, w)]),
                forall|c: int| 1 <= c < col ==> !(#[trigger] tiles@[tix(c, row as int)] is Floor && !used@[tix(c, row as int)]),
                forall|c: int, w: int| !first_free(tiles@, used@, door_positions@, true, c, w),
                picks.len() == 0,
                picks == reachable_only(tiles@, door_positions@, scored@),
                scored@ == interesting_order(tiles@, door_positions@, used@),
            decreases 10 - col,
        {
            let p = tile_index(col, row);
            if !used[p] && tiles[p] == TileKind::Floor {
                proof {
                    assert forall|c2: int, w2: int| interior(c2, w2) && tix(c2, w2) < tix(col as int, row as int)
                        implies !#[trigger] unused_floor(tiles@, used@, door_positions@, false, c2, w2) by {
                        if w2 < row {
                            assert(!(tiles@[tix(c2, w2)] is Floor && !used@[tix(c2, w2)]));
                        } else {
                            assert(!(tiles@[tix(c2, row as int)] is Floor && !used@[tix(c2, row as int)]));
                        }
                    }
                    assert(first_free(tiles@, used@, door_positions@, false, col as int, row as int));
                    let (c2, w2) = choose|c: int, w: int| first_free(tiles@, used@, door_positions@, false, c, w);
                    lemma_first_free_unique(tiles@, used@, door_positions@, false, col as int, row as int, c2, w2);
                }
                return Some((col, row));
            }
            col = col + 1;
        }
        row = row + 1;
    }
    proof {
        assert forall|c: int, w: int| !first_free(tiles@, used@, door_positions@, false, c, w) by {
            if first_free(tiles@, used@, door_positions@, false, c, w) {
                assert(tiles@[tix(c, w)] is Floor && !used@[tix(c, w)]);
            }
        }
    }
    None
}

/// The reachable unused floor tile nearest the centre, searching rings of
/// growing radius around `(5, 5)` row by row.
/// Distance of `(c, w)` from the centre tile, counting diagonal steps as one.
pub open spec fn ring_of(c: int, w: int) -> int {
    let dc = if c >= 5 { c - 5 } else { 5 - c };
    let dw = if w >= 5 { w - 5 } else { 5 - w };
    if dc >= dw { dc } else { dw }
}

/// A free floor tile that can be walked to from the doors.
pub open spec fn free_floor(t: Seq<TileKind>, used: Seq<bool>, doors: Seq<(usize, usize)>, c: int, w: int) -> bool {
    &&& interior(c, w)
    &&& t[tix(c, w)] is Floor
    &&& !used[tix(c, w)]
    &&& door_reach(t, doors, tix(c, w))
}

/// Tile `k` of the four interior tiles within two steps of door `j`
/// (north, south, east, west): the tile just inside, the two beside it,
/// and the one behind it.
pub open spec fn near_tile(j: int, k: int) -> (int, int) {
    let (a, b): (int, int) = if k == 0 { (0, 1) } else if k == 1 { (-1, 1) } else if k == 2 { (1, 1) } else { (0, 2) };
    if j == 0 {
        (5 + a, b)
    } else if j == 1 {
        (5 + a, 10 - b)
    } else if j == 2 {
        (10 - b, 5 + a)
    } else {
        (b, 5 + a)
    }
}

/// A free floor tile.
pub open spec fn free_plain(t: Seq<TileKind>, used: Seq<bool>, c: int, w: int) -> bool {
    &&& interior(c, w)
    &&& t[tix(c, w)] is Floor
    &&& !used[tix(c, w)]
}

/// How many of the four tiles near door `j` are free floor.
pub open spec fn free_count(t: Seq<TileKind>, used: Seq<bool>, j: int) -> nat {
    (if free_plain(t, used, near_tile(j, 0).0, near_tile(j, 0).1) { 1nat } else { 0nat })
    + (if free_plain(t, used, near_tile(j, 1).0, near_tile(j, 1).1) { 1nat } else { 0nat })
    + (if free_plain(t, used, near_tile(j, 2).0, near_tile(j, 2).1) { 1nat } else { 0nat })
    + (if free_plain(t, used, near_tile(j, 3).0, near_tile(j, 3).1) { 1nat } else { 0nat })
}

/// The four tiles near door `j` are floor that can be walked to from the doors.
pub open spec fn door_clearing(t: Seq<TileKind>, doors: Seq<(usize, usize)>, j: int) -> bool {
    forall|k: int| 0 <= k < 4 ==> {
        let (c, w) = #[trigger] near_tile(j, k);
        &&& interior(c, w)
        &&& t[tix(c, w)] is Floor
        &&& door_reach(t, doors, tix(c, w))
    }
}

proof fn lemma_first_entry_same_walk(a: Seq<TileKind>, b: Seq<TileKind>, dc: int, dr: int, k: int)
    requires
        a.len() == 121,
        same_walk(a, b),
    ensures
        first_entry(a, dc, dr, k) == first_entry(b, dc, dr, k),
    decreases 4 - k,
{
    if k < 4 {
        let (c, r) = entry_candidate(dc, dr, k);
        if interior(c, r) {
            assert(0 <= tix(c, r) < 121);
        }
        lemma_first_entry_same_walk(a, b, dc, dr, k + 1);
    }
}

proof fn lemma_walk_same_walk(a: Seq<TileKind>, b: Seq<TileKind>, s: int, w: Seq<int>)
    requires
        a.len() == 121,
        same_walk(a, b),
        tile_walk(a, s, w),
    ensures
        tile_walk(b, s, w),
{
    assert forall|j: int| 0 < j < w.len() implies #[trigger] walk_step(b, w, j) by {
        assert(walk_step(a, w, j));
    }
}

/// Reaching a tile from the doors depends only on which tiles are walkable.
pub proof fn lemma_door_reach_same_walk(a: Seq<TileKind>, b: Seq<TileKind>, doors: Seq<(usize, usize)>, p: int)
    requires
        a.len() == 121,
        same_walk(a, b),
    ensures
        door_reach(a, doors, p) == door_reach(b, doors, p),
{
    assert(same_walk(b, a));
    if doors.len() == 0 {
        if walk_reaches(a, 60, p) {
            let w = choose|w: Seq<int>| #[trigger] tile_walk(a, 60, w) && w.last() == p;
            lemma_walk_same_walk(a, b, 60, w);
        }
        if walk_reaches(b, 60, p) {
            let w = choose|w: Seq<int>| #[trigger] tile_walk(b, 60, w) && w.last() == p;
            lemma_walk_same_walk(b, a, 60, w);
        }
    } else {
        if door_reach(a, doors, p) {
            let j = choose|j: int| 0 <= j < doors.len() && #[trigger] first_entry(a, doors[j].0 as int, doors[j].1 as int, 0) is Some
                && walk_reaches(a, first_entry(a, doors[j].0 as int, doors[j].1 as int, 0).unwrap(), p);
            lemma_first_entry_same_walk(a, b, doors[j].0 as int, doors[j].1 as int, 0);
            let e = first_entry(a, doors[j].0 as int, doors[j].1 as int, 0).unwrap();
            let w = choose|w: Seq<int>| #[trigger] tile_walk(a, e, w) && w.last() == p;
            lemma_walk_same_walk(a, b, e, w);
        }
        if door_reach(b, doors, p) {
            let j = choose|j: int| 0 <= j < doors.len() && #[trigger] first_entry(b, doors[j].0 as int, doors[j].1 as int, 0) is Some
                && walk_reaches(b, first_entry(b, doors[j].0 as int, doors[j].1 as int, 0).unwrap(), p);
            lemma_first_entry_same_walk(a, b, doors[j].0 as int, doors[j].1 as int, 0);
            let e = first_entry(b, doors[j].0 as int, doors[j].1 as int, 0).unwrap();
            let w = choose|w: Seq<int>| #[trigger] tile_walk(b, e, w) && w.last() == p;
            lemma_walk_same_walk(b, a, e, w);
        }
    }
}

/// Changing one tile (and its mark) frees at most one fewer tile near a door.
proof fn lemma_free_count_step(t: Seq<TileKind>, used: Seq<bool>, t2: Seq<TileKind>, used2: Seq<bool>, i: int, j: int)
    requires
        t.len() == 121,
        t2.len() == 121,
        used.len() == 121,
        used2.len() == 121,
        0 <= j < 4,
        forall|p: int| 0 <= p < 121 && p != i ==> #[trigger] t2[p] == t[p] && used2[p] == used[p],
    ensures
        free_count(t2, used2, j) + 1 >= free_count(t, used, j),
{
    assert forall|k: int| 0 <= k < 4 && tix(near_tile(j, k).0, near_tile(j, k).1) != i implies
        free_plain(t2, used2, near_tile(j, k).0, near_tile(j, k).1) == free_plain(t, used, near_tile(j, k).0, near_tile(j, k).1) by {
        let (c, w) = near_tile(j, k);
        if interior(c, w) {
            assert(t2[tix(c, w)] == t[tix(c, w)]);
        }
    }
    assert(tix(near_tile(j, 0).0, near_tile(j, 0).1) != tix(near_tile(j, 1).0, near_tile(j, 1).1));
    assert(tix(near_tile(j, 0).0, near_tile(j, 0).1) != tix(near_tile(j, 2).0, near_tile(j, 2).1));
    assert(tix(near_tile(j, 0).0, near_tile(j, 0).1) != tix(near_tile(j, 3).0, near_tile(j, 3).1));
    assert(tix(near_tile(j, 1).0, near_tile(j, 1).1) != tix(near_tile(j, 2).0, near_tile(j, 2).1));
    assert(tix(near_tile(j, 1).0, near_tile(j, 1).1) != tix(near_tile(j, 3).0, near_tile(j, 3).1));
    assert(tix(near_tile(j, 2).0, near_tile(j, 2).1) != tix(near_tile(j, 3).0, near_tile(j, 3).1));
}

/// Some tile near a door is still free.
proof fn lemma_free_count_witness(t: Seq<TileKind>, used: Seq<bool>, j: int)
    requires
        free_count(t, used, j) >= 1,
    ensures
        exists|k: int| 0 <= k < 4 && #[trigger] free_plain(t, used, near_tile(j, k).0, near_tile(j, k).1),
{
    if free_plain(t, used, near_tile(j, 0).0, near_tile(j, 0).1) {
        assert(free_plain(t, used, near_tile(j, 0).0, near_tile(j, 0).1));
    } else if free_plain(t, used, near_tile(j, 1).0, near_tile(j, 1).1) {
        assert(free_plain(t, used, near_tile(j, 1).0, near_tile(j, 1).1));
    } else if free_plain(t, used, near_tile(j, 2).0, near_tile(j, 2).1) {
        assert(free_plain(t, used, near_tile(j, 2).0, near_tile(j, 2).1));
    } else {
        assert(free_plain(t, used, near_tile(j, 3).0, near_tile(j, 3).1));
    }
}

/// With the tiles near door `j` walked to from the doors, a free one is a
/// free floor tile the doors reach.
proof fn lemma_free_reached(t0: Seq<TileKind>, t: Seq<TileKind>, used: Seq<bool>, doors: Seq<(usize, usize)>, j: int)
    requires
        t0.len() == 121,
        same_walk(t0, t),
        door_clearing(t0, doors, j),
        free_count(t, used, j) >= 1,
    ensures
        exists|c: int, w: int| #[trigger] free_floor(t, used, doors, c, w),
{
    lemma_free_count_witness(t, used, j);
    let k = choose|k: int| 0 <= k < 4 && #[trigger] free_plain(t, used, near_tile(j, k).0, near_tile(j, k).1);
    let (c, w) = near_tile(j, k);
    lemma_door_reach_same_walk(t0, t, doors, tix(c, w));
    assert(free_floor(t, used, doors, c, w));
}

/// Next to an open door of a room whose walkable tiles are all reached and
/// whose tiles near the doors are clear, the four near tiles are free
/// floor that the doors reach.
proof fn lemma_door_clearing(t: Seq<TileKind>, doors: Seq<(usize, usize)>, j: int)
    requires
        t.len() == 121,
        near_doors_clear(t),
        all_reached(t),
        0 <= j < 4,
        forall|jj: int| 0 <= jj < 4 && !(#[trigger] t[tix(door_spot(jj).0, door_spot(jj).1)] is Wall)
            ==> doors.contains((door_spot(jj).0 as usize, door_spot(jj).1 as usize)),
    ensures
        door_clearing(t, doors, j),
{
    assert forall|k: int| 0 <= k < 4 implies {
        let (c, w) = #[trigger] near_tile(j, k);
        &&& interior(c, w)
        &&& t[tix(c, w)] is Floor
        &&& door_reach(t, doors, tix(c, w))
    } by {
        let (c, w) = near_tile(j, k);
        assert(interior(c, w) && near_door(c, w));
        assert(t[w * 11 + c] is Floor);
        let p = tix(c, w);
        lemma_tix(c, w);
        assert(inside(p));
        assert(door_reached(t, p));
        let jj = choose|jj: int| 0 <= jj < 4 && #[trigger] open_entry(t, jj) is Some && walk_reaches(t, open_entry(t, jj).unwrap(), p);
        assert(!(t[tix(door_spot(jj).0, door_spot(jj).1)] is Wall));
        let q = choose|q: int| 0 <= q < doors.len() && doors[q] == (door_spot(jj).0 as usize, door_spot(jj).1 as usize);
        assert(first_entry(t, doors[q].0 as int, doors[q].1 as int, 0) == open_entry(t, jj));
    }
}

/// Tile `(c, w)` comes no later than `(c2, w2)` in the search outwards
/// from the centre: by ring, then by row, then by column.
pub open spec fn centre_before(c: int, w: int, c2: int, w2: int) -> bool {
    ring_of(c, w) < ring_of(c2, w2) || (ring_of(c, w) == ring_of(c2, w2) && (w < w2 || (w == w2 && c <= c2)))
}

/// `(c, w)` is the first free floor tile walked to from the doors in the
/// search outwards from the centre.
pub open spec fn centre_first(t: Seq<TileKind>, used: Seq<bool>, doors: Seq<(usize, usize)>, c: int, w: int) -> bool {
    &&& free_floor(t, used, doors, c, w)
    &&& forall|c2: int, w2: int| #[trigger] free_floor(t, used, doors, c2, w2) ==> centre_before(c, w, c2, w2)
}

/// The tile [`centre_floor`] picks: the free floor tile walked to from the
/// doors that is nearest the centre (ring by ring, each ring row by row).
pub open spec fn centre_spot(t: Seq<TileKind>, doors: Seq<(usize, usize)>, used: Seq<bool>) -> Option<(usize, usize)> {
    if exists|c: int, w: int| #[trigger] centre_first(t, used, doors, c, w) {
        let (c, w) = choose|c: int, w: int| #[trigger] centre_first(t, used, doors, c, w);
        Some((c as usize, w as usize))
    } else {
        None
    }
}

fn centre_floor(tiles: &[TileKind; TOTAL_TILES], door_positions: &[(usize, usize)], used: &[bool; TOTAL_TILES]) -> (r: Option<(usize, usize)>)
    requires
        forall|j: int| 0 <= j < door_positions@.len() ==> (#[trigger] door_positions@[j]).0 < 11 && door_positions@[j].1 < 11,
    ensures
        r matches Some(p) ==> interior(p.0 as int, p.1 as int) && tiles@[tix(p.0 as int, p.1 as int)] is Floor
            && !used@[tix(p.0 as int, p.1 as int)],
        r is None ==> forall|c: int, w: int| !(#[trigger] free_floor(tiles@, used@, door_positions@, c, w)),
        r == centre_spot(tiles@, door_positions@, used@),
{
    let reachable = reachable_from_doors(tiles, door_positions);
    let mut radius: i32 = 0;
    while radius < 5
        invariant
            0 <= radius <= 5,
            forall|p: int| 0 <= p < 121 ==> (#[trigger] reachable@[p] <==> door_reach(tiles@, door_positions@, p)),
            forall|c: int, w: int| #[trigger] free_floor(tiles@, used@, door_positions@, c, w) ==> ring_of(c, w) >= radius,
        decreases 5 - radius,
    {
        let mut dr: i32 = -radius;
        while dr <= radius
            invariant
                0 <= radius < 5,
                -radius <= dr <= radius + 1,
                forall|p: int| 0 <= p < 121 ==> (#[trigger] reachable@[p] <==> door_reach(tiles@, door_positions@, p)),
                forall|c: int, w: int| #[trigger] free_floor(tiles@, used@, door_positions@, c, w) ==> ring_of(c, w) >= radius
                    && (ring_of(c, w) == radius ==> w - 5 >= dr),
            decreases radius + 1 - dr,
        {
            let mut dc: i32 = -radius;
            while dc <= radius
                invariant
                    0 <= radius < 5,
                    -radius <= dr <= radius,
                    -radius <= dc <= radius + 1,
                    forall|p: int| 0 <= p < 121 ==> (#[trigger] reachable@[p] <==> door_reach(tiles@, door_positions@, p)),
                    forall|c: int, w: int| #[trigger] free_floor(tiles@, used@, door_positions@, c, w) ==> ring_of(c, w) >= radius
                        && (ring_of(c, w) == radius ==> w - 5 >= dr)
                        && (ring_of(c, w) == radius && w - 5 == dr ==> c - 5 >= dc),
                decreases radius + 1 - dc,
            {
                let on_ring = dc == radius || dc == -radius || dr == radius || dr == -radius;
                if on_ring {
                    let col = (5 + dc) as usize;
                    let row = (5 + dr) as usize;
                    if 1 <= col && col <= 9 && 1 <= row && row <= 9 {
                        let p = tile_index(col, row);
                        if !used[p] && reachable[p] && tiles[p].is_walkable() && tiles[p] == TileKind::Floor {
                            proof {
                                let (cc, ww) = (col as int, row as int);
                                assert(free_floor(tiles@, used@, door_positions@, cc, ww));
                                assert(ring_of(cc, ww) == radius);
                                assert(centre_first(tiles@, used@, door_positions@, cc, ww));
                                let (c2, w2) = choose|c: int, w: int| #[trigger] centre_first(tiles@, used@, door_positions@, c, w);
                                assert(centre_before(c2, w2, cc, ww) && centre_before(cc, ww, c2, w2));
                            }
                            return Some((col, row));
                        }
                    }
                }
                dc = dc + 1;
            }
            dr = dr + 1;
        }
        radius = radius + 1;
    }
    proof {
        assert forall|c: int, w: int| !(#[trigger] free_floor(tiles@, used@, door_positions@, c, w)) by {
            if free_floor(tiles@, used@, door_positions@, c, w) {
                assert(ring_of(c, w) <= 4);
            }
        }
        assert(!exists|c: int, w: int| #[trigger] centre_first(tiles@, used@, door_positions@, c, w));
    }
    None
}

/// Items stand only on used tiles; the rest of the interior is floor and
/// obstacles.
pub open spec fn items_marked(t: Seq<TileKind>, used: Seq<bool>) -> bool {
    &&& used.len() == 121
    &&& forall|col: int, row: int| #[trigger] interior(col, row) ==> t[row * 11 + col] is Floor || obstacle(t[row * 11 + col])
        || (item(t[row * 11 + col]) && used[row * 11 + col])
}

/// The items a room may hold, and how many of each: a spawn in the root; a
/// staircase in the exit room and nothing else there; a boss marker alone
/// in the boss room; otherwise enemy markers up to the group's size, and a
/// chest (key rooms), a switch and a sign when the room has them.
pub open spec fn room_items_ok(t: Seq<TileKind>, room_id: usize, content: Option<RoomContent>, exit: usize, root: usize, key_room: bool) -> bool {
    let exit_room = room_id == exit;
    let c = if exit_room { None::<RoomContent> } else { content };
    let boss = c matches Some(cc) && cc.enemies matches Some(e) && e.is_boss;
    let rest = if boss { None::<RoomContent> } else { c };
    &&& tile_count(t, TileKind::Spawn) <= (if room_id == root { 1nat } else { 0nat })
    &&& tile_count(t, TileKind::Stairs) <= (if exit_room { 1nat } else { 0nat })
    &&& tile_count(t, TileKind::BossSpawn) <= (if boss { 1nat } else { 0nat })
    &&& tile_count(t, TileKind::EnemySpawn) <= (match rest {
        Some(cc) => match cc.enemies {
            Some(e) => e.count as nat,
            None => 0nat,
        },
        None => 0nat,
    })
    &&& tile_count(t, TileKind::Chest) <= (if rest is Some && key_room { 1nat } else { 0nat })
    &&& tile_count(t, TileKind::SwitchTile) <= (if rest matches Some(cc) && cc.switch is Some { 1nat } else { 0nat })
    &&& tile_count(t, TileKind::Sign) <= (if rest matches Some(cc) && cc.sign is Some { 1nat } else { 0nat })
}

/// The items a room is sure to get: the staircase in the exit room, and in
/// a room without enemies the chest of a key room and the switch; when the
/// room is `open` (its tiles near a door can be walked to from the doors),
/// also the spawn in the root, the boss marker in the boss room, the sign
/// of a room without enemies and at least one enemy marker for a group.
pub open spec fn room_items_placed(t: Seq<TileKind>, room_id: usize, content: Option<RoomContent>, exit: usize, root: usize, key_room: bool, open: bool) -> bool {
    let exit_room = room_id == exit;
    let c = if exit_room { None::<RoomContent> } else { content };
    let boss = c matches Some(cc) && cc.enemies matches Some(e) && e.is_boss;
    let rest = if boss { None::<RoomContent> } else { c };
    &&& open && room_id == root ==> tile_count(t, TileKind::Spawn) == 1
    &&& exit_room ==> tile_count(t, TileKind::Stairs) == 1
    &&& open && boss ==> tile_count(t, TileKind::BossSpawn) == 1
    &&& (rest matches Some(cc) && key_room && cc.enemies is None) ==> tile_count(t, TileKind::Chest) == 1
    &&& (rest matches Some(cc) && cc.enemies is None && cc.switch is Some) ==> tile_count(t, TileKind::SwitchTile) == 1
    &&& open && (rest matches Some(cc) && cc.enemies is None && cc.sign is Some) ==> tile_count(t, TileKind::Sign) == 1
    &&& open && (rest matches Some(cc) && cc.enemies matches Some(e) && e.count >= 1) ==> tile_count(t, TileKind::EnemySpawn) >= 1
}

/// Changing one tile changes the counts only of its old and new kinds.
proof fn lemma_count_update(t: Seq<TileKind>, i: int, v: TileKind, k: TileKind)
    requires
        0 <= i < t.len(),
    ensures
        tile_count(t.update(i, v), k) + (if t[i] == k { 1nat } else { 0nat }) == tile_count(t, k) + (if v == k { 1nat } else { 0nat }),
    decreases t.len(),
{
    let u = t.update(i, v);
    if i == t.len() - 1 {
        assert(u.drop_last() =~= t.drop_last());
    } else {
        assert(u.drop_last() =~= t.drop_last().update(i, v));
        lemma_count_update(t.drop_last(), i, v, k);
    }
}

/// A kind that appears nowhere is counted zero times.
proof fn lemma_count_absent(t: Seq<TileKind>, k: TileKind)
    requires
        forall|i: int| 0 <= i < t.len() ==> #[trigger] t[i] != k,
    ensures
        tile_count(t, k) == 0,
    decreases t.len(),
{
    if t.len() > 0 {
        assert forall|i: int| 0 <= i < t.drop_last().len() implies #[trigger] t.drop_last()[i] != k by {
            assert(t.drop_last()[i] == t[i]);
        }
        lemma_count_absent(t.drop_last(), k);
        assert(t[t.len() - 1] != k);
    }
}

/// A framed room with a plain interior holds no item.
proof fn lemma_no_items(t: Seq<TileKind>, k: TileKind)
    requires
        tiles_framed(t),
        plain_interior(t),
        item(k),
    ensures
        tile_count(t, k) == 0,
{
    assert forall|i: int| 0 <= i < t.len() implies #[trigger] t[i] != k by {
        let col = i % 11;
        let row = i / 11;
        assert(i == row * 11 + col && 0 <= col < 11 && 0 <= row < 11) by (nonlinear_arith)
            requires col == i % 11, row == i / 11, 0 <= i < 121;
        if interior(col, row) {
            assert(t[row * 11 + col] is Floor || obstacle(t[row * 11 + col]));
        } else {
            assert(t[row * 11 + col] is Wall || door_kind(t[row * 11 + col]));
        }
    }
    lemma_count_absent(t, k);
}

/// A walkable interior tile that is not used is floor.
proof fn lemma_free_is_floor(t: Seq<TileKind>, used: Seq<bool>, col: int, row: int)
    requires
        items_marked(t, used),
        interior(col, row),
        walkable(t[row * 11 + col]),
        !used[row * 11 + col],
    ensures
        t[row * 11 + col] is Floor,
{
    assert(interior(col, row));
}

/// Put `kind` on the interior tile `pos` and mark it used.
fn place_item(tiles: &mut [TileKind; TOTAL_TILES], used: &mut [bool; TOTAL_TILES], pos: (usize, usize), kind: TileKind)
    requires
        tiles_framed(old(tiles)@),
        interior(pos.0 as int, pos.1 as int),
        item(kind),
        items_marked(old(tiles)@, old(used)@),
        old(tiles)@[tix(pos.0 as int, pos.1 as int)] is Floor || old(tiles)@[tix(pos.0 as int, pos.1 as int)] == kind,
    ensures
        tiles_framed(final(tiles)@),
        same_ring(old(tiles)@, final(tiles)@),
        final(tiles)@ == old(tiles)@.update(tix(pos.0 as int, pos.1 as int), kind),
        final(used)@ == old(used)@.update(tix(pos.0 as int, pos.1 as int), true),
        items_marked(final(tiles)@, final(used)@),
        forall|k: TileKind| #[trigger] item(k) ==> tile_count(final(tiles)@, k) == tile_count(old(tiles)@, k)
            + (if k == kind && old(tiles)@[tix(pos.0 as int, pos.1 as int)] is Floor { 1nat } else { 0nat }),
        same_walk(old(tiles)@, final(tiles)@),
{
    let ghost t0 = tiles@;
    let ghost u0 = used@;
    put(tiles, pos.0, pos.1, kind);
    used[tile_index(pos.0, pos.1)] = true;
    proof {
        let i = tix(pos.0 as int, pos.1 as int);
        assert forall|k: TileKind| #[trigger] item(k) implies tile_count(tiles@, k) == tile_count(t0, k)
            + (if k == kind && t0[i] is Floor { 1nat } else { 0nat }) by {
            lemma_count_update(t0, i, kind, k);
        }
        assert forall|col: int, row: int| #[trigger] interior(col, row) implies tiles@[row * 11 + col] is Floor || obstacle(tiles@[row * 11 + col])
            || (item(tiles@[row * 11 + col]) && used@[row * 11 + col]) by {
            if col != pos.0 || row != pos.1 {
                assert(row * 11 + col != i) by (nonlinear_arith)
                    requires 1 <= col <= 9, 1 <= row <= 9, 1 <= pos.0 <= 9, 1 <= pos.1 <= 9, col != pos.0 || row != pos.1,
                        i == pos.1 * 11 + pos.0;
                assert(interior(col, row));
            }
        }
    }
}

/// Place the content items of a room on its tiles: the spawn at the
/// centre of the root room; the stairs at the best position of the exit
/// room (and nothing else there); the boss marker at the centre of the
/// boss room (and nothing else there); enemy markers, up to the group's
/// size, on the most interesting reachable positions; then the key chest,
/// the switch and the sign on the best remaining positions.
/// `b` has at most `n` more items of kind `kind` than `a`, and as many of
/// every other item.
pub open spec fn items_added(a: Seq<TileKind>, b: Seq<TileKind>, kind: TileKind, n: nat) -> bool {
    &&& tile_count(b, kind) <= tile_count(a, kind) + n
    &&& forall|x: TileKind| #[trigger] item(x) && x != kind ==> tile_count(b, x) == tile_count(a, x)
}

/// Tiles and used marks with `kind` put on `spot`, when there is one.
pub open spec fn put_at(tu: (Seq<TileKind>, Seq<bool>), spot: Option<(usize, usize)>, kind: TileKind) -> (Seq<TileKind>, Seq<bool>) {
    match spot {
        Some(p) => (tu.0.update(tix(p.0 as int, p.1 as int), kind), tu.1.update(tix(p.0 as int, p.1 as int), true)),
        None => tu,
    }
}

/// What [`place_at_best`] leaves.
pub open spec fn put_best(tu: (Seq<TileKind>, Seq<bool>), doors: Seq<(usize, usize)>, kind: TileKind) -> (Seq<TileKind>, Seq<bool>) {
    put_at(tu, best_spot(tu.0, doors, tu.1), kind)
}

/// `kind` put on the free floor tile nearest the centre.
pub open spec fn put_centre(tu: (Seq<TileKind>, Seq<bool>), doors: Seq<(usize, usize)>, kind: TileKind) -> (Seq<TileKind>, Seq<bool>) {
    put_at(tu, centre_spot(tu.0, doors, tu.1), kind)
}

/// What [`place_enemies`] leaves.
pub open spec fn put_enemies(tu: (Seq<TileKind>, Seq<bool>), doors: Seq<(usize, usize)>, count: nat) -> (Seq<TileKind>, Seq<bool>) {
    let ps = enemy_spots(tu.0, doors, tu.1, count);
    (put_all(tu.0, ps, TileKind::EnemySpawn), mark_all(tu.1, ps))
}

/// What [`place_sign`] leaves.
pub open spec fn put_sign(tu: (Seq<TileKind>, Seq<bool>), doors: Seq<(usize, usize)>, kind: SignKind) -> (Seq<TileKind>, Seq<bool>) {
    put_at(tu, sign_spot(tu.0, doors, tu.1, kind), TileKind::Sign)
}

/// The tiles [`place_content_tiles`] leaves on the tiles `t` of room
/// `room_id`, starting with no tile used: the spawn nearest the centre of
/// the root room; then in the exit room the stairs on the best spot and
/// nothing else; in the boss room the boss marker nearest the centre and
/// nothing else; otherwise the enemy markers, then the chest of a key
/// room, the switch and the sign, each on the best spot left.
pub open spec fn content_tiles(t: Seq<TileKind>, doors: Seq<(usize, usize)>, room_id: usize, content: Option<RoomContent>,
    exit: usize, root: usize, key_room: bool) -> Seq<TileKind> {
    let s0 = (t, Seq::new(121, |i: int| false));
    let s1 = if room_id == root { put_centre(s0, doors, TileKind::Spawn) } else { s0 };
    if room_id == exit {
        put_best(s1, doors, TileKind::Stairs).0
    } else if content is None {
        s1.0
    } else {
        let c = content.unwrap();
        if c.enemies is Some && c.enemies.unwrap().is_boss {
            put_centre(s1, doors, TileKind::BossSpawn).0
        } else {
            let s2 = if c.enemies is Some { put_enemies(s1, doors, c.enemies.unwrap().count as nat) } else { s1 };
            let s3 = if key_room { put_best(s2, doors, TileKind::Chest) } else { s2 };
            let s4 = if c.switch is Some { put_best(s3, doors, TileKind::SwitchTile) } else { s3 };
            if c.sign is Some { put_sign(s4, doors, c.sign.unwrap().kind).0 } else { s4.0 }
        }
    }
}

/// Put `kind` on the best interesting free tile, if there is one.
fn place_at_best(tiles: &mut [TileKind; TOTAL_TILES], used: &mut [bool; TOTAL_TILES], door_positions: &[(usize, usize)], kind: TileKind)
    requires
        tiles_framed(old(tiles)@),
        items_marked(old(tiles)@, old(used)@),
        item(kind),
        forall|j: int| 0 <= j < door_positions@.len() ==> (#[trigger] door_positions@[j]).0 < 11 && door_positions@[j].1 < 11,
    ensures
        tiles_framed(final(tiles)@),
        same_ring(old(tiles)@, final(tiles)@),
        items_marked(final(tiles)@, final(used)@),
        items_added(old(tiles)@, final(tiles)@, kind, 1),
        same_walk(old(tiles)@, final(tiles)@),
        forall|j: int| 0 <= j < 4 ==> free_count(final(tiles)@, final(used)@, j) + 1
            >= #[trigger] free_count(old(tiles)@, old(used)@, j),
        (exists|c: int, w: int| #[trigger] free_plain(old(tiles)@, old(used)@, c, w))
            ==> tile_count(final(tiles)@, kind) == tile_count(old(tiles)@, kind) + 1,
        (final(tiles)@, final(used)@) == put_best((old(tiles)@, old(used)@), door_positions@, kind),
{
    let ghost t0 = tiles@;
    let ghost u0 = used@;
    match best_interesting_pos(tiles, door_positions, used) {
        Some(pos) => {
            proof {
                lemma_free_is_floor(tiles@, used@, pos.0 as int, pos.1 as int);
            }
            place_item(tiles, used, pos, kind);
            proof {
                let i = tix(pos.0 as int, pos.1 as int);
                assert forall|j: int| 0 <= j < 4 implies free_count(tiles@, used@, j) + 1
                    >= #[trigger] free_count(t0, u0, j) by {
                    lemma_free_count_step(t0, u0, tiles@, used@, i, j);
                }
            }
        },
        None => {
            proof {
                if exists|c: int, w: int| #[trigger] free_plain(t0, u0, c, w) {
                    let (c, w) = choose|c: int, w: int| #[trigger] free_plain(t0, u0, c, w);
                    assert(interior(c, w));
                }
            }
        },
    }
}

/// `t` with `kind` put on each of the positions `ps`.
pub open spec fn put_all(t: Seq<TileKind>, ps: Seq<(usize, usize)>, kind: TileKind) -> Seq<TileKind>
    decreases ps.len(),
{
    if ps.len() == 0 {
        t
    } else {
        put_all(t, ps.drop_last(), kind).update(tix(ps.last().0 as int, ps.last().1 as int), kind)
    }
}

/// `u` with each of the positions `ps` marked.
pub open spec fn mark_all(u: Seq<bool>, ps: Seq<(usize, usize)>) -> Seq<bool>
    decreases ps.len(),
{
    if ps.len() == 0 {
        u
    } else {
        mark_all(u, ps.drop_last()).update(tix(ps.last().0 as int, ps.last().1 as int), true)
    }
}

/// The positions that get enemy markers: the first `count` reachable
/// open spots in order of interest (all of them, when fewer).
pub open spec fn enemy_spots(t: Seq<TileKind>, doors: Seq<(usize, usize)>, used: Seq<bool>, count: nat) -> Seq<(usize, usize)> {
    let picks = reachable_only(t, doors, interesting_order(t, doors, used));
    picks.take(if picks.len() < count { picks.len() as int } else { count as int })
}

/// Put enemy markers, up to `count`, on the most interesting reachable free tiles.
/// At least `count` distinct free floor tiles can be walked to from the doors.
pub open spec fn free_spots_at_least(t: Seq<TileKind>, used: Seq<bool>, doors: Seq<(usize, usize)>, count: nat) -> bool {
    exists|ps: Seq<(usize, usize)>| #[trigger] ps.len() >= count && ps.no_duplicates()
        && forall|i: int| 0 <= i < ps.len() ==> free_floor(t, used, doors, (#[trigger] ps[i]).0 as int, ps[i].1 as int)
}

/// With at least `count` free floor tiles the doors reach, a group of
/// `count` enemies gets `count` markers: one for each enemy. (The order of
/// interest lists every open spot once, as [`interesting_positions`] shows.)
pub proof fn lemma_enemy_spots_fill(t: Seq<TileKind>, doors: Seq<(usize, usize)>, used: Seq<bool>, count: nat)
    requires
        interesting_order(t, doors, used).no_duplicates(),
        forall|c: int, w: int| #[trigger] open_spot(t, used, c, w) ==> interesting_order(t, doors, used).contains((c as usize, w as usize)),
        free_spots_at_least(t, used, doors, count),
    ensures
        enemy_spots(t, doors, used, count).len() == count,
{
    let order = interesting_order(t, doors, used);
    let picks = reachable_only(t, doors, order);
    lemma_reachable_sub(t, doors, order);
    let ps = choose|ps: Seq<(usize, usize)>| #[trigger] ps.len() >= count && ps.no_duplicates()
        && forall|i: int| 0 <= i < ps.len() ==> free_floor(t, used, doors, (#[trigger] ps[i]).0 as int, ps[i].1 as int);
    assert(ps.to_set().subset_of(picks.to_set())) by {
        assert forall|x: (usize, usize)| ps.to_set().contains(x) implies picks.to_set().contains(x) by {
            let i = choose|i: int| 0 <= i < ps.len() && ps[i] == x;
            assert(free_floor(t, used, doors, ps[i].0 as int, ps[i].1 as int));
            assert(open_spot(t, used, x.0 as int, x.1 as int));
            assert(order.contains(((x.0 as int) as usize, (x.1 as int) as usize)));
            lemma_reachable_keeps(t, doors, order, x);
        }
    }
    ps.unique_seq_to_set();
    picks.unique_seq_to_set();
    vstd::set_lib::lemma_len_subset(ps.to_set(), picks.to_set());
}

fn place_enemies(tiles: &mut [TileKind; TOTAL_TILES], used: &mut [bool; TOTAL_TILES], door_positions: &[(usize, usize)], count: u32)
    requires
        tiles_framed(old(tiles)@),
        items_marked(old(tiles)@, old(used)@),
        forall|j: int| 0 <= j < door_positions@.len() ==> (#[trigger] door_positions@[j]).0 < 11 && door_positions@[j].1 < 11,
    ensures
        tiles_framed(final(tiles)@),
        same_ring(old(tiles)@, final(tiles)@),
        items_marked(final(tiles)@, final(used)@),
        items_added(old(tiles)@, final(tiles)@, TileKind::EnemySpawn, count as nat),
        same_walk(old(tiles)@, final(tiles)@),
        final(tiles)@ == put_all(old(tiles)@, enemy_spots(old(tiles)@, door_positions@, old(used)@, count as nat), TileKind::EnemySpawn),
        final(used)@ == mark_all(old(used)@, enemy_spots(old(tiles)@, door_positions@, old(used)@, count as nat)),
        tile_count(final(tiles)@, TileKind::EnemySpawn) == tile_count(old(tiles)@, TileKind::EnemySpawn)
            + enemy_spots(old(tiles)@, door_positions@, old(used)@, count as nat).len(),
        count >= 1 && (exists|c: int, w: int| #[trigger] free_floor(old(tiles)@, old(used)@, door_positions@, c, w))
            ==> enemy_spots(old(tiles)@, door_positions@, old(used)@, count as nat).len() >= 1,
        free_spots_at_least(old(tiles)@, old(used)@, door_positions@, count as nat)
            ==> tile_count(final(tiles)@, TileKind::EnemySpawn) == tile_count(old(tiles)@, TileKind::EnemySpawn) + count,
{
    let positions = interesting_positions(tiles, door_positions, used);
    let reachable = reachable_from_doors(tiles, door_positions);
    proof {
        assert(positions@.no_duplicates()) by {
            assert forall|a: int, b: int| 0 <= a < b < positions@.len() implies positions@[a] != positions@[b] by {
                assert(interest_before(tiles@, door_positions@, positions@[a], positions@[b]));
            }
        }
        lemma_reachable_sub(tiles@, door_positions@, positions@);
        if exists|c: int, w: int| #[trigger] free_floor(tiles@, used@, door_positions@, c, w) {
            let (c, w) = choose|c: int, w: int| #[trigger] free_floor(tiles@, used@, door_positions@, c, w);
            assert(open_spot(tiles@, used@, c, w));
            let x = (c as usize, w as usize);
            assert(positions@.contains(x));
            assert(tix(x.0 as int, x.1 as int) == tix(c, w));
            lemma_reachable_keeps(tiles@, door_positions@, positions@, x);
        }
    }
    proof {
        if free_spots_at_least(tiles@, used@, door_positions@, count as nat) {
            lemma_enemy_spots_fill(tiles@, door_positions@, used@, count as nat);
        }
    }
    let mut chosen: Vec<(usize, usize)> = Vec::new();
    let mut k: usize = 0;
    while k < positions.len() && (chosen.len() as u64) < count as u64
        invariant
            k <= positions@.len(),
            chosen@ == reachable_only(tiles@, door_positions@, positions@.take(k as int)),
            positions@ == interesting_order(tiles@, door_positions@, used@),
            forall|p: int| 0 <= p < 121 ==> (#[trigger] reachable@[p] <==> door_reach(tiles@, door_positions@, p)),
            forall|q: int| 0 <= q < positions@.len() ==> {
                let (pc, pr) = #[trigger] positions@[q];
                &&& interior(pc as int, pr as int)
                &&& walkable(tiles@[tix(pc as int, pr as int)])
                &&& !used@[tix(pc as int, pr as int)]
            },
            forall|q: int| 0 <= q < chosen@.len() ==> {
                let (pc, pr) = #[trigger] chosen@[q];
                &&& interior(pc as int, pr as int)
                &&& walkable(tiles@[tix(pc as int, pr as int)])
                &&& !used@[tix(pc as int, pr as int)]
            },
            chosen@.len() <= k,
            chosen@.len() <= count,
        decreases positions@.len() - k,
    {
        let pos = positions[k];
        proof {
            assert(positions@.take(k as int + 1).drop_last() =~= positions@.take(k as int));
        }
        if reachable[tile_index(pos.0, pos.1)] {
            chosen.push(pos);
        }
        k = k + 1;
    }
    proof {
        lemma_reachable_prefix(tiles@, door_positions@, positions@, k as int);
        if k == positions@.len() {
            assert(positions@.take(k as int) =~= positions@);
        }
        assert(chosen@ == enemy_spots(tiles@, door_positions@, used@, count as nat));
        let all = reachable_only(tiles@, door_positions@, positions@);
        assert(chosen@.no_duplicates()) by {
            assert forall|a: int, b: int| 0 <= a < b < chosen@.len() implies chosen@[a] != chosen@[b] by {
                assert(chosen@[a] == all[a] && chosen@[b] == all[b]);
            }
        }
    }
    let ghost t2 = tiles@;
    let ghost u2 = used@;
    proof {
        assert forall|q: int| 0 <= q < chosen@.len() implies
            (#[trigger] tiles@[tix(chosen@[q].0 as int, chosen@[q].1 as int)]) is Floor by {
            lemma_free_is_floor(tiles@, used@, chosen@[q].0 as int, chosen@[q].1 as int);
        }
    }
    let mut k: usize = 0;
    while k < chosen.len()
        invariant
            k <= chosen@.len(),
            chosen@.len() <= count,
            forall|q: int| 0 <= q < chosen@.len() ==> interior((#[trigger] chosen@[q]).0 as int, chosen@[q].1 as int),
            forall|q: int| k <= q < chosen@.len() ==> #[trigger] tiles@[tix(chosen@[q].0 as int, chosen@[q].1 as int)] is Floor,
            chosen@.no_duplicates(),
            tile_count(tiles@, TileKind::EnemySpawn) == tile_count(t2, TileKind::EnemySpawn) + k,
            tiles_framed(tiles@),
            same_ring(old(tiles)@, tiles@),
            items_marked(tiles@, used@),
            t2 == old(tiles)@,
            tile_count(tiles@, TileKind::EnemySpawn) <= tile_count(t2, TileKind::EnemySpawn) + k,
            same_walk(t2, tiles@),
            forall|x: TileKind| #[trigger] item(x) && x != TileKind::EnemySpawn ==> tile_count(tiles@, x) == tile_count(t2, x),
            tiles@ == put_all(t2, chosen@.take(k as int), TileKind::EnemySpawn),
            used@ == mark_all(u2, chosen@.take(k as int)),
        decreases chosen@.len() - k,
    {
        let ghost tk = tiles@;
        let p = chosen[k];
        proof {
            assert(chosen@.take(k as int + 1).drop_last() =~= chosen@.take(k as int));
        }
        place_item(tiles, used, p, TileKind::EnemySpawn);
        proof {
            assert forall|q: int| k + 1 <= q < chosen@.len() implies #[trigger] tiles@[tix(chosen@[q].0 as int, chosen@[q].1 as int)] is Floor by {
                assert(tk[tix(chosen@[q].0 as int, chosen@[q].1 as int)] is Floor);
                assert(chosen@[q] != chosen@[k as int]);
                lemma_tix(chosen@[q].0 as int, chosen@[q].1 as int);
                lemma_tix(p.0 as int, p.1 as int);
            }
            assert(item(TileKind::EnemySpawn));
            assert forall|x: TileKind| #[trigger] item(x) && x != TileKind::EnemySpawn implies tile_count(tiles@, x) == tile_count(t2, x) by {
                assert(tile_count(tiles@, x) == tile_count(tk, x));
            }
        }
        k = k + 1;
    }
    proof {
        assert(chosen@.take(chosen@.len() as int) =~= chosen@);
    }
}

/// Where [`place_sign`] puts a sign of kind `kind`: a contextual sign on the
/// most interesting reachable open spot, an atmospheric one on
/// [`best_spot`].
pub open spec fn sign_spot(t: Seq<TileKind>, doors: Seq<(usize, usize)>, used: Seq<bool>, kind: SignKind) -> Option<(usize, usize)> {
    let picks = reachable_only(t, doors, interesting_order(t, doors, used));
    if kind is Contextual {
        if picks.len() > 0 { Some(picks[0]) } else { None }
    } else {
        best_spot(t, doors, used)
    }
}

/// Put the sign: a contextual sign on the most interesting reachable free
/// tile, an atmospheric one on the best interesting free tile.
fn place_sign(tiles: &mut [TileKind; TOTAL_TILES], used: &mut [bool; TOTAL_TILES], door_positions: &[(usize, usize)], kind: SignKind)
    requires
        tiles_framed(old(tiles)@),
        items_marked(old(tiles)@, old(used)@),
        forall|j: int| 0 <= j < door_positions@.len() ==> (#[trigger] door_positions@[j]).0 < 11 && door_positions@[j].1 < 11,
    ensures
        tiles_framed(final(tiles)@),
        same_ring(old(tiles)@, final(tiles)@),
        items_marked(final(tiles)@, final(used)@),
        items_added(old(tiles)@, final(tiles)@, TileKind::Sign, 1),
        same_walk(old(tiles)@, final(tiles)@),
        sign_spot(old(tiles)@, door_positions@, old(used)@, kind) matches Some(p) ==> final(tiles)@
            == old(tiles)@.update(tix(p.0 as int, p.1 as int), TileKind::Sign) && final(used)@ == old(used)@.update(tix(p.0 as int, p.1 as int), true),
        sign_spot(old(tiles)@, door_positions@, old(used)@, kind) is None ==> final(tiles)@ == old(tiles)@ && final(used)@ == old(used)@,
        (final(tiles)@, final(used)@) == put_sign((old(tiles)@, old(used)@), door_positions@, kind),
        (exists|c: int, w: int| #[trigger] free_floor(old(tiles)@, old(used)@, door_positions@, c, w))
            ==> tile_count(final(tiles)@, TileKind::Sign) == tile_count(old(tiles)@, TileKind::Sign) + 1,
{
    let pos = match kind {
        SignKind::Contextual => {
            let positions = interesting_positions(tiles, door_positions, used);
            let reachable = reachable_from_doors(tiles, door_positions);
            let mut found: Option<(usize, usize)> = None;
            let mut k: usize = 0;
            while k < positions.len()
                invariant_except_break
                    found is None,
                invariant
                    k <= positions@.len(),
                    positions@ == interesting_order(tiles@, door_positions@, used@),
                    reachable_only(tiles@, door_positions@, positions@.take(k as int)).len() == 0,
                    forall|p: int| 0 <= p < 121 ==> (#[trigger] reachable@[p] <==> door_reach(tiles@, door_positions@, p)),
                    forall|q: int| 0 <= q < positions@.len() ==> {
                        let (pc, pr) = #[trigger] positions@[q];
                        &&& interior(pc as int, pr as int)
                        &&& walkable(tiles@[tix(pc as int, pr as int)])
                        &&& !used@[tix(pc as int, pr as int)]
                    },
                    found matches Some(p) ==> interior(p.0 as int, p.1 as int) && walkable(tiles@[tix(p.0 as int, p.1 as int)])
                        && !used@[tix(p.0 as int, p.1 as int)],
                ensures
                    found is None ==> k == positions@.len() && reachable_only(tiles@, door_positions@, positions@.take(k as int)).len() == 0,
                    found is Some ==> found == sign_spot(tiles@, door_positions@, used@, kind),
                    found matches Some(p) ==> interior(p.0 as int, p.1 as int) && walkable(tiles@[tix(p.0 as int, p.1 as int)])
                        && !used@[tix(p.0 as int, p.1 as int)],
                decreases positions@.len() - k,
            {
                proof {
                    assert(positions@.take(k as int + 1).drop_last() =~= positions@.take(k as int));
                }
                if reachable[tile_index(positions[k].0, positions[k].1)] {
                    found = Some(positions[k]);
                    proof {
                        let picks = reachable_only(tiles@, door_positions@, positions@);
                        lemma_reachable_prefix(tiles@, door_positions@, positions@, k + 1);
                        assert(reachable_only(tiles@, door_positions@, positions@.take(k as int + 1)) =~= seq![positions@[k as int]]);
                        assert(picks.take(1) == seq![positions@[k as int]]);
                        assert(picks.take(1)[0] == picks[0]);
                    }
                    break;
                }
                k = k + 1;
            }
            proof {
                if found is None {
                    assert(positions@.take(positions@.len() as int) =~= positions@);
                    assert(found == sign_spot(tiles@, door_positions@, used@, kind));
                    if exists|c: int, w: int| #[trigger] free_floor(tiles@, used@, door_positions@, c, w) {
                        let (c, w) = choose|c: int, w: int| #[trigger] free_floor(tiles@, used@, door_positions@, c, w);
                        assert(open_spot(tiles@, used@, c, w));
                        let x = (c as usize, w as usize);
                        assert(positions@.contains(x));
                        assert(tix(x.0 as int, x.1 as int) == tix(c, w));
                        lemma_reachable_keeps(tiles@, door_positions@, positions@, x);
                    }
                }
            }
            found
        },
        SignKind::Atmospheric => best_interesting_pos(tiles, door_positions, used),
    };
    match pos {
        Some(p) => {
            proof {
                lemma_free_is_floor(tiles@, used@, p.0 as int, p.1 as int);
            }
            place_item(tiles, used, p, TileKind::Sign);
        },
        None => {
            proof {
                if exists|c: int, w: int| #[trigger] free_floor(tiles@, used@, door_positions@, c, w) {
                    let (c, w) = choose|c: int, w: int| #[trigger] free_floor(tiles@, used@, door_positions@, c, w);
                    assert(interior(c, w) && tiles@[tix(c, w)] is Floor && !used@[tix(c, w)]);
                }
            }
        },
    }
}

#[verifier::spinoff_prover]
#[verifier::rlimit(100)]
fn place_content_tiles(tiles: &mut [TileKind; TOTAL_TILES], room_id: usize, content: Option<&RoomContent>, exit_room_id: usize, tree: &DungeonTree, door_positions: &[(usize, usize)], rng: &mut Rng)
    requires
        tiles_framed(old(tiles)@),
        plain_interior(old(tiles)@),
        room_id < tree.n(),
        forall|j: int| 0 <= j < door_positions@.len() ==> (#[trigger] door_positions@[j]).0 < 11 && door_positions@[j].1 < 11,
    ensures
        tiles_framed(final(tiles)@),
        same_ring(old(tiles)@, final(tiles)@),
        room_items_ok(final(tiles)@, room_id, match content { Some(c) => Some(*c), None => None }, exit_room_id, tree.root,
            tree.rooms@[room_id as int].kind is Key),
        same_walk(old(tiles)@, final(tiles)@),
        near_doors_clear(old(tiles)@) ==> room_items_placed(final(tiles)@, room_id, match content { Some(c) => Some(*c), None => None },
            exit_room_id, tree.root, tree.rooms@[room_id as int].kind is Key,
            exists|j: int| 0 <= j < 4 && #[trigger] door_clearing(old(tiles)@, door_positions@, j)),
        final(rng)@ == old(rng)@,
        content matches Some(c) ==> (c.enemies matches Some(e) ==> (!e.is_boss && room_id != tree.root && room_id != exit_room_id
            ==> tile_count(final(tiles)@, TileKind::EnemySpawn)
                == enemy_spots(old(tiles)@, door_positions@, Seq::new(121, |i: int| false), e.count as nat).len())),
        content matches Some(c) ==> (c.enemies matches Some(e) ==> (!e.is_boss && room_id != tree.root && room_id != exit_room_id
            && free_spots_at_least(old(tiles)@, Seq::new(121, |i: int| false), door_positions@, e.count as nat)
            ==> tile_count(final(tiles)@, TileKind::EnemySpawn) == e.count)),
        final(tiles)@ == content_tiles(old(tiles)@, door_positions@, room_id, match content { Some(c) => Some(*c), None => None },
            exit_room_id, tree.root, tree.rooms@[room_id as int].kind is Key),
{
    let ghost t0 = tiles@;
    let ghost d = door_positions@;
    let ghost clear = near_doors_clear(t0);
    let ghost open = exists|j: int| 0 <= j < 4 && #[trigger] door_clearing(t0, d, j);
    let ghost j1 = choose|j: int| 0 <= j < 4 && #[trigger] door_clearing(t0, d, j);
    let mut used: [bool; TOTAL_TILES] = [false; TOTAL_TILES];
    let ghost u0 = used@;
    proof {
        assert(u0 =~= Seq::new(121, |i: int| false));
        assert forall|k: TileKind| #[trigger] item(k) implies tile_count(t0, k) == 0 by {
            lemma_no_items(t0, k);
        }
        assert(items_marked(tiles@, used@));
        if clear {
            assert forall|j: int| 0 <= j < 4 implies #[trigger] free_count(t0, u0, j) == 4 by {
                assert forall|k: int| 0 <= k < 4 implies #[trigger] free_plain(t0, u0, near_tile(j, k).0, near_tile(j, k).1) by {
                    let (c, w) = near_tile(j, k);
                    assert(interior(c, w) && near_door(c, w));
                    assert(t0[w * 11 + c] is Floor);
                    assert(u0[tix(c, w)] == false);
                }
                assert(free_plain(t0, u0, near_tile(j, 0).0, near_tile(j, 0).1));
                assert(free_plain(t0, u0, near_tile(j, 1).0, near_tile(j, 1).1));
                assert(free_plain(t0, u0, near_tile(j, 2).0, near_tile(j, 2).1));
                assert(free_plain(t0, u0, near_tile(j, 3).0, near_tile(j, 3).1));
            }
        }
    }
    if room_id == tree.root {
        match centre_floor(tiles, door_positions, &used) {
            Some(pos) => {
                let ghost ta = tiles@;
                let ghost ua = used@;
                place_item(tiles, &mut used, pos, TileKind::Spawn);
                proof {
                    assert forall|j: int| 0 <= j < 4 implies free_count(tiles@, used@, j) + 1 >= #[trigger] free_count(ta, ua, j) by {
                        lemma_free_count_step(ta, ua, tiles@, used@, tix(pos.0 as int, pos.1 as int), j);
                    }
                }
            },
            None => {
                proof {
                    if clear && open {
                        lemma_free_reached(t0, t0, u0, d, j1);
                    }
                }
            },
        }
    }
    assert(item(TileKind::Spawn) && item(TileKind::Stairs) && item(TileKind::BossSpawn) && item(TileKind::EnemySpawn)
        && item(TileKind::Chest) && item(TileKind::SwitchTile) && item(TileKind::Sign));
    let ghost t1 = tiles@;
    let ghost u1 = used@;
    assert((t1, u1) == (if room_id == tree.root { put_centre((t0, u0), d, TileKind::Spawn) } else { (t0, u0) }));
    assert(items_added(t0, t1, TileKind::Spawn, if room_id == tree.root { 1nat } else { 0nat }));
    assert(clear ==> forall|j: int| 0 <= j < 4 ==> #[trigger] free_count(t1, u1, j) >= 3);
    assert(clear && open && room_id == tree.root ==> tile_count(t1, TileKind::Spawn) == 1);
    if room_id == exit_room_id {
        proof {
            if clear {
                assert(free_count(t1, u1, 0) >= 3);
                lemma_free_count_witness(t1, u1, 0);
            }
        }
        place_at_best(tiles, &mut used, door_positions, TileKind::Stairs);
        return;
    }
    let c = match content {
        Some(c) => c,
        None => {
            return;
        },
    };
    match &c.enemies {
        Some(eg) => {
            if eg.is_boss {
                match centre_floor(tiles, door_positions, &used) {
                    Some(pos) => place_item(tiles, &mut used, pos, TileKind::BossSpawn),
                    None => {
                        proof {
                            if clear && open {
                                assert(free_count(t1, u1, j1) >= 3);
                                lemma_free_reached(t0, t1, u1, d, j1);
                            }
                        }
                    },
                }
                return;
            }
            proof {
                assert(u0 =~= Seq::new(121, |i: int| false));
                if clear && open {
                    assert(free_count(t1, u1, j1) >= 3);
                    lemma_free_reached(t0, t1, u1, d, j1);
                }
            }
            place_enemies(tiles, &mut used, door_positions, eg.count);
        },
        None => {},
    }
    let ghost t3 = tiles@;
    let ghost u3 = used@;
    assert((t3, u3) == (if c.enemies is Some { put_enemies((t1, u1), d, c.enemies.unwrap().count as nat) } else { (t1, u1) }));
    if tree.rooms[room_id].kind.is_key() {
        proof {
            if clear && c.enemies is None {
                assert(free_count(t3, u3, 0) >= 3);
                lemma_free_count_witness(t3, u3, 0);
            }
        }
        place_at_best(tiles, &mut used, door_positions, TileKind::Chest);
    }
    let ghost t4 = tiles@;
    let ghost u4 = used@;
    proof {
        if clear && c.enemies is None {
            assert(free_count(t3, u3, 0) >= 3);
            assert(free_count(t4, u4, 0) >= 2);
            lemma_free_count_witness(t4, u4, 0);
            if open {
                assert(free_count(t3, u3, j1) >= 3);
                assert(free_count(t4, u4, j1) >= 2);
            }
        }
    }
    if c.switch.is_some() {
        place_at_best(tiles, &mut used, door_positions, TileKind::SwitchTile);
    }
    let ghost t5 = tiles@;
    let ghost u5 = used@;
    proof {
        if clear && open && c.enemies is None {
            assert(free_count(t5, u5, j1) >= 1);
            lemma_free_reached(t0, t5, u5, d, j1);
        }
    }
    match &c.sign {
        Some(sign) => place_sign(tiles, &mut used, door_positions, sign.kind),
        None => {},
    }
    assert(tile_count(t3, TileKind::Chest) == 0 && tile_count(t3, TileKind::SwitchTile) == 0 && tile_count(t3, TileKind::Sign) == 0);
    assert(tile_count(t4, TileKind::SwitchTile) == 0 && tile_count(t5, TileKind::Sign) == 0);
}


// ── Templates ───────────────────────────────────────────────────────────────

/// The interior layouts.
#[derive(Clone, Copy, Debug, PartialEq, Eq, Structural)]
enum Template {
    Open,
    Columned,
    Alcove,
}

/// The layout [`choose_template`] picks for room `room_id` from generator
/// state `s`, and the state it leaves.
#[verifier::opaque]
spec fn template_draw(room_id: usize, content: Seq<RoomContent>, root: usize, s: RngState) -> (Template, RngState) {
    let has = room_id < content.len();
    let c = content[room_id as int];
    if (has && c.enemies is Some && c.enemies.unwrap().is_boss) || (has && c.is_exit) || room_id == root {
        (Template::Open, s)
    } else if has && c.enemies is Some {
        (if chance_hit(s, ENEMY_OPEN_BELOW) { Template::Open } else { Template::Columned }, xoshiro_next(s))
    } else if has && c.sign is Some {
        (Template::Alcove, s)
    } else {
        let k = usize_draw(s, 3);
        (if k.0 == 0 { Template::Open } else if k.0 == 1 { Template::Columned } else { Template::Alcove }, k.1)
    }
}

/// The tiles and generator state that layout `template` leaves.
#[verifier::opaque]
spec fn template_result(template: Template, t: Seq<TileKind>, s: RngState) -> (Seq<TileKind>, RngState) {
    match template {
        Template::Open => open_result(t, s),
        Template::Columned => columned_result(t, s),
        Template::Alcove => alcove_result(t, s),
    }
}

/// The tiles and generator state that the interior layout of room
/// `room_id` leaves on the framed tiles `cut`, from generator state `s`:
/// the layout is drawn first, then laid.
pub closed spec fn template_tiles(room_id: usize, content: Seq<RoomContent>, root: usize, cut: Seq<TileKind>, s: RngState) -> (Seq<TileKind>, RngState) {
    let d = template_draw(room_id, content, root, s);
    template_result(d.0, cut, d.1)
}

/// The layout for a room: open for the boss, exit and root rooms; open
/// (chance 0.6) or columned for rooms with enemies; alcoves for rooms with
/// a sign; any of the three, evenly, otherwise.
fn choose_template(room_id: usize, content: &[RoomContent], tree: &DungeonTree, rng: &mut Rng) -> (r: Template)
    ensures
        (r, final(rng)@) == template_draw(room_id, content@, tree.root, old(rng)@),
        room_id == tree.root ==> r == Template::Open,
        room_id < content@.len() && content@[room_id as int].is_exit ==> r == Template::Open,
        room_id < content@.len() && content@[room_id as int].enemies is Some && content@[room_id as int].enemies.unwrap().is_boss ==> r == Template::Open,
        room_id < content@.len() && content@[room_id as int].enemies is Some ==> r != Template::Alcove,
{
    let (is_boss, is_enemy, is_exit, has_sign) = if room_id < content.len() {
        let c = &content[room_id];
        let boss = match &c.enemies {
            Some(e) => e.is_boss,
            None => false,
        };
        let enemy = match &c.enemies {
            Some(e) => !e.is_boss,
            None => false,
        };
        (boss, enemy, c.is_exit, c.sign.is_some())
    } else {
        (false, false, false, false)
    };
    let is_root = room_id == tree.root;
    proof {
        reveal(template_draw);
    }
    if is_boss || is_exit || is_root {
        Template::Open
    } else if is_enemy {
        if rng.chance_below(ENEMY_OPEN_BELOW) {
            Template::Open
        } else {
            Template::Columned
        }
    } else if has_sign {
        Template::Alcove
    } else {
        let k = rng.next_usize(3);
        if k == 0 {
            Template::Open
        } else if k == 1 {
            Template::Columned
        } else {
            Template::Alcove
        }
    }
}

fn apply_template(tiles: &mut [TileKind; TOTAL_TILES], template: Template, rng: &mut Rng)
    requires
        tiles_framed(old(tiles)@),
    ensures
        (final(tiles)@, final(rng)@) == template_result(template, old(tiles)@, old(rng)@),
        tiles_framed(final(tiles)@),
        same_ring(old(tiles)@, final(tiles)@),
        plain_interior(old(tiles)@) ==> plain_interior(final(tiles)@),
        near_doors_clear(old(tiles)@) ==> near_doors_clear(final(tiles)@),
{
    proof {
        reveal(template_result);
    }
    match template {
        Template::Open => apply_open(tiles, rng),
        Template::Columned => apply_columned(tiles, rng),
        Template::Alcove => apply_alcove(tiles, rng),
    }
}


// ── Room builder ────────────────────────────────────────────────────────────

/// The grid position one step from `p` towards wall `d` (east, west, south, north).
pub open spec fn wall_step(p: (i32, i32), d: int) -> (int, int) {
    if d == 0 {
        (p.0 + 1, p.1 as int)
    } else if d == 1 {
        (p.0 - 1, p.1 as int)
    } else if d == 2 {
        (p.0 as int, p.1 + 1)
    } else {
        (p.0 as int, p.1 - 1)
    }
}

/// The tile index of the door in wall `d` (east, west, south, north).
pub open spec fn door_at(d: int) -> int {
    if d == 0 {
        65
    } else if d == 1 {
        55
    } else if d == 2 {
        115
    } else {
        5
    }
}

/// The door between room `id` and its grid neighbour `nb`: a locked or
/// switch-door room is entered through a door of its kind from its parent,
/// and rooms without a tree link get a plain door.
pub open spec fn door_between(tree: DungeonTree, id: usize, nb: usize) -> TileKind {
    if tree.has_parent(id as int) && tree.parent(id as int) == nb {
        door_tile(tree.rooms@[id as int].kind)
    } else if tree.is_child(id as int, nb as int) {
        door_tile(tree.rooms@[nb as int].kind)
    } else {
        TileKind::Door
    }
}

/// The tile in wall `d` of placed room `id`: a door of [`door_between`]
/// kind towards a placed room on that side, wall otherwise.
pub open spec fn expected_door(tree: DungeonTree, grid: DungeonGrid, id: usize, d: int) -> TileKind {
    match grid.room_on(wall_step(grid.pos_of_room(id).unwrap(), d)) {
        Some(nb) => door_between(tree, id, nb),
        None => TileKind::Wall,
    }
}

/// A door cut in wall `d` opens the room.
proof fn lemma_door_open(t: Seq<TileKind>, d: int)
    requires
        0 <= d < 4,
        !(t[door_at(d)] is Wall),
    ensures
        has_open_door(t),
{
    let j = if d == 0 { 2int } else if d == 1 { 3int } else if d == 2 { 1int } else { 0int };
    assert(tix(door_spot(j).0, door_spot(j).1) == door_at(d));
}

/// In a grid that decodes a tree and holds two or more rooms, every cell
/// has a placed room beside it.
pub proof fn lemma_cell_has_neighbour(t: DungeonTree, g: DungeonGrid, k: int)
    requires
        g.wf(),
        g.decodes(t),
        g.ncells() >= 2,
        0 <= k < g.ncells(),
    ensures
        exists|d: int| 0 <= d < 4 && #[trigger] g.occupied(wall_step(g.pos_at(k), d)),
{
    if k >= 1 {
        assert(g.has_source(t, k));
        let q = choose|q: int| 0 <= q < k && #[trigger] g.laid_out_from(t, k, q);
        let off = direction_offset(effective_direction(t, g.id_at(q) as int, g.id_at(k) as int));
        let d = if off == (1i32, 0i32) { 1int } else if off == (-1i32, 0i32) { 0int } else { 3int };
        assert(wall_step(g.pos_at(k), d) == (g.pos_at(q).0 as int, g.pos_at(q).1 as int));
        assert(g.occupied(wall_step(g.pos_at(k), d)));
    } else {
        assert(g.has_source(t, 1));
        let q = choose|q: int| 0 <= q < 1 && #[trigger] g.laid_out_from(t, 1, q);
        assert(q == 0);
        let off = direction_offset(effective_direction(t, g.id_at(0) as int, g.id_at(1) as int));
        let d = if off == (1i32, 0i32) { 0int } else if off == (-1i32, 0i32) { 1int } else { 2int };
        assert(wall_step(g.pos_at(0), d) == (g.pos_at(1).0 as int, g.pos_at(1).1 as int));
        assert(g.occupied(wall_step(g.pos_at(k), d)));
    }
}

/// In a grid that decodes a tree and holds two or more rooms, every cell
/// has a taken cell one step away.
pub proof fn lemma_decoded_touching(t: DungeonTree, g: DungeonGrid)
    requires
        g.wf(),
        g.decodes(t),
        g.ncells() >= 2,
    ensures
        grid_touching(g),
{
    assert forall|k: int| 0 <= k < g.ncells() implies #[trigger] touches(g, k) by {
        lemma_cell_has_neighbour(t, g, k);
        let d = choose|d: int| 0 <= d < 4 && #[trigger] g.occupied(wall_step(g.pos_at(k), d));
        assert(step_at(g.pos_at(k), d) == wall_step(g.pos_at(k), d));
    }
}

/// A placed room is the room on its own position.
pub proof fn lemma_room_on_own_pos(g: DungeonGrid, x: usize)
    requires
        g.wf(),
        g.placed(x),
    ensures
        g.pos_of_room(x) is Some,
        g.room_on((g.pos_of_room(x).unwrap().0 as int, g.pos_of_room(x).unwrap().1 as int)) == Some(x),
{
    let k = g.index_of(x);
    let p = g.pos_at(k);
    assert(g.occupied((p.0 as int, p.1 as int)));
    let c = choose|c: int| 0 <= c < g.ncells() && (#[trigger] g.pos_at(c)).0 == p.0 && g.pos_at(c).1 == p.1;
    if c != k {
        assert(g.pos_at(c) == g.pos_at(k));
    }
}

/// The room on a taken position has that position.
pub proof fn lemma_pos_of_room_on(g: DungeonGrid, q: (int, int))
    requires
        g.wf(),
        g.room_on(q) is Some,
    ensures
        g.placed(g.room_on(q).unwrap()),
        (g.pos_of_room(g.room_on(q).unwrap()).unwrap().0 as int, g.pos_of_room(g.room_on(q).unwrap()).unwrap().1 as int) == q,
{
    let c = choose|c: int| 0 <= c < g.ncells() && (#[trigger] g.pos_at(c)).0 == q.0 && g.pos_at(c).1 == q.1;
    let x = g.id_at(c);
    assert(g.placed(x));
    let k = g.index_of(x);
    if k != c {
        assert(g.id_at(k) == g.id_at(c));
    }
}

/// The tiles of a fresh room: wall ring, floor interior.
fn blank_tiles() -> (t: [TileKind; TOTAL_TILES])
    ensures
        tiles_framed(t@),
        plain_interior(t@),
        floor_interior(t@),
        near_doors_clear(t@),
        forall|d: int| 0 <= d < 4 ==> (#[trigger] t@[door_at(d)]) is Wall,
{
    let mut tiles: [TileKind; TOTAL_TILES] = [TileKind::Wall; TOTAL_TILES];
    let ghost t0 = tiles@;
    let mut i: usize = 0;
    while i < TOTAL_TILES
        invariant
            i <= 121,
            tiles@.len() == 121,
            forall|p: int| 0 <= p < 121 ==> (#[trigger] tiles@[p]) == (if p < i && interior(p % 11, p / 11) { TileKind::Floor } else { TileKind::Wall }),
        decreases 121 - i,
    {
        let col = i % CELL_SIZE;
        let row = i / CELL_SIZE;
        if 1 <= col && col <= 9 && 1 <= row && row <= 9 {
            tiles[i] = TileKind::Floor;
        }
        i = i + 1;
    }
    proof {
        assert forall|col: int, row: int| 0 <= col < 11 && 0 <= row < 11 implies (#[trigger] tiles@[row * 11 + col]) == (if interior(col, row) { TileKind::Floor } else { TileKind::Wall }) by {
            let p = row * 11 + col;
            assert(p % 11 == col && p / 11 == row && 0 <= p < 121) by (nonlinear_arith)
                requires p == row * 11 + col, 0 <= col < 11, 0 <= row < 11;
        }
        assert forall|col: int, row: int| #[trigger] interior(col, row) implies tiles@[row * 11 + col] is Floor || obstacle(tiles@[row * 11 + col]) by {
            assert(tiles@[row * 11 + col] == (if interior(col, row) { TileKind::Floor } else { TileKind::Wall }));
        }
        assert forall|col: int, row: int| #[trigger] interior(col, row) implies tiles@[row * 11 + col] is Floor by {
            assert(tiles@[row * 11 + col] == (if interior(col, row) { TileKind::Floor } else { TileKind::Wall }));
        }
        assert forall|d: int| 0 <= d < 4 implies (#[trigger] tiles@[door_at(d)]) is Wall by {
            assert(tiles@[65] is Wall);
            assert(tiles@[55] is Wall);
            assert(tiles@[115] is Wall);
            assert(tiles@[5] is Wall);
        }
    }
    tiles
}

/// Set the door tile in wall `d`.
fn put_door(tiles: &mut [TileKind; TOTAL_TILES], d: usize, kind: TileKind)
    requires
        tiles_framed(old(tiles)@),
        d < 4,
        kind is Wall || door_kind(kind),
    ensures
        tiles_framed(final(tiles)@),
        final(tiles)@ == old(tiles)@.update(door_at(d as int), kind),
        plain_interior(old(tiles)@) ==> plain_interior(final(tiles)@),
        near_doors_clear(old(tiles)@) ==> near_doors_clear(final(tiles)@),
        floor_interior(old(tiles)@) ==> floor_interior(final(tiles)@),
{
    let idx: usize = if d == 0 {
        65
    } else if d == 1 {
        55
    } else if d == 2 {
        115
    } else {
        5
    };
    let ghost t0 = tiles@;
    tiles[idx] = kind;
    proof {
        let (dc, dr): (int, int) = if d == 0 { (10, 5) } else if d == 1 { (0, 5) } else if d == 2 { (5, 10) } else { (5, 0) };
        assert(idx == dr * 11 + dc);
        assert forall|col: int, row: int| 0 <= col < 11 && 0 <= row < 11 && (col != dc || row != dr) implies #[trigger] tiles@[row * 11 + col] == t0[row * 11 + col] by {
            assert(row * 11 + col != dr * 11 + dc) by (nonlinear_arith)
                requires 0 <= col < 11, 0 <= row < 11, 0 <= dc < 11, 0 <= dr < 11, col != dc || row != dr;
        }
        assert(door_pos(dc, dr));
        assert(tiles@[dr * 11 + dc] == kind);
        if plain_interior(t0) {
            assert forall|col: int, row: int| #[trigger] interior(col, row) implies tiles@[row * 11 + col] is Floor || obstacle(tiles@[row * 11 + col]) by {
                assert(tiles@[row * 11 + col] == t0[row * 11 + col]);
            }
        }
    }
}

/// The kind of the door between room `room_id` and its neighbour `nb`.
fn door_between_exec(tree: &DungeonTree, room_id: usize, parent: Option<usize>, nb: usize) -> (r: TileKind)
    requires
        tree.wf(),
        room_id < tree.n(),
        nb < tree.n(),
        parent == (if room_id == tree.root || !tree.has_parent(room_id as int) { None::<usize> } else { Some(tree.parent(room_id as int) as usize) }),
    ensures
        r == door_between(*tree, room_id, nb),
        door_kind(r),
{
    let is_parent = match parent {
        Some(p) => p == nb,
        None => false,
    };
    proof {
        if room_id == tree.root {
            assert(!tree.has_parent(room_id as int)) by {
                if tree.has_parent(room_id as int) {
                    let p = choose|p: int| #[trigger] tree.is_child(p, room_id as int);
                    let k = choose|k: int| 0 <= k < tree.kids(p).len() && #[trigger] tree.kids(p)[k] == room_id as int;
                    assert(p < tree.kids(p)[k]);
                }
            }
        }
    }
    if is_parent {
        door_tile_kind(tree.rooms[room_id].kind)
    } else if crate::tree::vec_contains(&tree.rooms[room_id].children, nb) {
        proof {
            let k = choose|k: int| 0 <= k < tree.kids(room_id as int).len() && tree.kids(room_id as int)[k] == nb;
            assert(tree.is_child(room_id as int, nb as int));
        }
        door_tile_kind(tree.rooms[nb].kind)
    } else {
        proof {
            assert(!tree.is_child(room_id as int, nb as int)) by {
                if tree.is_child(room_id as int, nb as int) {
                    let k = choose|k: int| 0 <= k < tree.kids(room_id as int).len() && #[trigger] tree.kids(room_id as int)[k] == nb as int;
                    assert(tree.rooms@[room_id as int].children@.contains(nb));
                }
            }
        }
        TileKind::Door
    }
}

/// The tiles of room `room_id` before its interior is laid: the frame
/// with a door (see [`expected_door`]) towards each placed neighbour, and
/// a floor interior.
pub open spec fn room_cut(cut: Seq<TileKind>, tree: DungeonTree, grid: DungeonGrid, room_id: usize) -> bool {
    &&& tiles_framed(cut)
    &&& floor_interior(cut)
    &&& forall|d: int| 0 <= d < 4 ==> #[trigger] cut[door_at(d)] == expected_door(tree, grid, room_id, d)
}

/// The door positions handed to item placement: the door spots of `t`
/// that are not wall, north, south, east, west, among the first `j`.
pub open spec fn open_door_list(t: Seq<TileKind>, j: int) -> Seq<(usize, usize)>
    decreases j,
{
    if j <= 0 {
        Seq::empty()
    } else if t[tix(door_spot(j - 1).0, door_spot(j - 1).1)] is Wall {
        open_door_list(t, j - 1)
    } else {
        open_door_list(t, j - 1).push((door_spot(j - 1).0 as usize, door_spot(j - 1).1 as usize))
    }
}

/// Tiles `b` are what connectivity repair makes of tiles `a`: unchanged
/// when no door opens onto a walkable tile, else the last of a chain of
/// cheapest carvings (see [`carve_chain`]).
pub open spec fn repaired(a: Seq<TileKind>, b: Seq<TileKind>) -> bool {
    if has_entry(a) {
        exists|ts: Seq<Seq<TileKind>>| #[trigger] carve_chain(a, ts, unreached_upto(a, 121)) && ts.last() == b
    } else {
        b == a
    }
}

/// Tiles `t` of room `room_id` are laid from generator state `s`, which is
/// left at `s2`: the room's frame with its doors (see [`room_cut`]), the
/// interior layout drawn and laid on it, connectivity repair, then the
/// content items (see [`content_tiles`]).
pub open spec fn room_laid(t: Seq<TileKind>, tree: DungeonTree, grid: DungeonGrid, content: Seq<RoomContent>, exit: usize,
    room_id: usize, s: RngState, s2: RngState) -> bool {
    exists|cut: Seq<TileKind>, fixed: Seq<TileKind>|
        #![trigger room_cut(cut, tree, grid, room_id), repaired(template_tiles(room_id, content, tree.root, cut, s).0, fixed)]
        room_cut(cut, tree, grid, room_id)
        && s2 == template_tiles(room_id, content, tree.root, cut, s).1
        && repaired(template_tiles(room_id, content, tree.root, cut, s).0, fixed)
        && t == content_tiles(fixed, open_door_list(fixed, 4), room_id,
            if room_id < content.len() { Some(content[room_id as int]) } else { None }, exit, tree.root,
            tree.rooms@[room_id as int].kind is Key)
}

/// Build the tiles of placed room `room_id`: wall ring and floor interior,
/// a door towards every placed grid neighbour (see [`expected_door`]), an
/// interior template, connectivity repair, then the content items; the
/// room holds no item its role does not allow (see [`room_items_ok`]).
#[verifier::spinoff_prover]
#[verifier::rlimit(100)]
fn build_room(tree: &DungeonTree, grid: &DungeonGrid, content: &[RoomContent], exit_room_id: usize, room_id: usize, rng: &mut Rng) -> (r: TileRoom)
    requires
        tree.wf(),
        grid.wf(),
        ids_below(*grid, tree.n()),
        grid.ncells() <= 195225786,
        grid.placed(room_id),
    ensures
        r.room_id == room_id,
        r.world_origin.0 == grid.pos_of_room(room_id).unwrap().0 * 11,
        r.world_origin.1 == grid.pos_of_room(room_id).unwrap().1 * 11,
        tiles_framed(r.tiles@),
        forall|d: int| 0 <= d < 4 ==> #[trigger] r.tiles@[door_at(d)] == expected_door(*tree, *grid, room_id, d),
        room_items_ok(r.tiles@, room_id, if room_id < content@.len() { Some(content@[room_id as int]) } else { None },
            exit_room_id, tree.root, tree.rooms@[room_id as int].kind is Key),
        has_open_door(r.tiles@) ==> all_reached(r.tiles@),
        room_items_placed(r.tiles@, room_id, if room_id < content@.len() { Some(content@[room_id as int]) } else { None },
            exit_room_id, tree.root, tree.rooms@[room_id as int].kind is Key, has_open_door(r.tiles@)),
        room_laid(r.tiles@, *tree, *grid, content@, exit_room_id, room_id, old(rng)@, final(rng)@),
{
    let ghost s_in = rng@;
    let grid_pos = match grid.pos_of(room_id) {
        Some(p) => p,
        None => (0, 0),
    };
    proof {
        let k = grid.index_of(room_id);
        assert(grid.id_at(k) < tree.n());
        assert(manhattan_of(grid.pos_at(k)) <= k);
        lemma_room_on_own_pos(*grid, room_id);
    }
    let world_origin = (grid_pos.0 * 11, grid_pos.1 * 11);
    let mut tiles = blank_tiles();
    let room_kind = tree.rooms[room_id].kind;
    let parent_id_opt = tree.parent_of(room_id);
    let mut nbs: Vec<usize> = Vec::new();
    let mut d: usize = 0;
    while d < 4
        invariant
            tree.wf(),
            grid.wf(),
            ids_below(*grid, tree.n()),
            room_id < tree.n(),
            grid.pos_of_room(room_id) == Some(grid_pos),
            manhattan_of(grid_pos) < grid.ncells(),
            grid.ncells() <= 195225786,
            parent_id_opt == (if room_id == tree.root || !tree.has_parent(room_id as int) { None::<usize> } else { Some(tree.parent(room_id as int) as usize) }),
            d <= 4,
            tiles_framed(tiles@),
            plain_interior(tiles@),
            floor_interior(tiles@),
            near_doors_clear(tiles@),
            forall|e: int| 0 <= e < d ==> #[trigger] tiles@[door_at(e)] == expected_door(*tree, *grid, room_id, e),
            forall|e: int| d <= e < 4 ==> (#[trigger] tiles@[door_at(e)]) is Wall,
            forall|x: usize| #[trigger] nbs@.contains(x) <==> exists|e: int| 0 <= e < d && grid.room_on(wall_step(grid_pos, e)) == Some(x),
        decreases 4 - d,
    {
        let q: (i32, i32) = if d == 0 {
            (grid_pos.0 + 1, grid_pos.1)
        } else if d == 1 {
            (grid_pos.0 - 1, grid_pos.1)
        } else if d == 2 {
            (grid_pos.0, grid_pos.1 + 1)
        } else {
            (grid_pos.0, grid_pos.1 - 1)
        };
        let ghost t0 = tiles@;
        let ghost n0 = nbs@;
        match grid.room_at(q) {
            Some(nb) => {
                proof {
                    crate::pathfinding::lemma_room_on_below(*grid, tree.n(), (q.0 as int, q.1 as int));
                }
                let kind = door_between_exec(tree, room_id, parent_id_opt, nb);
                put_door(&mut tiles, d, kind);
                nbs.push(nb);
            },
            None => {},
        }
        proof {
            assert(wall_step(grid_pos, d as int) == (q.0 as int, q.1 as int));
            assert forall|e: int| 0 <= e < 4 && e != d implies #[trigger] tiles@[door_at(e)] == t0[door_at(e)] by {}
            assert forall|x: usize| #[trigger] nbs@.contains(x) <==> exists|e: int| 0 <= e < d + 1 && grid.room_on(wall_step(grid_pos, e)) == Some(x) by {
                if nbs@.contains(x) {
                    let w = choose|w: int| 0 <= w < nbs@.len() && nbs@[w] == x;
                    if w < n0.len() {
                        assert(n0[w] == x);
                        assert(n0.contains(x));
                    } else {
                        assert(grid.room_on(wall_step(grid_pos, d as int)) == Some(x));
                    }
                }
                if exists|e: int| 0 <= e < d + 1 && grid.room_on(wall_step(grid_pos, e)) == Some(x) {
                    let e = choose|e: int| 0 <= e < d + 1 && grid.room_on(wall_step(grid_pos, e)) == Some(x);
                    if e < d {
                        assert(n0.contains(x));
                        let w = choose|w: int| 0 <= w < n0.len() && n0[w] == x;
                        assert(nbs@[w] == x);
                    } else {
                        assert(nbs@[nbs@.len() - 1] == x);
                    }
                }
            }
        }
        d = d + 1;
    }
    match parent_id_opt {
        Some(parent_id) => {
            if !crate::tree::vec_contains(&nbs, parent_id) {
                match grid.pos_of(parent_id) {
                    Some(parent_pos) => {
                        let dx = parent_pos.0 as i64 - grid_pos.0 as i64;
                        let dy = parent_pos.1 as i64 - grid_pos.1 as i64;
                        let wall: usize = if dx == 1 && dy == 0 {
                            0
                        } else if dx == -1 && dy == 0 {
                            1
                        } else if dx == 0 && dy == 1 {
                            2
                        } else if dx == 0 && dy == -1 {
                            3
                        } else {
                            4
                        };
                        if wall < 4 {
                            proof {
                                lemma_room_on_own_pos(*grid, parent_id);
                                assert(grid.room_on(wall_step(grid_pos, wall as int)) == Some(parent_id));
                                assert(nbs@.contains(parent_id));
                            }
                            put_door(&mut tiles, wall, door_tile_kind(room_kind));
                        }
                    },
                    None => {},
                }
            }
        },
        None => {},
    }
    let ghost cut = tiles@;
    assert(plain_interior(cut));
    assert(near_doors_clear(cut));
    let template = choose_template(room_id, content, tree, rng);
    apply_template(&mut tiles, template, rng);
    let ghost t_pre = tiles@;
    repair_connectivity(&mut tiles);
    let ghost t_post = tiles@;
    let mut door_positions: Vec<(usize, usize)> = Vec::new();
    let walls: [(usize, usize); 4] = [(5, 0), (5, 10), (10, 5), (0, 5)];
    let mut j: usize = 0;
    while j < 4
        invariant
            j <= 4,
            walls@ == seq![(5usize, 0usize), (5usize, 10usize), (10usize, 5usize), (0usize, 5usize)],
            forall|q: int| 0 <= q < door_positions@.len() ==> (#[trigger] door_positions@[q]).0 < 11 && door_positions@[q].1 < 11,
            tiles@ == t_post,
            forall|jj: int| 0 <= jj < j && !(#[trigger] t_post[tix(door_spot(jj).0, door_spot(jj).1)] is Wall)
                ==> door_positions@.contains((door_spot(jj).0 as usize, door_spot(jj).1 as usize)),
            door_positions@ == open_door_list(t_post, j as int),
        decreases 4 - j,
    {
        let (c, w) = walls[j];
        let ghost dp0 = door_positions@;
        assert(door_spot(j as int) == (c as int, w as int));
        if tiles[tile_index(c, w)] != TileKind::Wall {
            door_positions.push((c, w));
        }
        proof {
            assert forall|jj: int| 0 <= jj < j + 1 && !(#[trigger] t_post[tix(door_spot(jj).0, door_spot(jj).1)] is Wall)
                implies door_positions@.contains((door_spot(jj).0 as usize, door_spot(jj).1 as usize)) by {
                if jj == j {
                    assert(door_positions@[door_positions@.len() - 1] == (c, w));
                } else {
                    let q = choose|q: int| 0 <= q < dp0.len() && dp0[q] == (door_spot(jj).0 as usize, door_spot(jj).1 as usize);
                    assert(door_positions@[q] == dp0[q]);
                }
            }
        }
        j = j + 1;
    }
    proof {
        lemma_clear_carved(t_pre, t_post);
        if has_open_door(t_post) {
            lemma_open_door_entry(t_post);
            if !has_entry(t_pre) {
                assert(t_post == t_pre);
            }
            let j = choose|j: int| 0 <= j < 4 && !(#[trigger] t_post[tix(door_spot(j).0, door_spot(j).1)] is Wall);
            lemma_door_clearing(t_post, door_positions@, j);
        }
    }
    let ghost before_items = tiles@;
    assert(plain_interior(before_items));
    let c = if room_id < content.len() {
        Some(&content[room_id])
    } else {
        None
    };
    assert((match c { Some(x) => Some(*x), None => None::<RoomContent> })
        == (if room_id < content@.len() { Some(content@[room_id as int]) } else { None }));
    place_content_tiles(&mut tiles, room_id, c, exit_room_id, tree, door_positions.as_slice(), rng);
    proof {
        lemma_same_walk_reach(t_post, tiles@);
        if has_open_door(tiles@) {
            let j = choose|j: int| 0 <= j < 4 && !(#[trigger] tiles@[tix(door_spot(j).0, door_spot(j).1)] is Wall);
            let (dc, dr) = door_spot(j);
            assert(!interior(dc, dr));
            assert(tiles@[dr * 11 + dc] == t_post[dr * 11 + dc]);
            assert(has_open_door(t_post));
        }
        let cc = if room_id < content@.len() { Some(content@[room_id as int]) } else { None };
        let kr = tree.rooms@[room_id as int].kind is Key;
        let flag = exists|j: int| 0 <= j < 4 && #[trigger] door_clearing(t_post, door_positions@, j);
        assert(room_items_placed(tiles@, room_id, cc, exit_room_id, tree.root, kr, flag));
        assert(has_open_door(tiles@) ==> flag);
        assert(room_items_placed(tiles@, room_id, cc, exit_room_id, tree.root, kr, has_open_door(tiles@)));
        assert forall|e: int| 0 <= e < 4 implies #[trigger] tiles@[door_at(e)] == expected_door(*tree, *grid, room_id, e) by {
            let (dc, dr): (int, int) = if e == 0 { (10, 5) } else if e == 1 { (0, 5) } else if e == 2 { (5, 10) } else { (5, 0) };
            assert(door_at(e) == dr * 11 + dc);
            assert(!interior(dc, dr));
            assert(tiles@[dr * 11 + dc] == cut[dr * 11 + dc]);
        }
        assert(room_cut(cut, *tree, *grid, room_id)) by {
            assert forall|d: int| 0 <= d < 4 implies #[trigger] cut[door_at(d)] == expected_door(*tree, *grid, room_id, d) by {
                let (dc, dr): (int, int) = if d == 0 { (10, 5) } else if d == 1 { (0, 5) } else if d == 2 { (5, 10) } else { (5, 0) };
                assert(door_at(d) == dr * 11 + dc);
                assert(!interior(dc, dr));
                assert(tiles@[dr * 11 + dc] == cut[dr * 11 + dc]);
                assert(tiles@[door_at(d)] == expected_door(*tree, *grid, room_id, d));
            }
        }
        let tt = template_tiles(room_id, content@, tree.root, cut, s_in);
        assert(t_pre == tt.0 && rng@ == tt.1);
        assert(repaired(tt.0, t_post));
        assert(room_laid(tiles@, *tree, *grid, content@, exit_room_id, room_id, s_in, rng@));
    }
    TileRoom { room_id, world_origin, tiles }
}

/// Manhattan size of a grid position.
pub open spec fn manhattan_of(p: (i32, i32)) -> int {
    crate::grid::manhattan(p)
}


/// Neighbouring rooms agree on the door between them: the east door of a
/// room and the west door of the room east of it are of the same kind,
/// and so are the south door of a room and the north door of the room
/// south of it.
pub proof fn lemma_doors_align(tree: DungeonTree, grid: DungeonGrid, a: usize, d: int)
    requires
        tree.wf(),
        grid.wf(),
        grid.placed(a),
        d == 0 || d == 2,
        grid.room_on(wall_step(grid.pos_of_room(a).unwrap(), d)) is Some,
    ensures
        ({
            let b = grid.room_on(wall_step(grid.pos_of_room(a).unwrap(), d)).unwrap();
            &&& grid.placed(b)
            &&& expected_door(tree, grid, a, d) == expected_door(tree, grid, b, d + 1)
        }),
{
    let pa = grid.pos_of_room(a).unwrap();
    let q = wall_step(pa, d);
    let b = grid.room_on(q).unwrap();
    lemma_pos_of_room_on(grid, q);
    let pb = grid.pos_of_room(b).unwrap();
    assert(wall_step(pb, d + 1) == (pa.0 as int, pa.1 as int));
    lemma_room_on_own_pos(grid, a);
    assert(grid.room_on(wall_step(pb, d + 1)) == Some(a));
    lemma_door_between_symmetric(tree, a, b);
}

/// The door between two rooms is the same seen from either side.
pub proof fn lemma_door_between_symmetric(tree: DungeonTree, a: usize, b: usize)
    requires
        tree.wf(),
    ensures
        door_between(tree, a, b) == door_between(tree, b, a),
{
    if tree.has_parent(a as int) && tree.parent(a as int) == b {
        let p = tree.parent(a as int);
        assert(tree.is_child(p, a as int));
        crate::tree::lemma_parent_unique(tree, p, a as int);
        let k = choose|k: int| 0 <= k < tree.kids(p).len() && #[trigger] tree.kids(p)[k] == a as int;
        assert(p < a);
        if tree.has_parent(b as int) && tree.parent(b as int) == a {
            let p2 = tree.parent(b as int);
            assert(tree.is_child(p2, b as int));
            let k2 = choose|k2: int| 0 <= k2 < tree.kids(p2).len() && #[trigger] tree.kids(p2)[k2] == b as int;
            assert(p2 < b);
        }
        assert(tree.is_child(b as int, a as int));
    } else if tree.is_child(a as int, b as int) {
        crate::tree::lemma_parent_unique(tree, a as int, b as int);
        assert(tree.has_parent(b as int));
    } else {
        if tree.has_parent(b as int) && tree.parent(b as int) == a {
            let p2 = tree.parent(b as int);
            assert(tree.is_child(p2, b as int));
        }
        if tree.is_child(b as int, a as int) {
            crate::tree::lemma_parent_unique(tree, b as int, a as int);
            assert(tree.has_parent(a as int));
        }
    }
}

// ── TileMap ─────────────────────────────────────────────────────────────────

/// The complete tile layout of a dungeon.
#[derive(Debug)]
pub struct TileMap {
    pub rooms: Vec<TileRoom>,
    /// World-tile bounding box.
    pub world_min: (i32, i32),
    pub world_max: (i32, i32),
}

/// The rooms of a map lie inside its bounding box.
pub open spec fn map_boxed(m: TileMap) -> bool {
    &&& m.world_min.0 <= m.world_max.0
    &&& m.world_min.1 <= m.world_max.1
    &&& forall|k: int| 0 <= k < m.rooms@.len() ==> {
        let o = (#[trigger] m.rooms@[k]).world_origin;
        &&& m.world_min.0 <= o.0
        &&& o.0 + 11 <= m.world_max.0
        &&& m.world_min.1 <= o.1
        &&& o.1 + 11 <= m.world_max.1
    }
}

impl TileMap {
    /// Build the tile rooms of every placed room, in placement order, and
    /// their bounding box (all zero without rooms). Each room's obstacles
    /// come from its interior layout, drawn and laid from the generator
    /// state the previous room left. The exit room holds exactly one
    /// staircase; a room without enemies holds exactly one chest when it is
    /// a key room and one switch when it has a switch. In a room with an
    /// open door every walkable tile, and so every content item, can be
    /// walked to from the tile just inside a door; the root holds exactly
    /// one spawn, the boss room exactly one boss marker, a room without
    /// enemies its sign, and a room with a group at least one enemy marker. A room with a placed room beside it has an open door (in a
    /// grid that decodes a tree, every room of two or more has one, see
    /// [`lemma_decoded_touching`], and [`crate::content::place_content`] keeps it so).
    pub fn build(tree: &DungeonTree, grid: &DungeonGrid, content: &[RoomContent], exit_room_id: usize, rng: &mut Rng) -> (m: Self)
        requires
            tree.wf(),
            grid.wf(),
            ids_below(*grid, tree.n()),
            grid.ncells() <= 195225786,
        ensures
            m.rooms@.len() == grid.ncells(),
            forall|k: int| 0 <= k < grid.ncells() ==> {
                let r = #[trigger] m.rooms@[k];
                &&& r.room_id == grid.id_at(k)
                &&& r.world_origin.0 == grid.pos_at(k).0 * 11
                &&& r.world_origin.1 == grid.pos_at(k).1 * 11
                &&& tiles_framed(r.tiles@)
                &&& forall|d: int| 0 <= d < 4 ==> #[trigger] r.tiles@[door_at(d)] == expected_door(*tree, *grid, r.room_id, d)
                &&& room_items_ok(r.tiles@, r.room_id, if r.room_id < content@.len() { Some(content@[r.room_id as int]) } else { None },
                    exit_room_id, tree.root, tree.rooms@[r.room_id as int].kind is Key)
                &&& has_open_door(r.tiles@) ==> all_reached(r.tiles@)
                &&& room_items_placed(r.tiles@, r.room_id,
                    if r.room_id < content@.len() { Some(content@[r.room_id as int]) } else { None },
                    exit_room_id, tree.root, tree.rooms@[r.room_id as int].kind is Key, has_open_door(r.tiles@))
            },
            forall|k: int| 0 <= k < m.rooms@.len() && (exists|d: int| 0 <= d < 4 && #[trigger] grid.occupied(wall_step(grid.pos_at(k), d)))
                ==> #[trigger] has_open_door(m.rooms@[k].tiles@),
            grid_touching(*grid) ==> forall|k: int| 0 <= k < m.rooms@.len() ==> #[trigger] has_open_door(m.rooms@[k].tiles@),
            exists|ss: Seq<RngState>| ss.len() == m.rooms@.len() + 1 && ss[0] == old(rng)@ && ss.last() == final(rng)@
                && forall|k: int| 0 <= k < m.rooms@.len() ==> #[trigger] room_laid(m.rooms@[k].tiles@, *tree, *grid, content@,
                    exit_room_id, m.rooms@[k].room_id, ss[k], ss[k + 1]),
            map_boxed(m),
            m.rooms@.len() == 0 ==> m.world_min == (0i32, 0i32) && m.world_max == (0i32, 0i32),
            m.rooms@.len() > 0 ==> exists|k: int| 0 <= k < m.rooms@.len() && (#[trigger] m.rooms@[k]).world_origin.0 == m.world_min.0,
            m.rooms@.len() > 0 ==> exists|k: int| 0 <= k < m.rooms@.len() && (#[trigger] m.rooms@[k]).world_origin.1 == m.world_min.1,
            m.rooms@.len() > 0 ==> exists|k: int| 0 <= k < m.rooms@.len() && (#[trigger] m.rooms@[k]).world_origin.0 + 11 == m.world_max.0,
            m.rooms@.len() > 0 ==> exists|k: int| 0 <= k < m.rooms@.len() && (#[trigger] m.rooms@[k]).world_origin.1 + 11 == m.world_max.1,
    {
        let placed_ids = grid.placed_room_ids();
        let mut rooms: Vec<TileRoom> = Vec::new();
        let mut k: usize = 0;
        let ghost mut ss: Seq<RngState> = seq![rng@];
        while k < placed_ids.len()
            invariant
                ss.len() == k + 1,
                ss[0] == old(rng)@,
                ss[k as int] == rng@,
                forall|j: int| 0 <= j < k ==> #[trigger] room_laid(rooms@[j].tiles@, *tree, *grid, content@, exit_room_id, rooms@[j].room_id, ss[j], ss[j + 1]),
                tree.wf(),
                grid.wf(),
                ids_below(*grid, tree.n()),
                grid.ncells() <= 195225786,
                placed_ids@.len() == grid.ncells(),
                forall|j: int| 0 <= j < grid.ncells() ==> #[trigger] placed_ids@[j] == grid.id_at(j),
                k <= placed_ids@.len(),
                rooms@.len() == k,
                forall|j: int| 0 <= j < k ==> {
                    let r = #[trigger] rooms@[j];
                    &&& r.room_id == grid.id_at(j)
                    &&& r.world_origin.0 == grid.pos_at(j).0 * 11
                    &&& r.world_origin.1 == grid.pos_at(j).1 * 11
                    &&& tiles_framed(r.tiles@)
                    &&& forall|d: int| 0 <= d < 4 ==> #[trigger] r.tiles@[door_at(d)] == expected_door(*tree, *grid, r.room_id, d)
                    &&& room_items_ok(r.tiles@, r.room_id, if r.room_id < content@.len() { Some(content@[r.room_id as int]) } else { None },
                        exit_room_id, tree.root, tree.rooms@[r.room_id as int].kind is Key)
                    &&& has_open_door(r.tiles@) ==> all_reached(r.tiles@)
                    &&& room_items_placed(r.tiles@, r.room_id,
                        if r.room_id < content@.len() { Some(content@[r.room_id as int]) } else { None },
                        exit_room_id, tree.root, tree.rooms@[r.room_id as int].kind is Key, has_open_door(r.tiles@))
                },
            decreases placed_ids@.len() - k,
        {
            let id = placed_ids[k];
            proof {
                assert(grid.id_at(k as int) == id);
                assert(grid.placed(id));
                let c = grid.index_of(id);
                if c != k {
                    assert(grid.id_at(c) == grid.id_at(k as int));
                }
            }
            let ghost r0 = rooms@;
            let room = build_room(tree, grid, content, exit_room_id, id, rng);
            rooms.push(room);
            proof {
                let ss1 = ss.push(rng@);
                assert forall|j: int| 0 <= j < k + 1 implies #[trigger] room_laid(rooms@[j].tiles@, *tree, *grid, content@, exit_room_id, rooms@[j].room_id, ss1[j], ss1[j + 1]) by {
                    if j < k {
                        assert(rooms@[j] == r0[j]);
                        assert(ss1[j] == ss[j] && ss1[j + 1] == ss[j + 1]);
                    }
                }
                ss = ss1;
            }
            k = k + 1;
        }
        let mut min_x: i32 = 0;
        let mut min_y: i32 = 0;
        let mut max_x: i32 = 0;
        let mut max_y: i32 = 0;
        let mut j: usize = 0;
        while j < rooms.len()
            invariant
                grid.wf(),
                grid.ncells() <= 195225786,
                rooms@.len() == grid.ncells(),
                forall|q: int| 0 <= q < grid.ncells() ==> {
                    let r = #[trigger] rooms@[q];
                    &&& r.world_origin.0 == grid.pos_at(q).0 * 11
                    &&& r.world_origin.1 == grid.pos_at(q).1 * 11
                },
                j <= rooms@.len(),
                j == 0 ==> min_x == 0 && min_y == 0 && max_x == 0 && max_y == 0,
                j > 0 ==> min_x + 11 <= max_x && min_y + 11 <= max_y,
                j > 0 ==> exists|q: int| 0 <= q < j && (#[trigger] rooms@[q]).world_origin.0 == min_x,
                j > 0 ==> exists|q: int| 0 <= q < j && (#[trigger] rooms@[q]).world_origin.1 == min_y,
                j > 0 ==> exists|q: int| 0 <= q < j && (#[trigger] rooms@[q]).world_origin.0 + 11 == max_x,
                j > 0 ==> exists|q: int| 0 <= q < j && (#[trigger] rooms@[q]).world_origin.1 + 11 == max_y,
                forall|q: int| 0 <= q < j ==> {
                    let o = (#[trigger] rooms@[q]).world_origin;
                    &&& min_x <= o.0
                    &&& o.0 + 11 <= max_x
                    &&& min_y <= o.1
                    &&& o.1 + 11 <= max_y
                },
            decreases rooms@.len() - j,
        {
            let o = rooms[j].world_origin;
            proof {
                assert(crate::grid::manhattan(grid.pos_at(j as int)) <= j);
            }
            if j == 0 || o.0 < min_x {
                min_x = o.0;
            }
            if j == 0 || o.1 < min_y {
                min_y = o.1;
            }
            if j == 0 || o.0 + 11 > max_x {
                max_x = o.0 + 11;
            }
            if j == 0 || o.1 + 11 > max_y {
                max_y = o.1 + 11;
            }
            j = j + 1;
        }
        proof {
            {
                assert forall|k: int| 0 <= k < rooms@.len() && (exists|d: int| 0 <= d < 4 && #[trigger] grid.occupied(wall_step(grid.pos_at(k), d)))
                    implies #[trigger] has_open_door(rooms@[k].tiles@) by {
                    let d = choose|d: int| 0 <= d < 4 && #[trigger] grid.occupied(wall_step(grid.pos_at(k), d));
                    let id = grid.id_at(k);
                    assert(grid.placed(id));
                    let c = grid.index_of(id);
                    if c != k {
                        assert(grid.id_at(c) == grid.id_at(k));
                    }
                    assert(grid.pos_of_room(id).unwrap() == grid.pos_at(k));
                    assert(rooms@[k].tiles@[door_at(d)] == expected_door(*tree, *grid, id, d));
                    lemma_door_open(rooms@[k].tiles@, d);
                }
            }
            if grid_touching(*grid) {
                assert forall|k: int| 0 <= k < rooms@.len() implies #[trigger] has_open_door(rooms@[k].tiles@) by {
                    assert(touches(*grid, k));
                    let d = choose|d: int| 0 <= d < 4 && #[trigger] grid.occupied(step_at(grid.pos_at(k), d));
                    assert(step_at(grid.pos_at(k), d) == wall_step(grid.pos_at(k), d));
                    assert(grid.occupied(wall_step(grid.pos_at(k), d)));
                }
            }
        }
        proof {
            assert(ss.last() == rng@);
            assert(forall|q: int| 0 <= q < rooms@.len() ==> #[trigger] room_laid(rooms@[q].tiles@, *tree, *grid, content@, exit_room_id, rooms@[q].room_id, ss[q], ss[q + 1]));
        }
        TileMap { rooms, world_min: (min_x, min_y), world_max: (max_x, max_y) }
    }

    /// The tile room of logical room `room_id`, if it was placed.
    pub fn room_for(&self, room_id: usize) -> (r: Option<&TileRoom>)
        ensures
            r matches Some(t) ==> t.room_id == room_id && exists|k: int| 0 <= k < self.rooms@.len() && self.rooms@[k] == *t
                && forall|q: int| 0 <= q < k ==> (#[trigger] self.rooms@[q]).room_id != room_id,
            r is None ==> forall|k: int| 0 <= k < self.rooms@.len() ==> (#[trigger] self.rooms@[k]).room_id != room_id,
    {
        let mut k: usize = 0;
        while k < self.rooms.len()
            invariant
                k <= self.rooms@.len(),
                forall|q: int| 0 <= q < k ==> (#[trigger] self.rooms@[q]).room_id != room_id,
            decreases self.rooms@.len() - k,
        {
            if self.rooms[k].room_id == room_id {
                return Some(&self.rooms[k]);
            }
            k = k + 1;
        }
        None
    }

    /// Total width in tiles.
    pub fn width(&self) -> (r: i32)
        requires
            i32::MIN <= self.world_max.0 - self.world_min.0 <= i32::MAX,
        ensures
            r == self.world_max.0 - self.world_min.0,
    {
        self.world_max.0 - self.world_min.0
    }

    /// Total height in tiles.
    pub fn height(&self) -> (r: i32)
        requires
            i32::MIN <= self.world_max.1 - self.world_min.1 <= i32::MAX,
        ensures
            r == self.world_max.1 - self.world_min.1,
    {
        self.world_max.1 - self.world_min.1
    }
}


/// The ASCII code of the character a tile is drawn with.
fn tile_code(t: TileKind) -> (r: u8)
    ensures
        is_glyph(r),
        r as char == tile_glyph(t),
{
    match t {
        TileKind::Wall => 35,
        TileKind::Floor => 46,
        TileKind::Door => 43,
        TileKind::LockedDoor => 76,
        TileKind::SwitchDoor => 87,
        TileKind::Pillar => 79,
        TileKind::Water => 126,
        TileKind::Pit => 86,
        TileKind::Chest => 67,
        TileKind::SwitchTile => 83,
        TileKind::Sign => 63,
        TileKind::Stairs => 88,
        TileKind::Spawn => 64,
        TileKind::EnemySpawn => 69,
        TileKind::BossSpawn => 66,
    }
}

/// What the map shows at world offset `(x, y)` from its corner after the
/// first `k` rooms are drawn: the tile of the last of them covering it, a
/// blank where none does.
pub open spec fn painted(m: TileMap, k: nat, x: int, y: int) -> char
    decreases k,
{
    if k == 0 {
        ' '
    } else {
        let tr = m.rooms@[k - 1];
        let ox = tr.world_origin.0 - m.world_min.0;
        let oy = tr.world_origin.1 - m.world_min.1;
        if ox <= x < ox + 11 && oy <= y < oy + 11 {
            tile_glyph(tr.tiles@[(y - oy) * 11 + (x - ox)])
        } else {
            painted(m, (k - 1) as nat, x, y)
        }
    }
}

/// Cells of a row-major canvas of width `w` are distinct.
proof fn lemma_cell_distinct(w: int, x1: int, y1: int, x2: int, y2: int)
    requires
        0 <= x1 < w,
        0 <= x2 < w,
        0 <= y1,
        0 <= y2,
        y1 * w + x1 == y2 * w + x2,
    ensures
        x1 == x2,
        y1 == y2,
{
    if y1 < y2 {
        assert(y1 * w + x1 < y2 * w) by (nonlinear_arith)
            requires y1 < y2, x1 < w, 0 <= x1;
    } else if y2 < y1 {
        assert(y2 * w + x2 < y1 * w) by (nonlinear_arith)
            requires y2 < y1, x2 < w, 0 <= x2;
    }
}

impl TileMap {
    /// The whole map as text, one line per row of tiles: `#` wall, `.`
    /// floor, `+` door, `L` locked door, `W` switch door, `O` pillar, `~`
    /// water, `V` pit, `C` chest, `S` switch, `?` sign, `X` stairs, `@`
    /// spawn, `E` enemy, `B` boss; blank outside every room.
    pub fn ascii(&self) -> (r: String)
        requires
            map_boxed(*self),
            (self.world_max.0 - self.world_min.0) * (self.world_max.1 - self.world_min.1) <= usize::MAX,
        ensures
            exists|canvas: Seq<u8>|
                #![trigger render((self.world_max.0 - self.world_min.0) as nat, (self.world_max.1 - self.world_min.1) as nat, canvas)]
                canvas.len() == (self.world_max.0 - self.world_min.0) * (self.world_max.1 - self.world_min.1)
                && (forall|x: int, y: int|
                    0 <= x < self.world_max.0 - self.world_min.0 && 0 <= y < self.world_max.1 - self.world_min.1
                        ==> (#[trigger] canvas[y * (self.world_max.0 - self.world_min.0) + x]) as char
                            == painted(*self, self.rooms@.len(), x, y))
                && render((self.world_max.0 - self.world_min.0) as nat, (self.world_max.1 - self.world_min.1) as nat, canvas) == r@,
    {
        let w = (self.world_max.0 as i64 - self.world_min.0 as i64) as usize;
        let h = (self.world_max.1 as i64 - self.world_min.1 as i64) as usize;
        proof {
            assert(w * h == (self.world_max.0 - self.world_min.0) * (self.world_max.1 - self.world_min.1));
        }
        let total = w * h;
        let mut canvas: Vec<u8> = Vec::new();
        let mut k: usize = 0;
        while k < total
            invariant
                k <= total,
                canvas@.len() == k,
                forall|j: int| 0 <= j < k ==> #[trigger] canvas@[j] == 32u8,
            decreases total - k,
        {
            canvas.push(32u8);
            k = k + 1;
        }
        proof {
            assert forall|x: int, y: int| 0 <= x < w && 0 <= y < h implies
                (#[trigger] canvas@[y * w + x]) as char == painted(*self, 0, x, y) by {
                assert(y * w + x < w * h) by (nonlinear_arith)
                    requires 0 <= y < h, 0 <= x < w;
            }
        }
        let mut i: usize = 0;
        while i < self.rooms.len()
            invariant
                map_boxed(*self),
                w == self.world_max.0 - self.world_min.0,
                h == self.world_max.1 - self.world_min.1,
                total == w * h,
                canvas@.len() == total,
                forall|j: int| 0 <= j < total ==> is_glyph(#[trigger] canvas@[j]),
                forall|x: int, y: int| 0 <= x < w && 0 <= y < h ==>
                    (#[trigger] canvas@[y * w + x]) as char == painted(*self, i as nat, x, y),
                i <= self.rooms@.len(),
            decreases self.rooms@.len() - i,
        {
            let tr = &self.rooms[i];
            let ox = (tr.world_origin.0 as i64 - self.world_min.0 as i64) as usize;
            let oy = (tr.world_origin.1 as i64 - self.world_min.1 as i64) as usize;
            proof {
                assert(ox + 11 <= w && oy + 11 <= h);
                assert(ox == tr.world_origin.0 - self.world_min.0 && oy == tr.world_origin.1 - self.world_min.1);
            }
            let mut row: usize = 0;
            while row < CELL_SIZE
                invariant
                    row <= 11,
                    ox + 11 <= w,
                    oy + 11 <= h,
                    total == w * h,
                    canvas@.len() == total,
                    i < self.rooms@.len(),
                    *tr == self.rooms@[i as int],
                    ox == tr.world_origin.0 - self.world_min.0,
                    oy == tr.world_origin.1 - self.world_min.1,
                    forall|j: int| 0 <= j < total ==> is_glyph(#[trigger] canvas@[j]),
                    forall|x: int, y: int| 0 <= x < w && 0 <= y < h ==>
                        (#[trigger] canvas@[y * w + x]) as char == (if ox <= x < ox + 11 && oy <= y < oy + row {
                            tile_glyph(tr.tiles@[(y - oy) * 11 + (x - ox)])
                        } else {
                            painted(*self, i as nat, x, y)
                        }),
                decreases 11 - row,
            {
                let mut col: usize = 0;
                while col < CELL_SIZE
                    invariant
                        row < 11,
                        col <= 11,
                        ox + 11 <= w,
                        oy + 11 <= h,
                        total == w * h,
                        canvas@.len() == total,
                        i < self.rooms@.len(),
                        *tr == self.rooms@[i as int],
                        forall|j: int| 0 <= j < total ==> is_glyph(#[trigger] canvas@[j]),
                        forall|x: int, y: int| 0 <= x < w && 0 <= y < h ==>
                            (#[trigger] canvas@[y * w + x]) as char == (if ox <= x < ox + 11 && oy <= y < oy + 11
                                && (y < oy + row || (y == oy + row && x < ox + col)) {
                                tile_glyph(tr.tiles@[(y - oy) * 11 + (x - ox)])
                            } else {
                                painted(*self, i as nat, x, y)
                            }),
                    decreases 11 - col,
                {
                    proof {
                        assert((oy + row) * w + ox + col < w * h) by (nonlinear_arith)
                            requires oy + row < h, ox + col < w;
                    }
                    let ch = tile_code(tr.get(col, row));
                    let ghost c0 = canvas@;
                    let ghost p = (oy + row) * w + ox + col;
                    canvas.set((oy + row) * w + ox + col, ch);
                    proof {
                        assert forall|x: int, y: int| 0 <= x < w && 0 <= y < h implies
                            (#[trigger] canvas@[y * w + x]) as char == (if ox <= x < ox + 11 && oy <= y < oy + 11
                                && (y < oy + row || (y == oy + row && x < ox + col + 1)) {
                                tile_glyph(tr.tiles@[(y - oy) * 11 + (x - ox)])
                            } else {
                                painted(*self, i as nat, x, y)
                            }) by {
                            assert(y * w + x < w * h) by (nonlinear_arith)
                                requires 0 <= y < h, 0 <= x < w;
                            if x == ox + col && y == oy + row {
                                assert(y * w + x == p);
                            } else {
                                if y * w + x == p {
                                    lemma_cell_distinct(w as int, x, y, (ox + col) as int, (oy + row) as int);
                                }
                                assert(canvas@[y * w + x] == c0[y * w + x]);
                            }
                        }
                    }
                    col = col + 1;
                }
                row = row + 1;
            }
            proof {
                assert forall|x: int, y: int| 0 <= x < w && 0 <= y < h implies
                    (#[trigger] canvas@[y * w + x]) as char == painted(*self, (i + 1) as nat, x, y) by {}
            }
            i = i + 1;
        }
        let out = render_canvas(w, h, &canvas);
        proof {
            assert(render(w as nat, h as nat, canvas@) == out@);
            assert((self.world_max.0 - self.world_min.0) as nat == w as nat);
            assert((self.world_max.1 - self.world_min.1) as nat == h as nat);
        }
        out
    }
}

} // verus!
