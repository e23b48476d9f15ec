//! The text form in which a generated dungeon is served: for every tile
//! room, its column and row on the room grid, its tiles column by column,
//! then what the room holds.
use vstd::prelude::*;
use vstd::string::*;

use crate::room::RoomKind;
use crate::grid::DungeonGrid;
use crate::tree::DungeonTree;
use crate::content::RoomContent;
use crate::layout::{TileKind, TileRoom, TileMap};

verus! {

// ── Specification ──────────────────────────────────────────────────────────

/// The decimal digit `d` as a character.
pub open spec fn digit_char(d: nat) -> char {
    (48 + d) as char
}

/// The decimal notation of `n`, without leading zeros.
pub open spec fn decimal(n: nat) -> Seq<char>
    decreases n,
{
    if n < 10 {
        seq![digit_char(n)]
    } else {
        decimal(n / 10).push(digit_char(n % 10))
    }
}

/// The character that stands for a tile: `#` wall, pillar and water, `.`
/// floor, `D` door, `l` locked door, `d` switch door, `p` pit, `k` chest,
/// `s` switch, `?` sign, `X` stairs, `@` spawn, `e` enemy and boss.
pub open spec fn tile_code(t: TileKind) -> char {
    match t {
        TileKind::Wall => '#',
        TileKind::Floor => '.',
        TileKind::Door => 'D',
        TileKind::LockedDoor => 'l',
        TileKind::SwitchDoor => 'd',
        TileKind::Pillar => '#',
        TileKind::Water => '#',
        TileKind::Pit => 'p',
        TileKind::Chest => 'k',
        TileKind::SwitchTile => 's',
        TileKind::Sign => '?',
        TileKind::Stairs => 'X',
        TileKind::Spawn => '@',
        TileKind::EnemySpawn => 'e',
        TileKind::BossSpawn => 'e',
    }
}

/// The first `r` tiles of column `col` (rows `0..r`), as characters.
pub open spec fn column_prefix(tiles: Seq<TileKind>, col: int, r: nat) -> Seq<char>
    decreases r,
{
    if r == 0 {
        Seq::<char>::empty()
    } else {
        column_prefix(tiles, col, (r - 1) as nat).push(tile_code(tiles[(r - 1) * 11 + col]))
    }
}

/// The first `c` columns of a room, one line each.
pub open spec fn columns_text(tiles: Seq<TileKind>, c: nat) -> Seq<char>
    decreases c,
{
    if c == 0 {
        Seq::<char>::empty()
    } else {
        columns_text(tiles, (c - 1) as nat) + column_prefix(tiles, c - 1, 11) + seq!['\n']
    }
}

/// The line naming a room's key or lock, if it has one.
pub open spec fn kind_text(k: RoomKind) -> Seq<char> {
    match k {
        RoomKind::Key { key_id } => "key : "@ + decimal(key_id as nat) + seq!['\n'],
        RoomKind::Locked { key_id } => "locked : "@ + decimal(key_id as nat) + seq!['\n'],
        _ => Seq::<char>::empty(),
    }
}

/// The first `k` signals, each after a blank.
pub open spec fn signals_text(signals: Seq<u32>, k: nat) -> Seq<char>
    decreases k,
{
    if k == 0 {
        Seq::<char>::empty()
    } else {
        signals_text(signals, (k - 1) as nat) + seq![' '] + decimal(signals[k - 1] as nat)
    }
}

/// The enemy lines of a room: `boss` for the boss, then `enemies n`.
pub open spec fn enemies_text(c: RoomContent) -> Seq<char> {
    match c.enemies {
        Some(e) => (if e.is_boss { "boss\n"@ } else { Seq::<char>::empty() }) + "enemies "@ + decimal(e.count as nat) + seq!['\n'],
        None => Seq::<char>::empty(),
    }
}

/// The line of a switch or switch door: `word`, its id, ` :` and its signals.
pub open spec fn switch_line(word: Seq<char>, id: u32, signals: Seq<u32>) -> Seq<char> {
    word + decimal(id as nat) + " :"@ + signals_text(signals, signals.len()) + seq!['\n']
}

/// The switch line of a room.
pub open spec fn switch_text(c: RoomContent) -> Seq<char> {
    match c.switch {
        Some(s) => switch_line("switch "@, s.switch_id, s.signals@),
        None => Seq::<char>::empty(),
    }
}

/// The switch-door line of a room.
pub open spec fn door_text(c: RoomContent) -> Seq<char> {
    match c.switch_door {
        Some(d) => switch_line("door "@, d.door_id, d.signals@),
        None => Seq::<char>::empty(),
    }
}

/// The sign line of a room.
pub open spec fn sign_line(c: RoomContent) -> Seq<char> {
    match c.sign {
        Some(s) => "sign "@ + s.text@ + seq!['\n'],
        None => Seq::<char>::empty(),
    }
}

/// The lines describing what a room holds: enemies (after `boss` for the
/// boss), its switch, its switch door and its sign.
pub open spec fn content_text(c: RoomContent) -> Seq<char> {
    enemies_text(c) + switch_text(c) + door_text(c) + sign_line(c)
}

/// Column (or row) of a room on the room grid, from its world origin and
/// the grid's lowest column (or row).
pub open spec fn grid_index(origin: i32, low: i32) -> nat {
    ((origin - low * 11) / 11) as nat
}

/// The block of one tile room.
pub open spec fn room_block(tree: DungeonTree, grid: DungeonGrid, content: Seq<RoomContent>, tr: TileRoom) -> Seq<char> {
    decimal(grid_index(tr.world_origin.0, grid.min_x)) + seq!['\n']
        + decimal(grid_index(tr.world_origin.1, grid.min_y)) + seq!['\n']
        + columns_text(tr.tiles@, 11)
        + kind_text(tree.rooms@[tr.room_id as int].kind)
        + content_text(content[tr.room_id as int])
        + seq!['\n']
}

/// The blocks of the first `k` tile rooms.
pub open spec fn map_text(tree: DungeonTree, grid: DungeonGrid, content: Seq<RoomContent>, rooms: Seq<TileRoom>, k: nat) -> Seq<char>
    decreases k,
{
    if k == 0 {
        Seq::<char>::empty()
    } else {
        map_text(tree, grid, content, rooms, (k - 1) as nat) + room_block(tree, grid, content, rooms[k - 1])
    }
}

/// The tile room can be written: its room exists in the tree and the
/// content, and its origin lies on or after the grid's lowest column and row
/// (all offsets within `i32`).
pub open spec fn writable(tree: DungeonTree, grid: DungeonGrid, content: Seq<RoomContent>, tr: TileRoom) -> bool {
    &&& tr.room_id < tree.n()
    &&& tr.room_id < content.len()
    &&& i32::MIN <= grid.min_x * 11 <= i32::MAX
    &&& i32::MIN <= grid.min_y * 11 <= i32::MAX
    &&& 0 <= tr.world_origin.0 - grid.min_x * 11 <= i32::MAX
    &&& 0 <= tr.world_origin.1 - grid.min_y * 11 <= i32::MAX
}

// ── Writing ────────────────────────────────────────────────────────────────

fn digit_text(d: u64) -> (r: &'static str)
    requires
        d < 10,
    ensures
        r@ == seq![digit_char(d as nat)],
{
    proof {
        reveal_strlit("0");
        reveal_strlit("1");
        reveal_strlit("2");
        reveal_strlit("3");
        reveal_strlit("4");
        reveal_strlit("5");
        reveal_strlit("6");
        reveal_strlit("7");
        reveal_strlit("8");
        reveal_strlit("9");
    }
    if d == 0 {
        "0"
    } else if d == 1 {
        "1"
    } else if d == 2 {
        "2"
    } else if d == 3 {
        "3"
    } else if d == 4 {
        "4"
    } else if d == 5 {
        "5"
    } else if d == 6 {
        "6"
    } else if d == 7 {
        "7"
    } else if d == 8 {
        "8"
    } else {
        "9"
    }
}

/// Append the decimal notation of `n`.
fn push_decimal(out: &mut String, n: u64)
    ensures
        final(out)@ == old(out)@ + decimal(n as nat),
    decreases n,
{
    if n >= 10 {
        push_decimal(out, n / 10);
    }
    out.append(digit_text(n % 10));
    proof {
        if n >= 10 {
            assert(decimal(n as nat) == decimal((n / 10) as nat).push(digit_char((n % 10) as nat)));
        }
    }
}

fn push_newline(out: &mut String)
    ensures
        final(out)@ == old(out)@ + seq!['\n'],
{
    proof {
        reveal_strlit("\n");
    }
    out.append("\n");
}

fn tile_text(t: TileKind) -> (r: &'static str)
    ensures
        r@ == seq![tile_code(t)],
{
    proof {
        reveal_strlit("#");
        reveal_strlit(".");
        reveal_strlit("D");
        reveal_strlit("l");
        reveal_strlit("d");
        reveal_strlit("p");
        reveal_strlit("k");
        reveal_strlit("s");
        reveal_strlit("?");
        reveal_strlit("X");
        reveal_strlit("@");
        reveal_strlit("e");
    }
    match t {
        TileKind::Wall => "#",
        TileKind::Floor => ".",
        TileKind::Door => "D",
        TileKind::LockedDoor => "l",
        TileKind::SwitchDoor => "d",
        TileKind::Pillar => "#",
        TileKind::Water => "#",
        TileKind::Pit => "p",
        TileKind::Chest => "k",
        TileKind::SwitchTile => "s",
        TileKind::Sign => "?",
        TileKind::Stairs => "X",
        TileKind::Spawn => "@",
        TileKind::EnemySpawn => "e",
        TileKind::BossSpawn => "e",
    }
}

/// Append the tiles of a room, column by column.
fn push_tiles(out: &mut String, tr: &TileRoom)
    ensures
        final(out)@ == old(out)@ + columns_text(tr.tiles@, 11),
{
    let ghost start = out@;
    let mut col: usize = 0;
    while col < 11
        invariant
            col <= 11,
            out@ == start + columns_text(tr.tiles@, col as nat),
        decreases 11 - col,
    {
        let ghost line_start = out@;
        let mut row: usize = 0;
        while row < 11
            invariant
                col < 11,
                row <= 11,
                out@ == line_start + column_prefix(tr.tiles@, col as int, row as nat),
            decreases 11 - row,
        {
            out.append(tile_text(tr.get(col, row)));
            row = row + 1;
        }
        push_newline(out);
        proof {
            assert(out@ =~= start + columns_text(tr.tiles@, (col + 1) as nat));
        }
        col = col + 1;
    }
}

/// Append a list of signals, each after a blank.
fn push_signals(out: &mut String, signals: &Vec<u32>)
    ensures
        final(out)@ == old(out)@ + signals_text(signals@, signals@.len()),
{
    let ghost start = out@;
    let mut k: usize = 0;
    while k < signals.len()
        invariant
            k <= signals@.len(),
            out@ == start + signals_text(signals@, k as nat),
        decreases signals@.len() - k,
    {
        proof {
            reveal_strlit(" ");
        }
        out.append(" ");
        push_decimal(out, signals[k] as u64);
        proof {
            assert(out@ =~= start + signals_text(signals@, (k + 1) as nat));
        }
        k = k + 1;
    }
}

/// Append the line of a switch (`word` is `switch ` or `door `).
fn push_switch_line(out: &mut String, word: &str, id: u32, signals: &Vec<u32>)
    ensures
        final(out)@ == old(out)@ + switch_line(word@, id, signals@),
{
    let ghost start = out@;
    out.append(word);
    push_decimal(out, id as u64);
    out.append(" :");
    push_signals(out, signals);
    push_newline(out);
    proof {
        assert(out@ =~= start + switch_line(word@, id, signals@));
    }
}

fn push_enemies(out: &mut String, c: &RoomContent)
    ensures
        final(out)@ == old(out)@ + enemies_text(*c),
{
    let ghost start = out@;
    match &c.enemies {
        Some(e) => {
            if e.is_boss {
                out.append("boss\n");
            }
            out.append("enemies ");
            push_decimal(out, e.count as u64);
            push_newline(out);
        },
        None => {},
    }
    proof {
        assert(out@ =~= start + enemies_text(*c));
    }
}

fn push_sign(out: &mut String, c: &RoomContent)
    ensures
        final(out)@ == old(out)@ + sign_line(*c),
{
    let ghost start = out@;
    match &c.sign {
        Some(s) => {
            out.append("sign ");
            out.append(s.text.as_str());
            push_newline(out);
        },
        None => {},
    }
    proof {
        assert(out@ =~= start + sign_line(*c));
    }
}

/// Append what a room holds.
fn push_content(out: &mut String, c: &RoomContent)
    ensures
        final(out)@ == old(out)@ + content_text(*c),
{
    let ghost start = out@;
    push_enemies(out, c);
    match &c.switch {
        Some(s) => push_switch_line(out, "switch ", s.switch_id, &s.signals),
        None => {},
    }
    let ghost mid = out@;
    assert(mid == start + enemies_text(*c) + switch_text(*c));
    match &c.switch_door {
        Some(d) => push_switch_line(out, "door ", d.door_id, &d.signals),
        None => {},
    }
    assert(out@ == mid + door_text(*c));
    push_sign(out, c);
    proof {
        assert(out@ =~= start + content_text(*c));
    }
}

/// Append the line naming a room's key or lock.
fn push_kind(out: &mut String, k: RoomKind)
    ensures
        final(out)@ == old(out)@ + kind_text(k),
{
    let ghost start = out@;
    match k {
        RoomKind::Key { key_id } => {
            out.append("key : ");
            push_decimal(out, key_id as u64);
            push_newline(out);
        },
        RoomKind::Locked { key_id } => {
            out.append("locked : ");
            push_decimal(out, key_id as u64);
            push_newline(out);
        },
        _ => {},
    }
    proof {
        assert(out@ =~= start + kind_text(k));
    }
}

/// The text form of a generated dungeon: for every tile room of `tile_map`,
/// in order, its column and its row on the room grid (counted from the
/// grid's lowest column and row), one line each; its tiles column by column
/// (see [`tile_code`]), one line per column; `key : id` or `locked : id`
/// for a key or locked room; `boss` before `enemies n` for the boss room,
/// `enemies n` for enemies, `switch id : s...` and `door id : s...` with
/// their signals, `sign text`; and a blank line.
pub fn dungeon_text(tree: &DungeonTree, grid: &DungeonGrid, content: &[RoomContent], tile_map: &TileMap) -> (r: String)
    requires
        forall|k: int| 0 <= k < tile_map.rooms@.len() ==> writable(*tree, *grid, content@, #[trigger] tile_map.rooms@[k]),
    ensures
        r@ == map_text(*tree, *grid, content@, tile_map.rooms@, tile_map.rooms@.len()),
{
    let mut s = String::new();
    let mut k: usize = 0;
    while k < tile_map.rooms.len()
        invariant
            k <= tile_map.rooms@.len(),
            forall|k: int| 0 <= k < tile_map.rooms@.len() ==> writable(*tree, *grid, content@, #[trigger] tile_map.rooms@[k]),
            s@ == map_text(*tree, *grid, content@, tile_map.rooms@, k as nat),
        decreases tile_map.rooms@.len() - k,
    {
        let room = &tile_map.rooms[k];
        let ghost before = s@;
        assert(writable(*tree, *grid, content@, tile_map.rooms@[k as int]));
        let dx = room.world_origin.0 - grid.min_x * 11;
        let dy = room.world_origin.1 - grid.min_y * 11;
        let tile_col = (dx as usize) / 11;
        let tile_row = (dy as usize) / 11;
        push_decimal(&mut s, tile_col as u64);
        push_newline(&mut s);
        push_decimal(&mut s, tile_row as u64);
        push_newline(&mut s);
        push_tiles(&mut s, room);
        push_kind(&mut s, tree.rooms[room.room_id].kind);
        push_content(&mut s, &content[room.room_id]);
        push_newline(&mut s);
        proof {
            assert(s@ =~= before + room_block(*tree, *grid, content@, tile_map.rooms@[k as int]));
        }
        k = k + 1;
    }
    s
}

} // verus!
