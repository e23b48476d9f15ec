//! Room primitives: kinds, directions, and the `Room` data structure.
use vstd::prelude::*;

verus! {

// ── Direction ───────────────────────────────────────────────────────────────

/// Which cardinal direction a child room is placed relative to its parent.
#[derive(Clone, Copy, Debug, PartialEq, Eq, Structural)]
pub enum Direction {
    /// East.
    Right,
    /// West.
    Left,
    /// South.
    Down,
}

/// The grid offset `(dx, dy)` of a direction.
pub open spec fn direction_offset(d: Direction) -> (i32, i32) {
    match d {
        Direction::Right => (1i32, 0i32),
        Direction::Left => (-1i32, 0i32),
        Direction::Down => (0i32, 1i32),
    }
}

/// The direction a child takes on the grid once its parent's own direction is
/// taken into account, so that the parent stays "north" of the child.
pub open spec fn rotated_direction(child: Direction, parent: Direction) -> Direction {
    match parent {
        Direction::Down => child,
        Direction::Right => match child {
            Direction::Right => Direction::Down,
            Direction::Left => Direction::Right,
            Direction::Down => Direction::Left,
        },
        Direction::Left => match child {
            Direction::Right => Direction::Down,
            Direction::Left => Direction::Left,
            Direction::Down => Direction::Right,
        },
    }
}

impl Direction {
    /// All three directions, in declaration order.
    pub fn all() -> (r: [Direction; 3])
        ensures
            r@ == seq![Direction::Right, Direction::Left, Direction::Down],
    {
        [Direction::Right, Direction::Left, Direction::Down]
    }

    pub fn offset(self) -> (r: (i32, i32))
        ensures
            r == direction_offset(self),
    {
        match self {
            Direction::Right => (1, 0),
            Direction::Left => (-1, 0),
            Direction::Down => (0, 1),
        }
    }

    pub fn rotate_for_parent(self, parent_dir: Direction) -> (r: Direction)
        ensures
            r == rotated_direction(self, parent_dir),
    {
        match parent_dir {
            Direction::Down => self,
            Direction::Right => match self {
                Direction::Right => Direction::Down,
                Direction::Left => Direction::Right,
                Direction::Down => Direction::Left,
            },
            Direction::Left => match self {
                Direction::Right => Direction::Down,
                Direction::Left => Direction::Left,
                Direction::Down => Direction::Right,
            },
        }
    }
}

/// The rotation never points a child back north (towards its parent), and it
/// is a bijection for every parent direction: distinct child directions stay
/// distinct after rotation.
pub proof fn lemma_rotation_is_injective(a: Direction, b: Direction, parent: Direction)
    ensures
        direction_offset(rotated_direction(a, parent)).1 >= 0,
        a != b ==> rotated_direction(a, parent) != rotated_direction(b, parent),
{
}

// ── RoomKind ────────────────────────────────────────────────────────────────

/// Structural type of a room.
#[derive(Clone, Copy, Debug, PartialEq, Eq, Structural)]
pub enum RoomKind {
    Normal,
    Key { key_id: u32 },
    Locked { key_id: u32 },
    Switch,
    SwitchDoor,
}

/// The key id carried by a key or locked room.
pub open spec fn kind_key_id(k: RoomKind) -> Option<u32> {
    match k {
        RoomKind::Key { key_id } => Some(key_id),
        RoomKind::Locked { key_id } => Some(key_id),
        _ => None,
    }
}

impl RoomKind {
    pub fn is_normal(self) -> (r: bool)
        ensures
            r == (self is Normal),
    {
        matches!(self, RoomKind::Normal)
    }

    pub fn is_key(self) -> (r: bool)
        ensures
            r == (self is Key),
    {
        matches!(self, RoomKind::Key { .. })
    }

    pub fn is_locked(self) -> (r: bool)
        ensures
            r == (self is Locked),
    {
        matches!(self, RoomKind::Locked { .. })
    }

    pub fn is_switch(self) -> (r: bool)
        ensures
            r == (self is Switch),
    {
        matches!(self, RoomKind::Switch)
    }

    pub fn is_switch_door(self) -> (r: bool)
        ensures
            r == (self is SwitchDoor),
    {
        matches!(self, RoomKind::SwitchDoor)
    }

    pub fn is_special(self) -> (r: bool)
        ensures
            r == !(self is Normal),
    {
        !self.is_normal()
    }

    pub fn key_id(self) -> (r: Option<u32>)
        ensures
            r == kind_key_id(self),
    {
        match self {
            RoomKind::Key { key_id } => Some(key_id),
            RoomKind::Locked { key_id } => Some(key_id),
            _ => None,
        }
    }
}

// ── Room ────────────────────────────────────────────────────────────────────

#[derive(Debug)]
pub struct Room {
    pub id: usize,
    pub kind: RoomKind,
    pub direction: Option<Direction>,
    pub grid_pos: (i32, i32),
    pub children: Vec<usize>,
    pub depth: u32,
}

impl Room {
    pub fn new(id: usize, kind: RoomKind, direction: Option<Direction>, depth: u32) -> (r: Self)
        ensures
            r.id == id,
            r.kind == kind,
            r.direction == direction,
            r.grid_pos == (0i32, 0i32),
            r.children@ == Seq::<usize>::empty(),
            r.depth == depth,
    {
        Room { id, kind, direction, grid_pos: (0, 0), children: Vec::new(), depth }
    }

    /// A copy of this room.
    pub fn duplicate(&self) -> (r: Self)
        ensures
            r.id == self.id,
            r.kind == self.kind,
            r.direction == self.direction,
            r.grid_pos == self.grid_pos,
            r.children@ == self.children@,
            r.depth == self.depth,
    {
        let mut children: Vec<usize> = Vec::new();
        let mut i: usize = 0;
        while i < self.children.len()
            invariant
                i <= self.children.len(),
                children@ == self.children@.subrange(0, i as int),
            decreases self.children.len() - i,
        {
            children.push(self.children[i]);
            i = i + 1;
        }
        Room {
            id: self.id,
            kind: self.kind,
            direction: self.direction,
            grid_pos: self.grid_pos,
            children,
            depth: self.depth,
        }
    }
}

} // verus!
