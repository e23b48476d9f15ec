//! Integer measures behind the fitness of a dungeon (the fitness itself is a
//! floating-point formula and is not part of this library).
use vstd::prelude::*;

use crate::room::Room;
use crate::grid::DungeonGrid;
use crate::tree::{DungeonTree, count_rooms};

verus! {

/// A room is inner when it is placed and has a placed child.
pub open spec fn is_inner(g: DungeonGrid, r: Room) -> bool {
    g.placed(r.id) && exists|k: int| 0 <= k < r.children@.len() && #[trigger] g.placed(r.children@[k])
}

/// Number of inner rooms (placed rooms with a placed child): the divisor of
/// the linearity coefficient, `(placed rooms - 1) / inner rooms`.
pub fn inner_room_count(tree: &DungeonTree, grid: &DungeonGrid) -> (r: usize)
    ensures
        r == count_rooms(tree.rooms@, |room: Room| is_inner(*grid, room)),
{
    let ghost f = |room: Room| is_inner(*grid, room);
    let mut count: usize = 0;
    let mut i: usize = 0;
    while i < tree.rooms.len()
        invariant
            i <= tree.rooms@.len(),
            f == (|room: Room| is_inner(*grid, room)),
            count == count_rooms(tree.rooms@.take(i as int), f),
            count <= i,
        decreases tree.rooms@.len() - i,
    {
        let room = &tree.rooms[i];
        let mut any_child = false;
        let mut k: usize = 0;
        while k < room.children.len()
            invariant
                k <= room.children@.len(),
                any_child == exists|j: int| 0 <= j < k && #[trigger] grid.placed(room.children@[j]),
            decreases room.children@.len() - k,
        {
            if grid.is_placed(room.children[k]) {
                any_child = true;
            }
            k = k + 1;
        }
        proof {
            assert(tree.rooms@.take(i as int + 1).drop_last() =~= tree.rooms@.take(i as int));
        }
        if any_child && grid.is_placed(room.id) {
            count = count + 1;
        }
        i = i + 1;
    }
    proof {
        assert(tree.rooms@.take(tree.rooms@.len() as int) =~= tree.rooms@);
    }
    count
}

} // verus!
