//! Pathfinding over the decoded grid: passability under keys and switch
//! parity, A* search, randomised depth-first walks, goal finding and the
//! critical path.
use vstd::prelude::*;

use crate::content::{
    RoomContent, SwitchState, ContentConfig, door_open, same_switches, lemma_same_switches_count, switch_on, shares_signal,
    content_ok, content_detail, paired, lemma_linked_toggle, lemma_unrelated_toggle, lemma_closed_without_activation,
};
use crate::grid::DungeonGrid;
use crate::rng::Rng;
use crate::room::RoomKind;
use crate::tree::{DungeonTree, is_bfs_from, lemma_distinct_below};

verus! {

// ── Helpers ─────────────────────────────────────────────────────────────────

/// The switches of the content layer, in room order.
pub open spec fn switches_in(content: Seq<RoomContent>) -> Seq<SwitchState>
    decreases content.len(),
{
    if content.len() == 0 {
        Seq::<SwitchState>::empty()
    } else {
        let pre = switches_in(content.drop_last());
        match content.last().switch {
            Some(sw) => pre.push(sw),
            None => pre,
        }
    }
}

/// Where each switch of [`switches_in`] comes from: entry `k` is the
/// switch of room `src[k]`, the rooms in increasing order, and every room
/// with a switch is listed.
proof fn lemma_switches_in_from(c: Seq<RoomContent>) -> (src: Seq<int>)
    ensures
        src.len() == switches_in(c).len(),
        forall|k: int| 0 <= k < src.len() ==> 0 <= #[trigger] src[k] < c.len() && c[src[k]].switch == Some(switches_in(c)[k]),
        forall|a: int, b: int| 0 <= a < b < src.len() ==> #[trigger] src[a] < #[trigger] src[b],
        forall|i: int| 0 <= i < c.len() && (#[trigger] c[i]).switch is Some ==> exists|k: int| 0 <= k < src.len() && src[k] == i,
    decreases c.len(),
{
    if c.len() == 0 {
        Seq::<int>::empty()
    } else {
        let d = c.drop_last();
        let s0 = lemma_switches_in_from(d);
        assert forall|i: int| 0 <= i < d.len() implies #[trigger] d[i] == c[i] by {}
        let src = match c.last().switch {
            Some(sw) => s0.push(c.len() - 1),
            None => s0,
        };
        assert forall|i: int| 0 <= i < c.len() && (#[trigger] c[i]).switch is Some implies exists|k: int| 0 <= k < src.len() && src[k] == i by {
            if i < d.len() {
                assert(d[i].switch is Some);
                let k = choose|k: int| 0 <= k < s0.len() && s0[k] == i;
                assert(src[k] == s0[k]);
            } else {
                assert(src[src.len() - 1] == i);
            }
        }
        src
    }
}

/// In placed content each switch door is worked by its own switch alone:
/// it is closed while no switch is on, pressing the switch paired with it
/// flips it, and pressing any other switch leaves it as it was.
pub proof fn lemma_door_worked_by_its_switch(
    c: Seq<RoomContent>,
    t: DungeonTree,
    g: DungeonGrid,
    cfg: ContentConfig,
    boss: int,
    exit: int,
    sws: Seq<SwitchState>,
    j: int,
    mask: u64,
    id: u32,
)
    requires
        content_ok(c, t, g, boss, exit),
        content_detail(c, t, g, cfg),
        same_switches(sws, switches_in(c)),
        0 <= j < c.len(),
        c[j].switch_door is Some,
        id < 64,
    ensures
        !door_open(c[j].switch_door.unwrap().signals@, 0u64, sws),
        exists|i: int| 0 <= i < c.len() && #[trigger] paired(c[i], c[j]),
        forall|i: int| 0 <= i < c.len() && #[trigger] paired(c[i], c[j]) ==> {
            let door = c[j].switch_door.unwrap().signals@;
            &&& id == c[i].switch.unwrap().switch_id
                ==> door_open(door, mask ^ (1u64 << (id as u64)), sws) == !door_open(door, mask, sws)
            &&& id != c[i].switch.unwrap().switch_id
                ==> door_open(door, mask ^ (1u64 << (id as u64)), sws) == door_open(door, mask, sws)
        },
{
    let door = c[j].switch_door.unwrap().signals@;
    lemma_closed_without_activation(door, sws);
    let src = lemma_switches_in_from(c);
    let sl = switches_in(c);
    assert forall|a: int, b: int| 0 <= a < sws.len() && 0 <= b < sws.len() && a != b implies #[trigger] sws[a].switch_id != #[trigger] sws[b].switch_id by {
        assert(sws[a].switch_id == sl[a].switch_id && sws[b].switch_id == sl[b].switch_id);
        assert(c[src[a]].switch == Some(sl[a]) && c[src[b]].switch == Some(sl[b]));
        if a < b {
            assert(src[a] < src[b]);
        } else {
            assert(src[b] < src[a]);
        }
        assert(c[src[a]].switch is Some && c[src[b]].switch is Some);
    }
    assert forall|i: int| 0 <= i < c.len() && #[trigger] paired(c[i], c[j]) implies {
        &&& id == c[i].switch.unwrap().switch_id
            ==> door_open(door, mask ^ (1u64 << (id as u64)), sws) == !door_open(door, mask, sws)
        &&& id != c[i].switch.unwrap().switch_id
            ==> door_open(door, mask ^ (1u64 << (id as u64)), sws) == door_open(door, mask, sws)
    } by {
        let sw = c[i].switch.unwrap();
        if id == sw.switch_id {
            let k = choose|k: int| 0 <= k < src.len() && src[k] == i;
            assert(sws[k].switch_id == sl[k].switch_id && sws[k].signals@ == sl[k].signals@);
            assert(sl[k] == sw);
            assert(door.len() > 0);
            assert(door.contains(door[0]));
            assert(shares_signal(sws[k].signals@, door));
            lemma_linked_toggle(door, mask, sws, k);
        } else {
            assert forall|m: int| 0 <= m < sws.len() && (#[trigger] sws[m]).switch_id == id implies !shares_signal(sws[m].signals@, door) by {
                assert(sws[m].switch_id == sl[m].switch_id && sws[m].signals@ == sl[m].signals@);
                assert(c[src[m]].switch == Some(sl[m]));
                assert(src[m] != i);
                assert(c[src[m]].switch is Some && c[i].switch is Some);
            }
            lemma_unrelated_toggle(door, mask, sws, id);
        }
    }
}

/// Collect all switch states from the content layer.
pub fn all_switches(content: &[RoomContent]) -> (r: Vec<SwitchState>)
    ensures
        same_switches(r@, switches_in(content@)),
{
    let mut r: Vec<SwitchState> = Vec::new();
    let mut i: usize = 0;
    while i < content.len()
        invariant
            i <= content@.len(),
            same_switches(r@, switches_in(content@.take(i as int))),
        decreases content@.len() - i,
    {
        proof {
            assert(content@.take(i as int + 1).drop_last() =~= content@.take(i as int));
            assert(content@.take(i as int + 1).last() == content@[i as int]);
        }
        match &content[i].switch {
            Some(sw) => {
                let c = sw.duplicate();
                r.push(c);
            },
            None => {},
        }
        i = i + 1;
    }
    proof {
        assert(content@.take(content@.len() as int) =~= content@);
    }
    r
}

/// Room `room` can be entered with the keys of `key_mask` and the switches
/// of `switch_mask`: a locked room needs its key (ids from 64 on never
/// open), and a room whose content carries a switch door needs that door
/// open.
pub open spec fn passable(tree: DungeonTree, content: Seq<RoomContent>, room: int, key_mask: u64, switch_mask: u64) -> bool {
    &&& (tree.rooms@[room].kind is Locked ==> switch_on(key_mask, tree.rooms@[room].kind->Locked_key_id))
    &&& (room < content.len() && content[room].switch_door is Some ==> door_open(
        content[room].switch_door.unwrap().signals@,
        switch_mask,
        switches_in(content),
    ))
}

/// Whether `room_id` can be entered with the given key and switch masks
/// (enemies never block entry: they are cleared on arrival).
pub fn is_passable(room_id: usize, tree: &DungeonTree, content: &[RoomContent], key_mask: u64, switch_mask: u64, cleared_mask: u64) -> (r: bool)
    requires
        room_id < tree.n(),
    ensures
        r == passable(*tree, content@, room_id as int, key_mask, switch_mask),
{
    if let RoomKind::Locked { key_id } = tree.rooms[room_id].kind {
        if key_id >= 64 || (key_mask >> (key_id as u64)) & 1 == 0 {
            return false;
        }
        proof {
            let x = key_mask >> (key_id as u64);
            assert(x & 1u64 != 0u64 ==> x & 1u64 == 1u64) by (bit_vector);
        }
    }
    if room_id < content.len() {
        if let Some(door) = &content[room_id].switch_door {
            let switches = all_switches(content);
            proof {
                lemma_same_switches_count(door.signals@, switch_mask, switches@, switches_in(content@));
            }
            if !door.is_open(switch_mask, switches.as_slice()) {
                return false;
            }
        }
    }
    true
}


// ── Goal finder ─────────────────────────────────────────────────────────────

/// Room `id` counts as placed: in the grid when there is one, always otherwise.
pub open spec fn placed_in(grid: Option<&DungeonGrid>, id: usize) -> bool {
    match grid {
        Some(g) => g.placed(id),
        None => true,
    }
}

/// A structural barrier: a locked or switch-door room.
pub open spec fn is_barrier(k: RoomKind) -> bool {
    k is Locked || k is SwitchDoor
}

/// A placed room none of whose children is placed.
pub open spec fn placed_leaf(tree: DungeonTree, grid: Option<&DungeonGrid>, id: usize) -> bool {
    &&& placed_in(grid, id)
    &&& forall|k: int| 0 <= k < tree.kids(id as int).len() ==> !placed_in(grid, #[trigger] tree.kids(id as int)[k])
}

/// `i` is the first placed exit room of `content`.
pub open spec fn first_exit(content: Seq<RoomContent>, grid: Option<&DungeonGrid>, i: int) -> bool {
    &&& 0 <= i < content.len()
    &&& content[i].is_exit
    &&& placed_in(grid, i as usize)
    &&& forall|j: int| 0 <= j < i ==> !((#[trigger] content[j]).is_exit && placed_in(grid, j as usize))
}

/// Some room of `content` is a placed exit.
pub open spec fn has_exit(content: Seq<RoomContent>, grid: Option<&DungeonGrid>) -> bool {
    exists|i: int| 0 <= i < content.len() && (#[trigger] content[i]).is_exit && placed_in(grid, i as usize)
}

/// Position `m` of `order` holds the last placed barrier.
pub open spec fn last_barrier(tree: DungeonTree, grid: Option<&DungeonGrid>, order: Seq<usize>, m: int) -> bool {
    &&& 0 <= m < order.len()
    &&& placed_in(grid, order[m])
    &&& is_barrier(tree.rooms@[order[m] as int].kind)
    &&& forall|m2: int| m < m2 < order.len() ==> !(placed_in(grid, #[trigger] order[m2]) && is_barrier(tree.rooms@[order[m2] as int].kind))
}

/// Some placed barrier lies along `order`.
pub open spec fn has_barrier(tree: DungeonTree, grid: Option<&DungeonGrid>, order: Seq<usize>) -> bool {
    exists|m: int| 0 <= m < order.len() && placed_in(grid, #[trigger] order[m]) && is_barrier(tree.rooms@[order[m] as int].kind)
}

/// Position `m` of `order` holds the last of the deepest placed leaves.
pub open spec fn deepest_leaf(tree: DungeonTree, grid: Option<&DungeonGrid>, order: Seq<usize>, m: int) -> bool {
    &&& 0 <= m < order.len()
    &&& placed_leaf(tree, grid, order[m])
    &&& forall|m2: int| 0 <= m2 < order.len() && placed_leaf(tree, grid, #[trigger] order[m2]) ==> tree.rooms@[order[m2] as int].depth
        <= tree.rooms@[order[m] as int].depth && (m2 > m ==> tree.rooms@[order[m2] as int].depth < tree.rooms@[order[m] as int].depth)
}

/// Some placed leaf lies along `order`.
pub open spec fn has_leaf(tree: DungeonTree, grid: Option<&DungeonGrid>, order: Seq<usize>) -> bool {
    exists|m: int| 0 <= m < order.len() && placed_leaf(tree, grid, #[trigger] order[m])
}

/// The goal along the breadth-first order `order`: the last placed barrier,
/// else the last of the deepest placed leaves, else the root.
pub open spec fn goal_along(tree: DungeonTree, grid: Option<&DungeonGrid>, order: Seq<usize>, r: int) -> bool {
    if has_barrier(tree, grid, order) {
        exists|m: int| #[trigger] last_barrier(tree, grid, order, m) && r == order[m]
    } else if has_leaf(tree, grid, order) {
        exists|m: int| #[trigger] deepest_leaf(tree, grid, order, m) && r == order[m]
    } else {
        r == tree.root
    }
}

/// The goal room: the first placed exit when content is given and has
/// one, else [`goal_along`] the breadth-first order.
pub open spec fn goal_choice(tree: DungeonTree, grid: Option<&DungeonGrid>, content: Seq<RoomContent>, r: int) -> bool {
    if content.len() > 0 && has_exit(content, grid) {
        first_exit(content, grid, r)
    } else {
        exists|order: Seq<usize>| #[trigger] is_bfs_from(tree.rooms@, tree.root, order)
            && (forall|m: int| 0 <= m < order.len() ==> #[trigger] order[m] < tree.n()) && goal_along(tree, grid, order, r)
    }
}

/// Without content, the goal is the last placed room, in breadth-first
/// order, that is locked or a switch door, when there is one.
pub proof fn lemma_goal_is_last_lock_or_switch_door(tree: DungeonTree, grid: Option<&DungeonGrid>, order: Seq<usize>, m: int, r: int)
    requires
        tree.wf(),
        is_bfs_from(tree.rooms@, tree.root, order),
        forall|i: int| 0 <= i < order.len() ==> #[trigger] order[i] < tree.n(),
        0 <= m < order.len(),
        placed_in(grid, order[m]),
        tree.rooms@[order[m] as int].kind is Locked || tree.rooms@[order[m] as int].kind is SwitchDoor,
        forall|m2: int| m < m2 < order.len() && placed_in(grid, #[trigger] order[m2])
            ==> !(tree.rooms@[order[m2] as int].kind is Locked || tree.rooms@[order[m2] as int].kind is SwitchDoor),
        goal_choice(tree, grid, Seq::<RoomContent>::empty(), r),
    ensures
        r == order[m],
{
    let o = choose|o2: Seq<usize>| #[trigger] is_bfs_from(tree.rooms@, tree.root, o2)
        && (forall|i: int| 0 <= i < o2.len() ==> #[trigger] o2[i] < tree.n()) && goal_along(tree, grid, o2, r);
    crate::tree::lemma_bfs_unique(tree, tree.root, o, order);
    assert(is_barrier(tree.rooms@[order[m] as int].kind));
    assert(has_barrier(tree, grid, order));
    let m1 = choose|m1: int| #[trigger] last_barrier(tree, grid, order, m1) && r == order[m1];
    if m1 < m {
        assert(placed_in(grid, order[m]) && is_barrier(tree.rooms@[order[m] as int].kind));
    } else if m1 > m {
        assert(placed_in(grid, order[m1]) && is_barrier(tree.rooms@[order[m1] as int].kind));
    }
}

/// The goal is a single room: two rooms that both meet [`goal_choice`]
/// are the same room. So [`find_goal_in_grid`] gives the room that
/// [`find_goal_full`] gives without content, and [`find_goal`] the one it
/// gives without grid and content.
pub proof fn lemma_goal_unique(tree: DungeonTree, grid: Option<&DungeonGrid>, content: Seq<RoomContent>, a: int, b: int)
    requires
        tree.wf(),
        goal_choice(tree, grid, content, a),
        goal_choice(tree, grid, content, b),
    ensures
        a == b,
{
    if content.len() > 0 && has_exit(content, grid) {
        if a < b {
            assert(!(content[a].is_exit && placed_in(grid, a as usize)));
        } else if b < a {
            assert(!(content[b].is_exit && placed_in(grid, b as usize)));
        }
    } else {
        let o1 = choose|order: Seq<usize>| #[trigger] is_bfs_from(tree.rooms@, tree.root, order)
            && (forall|m: int| 0 <= m < order.len() ==> #[trigger] order[m] < tree.n()) && goal_along(tree, grid, order, a);
        let o2 = choose|order: Seq<usize>| #[trigger] is_bfs_from(tree.rooms@, tree.root, order)
            && (forall|m: int| 0 <= m < order.len() ==> #[trigger] order[m] < tree.n()) && goal_along(tree, grid, order, b);
        crate::tree::lemma_bfs_unique(tree, tree.root, o1, o2);
        if has_barrier(tree, grid, o1) {
            let m1 = choose|m: int| #[trigger] last_barrier(tree, grid, o1, m) && a == o1[m];
            let m2 = choose|m: int| #[trigger] last_barrier(tree, grid, o1, m) && b == o1[m];
            if m1 < m2 {
                assert(placed_in(grid, o1[m2]) && is_barrier(tree.rooms@[o1[m2] as int].kind));
            } else if m2 < m1 {
                assert(placed_in(grid, o1[m1]) && is_barrier(tree.rooms@[o1[m1] as int].kind));
            }
        } else if has_leaf(tree, grid, o1) {
            let m1 = choose|m: int| #[trigger] deepest_leaf(tree, grid, o1, m) && a == o1[m];
            let m2 = choose|m: int| #[trigger] deepest_leaf(tree, grid, o1, m) && b == o1[m];
            if m1 < m2 {
                assert(placed_leaf(tree, grid, o1[m2]) && placed_leaf(tree, grid, o1[m1]));
            } else if m2 < m1 {
                assert(placed_leaf(tree, grid, o1[m2]) && placed_leaf(tree, grid, o1[m1]));
            }
        }
    }
}

fn placed_opt(grid: Option<&DungeonGrid>, id: usize) -> (r: bool)
    ensures
        r == placed_in(grid, id),
{
    match grid {
        Some(g) => g.is_placed(id),
        None => true,
    }
}

fn is_placed_leaf(tree: &DungeonTree, grid: Option<&DungeonGrid>, id: usize) -> (r: bool)
    requires
        id < tree.n(),
    ensures
        r == placed_leaf(*tree, grid, id),
{
    if !placed_opt(grid, id) {
        return false;
    }
    let mut k: usize = 0;
    while k < tree.rooms[id].children.len()
        invariant
            id < tree.n(),
            k <= tree.kids(id as int).len(),
            forall|q: int| 0 <= q < k ==> !placed_in(grid, #[trigger] tree.kids(id as int)[q]),
        decreases tree.kids(id as int).len() - k,
    {
        if placed_opt(grid, tree.rooms[id].children[k]) {
            return false;
        }
        k = k + 1;
    }
    true
}

/// The goal room without content and grid: the last barrier in
/// breadth-first order, else the last of the deepest leaves.
pub fn find_goal(tree: &DungeonTree) -> (r: usize)
    requires
        tree.wf(),
    ensures
        r < tree.n(),
        goal_choice(*tree, None, Seq::<RoomContent>::empty(), r as int),
{
    find_goal_full(tree, None, &[])
}

/// The goal room among the rooms placed in `grid` (all rooms without one).
pub fn find_goal_in_grid(tree: &DungeonTree, grid: Option<&DungeonGrid>) -> (r: usize)
    requires
        tree.wf(),
    ensures
        r < tree.n(),
        goal_choice(*tree, grid, Seq::<RoomContent>::empty(), r as int),
{
    find_goal_full(tree, grid, &[])
}

/// The goal room: the first placed exit room of `content` when there is
/// one; else the last placed locked or switch-door room in breadth-first
/// order; else the last of the deepest placed leaves; else the root.
pub fn find_goal_full(tree: &DungeonTree, grid: Option<&DungeonGrid>, content: &[RoomContent]) -> (r: usize)
    requires
        tree.wf(),
    ensures
        goal_choice(*tree, grid, content@, r as int),
        !(content@.len() > 0 && has_exit(content@, grid)) ==> r < tree.n(),
{
    if content.len() > 0 {
        let mut i: usize = 0;
        while i < content.len()
            invariant
                i <= content@.len(),
                forall|j: int| 0 <= j < i ==> !((#[trigger] content@[j]).is_exit && placed_in(grid, j as usize)),
            decreases content@.len() - i,
        {
            if content[i].is_exit && placed_opt(grid, i) {
                proof {
                    assert(has_exit(content@, grid));
                }
                return i;
            }
            i = i + 1;
        }
        proof {
            assert(!has_exit(content@, grid)) by {
                if has_exit(content@, grid) {
                    let j = choose|j: int| 0 <= j < content@.len() && (#[trigger] content@[j]).is_exit && placed_in(grid, j as usize);
                    assert(!(content@[j].is_exit && placed_in(grid, j as usize)));
                }
            }
        }
    }
    let order = tree.bfs_order();
    let ghost no_exit = !(content@.len() > 0 && has_exit(content@, grid));
    assert(no_exit);
    let mut m: usize = order.len();
    while m > 0
        invariant
            m <= order@.len(),
            is_bfs_from(tree.rooms@, tree.root, order@),
            !(content@.len() > 0 && has_exit(content@, grid)),
            forall|j: int| 0 <= j < order@.len() ==> #[trigger] order@[j] < tree.n(),
            forall|m2: int| m <= m2 < order@.len() ==> !(placed_in(grid, #[trigger] order@[m2]) && is_barrier(tree.rooms@[order@[m2] as int].kind)),
        decreases m,
    {
        m = m - 1;
        let id = order[m];
        let k = tree.rooms[id].kind;
        if placed_opt(grid, id) && (k.is_locked() || k.is_switch_door()) {
            proof {
                assert(last_barrier(*tree, grid, order@, m as int));
                assert(has_barrier(*tree, grid, order@));
                assert(goal_along(*tree, grid, order@, id as int));
                assert(is_bfs_from(tree.rooms@, tree.root, order@));
                assert(!(content@.len() > 0 && has_exit(content@, grid)));
            }
            return id;
        }
    }
    proof {
        assert(!has_barrier(*tree, grid, order@)) by {
            if has_barrier(*tree, grid, order@) {
                let j = choose|j: int| 0 <= j < order@.len() && placed_in(grid, #[trigger] order@[j]) && is_barrier(tree.rooms@[order@[j] as int].kind);
                assert(!(placed_in(grid, order@[j]) && is_barrier(tree.rooms@[order@[j] as int].kind)));
            }
        }
    }
    let mut best: usize = 0;
    let mut found: bool = false;
    let mut q: usize = 0;
    while q < order.len()
        invariant
            q <= order@.len(),
            is_bfs_from(tree.rooms@, tree.root, order@),
            !(content@.len() > 0 && has_exit(content@, grid)),
            forall|j: int| 0 <= j < order@.len() ==> #[trigger] order@[j] < tree.n(),
            found ==> best < q,
            found ==> placed_leaf(*tree, grid, order@[best as int]),
            found ==> forall|m2: int| 0 <= m2 < q && placed_leaf(*tree, grid, #[trigger] order@[m2]) ==> tree.rooms@[order@[m2] as int].depth
                <= tree.rooms@[order@[best as int] as int].depth && (m2 > best ==> tree.rooms@[order@[m2] as int].depth < tree.rooms@[order@[best as int] as int].depth),
            !found ==> forall|m2: int| 0 <= m2 < q ==> !placed_leaf(*tree, grid, #[trigger] order@[m2]),
        decreases order@.len() - q,
    {
        let id = order[q];
        if is_placed_leaf(tree, grid, id) {
            if !found || tree.rooms[id].depth >= tree.rooms[order[best]].depth {
                best = q;
                found = true;
            }
        }
        q = q + 1;
    }
    if found {
        proof {
            assert(deepest_leaf(*tree, grid, order@, best as int));
            assert(has_leaf(*tree, grid, order@));
            assert(goal_along(*tree, grid, order@, order@[best as int] as int));
        }
        order[best]
    } else {
        proof {
            assert(!has_leaf(*tree, grid, order@)) by {
                if has_leaf(*tree, grid, order@) {
                    let j = choose|j: int| 0 <= j < order@.len() && placed_leaf(*tree, grid, #[trigger] order@[j]);
                    assert(!placed_leaf(*tree, grid, order@[j]));
                }
            }
        }
        tree.root
    }
}


// ── Breadth-first distances ─────────────────────────────────────────────────

/// Every grid neighbour of `x` has a distance at most one more than `x`.
pub open spec fn dist_closed_at(g: DungeonGrid, blk: Seq<bool>, dist: Seq<Option<u32>>, x: int) -> bool {
    forall|k: int| 0 <= k < g.neighbours_of(x as usize).len() ==> {
        let y = #[trigger] g.neighbours_of(x as usize)[k] as int;
        &&& 0 <= y < dist.len()
        &&& !blk[y] ==> dist[y] is Some && dist[y].unwrap() <= dist[x].unwrap() + 1
    }
}

/// Some room at distance one less has `x` as a grid neighbour.
pub open spec fn dist_witnessed_at(g: DungeonGrid, dist: Seq<Option<u32>>, x: int) -> bool {
    exists|p: int| 0 <= p < dist.len() && #[trigger] dist[p] == Some((dist[x].unwrap() - 1) as u32)
        && g.neighbours_of(p as usize).contains(x as usize)
}

/// `dist` holds the grid distances from `start` over rooms `0..n`: the
/// start is at 0 (and alone there), every room with a distance has its
/// neighbours at most one further, and every other room with a distance
/// is one step from a room one nearer. So `dist[x]` is the length of a
/// shortest neighbour-to-neighbour walk from `start` to `x`, and `None`
/// when there is no such walk.
pub open spec fn bfs_dist_ok(g: DungeonGrid, blk: Seq<bool>, start: usize, n: int, dist: Seq<Option<u32>>) -> bool {
    &&& dist.len() == n
    &&& blk.len() == n
    &&& forall|x: int| 0 <= x < n && (#[trigger] dist[x]) is Some && x != start ==> !blk[x]
    &&& start < n
    &&& dist[start as int] == Some(0u32)
    &&& forall|x: int| 0 <= x < n && #[trigger] dist[x] == Some(0u32) ==> x == start
    &&& forall|x: int| 0 <= x < n && (#[trigger] dist[x]) is Some ==> dist_closed_at(g, blk, dist, x)
    &&& forall|x: int| 0 <= x < n && (#[trigger] dist[x]) is Some && dist[x].unwrap() > 0 ==> dist_witnessed_at(g, dist, x)
}

/// Every room of the grid has an id below `n`.
pub open spec fn ids_below(g: DungeonGrid, n: int) -> bool {
    forall|k: int| 0 <= k < g.ncells() ==> (#[trigger] g.id_at(k)) < n
}

pub proof fn lemma_neighbours_below(g: DungeonGrid, n: int, x: usize)
    requires
        ids_below(g, n),
    ensures
        forall|k: int| 0 <= k < g.neighbours_of(x).len() ==> #[trigger] g.neighbours_of(x)[k] < n,
{
    let nb = g.neighbours_of(x);
    assert forall|k: int| 0 <= k < nb.len() implies #[trigger] nb[k] < n by {
        match g.pos_of_room(x) {
            Some(p) => {
                let e = g.room_on((p.0 + 1, p.1 as int));
                let w = g.room_on((p.0 - 1, p.1 as int));
                let s = g.room_on((p.0 as int, p.1 + 1));
                let nn = g.room_on((p.0 as int, p.1 - 1));
                lemma_room_on_below(g, n, (p.0 + 1, p.1 as int));
                lemma_room_on_below(g, n, (p.0 - 1, p.1 as int));
                lemma_room_on_below(g, n, (p.0 as int, p.1 + 1));
                lemma_room_on_below(g, n, (p.0 as int, p.1 - 1));
            },
            None => {},
        }
    }
}

pub proof fn lemma_room_on_below(g: DungeonGrid, n: int, p: (int, int))
    requires
        ids_below(g, n),
    ensures
        g.room_on(p) is Some ==> g.room_on(p).unwrap() < n,
{
    if g.occupied(p) {
        let k = choose|k: int| 0 <= k < g.ncells() && (#[trigger] g.pos_at(k)).0 == p.0 && g.pos_at(k).1 == p.1;
        assert(g.id_at(k) < n);
    }
}

/// The bookkeeping of a breadth-first search: `queue` lists, without
/// repeats and in order of discovery, exactly the rooms with a distance;
/// distances along the queue never decrease, and each is at most its
/// position; the start alone is at 0; every room past the start is one
/// step from a room one nearer.
#[verifier::opaque]
pub open spec fn bfs_core(g: DungeonGrid, blk: Seq<bool>, n: int, start: usize, dist: Seq<Option<u32>>, queue: Seq<usize>) -> bool {
    &&& dist.len() == n
    &&& blk.len() == n
    &&& forall|x: int| 0 <= x < n && (#[trigger] dist[x]) is Some && x != start ==> !blk[x]
    &&& start < n
    &&& queue.len() > 0
    &&& queue[0] == start
    &&& queue.no_duplicates()
    &&& forall|j: int| 0 <= j < queue.len() ==> #[trigger] queue[j] < n
    &&& forall|x: int| 0 <= x < n ==> ((#[trigger] dist[x]) is Some <==> queue.contains(x as usize))
    &&& dist[start as int] == Some(0u32)
    &&& forall|x: int| 0 <= x < n && #[trigger] dist[x] == Some(0u32) ==> x == start
    &&& forall|j: int| 0 <= j < queue.len() ==> dist[#[trigger] queue[j] as int] is Some && dist[queue[j] as int].unwrap() <= j
    &&& forall|i1: int, j1: int| 0 <= i1 <= j1 < queue.len() ==> dist[#[trigger] queue[i1] as int].unwrap()
        <= dist[#[trigger] queue[j1] as int].unwrap()
    &&& forall|x: int| 0 <= x < n && (#[trigger] dist[x]) is Some && dist[x].unwrap() > 0 ==> dist_witnessed_at(g, dist, x)
}

/// Queue entries lie between `d` (from `head` on) and `d + 1`.
#[verifier::opaque]
pub open spec fn bfs_layer(dist: Seq<Option<u32>>, queue: Seq<usize>, head: int, d: int) -> bool {
    &&& forall|j: int| 0 <= j < queue.len() ==> dist[#[trigger] queue[j] as int].unwrap() <= d + 1
    &&& forall|j: int| head <= j < queue.len() ==> dist[#[trigger] queue[j] as int].unwrap() >= d
}

/// The first `head` queue entries have all their neighbours at most one further.
#[verifier::opaque]
pub open spec fn bfs_closed_upto(g: DungeonGrid, blk: Seq<bool>, dist: Seq<Option<u32>>, queue: Seq<usize>, head: int) -> bool {
    forall|j: int| 0 <= j < head ==> dist_closed_at(g, blk, dist, #[trigger] queue[j] as int)
}

proof fn lemma_bfs_start(g: DungeonGrid, blk: Seq<bool>, n: int, start: usize, dist: Seq<Option<u32>>, queue: Seq<usize>)
    requires
        n <= u32::MAX,
        dist.len() == n,
        0 <= start < n,
        forall|x: int| 0 <= x < n && x != start ==> #[trigger] dist[x] is None,
        dist[start as int] == Some(0u32),
        queue == seq![start],
        blk.len() == n,
    ensures
        bfs_core(g, blk, n, start, dist, queue),
        bfs_layer(dist, queue, 0, 0),
        bfs_closed_upto(g, blk, dist, queue, 0),
{
    reveal(bfs_core);
    reveal(bfs_layer);
    reveal(bfs_closed_upto);
    assert(queue.len() == 1);
    assert forall|x: int| 0 <= x < n implies ((#[trigger] dist[x]) is Some <==> queue.contains(x as usize)) by {
        if x == start as int {
            assert(queue[0] == x as usize);
        } else {
            assert(dist[x] is None);
            if queue.contains(x as usize) {
                let w = choose|w: int| 0 <= w < queue.len() && queue[w] == x as usize;
                assert(w == 0);
                assert(queue[0] == start);
            }
        }
    }
}

proof fn lemma_bfs_len(g: DungeonGrid, blk: Seq<bool>, n: int, start: usize, dist: Seq<Option<u32>>, queue: Seq<usize>)
    requires
        bfs_core(g, blk, n, start, dist, queue),
    ensures
        queue.len() <= n,
        forall|j: int| 0 <= j < queue.len() ==> #[trigger] queue[j] < n,
        queue[0] == start,
        queue.len() > 0,
        dist.len() == n,
        forall|x: int| 0 <= x < n ==> ((#[trigger] dist[x]) is Some <==> queue.contains(x as usize)),
        forall|j: int| 0 <= j < queue.len() ==> dist[#[trigger] queue[j] as int] is Some && dist[queue[j] as int].unwrap() <= j,
        forall|i1: int, j1: int| 0 <= i1 <= j1 < queue.len() ==> dist[#[trigger] queue[i1] as int].unwrap()
            <= dist[#[trigger] queue[j1] as int].unwrap(),
{
    reveal(bfs_core);
    lemma_distinct_below(queue, n as nat);
}

proof fn lemma_bfs_core_facts(g: DungeonGrid, blk: Seq<bool>, n: int, start: usize, dist: Seq<Option<u32>>, queue: Seq<usize>)
    requires
        bfs_core(g, blk, n, start, dist, queue),
    ensures
        start < n,
        dist[start as int] == Some(0u32),
        forall|x: int| 0 <= x < n && #[trigger] dist[x] == Some(0u32) ==> x == start,
        forall|x: int| 0 <= x < n && (#[trigger] dist[x]) is Some && dist[x].unwrap() > 0 ==> dist_witnessed_at(g, dist, x),
        blk.len() == n,
        forall|x: int| 0 <= x < n && (#[trigger] dist[x]) is Some && x != start ==> !blk[x],
{
    reveal(bfs_core);
}

proof fn lemma_bfs_members(g: DungeonGrid, blk: Seq<bool>, n: int, start: usize, dist: Seq<Option<u32>>, queue: Seq<usize>)
    requires
        bfs_core(g, blk, n, start, dist, queue),
    ensures
        dist.len() == n,
        forall|x: int| 0 <= x < n ==> ((#[trigger] dist[x]) is Some <==> queue.contains(x as usize)),
{
    reveal(bfs_core);
}

#[verifier::rlimit(60)]
proof fn lemma_bfs_push(g: DungeonGrid, blk: Seq<bool>, n: int, start: usize, dist: Seq<Option<u32>>, queue: Seq<usize>, head: int, d: u32, nb: usize)
    requires
        bfs_core(g, blk, n, start, dist, queue),
        bfs_layer(dist, queue, head, d as int),
        bfs_closed_upto(g, blk, dist, queue, head),
        0 <= head < queue.len(),
        dist[queue[head] as int] == Some(d),
        d <= head,
        n <= u32::MAX,
        nb < n,
        dist[nb as int] is None,
        !blk[nb as int],
        g.neighbours_of(queue[head]).contains(nb),
    ensures
        bfs_core(g, blk, n, start, dist.update(nb as int, Some((d + 1) as u32)), queue.push(nb)),
        bfs_layer(dist.update(nb as int, Some((d + 1) as u32)), queue.push(nb), head, d as int),
        bfs_closed_upto(g, blk, dist.update(nb as int, Some((d + 1) as u32)), queue.push(nb), head),
{
    reveal(bfs_core);
    reveal(bfs_layer);
    reveal(bfs_closed_upto);
    lemma_distinct_below(queue, n as nat);
    let nd = dist.update(nb as int, Some((d + 1) as u32));
    let nq = queue.push(nb);
    assert(!queue.contains(nb));
    assert forall|x: int| 0 <= x < n implies ((#[trigger] nd[x]) is Some <==> nq.contains(x as usize)) by {
        if x == nb {
            assert(nq[queue.len() as int] == nb);
        } else {
            if queue.contains(x as usize) {
                let w = choose|w: int| 0 <= w < queue.len() && queue[w] == x as usize;
                assert(nq[w] == x as usize);
            }
            if nq.contains(x as usize) {
                let w = choose|w: int| 0 <= w < nq.len() && nq[w] == x as usize;
                if w < queue.len() {
                    assert(queue[w] == x as usize);
                }
            }
        }
    }
    assert forall|a: int, b: int| 0 <= a < nq.len() && 0 <= b < nq.len() && a != b implies nq[a] != nq[b] by {
        if a < queue.len() && b < queue.len() {
        } else if a == queue.len() {
            assert(queue[b] == nq[b]);
        } else {
            assert(queue[a] == nq[a]);
        }
    }
    assert forall|j: int| 0 <= j < nq.len() implies nd[#[trigger] nq[j] as int] is Some && nd[nq[j] as int].unwrap() <= j by {
        if j < queue.len() {
            assert(nq[j] == queue[j]);
            assert(queue[j] != nb);
        }
    }
    assert forall|i1: int, j1: int| 0 <= i1 <= j1 < nq.len() implies nd[#[trigger] nq[i1] as int].unwrap()
        <= nd[#[trigger] nq[j1] as int].unwrap() by {
        if i1 < queue.len() {
            assert(nq[i1] == queue[i1]);
            assert(queue[i1] != nb);
        }
        if j1 < queue.len() {
            assert(nq[j1] == queue[j1]);
            assert(queue[j1] != nb);
        }
    }
    assert forall|j: int| 0 <= j < nq.len() implies nd[#[trigger] nq[j] as int].unwrap() <= d + 1 by {
        if j < queue.len() {
            assert(nq[j] == queue[j]);
            assert(queue[j] != nb);
        }
    }
    assert forall|j: int| head <= j < nq.len() implies nd[#[trigger] nq[j] as int].unwrap() >= d by {
        if j < queue.len() {
            assert(nq[j] == queue[j]);
            assert(queue[j] != nb);
        }
    }
    assert forall|x: int| 0 <= x < n && #[trigger] nd[x] == Some(0u32) implies x == start by {
        if x != nb {
            assert(dist[x] == nd[x]);
        }
    }
    assert forall|x: int| 0 <= x < n && (#[trigger] nd[x]) is Some && x != start implies !blk[x] by {
        if x != nb {
            assert(dist[x] == nd[x]);
        }
    }
    assert forall|j: int| 0 <= j < head implies dist_closed_at(g, blk, nd, #[trigger] nq[j] as int) by {
        let x = queue[j] as int;
        assert(nq[j] == queue[j]);
        assert(x != nb);
        assert(dist_closed_at(g, blk, dist, x));
        assert forall|kk: int| 0 <= kk < g.neighbours_of(x as usize).len() implies {
            let y = #[trigger] g.neighbours_of(x as usize)[kk] as int;
            &&& 0 <= y < nd.len()
            &&& !blk[y] ==> nd[y] is Some && nd[y].unwrap() <= nd[x].unwrap() + 1
        } by {
            let y = g.neighbours_of(x as usize)[kk] as int;
            if !blk[y] {
                assert(dist[y] is Some);
                assert(y != nb);
            }
        }
    }
    assert forall|x: int| 0 <= x < n && (#[trigger] nd[x]) is Some && nd[x].unwrap() > 0 implies dist_witnessed_at(g, nd, x) by {
        if x != nb {
            assert(dist_witnessed_at(g, dist, x));
            let p = choose|p: int| 0 <= p < dist.len() && #[trigger] dist[p] == Some((dist[x].unwrap() - 1) as u32)
                && g.neighbours_of(p as usize).contains(x as usize);
            assert(p != nb);
            assert(nd[p] == dist[p]);
        } else {
            let p = queue[head] as int;
            assert(nd[p] == dist[p]);
            assert(nd[p] == Some(((d + 1) - 1) as u32));
        }
    }
}

proof fn lemma_bfs_advance(g: DungeonGrid, blk: Seq<bool>, n: int, start: usize, dist: Seq<Option<u32>>, queue: Seq<usize>, head: int, d: u32)
    requires
        bfs_core(g, blk, n, start, dist, queue),
        bfs_layer(dist, queue, head, d as int),
        bfs_closed_upto(g, blk, dist, queue, head),
        0 <= head < queue.len(),
        dist[queue[head] as int] == Some(d),
        dist_closed_at(g, blk, dist, queue[head] as int),
    ensures
        bfs_closed_upto(g, blk, dist, queue, head + 1),
        head + 1 < queue.len() ==> bfs_layer(dist, queue, head + 1, dist[queue[head + 1] as int].unwrap() as int),
{
    lemma_bfs_len(g, blk, n, start, dist, queue);
    reveal(bfs_layer);
    reveal(bfs_closed_upto);
    if head + 1 < queue.len() {
        let d2 = dist[queue[head + 1] as int].unwrap();
        assert(dist[queue[head] as int].unwrap() <= dist[queue[head + 1] as int].unwrap());
        assert forall|j: int| head + 1 <= j < queue.len() implies dist[#[trigger] queue[j] as int].unwrap() >= d2 by {
            assert(dist[queue[head + 1] as int].unwrap() <= dist[queue[j] as int].unwrap());
        }
    }
}

#[verifier::rlimit(40)]
proof fn lemma_bfs_done(g: DungeonGrid, blk: Seq<bool>, n: int, start: usize, dist: Seq<Option<u32>>, queue: Seq<usize>)
    requires
        n <= u32::MAX,
        bfs_core(g, blk, n, start, dist, queue),
        bfs_closed_upto(g, blk, dist, queue, queue.len() as int),
    ensures
        bfs_dist_ok(g, blk, start, n, dist),
{
    lemma_bfs_members(g, blk, n, start, dist, queue);
    lemma_bfs_core_facts(g, blk, n, start, dist, queue);
    assert forall|x: int| 0 <= x < n && (#[trigger] dist[x]) is Some implies dist_closed_at(g, blk, dist, x) by {
        assert(queue.contains(x as usize));
        let w = choose|w: int| 0 <= w < queue.len() && queue[w] == x as usize;
        reveal(bfs_closed_upto);
        assert(dist_closed_at(g, blk, dist, queue[w] as int));
        assert(queue[w] as int == x);
    }
}

/// Breadth-first distances over the grid from `start`, for rooms `0..n`.
#[verifier::spinoff_prover]
#[verifier::rlimit(80)]
pub fn bfs_distances(grid: &DungeonGrid, blocked: &Vec<bool>, n: usize, start: usize) -> (dist: Vec<Option<u32>>)
    requires
        grid.wf(),
        ids_below(*grid, n as int),
        start < n,
        n <= u32::MAX,
        blocked@.len() == n,
    ensures
        bfs_dist_ok(*grid, blocked@, start, n as int, dist@),
{
    let mut dist: Vec<Option<u32>> = Vec::new();
    let mut i: usize = 0;
    while i < n
        invariant
            i <= n,
            dist@.len() == i,
            forall|j: int| 0 <= j < i ==> #[trigger] dist@[j] is None,
        decreases n - i,
    {
        dist.push(None);
        i = i + 1;
    }
    dist.set(start, Some(0u32));
    let mut queue: Vec<usize> = Vec::new();
    queue.push(start);
    proof {
        assert(queue@ == seq![start]);
        lemma_bfs_start(*grid, blocked@, n as int, start, dist@, queue@);
    }
    let mut head: usize = 0;
    while head < queue.len()
        invariant
            grid.wf(),
            ids_below(*grid, n as int),
            start < n,
            n <= u32::MAX,
            blocked@.len() == n,
            head <= queue@.len(),
            bfs_core(*grid, blocked@, n as int, start, dist@, queue@),
            bfs_closed_upto(*grid, blocked@, dist@, queue@, head as int),
            head < queue@.len() ==> bfs_layer(dist@, queue@, head as int, dist@[queue@[head as int] as int].unwrap() as int),
        decreases n - head,
    {
        proof {
            lemma_bfs_len(*grid, blocked@, n as int, start, dist@, queue@);
        }
        let id = queue[head];
        let d = match dist[id] {
            Some(v) => v,
            None => 0,
        };
        let nbs = grid.neighbours(id);
        proof {
            lemma_neighbours_below(*grid, n as int, id);
        }
        let mut k: usize = 0;
        while k < nbs.len()
            invariant
                grid.wf(),
                ids_below(*grid, n as int),
                start < n,
                n <= u32::MAX,
                head < queue@.len(),
                id == queue@[head as int],
                dist@[id as int] == Some(d),
                d <= head,
                nbs@ == grid.neighbours_of(id),
                forall|q: int| 0 <= q < nbs@.len() ==> #[trigger] nbs@[q] < n,
                k <= nbs@.len(),
                bfs_core(*grid, blocked@, n as int, start, dist@, queue@),
                bfs_layer(dist@, queue@, head as int, d as int),
                bfs_closed_upto(*grid, blocked@, dist@, queue@, head as int),
                blocked@.len() == n,
                forall|q: int| 0 <= q < k ==> {
                    let y = #[trigger] nbs@[q] as int;
                    !blocked@[y] ==> dist@[y] is Some && dist@[y].unwrap() <= d + 1
                },
            decreases nbs@.len() - k,
        {
            let nb = nbs[k];
            proof {
                lemma_bfs_len(*grid, blocked@, n as int, start, dist@, queue@);
            }
            if !blocked[nb] && dist[nb].is_none() {
                proof {
                    assert(grid.neighbours_of(id).contains(nb)) by {
                        assert(nbs@[k as int] == nb);
                    }
                    lemma_bfs_push(*grid, blocked@, n as int, start, dist@, queue@, head as int, d, nb);
                }
                let ghost old_dist = dist@;
                dist.set(nb, Some(d + 1));
                queue.push(nb);
                proof {
                    assert forall|q: int| 0 <= q < k + 1 implies {
                        let y = #[trigger] nbs@[q] as int;
                        !blocked@[y] ==> dist@[y] is Some && dist@[y].unwrap() <= d + 1
                    } by {
                        let y = nbs@[q] as int;
                        if y != nb {
                            assert(dist@[y] == old_dist[y]);
                        }
                    }
                }
            } else {
                proof {
                    reveal(bfs_layer);
                    reveal(bfs_core);
                    if !blocked@[nb as int] {
                        let w = choose|w: int| 0 <= w < queue@.len() && queue@[w] == nb;
                        assert(dist@[queue@[w] as int].unwrap() <= d + 1);
                    }
                }
            }
            k = k + 1;
        }
        proof {
            assert(dist_closed_at(*grid, blocked@, dist@, id as int)) by {
                assert forall|kk: int| 0 <= kk < grid.neighbours_of(id).len() implies {
                    let y = #[trigger] grid.neighbours_of(id)[kk] as int;
                    &&& 0 <= y < dist@.len()
                    &&& !blocked@[y] ==> dist@[y] is Some && dist@[y].unwrap() <= dist@[id as int].unwrap() + 1
                } by {
                    assert(nbs@[kk] == grid.neighbours_of(id)[kk]);
                    reveal(bfs_core);
                }
            }
            lemma_bfs_advance(*grid, blocked@, n as int, start, dist@, queue@, head as int, d);
        }
        head = head + 1;
    }
    proof {
        lemma_bfs_done(*grid, blocked@, n as int, start, dist@, queue@);
    }
    dist
}


// ── Critical path ───────────────────────────────────────────────────────────

/// Room `x` lies on a shortest walk from the start to the goal: its
/// distances from both add up to the goal's distance from the start.
pub open spec fn on_critical_path(ds: Seq<Option<u32>>, dg: Seq<Option<u32>>, goal: int, x: int) -> bool {
    &&& ds[x] is Some
    &&& dg[x] is Some
    &&& ds[goal] is Some
    &&& ds[x].unwrap() + dg[x].unwrap() == ds[goal].unwrap()
}

/// Room `x` lies on no shortest walk from `start` to `goal` over rooms `0..n`.
pub open spec fn off_critical_path(g: DungeonGrid, blk: Seq<bool>, n: int, start: usize, goal: usize, x: int) -> bool {
    forall|ds: Seq<Option<u32>>, dg: Seq<Option<u32>>|
        #![trigger bfs_dist_ok(g, blk, start, n, ds), bfs_dist_ok(g, blk, goal, n, dg)]
        bfs_dist_ok(g, blk, start, n, ds) && bfs_dist_ok(g, blk, goal, n, dg) ==> !on_critical_path(ds, dg, goal as int, x)
}

/// A room with a distance in `d2` has one in `d1`, no larger.
proof fn lemma_bfs_dist_le(g: DungeonGrid, blk: Seq<bool>, start: usize, n: int, d1: Seq<Option<u32>>, d2: Seq<Option<u32>>, x: int)
    requires
        d1.len() == n,
        d2.len() == n,
        n <= usize::MAX,
        0 <= start < n,
        d1[start as int] == Some(0u32),
        d2[start as int] == Some(0u32),
        blk.len() == n,
        forall|y: int| 0 <= y < n && (#[trigger] d2[y]) is Some && y != start ==> !blk[y],
        forall|y: int| 0 <= y < n && #[trigger] d2[y] == Some(0u32) ==> y == start,
        forall|y: int| 0 <= y < n && d1[y] is Some ==> #[trigger] dist_closed_at(g, blk, d1, y),
        forall|y: int| 0 <= y < n && d2[y] is Some && d2[y].unwrap() > 0 ==> #[trigger] dist_witnessed_at(g, d2, y),
        0 <= x < n,
        d2[x] is Some,
    ensures
        d1[x] is Some,
        d1[x].unwrap() <= d2[x].unwrap(),
    decreases d2[x].unwrap(),
{
    if d2[x].unwrap() == 0 {
        assert(x == start);
    } else {
        assert(dist_witnessed_at(g, d2, x));
        let p = choose|p: int| 0 <= p < d2.len() && #[trigger] d2[p] == Some((d2[x].unwrap() - 1) as u32)
            && g.neighbours_of(p as usize).contains(x as usize);
        lemma_bfs_dist_le(g, blk, start, n, d1, d2, p);
        assert(dist_closed_at(g, blk, d1, p));
        let nb = g.neighbours_of(p as usize);
        let k = choose|k: int| 0 <= k < nb.len() && #[trigger] nb[k] == x as usize;
        assert(nb[k] as int == x);
    }
}

/// A room off the shortest walks for one pair of distance vectors is off
/// them for every pair (the distances are unique).
pub proof fn lemma_off_critical(g: DungeonGrid, blk: Seq<bool>, n: int, start: usize, goal: usize, ds0: Seq<Option<u32>>, dg0: Seq<Option<u32>>, x: int)
    requires
        n <= usize::MAX,
        bfs_dist_ok(g, blk, start, n, ds0),
        bfs_dist_ok(g, blk, goal, n, dg0),
        !on_critical_path(ds0, dg0, goal as int, x),
    ensures
        off_critical_path(g, blk, n, start, goal, x),
{
    assert forall|ds: Seq<Option<u32>>, dg: Seq<Option<u32>>|
        bfs_dist_ok(g, blk, start, n, ds) && bfs_dist_ok(g, blk, goal, n, dg) implies !on_critical_path(ds, dg, goal as int, x) by {
        lemma_bfs_dist_unique(g, blk, start, n, ds, ds0);
        lemma_bfs_dist_unique(g, blk, goal, n, dg, dg0);
    }
}

/// Grid distances are unique.
pub proof fn lemma_bfs_dist_unique(g: DungeonGrid, blk: Seq<bool>, start: usize, n: int, d1: Seq<Option<u32>>, d2: Seq<Option<u32>>)
    requires
        n <= usize::MAX,
        bfs_dist_ok(g, blk, start, n, d1),
        bfs_dist_ok(g, blk, start, n, d2),
    ensures
        d1 == d2,
{
    assert forall|y: int| 0 <= y < n && d1[y] is Some implies #[trigger] dist_closed_at(g, blk, d1, y) by {}
    assert forall|y: int| 0 <= y < n && d2[y] is Some implies #[trigger] dist_closed_at(g, blk, d2, y) by {}
    assert forall|y: int| 0 <= y < n && d1[y] is Some && d1[y].unwrap() > 0 implies #[trigger] dist_witnessed_at(g, d1, y) by {}
    assert forall|y: int| 0 <= y < n && d2[y] is Some && d2[y].unwrap() > 0 implies #[trigger] dist_witnessed_at(g, d2, y) by {}
    assert forall|x: int| 0 <= x < n implies #[trigger] d1[x] == d2[x] by {
        if d2[x] is Some {
            lemma_bfs_dist_le(g, blk, start, n, d1, d2, x);
            lemma_bfs_dist_le(g, blk, start, n, d2, d1, x);
        } else if d1[x] is Some {
            lemma_bfs_dist_le(g, blk, start, n, d2, d1, x);
        }
    }
    assert(d1 =~= d2);
}

/// Room `x` is locked by a key that no placed key room carries: it can
/// never be opened.
pub open spec fn sealed(t: DungeonTree, g: DungeonGrid, x: int) -> bool {
    match t.rooms@[x].kind {
        RoomKind::Locked { key_id } => !crate::tree::key_live(t.rooms@, g, key_id),
        _ => false,
    }
}

/// Which rooms of `t` are sealed.
pub open spec fn sealed_rooms(t: DungeonTree, g: DungeonGrid) -> Seq<bool> {
    Seq::new(t.n() as nat, |x: int| sealed(t, g, x))
}

/// The sealed rooms of the tree, as flags.
fn sealed_flags(tree: &DungeonTree, grid: &DungeonGrid) -> (r: Vec<bool>)
    requires
        grid.wf(),
    ensures
        r@ == sealed_rooms(*tree, *grid),
{
    let n = tree.rooms.len();
    let mut r: Vec<bool> = Vec::new();
    let mut x: usize = 0;
    while x < n
        invariant
            n == tree.n(),
            grid.wf(),
            x <= n,
            r@.len() == x,
            forall|y: int| 0 <= y < x ==> #[trigger] r@[y] == sealed(*tree, *grid, y),
        decreases n - x,
    {
        let mut flag = false;
        if let RoomKind::Locked { key_id } = tree.rooms[x].kind {
            let mut live = false;
            let mut j: usize = 0;
            while j < n
                invariant
                    n == tree.n(),
                    grid.wf(),
                    j <= n,
                    live <==> exists|q: int| 0 <= q < j && grid.placed(tree.rooms@[q].id)
                        && #[trigger] tree.rooms@[q].kind == (RoomKind::Key { key_id }),
                decreases n - j,
            {
                if tree.rooms[j].kind == (RoomKind::Key { key_id }) && grid.is_placed(tree.rooms[j].id) {
                    live = true;
                }
                proof {
                    if live {
                        let q = choose|q: int| 0 <= q < j + 1 && grid.placed(tree.rooms@[q].id)
                            && #[trigger] tree.rooms@[q].kind == (RoomKind::Key { key_id });
                    }
                }
                j = j + 1;
            }
            flag = !live;
        }
        r.push(flag);
        proof {
            assert forall|y: int| 0 <= y < x + 1 implies #[trigger] r@[y] == sealed(*tree, *grid, y) by {
                if y < x {
                } else {
                    assert(r@[y] == flag);
                }
            }
        }
        x = x + 1;
    }
    proof {
        assert(r@ =~= sealed_rooms(*tree, *grid));
    }
    r
}

/// The rooms on the shortest grid walks from `start` to `goal` that keep
/// out of sealed rooms (structural locks are respected: a room locked by a
/// key that no placed key room carries is never passed; switch doors and
/// enemies are ignored), in increasing id order; none when the goal cannot
/// be reached. An id that names no room has no neighbours: from it only
/// itself is reached.
pub fn critical_path_rooms(tree: &DungeonTree, grid: &DungeonGrid, start: usize, goal: usize) -> (r: Vec<usize>)
    requires
        grid.wf(),
        ids_below(*grid, tree.n()),
        tree.n() <= u32::MAX,
    ensures
        r@.no_duplicates(),
        start < tree.n() && goal < tree.n() ==> forall|j: int| 0 <= j < r@.len() ==> #[trigger] r@[j] < tree.n(),
        start < tree.n() && goal < tree.n() ==> exists|ds: Seq<Option<u32>>, dg: Seq<Option<u32>>|
            #![trigger bfs_dist_ok(*grid, sealed_rooms(*tree, *grid), start, tree.n(), ds), bfs_dist_ok(*grid, sealed_rooms(*tree, *grid), goal, tree.n(), dg)]
            bfs_dist_ok(*grid, sealed_rooms(*tree, *grid), start, tree.n(), ds) && bfs_dist_ok(*grid, sealed_rooms(*tree, *grid), goal, tree.n(), dg)
            && forall|x: int| 0 <= x < tree.n() ==> (#[trigger] r@.contains(x as usize) <==> on_critical_path(ds, dg, goal as int, x)),
        start >= tree.n() || goal >= tree.n() ==> r@ == (if start == goal { seq![start] } else { Seq::<usize>::empty() }),
{
    let n = tree.rooms.len();
    if start >= n || goal >= n {
        let mut r: Vec<usize> = Vec::new();
        if start == goal {
            r.push(start);
            proof {
                assert(r@ =~= seq![start]);
            }
        }
        return r;
    }
    let blocked = sealed_flags(tree, grid);
    let ds = bfs_distances(grid, &blocked, n, start);
    let dg = bfs_distances(grid, &blocked, n, goal);
    let mut r: Vec<usize> = Vec::new();
    let total = match ds[goal] {
        Some(t) => t,
        None => {
            proof {
                assert forall|x: int| 0 <= x < tree.n() implies (#[trigger] r@.contains(x as usize) <==> on_critical_path(ds@, dg@, goal as int, x)) by {}
            }
            return r;
        },
    };
    let mut x: usize = 0;
    while x < n
        invariant
            n == tree.n(),
            n <= u32::MAX,
            x <= n,
            ds@.len() == n,
            dg@.len() == n,
            goal < n,
            ds@[goal as int] == Some(total),
            forall|j: int| 0 <= j < r@.len() ==> #[trigger] r@[j] < x,
            forall|a: int, b: int| 0 <= a < b < r@.len() ==> #[trigger] r@[a] < #[trigger] r@[b],
            forall|y: int| 0 <= y < x ==> (#[trigger] r@.contains(y as usize) <==> on_critical_path(ds@, dg@, goal as int, y)),
        decreases n - x,
    {
        let hit = match (ds[x], dg[x]) {
            (Some(a), Some(b)) => a as u64 + b as u64 == total as u64,
            _ => false,
        };
        let ghost prev = r@;
        if hit {
            r.push(x);
        }
        proof {
            assert forall|y: int| 0 <= y < x + 1 implies (#[trigger] r@.contains(y as usize) <==> on_critical_path(ds@, dg@, goal as int, y)) by {
                if y < x {
                    if prev.contains(y as usize) {
                        let w = choose|w: int| 0 <= w < prev.len() && prev[w] == y as usize;
                        assert(r@[w] == y as usize);
                    }
                    if r@.contains(y as usize) {
                        let w = choose|w: int| 0 <= w < r@.len() && r@[w] == y as usize;
                        if w < prev.len() {
                            assert(prev[w] == y as usize);
                        }
                    }
                } else {
                    if hit {
                        assert(r@[prev.len() as int] == x);
                    } else if r@.contains(y as usize) {
                        let w = choose|w: int| 0 <= w < r@.len() && r@[w] == y as usize;
                        assert(prev[w] < x);
                    }
                }
            }
        }
        x = x + 1;
    }
    proof {
        assert forall|a: int, b: int| 0 <= a < r@.len() && 0 <= b < r@.len() && a != b implies r@[a] != r@[b] by {
            if a < b {
                assert(r@[a] < r@[b]);
            } else {
                assert(r@[b] < r@[a]);
            }
        }
    }
    r
}


// ── Depth-first walks ───────────────────────────────────────────────────────

/// A permutation has the same members.
pub proof fn lemma_permutation_members(a: Seq<usize>, b: Seq<usize>)
    requires
        a.to_multiset() == b.to_multiset(),
    ensures
        forall|x: usize| a.contains(x) <==> b.contains(x),
{
    a.to_multiset_ensures();
    b.to_multiset_ensures();
    assert forall|x: usize| a.contains(x) <==> b.contains(x) by {
        assert(a.contains(x) <==> a.to_multiset().count(x) > 0);
        assert(b.contains(x) <==> b.to_multiset().count(x) > 0);
    }
}

pub(crate) fn bool_vec(n: usize) -> (r: Vec<bool>)
    ensures
        r@.len() == n,
        forall|j: int| 0 <= j < n ==> !(#[trigger] r@[j]),
{
    let mut r: Vec<bool> = Vec::new();
    let mut i: usize = 0;
    while i < n
        invariant
            i <= n,
            r@.len() == i,
            forall|j: int| 0 <= j < i ==> !(#[trigger] r@[j]),
        decreases n - i,
    {
        r.push(false);
        i = i + 1;
    }
    r
}

/// Room `i` reopens its parent: a room locked by `key_id` (`which == 0`),
/// or a switch-door room whose door is open under `sw_mask` (otherwise).
pub open spec fn reopens_parent(tree: DungeonTree, content: Seq<RoomContent>, which: u8, key_id: u32, sw_mask: u64, i: int) -> bool {
    if which == 0 {
        tree.rooms@[i].kind == (RoomKind::Locked { key_id })
    } else {
        &&& tree.rooms@[i].kind is SwitchDoor
        &&& i < content.len()
        &&& content[i].switch_door is Some
        &&& door_open(content[i].switch_door.unwrap().signals@, sw_mask, switches_in(content))
    }
}

/// Some room below `m` reopens its parent, and that parent is `x`.
pub open spec fn parent_reopened(tree: DungeonTree, content: Seq<RoomContent>, which: u8, key_id: u32, sw_mask: u64, x: int, m: int) -> bool {
    exists|i: int| 0 <= i < m && #[trigger] reopens_parent(tree, content, which, key_id, sw_mask, i)
        && i != tree.root && tree.has_parent(i) && tree.parent(i) == x
}

/// Reopen the parents of the rooms picked by `opens`: every locked room
/// with key `key_id` (`which == 0`), or every switch-door room whose door
/// is open under `sw_mask` (`which == 1`).
fn reopen_parents(tree: &DungeonTree, content: &[RoomContent], closed: &mut Vec<bool>, which: u8, key_id: u32, sw_mask: u64)
    requires
        tree.wf(),
        old(closed)@.len() == tree.n(),
    ensures
        final(closed)@.len() == tree.n(),
        forall|x: int| 0 <= x < tree.n() && !old(closed)@[x] ==> !#[trigger] final(closed)@[x],
        forall|x: int| 0 <= x < tree.n() ==> #[trigger] final(closed)@[x]
            == (old(closed)@[x] && !parent_reopened(*tree, content@, which, key_id, sw_mask, x, tree.n() as int)),
{
    let switches = all_switches(content);
    let mut i: usize = 0;
    while i < tree.rooms.len()
        invariant
            tree.wf(),
            i <= tree.n(),
            closed@.len() == tree.n(),
            forall|x: int| 0 <= x < tree.n() && !old(closed)@[x] ==> !#[trigger] closed@[x],
            forall|x: int| 0 <= x < tree.n() ==> #[trigger] closed@[x]
                == (old(closed)@[x] && !parent_reopened(*tree, content@, which, key_id, sw_mask, x, i as int)),
            same_switches(switches@, switches_in(content@)),
        decreases tree.n() - i,
    {
        let ghost c0 = closed@;
        let hit = if which == 0 {
            match tree.rooms[i].kind {
                RoomKind::Locked { key_id: lid } => lid == key_id,
                _ => false,
            }
        } else if tree.rooms[i].kind.is_switch_door() && i < content.len() {
            match &content[i].switch_door {
                Some(door) => door.is_open(sw_mask, switches.as_slice()),
                None => false,
            }
        } else {
            false
        };
        proof {
            if which != 0 && tree.rooms@[i as int].kind is SwitchDoor && i < content@.len() && content@[i as int].switch_door is Some {
                lemma_same_switches_count(content@[i as int].switch_door.unwrap().signals@, sw_mask, switches@, switches_in(content@));
            }
            assert(hit == reopens_parent(*tree, content@, which, key_id, sw_mask, i as int));
            assert(tree.rooms@[i as int].id == i);
        }
        if hit {
            match tree.parent_of(tree.rooms[i].id) {
                Some(p) => {
                    proof {
                        lemma_parent_range(*tree, i as int);
                    }
                    closed.set(p, false);
                    proof {
                        assert forall|x: int| 0 <= x < tree.n() implies #[trigger] closed@[x]
                            == (old(closed)@[x] && !parent_reopened(*tree, content@, which, key_id, sw_mask, x, i + 1)) by {
                            if x == p {
                                assert(reopens_parent(*tree, content@, which, key_id, sw_mask, i as int));
                            } else {
                                assert(c0[x] == closed@[x]);
                                if parent_reopened(*tree, content@, which, key_id, sw_mask, x, i + 1) {
                                    let w = choose|w: int| 0 <= w < i + 1 && #[trigger] reopens_parent(*tree, content@, which, key_id, sw_mask, w)
                                        && w != tree.root && tree.has_parent(w) && tree.parent(w) == x;
                                    assert(w != i);
                                }
                            }
                        }
                    }
                },
                None => {
                    proof {
                        assert forall|x: int| 0 <= x < tree.n() implies #[trigger] closed@[x]
                            == (old(closed)@[x] && !parent_reopened(*tree, content@, which, key_id, sw_mask, x, i + 1)) by {
                            if parent_reopened(*tree, content@, which, key_id, sw_mask, x, i + 1) {
                                let w = choose|w: int| 0 <= w < i + 1 && #[trigger] reopens_parent(*tree, content@, which, key_id, sw_mask, w)
                                    && w != tree.root && tree.has_parent(w) && tree.parent(w) == x;
                                assert(w != i);
                            }
                        }
                    }
                },
            }
        } else {
            proof {
                assert forall|x: int| 0 <= x < tree.n() implies #[trigger] closed@[x]
                    == (old(closed)@[x] && !parent_reopened(*tree, content@, which, key_id, sw_mask, x, i + 1)) by {
                    if parent_reopened(*tree, content@, which, key_id, sw_mask, x, i + 1) {
                        let w = choose|w: int| 0 <= w < i + 1 && #[trigger] reopens_parent(*tree, content@, which, key_id, sw_mask, w)
                            && w != tree.root && tree.has_parent(w) && tree.parent(w) == x;
                        assert(w != i);
                    }
                }
            }
        }
        i = i + 1;
    }
}

/// The parent of a room lies in the arena.
proof fn lemma_parent_range(t: DungeonTree, c: int)
    requires
        t.wf(),
        t.has_parent(c),
    ensures
        0 <= t.parent(c) < t.n(),
{
    let p = t.parent(c);
    assert(t.is_child(p, c));
}

/// Entry `j` of `walk` is a grid neighbour of an earlier entry.
pub open spec fn stepped_from(g: DungeonGrid, walk: Seq<usize>, j: int) -> bool {
    exists|i: int| 0 <= i < j && #[trigger] g.neighbours_of(walk[i]).contains(walk[j])
}

/// `walk` starts at `start`, repeats no room, and reaches every later room
/// by a grid step from an earlier one.
pub open spec fn grid_walk(g: DungeonGrid, start: usize, walk: Seq<usize>) -> bool {
    &&& walk.len() > 0
    &&& walk[0] == start
    &&& walk.no_duplicates()
    &&& forall|j: int| 0 < j < walk.len() ==> #[trigger] stepped_from(g, walk, j)
}

/// `closed` with the parents reopened that [`reopen_parents`] reopens.
pub open spec fn reopened(tree: DungeonTree, content: Seq<RoomContent>, which: u8, key_id: u32, sw_mask: u64, closed: Seq<bool>) -> Seq<bool> {
    Seq::new(closed.len(), |x: int| closed[x] && !parent_reopened(tree, content, which, key_id, sw_mask, x, tree.n() as int))
}

/// The first room of `nbs`, from entry `q` on, that the walk may enter:
/// not closed, not yet visited, and the goal or passable.
pub open spec fn dfs_pick(tree: DungeonTree, content: Seq<RoomContent>, goal: usize, closed: Seq<bool>, visited: Seq<usize>,
    km: u64, sm: u64, nbs: Seq<usize>, q: int) -> Option<usize>
    decreases nbs.len() - q,
{
    if 0 <= q < nbs.len() {
        let nid = nbs[q];
        if !closed[nid as int] && !visited.contains(nid) && (nid == goal || passable(tree, content, nid as int, km, sm)) {
            Some(nid)
        } else {
            dfs_pick(tree, content, goal, closed, visited, km, sm, nbs, q + 1)
        }
    } else {
        None
    }
}

/// The key mask and closed flags after entering room `top`: a key room
/// adds its key (below 64), and a new key reopens the parents it unlocks.
pub open spec fn dfs_key_step(tree: DungeonTree, content: Seq<RoomContent>, top: usize, km: u64, sm: u64, closed: Seq<bool>) -> (u64, Seq<bool>) {
    match tree.rooms@[top as int].kind {
        RoomKind::Key { key_id } => if key_id < 64 {
            let was_new = (km >> (key_id as u64)) & 1u64 == 0u64;
            (km | (1u64 << (key_id as u64)), if was_new { reopened(tree, content, 0, key_id, sm, closed) } else { closed })
        } else {
            (km, closed)
        },
        _ => (km, closed),
    }
}

/// The switch mask and closed flags after entering room `top`: a switch
/// room toggles its switch (below 64), and a switch turned on reopens the
/// parents of the switch doors that now stand open.
pub open spec fn dfs_switch_step(tree: DungeonTree, content: Seq<RoomContent>, top: usize, sm: u64, closed: Seq<bool>) -> (u64, Seq<bool>) {
    if tree.rooms@[top as int].kind is Switch && top < content.len() && content[top as int].switch is Some
        && content[top as int].switch.unwrap().switch_id < 64 {
        let id = content[top as int].switch.unwrap().switch_id;
        let was_closed = (sm >> (id as u64)) & 1u64 == 0u64;
        let sm1 = sm ^ (1u64 << (id as u64));
        (sm1, if was_closed { reopened(tree, content, 1, 0, sm1, closed) } else { closed })
    } else {
        (sm, closed)
    }
}

/// The randomised depth-first walk of [`dfs_rooms_visited`] from the given
/// state (visited rooms in order, closed flags, key and switch masks,
/// stack, generator state): on the room at the top of the stack it
/// collects a key, toggles a switch, shuffles the room's grid neighbours
/// and enters the first it may (see [`dfs_pick`]), or closes the room and
/// steps back. Gives the rooms visited, in order, and the generator state
/// left.
pub open spec fn dfs_run(tree: DungeonTree, grid: DungeonGrid, content: Seq<RoomContent>, goal: usize, visited: Seq<usize>,
    closed: Seq<bool>, km: u64, sm: u64, stack: Seq<usize>, s: crate::rng::RngState) -> (Seq<usize>, crate::rng::RngState)
    decreases 2 * (tree.n() - visited.len()) + stack.len(),
{
    if stack.len() == 0 || visited.len() > tree.n() || stack.len() > visited.len() {
        (visited, s)
    } else {
        let top = stack.last();
        let ks = dfs_key_step(tree, content, top, km, sm, closed);
        let ss = dfs_switch_step(tree, content, top, sm, ks.1);
        let nbs = grid.neighbours_of(top);
        let sh = crate::rng::fisher_yates(nbs, s, nbs.len() - 1);
        match dfs_pick(tree, content, goal, ss.1, visited, ks.0, ss.0, sh.0, 0) {
            Some(nid) => if visited.len() < tree.n() {
                dfs_run(tree, grid, content, goal, visited.push(nid), ss.1, ks.0, ss.0, stack.push(nid), sh.1)
            } else {
                (visited, s)
            },
            None => dfs_run(tree, grid, content, goal, visited, ss.1.update(top as int, true), ks.0, ss.0, stack.drop_last(), sh.1),
        }
    }
}

/// What [`dfs_rooms_visited`] gives from `start` with generator state `s`.
pub open spec fn dfs_walk(tree: DungeonTree, grid: DungeonGrid, content: Seq<RoomContent>, goal: usize, start: usize, s: crate::rng::RngState)
    -> (Seq<usize>, crate::rng::RngState) {
    dfs_run(tree, grid, content, goal, seq![start], Seq::new(tree.n() as nat, |x: int| false), 0, 0, seq![start], s)
}

/// Some room among the first `j` of `walk` carries key `k`.
pub open spec fn key_met(tree: DungeonTree, walk: Seq<usize>, j: int, k: u32) -> bool {
    exists|i: int| 0 <= i < j && #[trigger] tree.rooms@[walk[i] as int].kind == (RoomKind::Key { key_id: k })
}

/// Every room of `walk` after the first, other than the goal, that is
/// locked comes after a room carrying its key.
pub open spec fn locks_after_keys(tree: DungeonTree, goal: usize, walk: Seq<usize>) -> bool {
    forall|j: int| 0 < j < walk.len() && (#[trigger] walk[j]) != goal && tree.rooms@[walk[j] as int].kind is Locked
        ==> key_met(tree, walk, j, tree.rooms@[walk[j] as int].kind->Locked_key_id)
}

/// Every key turned on in mask `km` was carried by some room of `walk`.
pub open spec fn keys_from(tree: DungeonTree, walk: Seq<usize>, km: u64) -> bool {
    forall|k: u32| #[trigger] switch_on(km, k) ==> key_met(tree, walk, walk.len() as int, k)
}

/// A room the walk may enter is the goal or passable.
proof fn lemma_dfs_pick_enterable(tree: DungeonTree, content: Seq<RoomContent>, goal: usize, closed: Seq<bool>, visited: Seq<usize>,
    km: u64, sm: u64, nbs: Seq<usize>, q: int)
    ensures
        dfs_pick(tree, content, goal, closed, visited, km, sm, nbs, q) matches Some(nid) ==> nid == goal
            || passable(tree, content, nid as int, km, sm),
    decreases nbs.len() - q,
{
    if 0 <= q < nbs.len() {
        lemma_dfs_pick_enterable(tree, content, goal, closed, visited, km, sm, nbs, q + 1);
    }
}

/// Adding bit `kid` to a mask turns on key `kid` and no other.
proof fn lemma_mask_add(km: u64, kid: u32, k: u32)
    requires
        kid < 64,
        switch_on(km | (1u64 << (kid as u64)), k),
    ensures
        switch_on(km, k) || k == kid,
{
    let a = kid as u64;
    let b = k as u64;
    assert(b < 64 && a < 64 && ((km | (1u64 << a)) >> b) & 1u64 == 1u64 ==> (km >> b) & 1u64 == 1u64 || a == b) by (bit_vector);
}

/// The walks of [`dfs_run`] from a state whose walk so far enters locked
/// rooms only after their keys, whose key mask holds only keys met, and
/// whose stack holds only rooms walked, keep entering locked rooms only
/// after their keys.
proof fn lemma_dfs_run_keys(tree: DungeonTree, grid: DungeonGrid, content: Seq<RoomContent>, goal: usize, visited: Seq<usize>,
    closed: Seq<bool>, km: u64, sm: u64, stack: Seq<usize>, s: crate::rng::RngState)
    requires
        locks_after_keys(tree, goal, visited),
        keys_from(tree, visited, km),
        forall|m: int| 0 <= m < stack.len() ==> visited.contains(#[trigger] stack[m]),
    ensures
        locks_after_keys(tree, goal, dfs_run(tree, grid, content, goal, visited, closed, km, sm, stack, s).0),
    decreases 2 * (tree.n() - visited.len()) + stack.len(),
{
    if stack.len() == 0 || visited.len() > tree.n() || stack.len() > visited.len() {
    } else {
        let top = stack.last();
        assert(visited.contains(stack[stack.len() - 1]));
        let ks = dfs_key_step(tree, content, top, km, sm, closed);
        let ss = dfs_switch_step(tree, content, top, sm, ks.1);
        let nbs = grid.neighbours_of(top);
        let sh = crate::rng::fisher_yates(nbs, s, nbs.len() - 1);
        assert(keys_from(tree, visited, ks.0)) by {
            assert forall|k: u32| #[trigger] switch_on(ks.0, k) implies key_met(tree, visited, visited.len() as int, k) by {
                match tree.rooms@[top as int].kind {
                    RoomKind::Key { key_id } => {
                        if key_id < 64 {
                            lemma_mask_add(km, key_id, k);
                            if k == key_id {
                                let i = choose|i: int| 0 <= i < visited.len() && visited[i] == top;
                                assert(tree.rooms@[visited[i] as int].kind == (RoomKind::Key { key_id: k }));
                            }
                        }
                    },
                    _ => {},
                }
            }
        }
        lemma_dfs_pick_enterable(tree, content, goal, ss.1, visited, ks.0, ss.0, sh.0, 0);
        match dfs_pick(tree, content, goal, ss.1, visited, ks.0, ss.0, sh.0, 0) {
            Some(nid) => {
                if visited.len() < tree.n() {
                    let v2 = visited.push(nid);
                    assert(locks_after_keys(tree, goal, v2)) by {
                        assert forall|j: int| 0 < j < v2.len() && (#[trigger] v2[j]) != goal && tree.rooms@[v2[j] as int].kind is Locked
                            implies key_met(tree, v2, j, tree.rooms@[v2[j] as int].kind->Locked_key_id) by {
                            let k = tree.rooms@[v2[j] as int].kind->Locked_key_id;
                            if j < visited.len() {
                                assert(v2[j] == visited[j]);
                                assert(key_met(tree, visited, j, k));
                                let i = choose|i: int| 0 <= i < j && #[trigger] tree.rooms@[visited[i] as int].kind == (RoomKind::Key { key_id: k });
                                assert(v2[i] == visited[i]);
                            } else {
                                assert(switch_on(ks.0, k));
                                let i = choose|i: int| 0 <= i < visited.len() && #[trigger] tree.rooms@[visited[i] as int].kind == (RoomKind::Key { key_id: k });
                                assert(v2[i] == visited[i]);
                            }
                        }
                    }
                    assert(keys_from(tree, v2, ks.0)) by {
                        assert forall|k: u32| #[trigger] switch_on(ks.0, k) implies key_met(tree, v2, v2.len() as int, k) by {
                            let i = choose|i: int| 0 <= i < visited.len() && #[trigger] tree.rooms@[visited[i] as int].kind == (RoomKind::Key { key_id: k });
                            assert(v2[i] == visited[i]);
                        }
                    }
                    let st2 = stack.push(nid);
                    assert forall|m: int| 0 <= m < st2.len() implies v2.contains(#[trigger] st2[m]) by {
                        if m < stack.len() {
                            assert(visited.contains(stack[m]));
                            let i = choose|i: int| 0 <= i < visited.len() && visited[i] == stack[m];
                            assert(v2[i] == visited[i]);
                        } else {
                            assert(v2[visited.len() as int] == nid);
                        }
                    }
                    lemma_dfs_run_keys(tree, grid, content, goal, v2, ss.1, ks.0, ss.0, st2, sh.1);
                }
            },
            None => {
                let st2 = stack.drop_last();
                assert forall|m: int| 0 <= m < st2.len() implies visited.contains(#[trigger] st2[m]) by {
                    assert(st2[m] == stack[m]);
                }
                lemma_dfs_run_keys(tree, grid, content, goal, visited, ss.1.update(top as int, true), ks.0, ss.0, st2, sh.1);
            },
        }
    }
}

/// The randomised walk enters a locked room, other than the goal, only
/// after it has passed a room that carries the key: so a locked room whose
/// key no room of the walk carries is never visited unless it is the goal.
pub proof fn lemma_dfs_walk_keys(tree: DungeonTree, grid: DungeonGrid, content: Seq<RoomContent>, goal: usize, start: usize,
    s: crate::rng::RngState)
    ensures
        locks_after_keys(tree, goal, dfs_walk(tree, grid, content, goal, start, s).0),
{
    let v0 = seq![start];
    assert(keys_from(tree, v0, 0u64)) by {
        assert forall|k: u32| #[trigger] switch_on(0u64, k) implies key_met(tree, v0, 1, k) by {
            let b = k as u64;
            assert(b < 64 ==> (0u64 >> b) & 1u64 == 0u64) by (bit_vector);
        }
    }
    assert(v0[0] == start);
    assert(v0.contains(start));
    assert(forall|m: int| 0 <= m < seq![start].len() ==> v0.contains(#[trigger] seq![start][m]));
    lemma_dfs_run_keys(tree, grid, content, goal, v0, Seq::new(tree.n() as nat, |x: int| false), 0, 0, seq![start], s);
}

/// One randomised depth-first walk from `start` (towards `goal_id`, the
/// goal the tree gives): keys are collected and
/// switches toggled on entry, a room is entered when it is the goal or
/// passable, and a dead end is closed until a new key or an opened switch
/// door reopens the parents it unlocks. Returns how many rooms were visited.
fn dfs_rooms_visited(tree: &DungeonTree, grid: &DungeonGrid, start: usize, goal_id: usize, content: &[RoomContent], rng: &mut Rng) -> (r: usize)
    requires
        tree.wf(),
        grid.wf(),
        ids_below(*grid, tree.n()),
        start < tree.n(),
        goal_id < tree.n(),
    ensures
        1 <= r <= tree.n(),
        exists|walk: Seq<usize>| #[trigger] grid_walk(*grid, start, walk) && walk.len() == r
            && forall|j: int| 0 <= j < walk.len() ==> #[trigger] walk[j] < tree.n(),
        r == dfs_walk(*tree, *grid, content@, goal_id, start, old(rng)@).0.len(),
        final(rng)@ == dfs_walk(*tree, *grid, content@, goal_id, start, old(rng)@).1,
        grid_walk(*grid, start, dfs_walk(*tree, *grid, content@, goal_id, start, old(rng)@).0),
{
    let n = tree.rooms.len();
    let ghost s0 = rng@;
    let mut visited = bool_vec(n);
    let mut visited_list: Vec<usize> = Vec::new();
    let mut closed = bool_vec(n);
    let mut key_mask: u64 = 0;
    let mut sw_mask: u64 = 0;
    let mut stack: Vec<usize> = Vec::new();
    stack.push(start);
    visited.set(start, true);
    visited_list.push(start);
    proof {
        assert forall|x: int| 0 <= x < n implies (#[trigger] visited@[x] <==> visited_list@.contains(x as usize)) by {
            if x == start {
                assert(visited_list@[0] == start);
            } else if visited_list@.contains(x as usize) {
                assert(visited_list@[0] == start);
            }
        }
        assert(visited_list@ == seq![start]);
        assert(stack@ == seq![start]);
        assert(closed@ =~= Seq::new(tree.n() as nat, |x: int| false));
    }
    while stack.len() > 0
        invariant
            dfs_run(*tree, *grid, content@, goal_id, visited_list@, closed@, key_mask, sw_mask, stack@, rng@)
                == dfs_walk(*tree, *grid, content@, goal_id, start, s0),
            goal_id < n,
            tree.wf(),
            grid.wf(),
            ids_below(*grid, tree.n()),
            n == tree.n(),
            visited@.len() == n,
            closed@.len() == n,
            visited_list@.len() >= 1,
            visited_list@.no_duplicates(),
            forall|j: int| 0 <= j < visited_list@.len() ==> #[trigger] visited_list@[j] < n,
            forall|x: int| 0 <= x < n ==> (#[trigger] visited@[x] <==> visited_list@.contains(x as usize)),
            forall|j: int| 0 <= j < stack@.len() ==> #[trigger] stack@[j] < n,
            forall|j: int| 0 <= j < stack@.len() ==> visited_list@.contains(#[trigger] stack@[j]),
            visited_list@[0] == start,
            forall|j: int| 0 < j < visited_list@.len() ==> #[trigger] stepped_from(*grid, visited_list@, j),
            stack@.len() <= visited_list@.len(),
        decreases 2 * (n - visited_list@.len()) + stack@.len(),
    {
        proof {
            lemma_distinct_below(visited_list@, n as nat);
        }
        let top = stack[stack.len() - 1];
        let ghost km0 = key_mask;
        let ghost sm0 = sw_mask;
        let ghost cl0 = closed@;
        let ghost rng0 = rng@;
        let ghost vl0 = visited_list@;
        let ghost st0 = stack@;
        proof {
            assert(st0.last() == top);
        }
        if let RoomKind::Key { key_id } = tree.rooms[top].kind {
            if key_id < 64 {
                let was_new = (key_mask >> (key_id as u64)) & 1 == 0;
                key_mask = key_mask | (1u64 << (key_id as u64));
                if was_new {
                    reopen_parents(tree, content, &mut closed, 0, key_id, sw_mask);
                    proof {
                        assert(closed@ =~= reopened(*tree, content@, 0, key_id, sm0, cl0));
                    }
                }
            }
        }
        let ghost cl1 = closed@;
        proof {
            assert((key_mask, cl1) == dfs_key_step(*tree, content@, top, km0, sm0, cl0));
        }
        if tree.rooms[top].kind.is_switch() && top < content.len() {
            match &content[top].switch {
                Some(sw) => {
                    if sw.switch_id < 64 {
                        let was_closed = (sw_mask >> (sw.switch_id as u64)) & 1 == 0;
                        sw_mask = sw_mask ^ (1u64 << (sw.switch_id as u64));
                        if was_closed {
                            reopen_parents(tree, content, &mut closed, 1, 0, sw_mask);
                            proof {
                                assert(closed@ =~= reopened(*tree, content@, 1, 0, sw_mask, cl1));
                            }
                        }
                    }
                },
                None => {},
            }
        }
        proof {
            assert((sw_mask, closed@) == dfs_switch_step(*tree, content@, top, sm0, cl1));
        }
        let mut neighbours = grid.neighbours(top);
        proof {
            lemma_neighbours_below(*grid, n as int, top);
        }
        let ghost before_shuffle = neighbours@;
        rng.shuffle(&mut neighbours);
        proof {
            lemma_permutation_members(before_shuffle, neighbours@);
            assert forall|q: int| 0 <= q < neighbours@.len() implies #[trigger] neighbours@[q] < n by {
                assert(neighbours@.contains(neighbours@[q]));
                assert(before_shuffle.contains(neighbours@[q]));
            }
        }
        let mut next: Option<usize> = None;
        let mut q: usize = 0;
        while q < neighbours.len()
            invariant_except_break
                next is None,
            invariant
                dfs_pick(*tree, content@, goal_id, closed@, visited_list@, key_mask, sw_mask, neighbours@, q as int)
                    == dfs_pick(*tree, content@, goal_id, closed@, visited_list@, key_mask, sw_mask, neighbours@, 0),
                forall|x: int| 0 <= x < n ==> (#[trigger] visited@[x] <==> visited_list@.contains(x as usize)),
                goal_id < n,
                n == tree.n(),
                visited@.len() == n,
                closed@.len() == n,
                forall|j: int| 0 <= j < neighbours@.len() ==> #[trigger] neighbours@[j] < n,
                q <= neighbours@.len(),
                next matches Some(x) ==> x < n && !visited@[x as int] && neighbours@.contains(x),
            ensures
                next == dfs_pick(*tree, content@, goal_id, closed@, visited_list@, key_mask, sw_mask, neighbours@, 0),
                next matches Some(x) ==> x < n && !visited@[x as int] && neighbours@.contains(x),
            decreases neighbours@.len() - q,
        {
            let nid = neighbours[q];
            if !closed[nid] && !visited[nid] && (nid == goal_id || is_passable(nid, tree, content, key_mask, sw_mask, 0)) {
                next = Some(nid);
                break;
            }
            q = q + 1;
        }
        match next {
            Some(nid) => {
                let ghost prev = visited_list@;
                let ghost prev_stack = stack@;
                stack.push(nid);
                visited.set(nid, true);
                visited_list.push(nid);
                proof {
                    assert(!prev.contains(nid));
                    assert(prev_stack[prev_stack.len() - 1] == top);
                    assert(prev.contains(top));
                    let ti = choose|ti: int| 0 <= ti < prev.len() && prev[ti] == top;
                    assert(before_shuffle.contains(nid));
                    assert(grid.neighbours_of(visited_list@[ti]).contains(visited_list@[prev.len() as int]));
                    assert(stepped_from(*grid, visited_list@, prev.len() as int));
                    assert forall|j: int| 0 < j < visited_list@.len() implies #[trigger] stepped_from(*grid, visited_list@, j) by {
                        if j < prev.len() {
                            assert(stepped_from(*grid, prev, j));
                            let i = choose|i: int| 0 <= i < j && #[trigger] grid.neighbours_of(prev[i]).contains(prev[j]);
                            assert(visited_list@[i] == prev[i] && visited_list@[j] == prev[j]);
                            assert(grid.neighbours_of(visited_list@[i]).contains(visited_list@[j]));
                        }
                    }
                    assert forall|j: int| 0 <= j < stack@.len() implies visited_list@.contains(#[trigger] stack@[j]) by {
                        if j < prev_stack.len() {
                            assert(stack@[j] == prev_stack[j]);
                            assert(prev.contains(prev_stack[j]));
                            let w = choose|w: int| 0 <= w < prev.len() && prev[w] == prev_stack[j];
                            assert(visited_list@[w] == prev[w]);
                        } else {
                            assert(visited_list@[prev.len() as int] == nid);
                        }
                    }
                    assert forall|a: int, b: int| 0 <= a < visited_list@.len() && 0 <= b < visited_list@.len() && a != b
                        implies visited_list@[a] != visited_list@[b] by {
                        if a < prev.len() && b < prev.len() {
                            assert(visited_list@[a] == prev[a] && visited_list@[b] == prev[b]);
                        } else if a == prev.len() {
                            assert(prev[b] == visited_list@[b]);
                        } else {
                            assert(prev[a] == visited_list@[a]);
                        }
                    }
                    assert forall|x: int| 0 <= x < n implies (#[trigger] visited@[x] <==> visited_list@.contains(x as usize)) by {
                        if x == nid {
                            assert(visited_list@[prev.len() as int] == nid);
                        } else {
                            if prev.contains(x as usize) {
                                let w = choose|w: int| 0 <= w < prev.len() && prev[w] == x as usize;
                                assert(visited_list@[w] == x as usize);
                            }
                            if visited_list@.contains(x as usize) {
                                let w = choose|w: int| 0 <= w < visited_list@.len() && visited_list@[w] == x as usize;
                                if w < prev.len() {
                                    assert(prev[w] == x as usize);
                                }
                            }
                        }
                    }
                    lemma_distinct_below(visited_list@, n as nat);
                    assert(visited_list@ == vl0.push(nid));
                    assert(stack@ == st0.push(nid));
                    assert(vl0.len() < tree.n());
                    assert(dfs_run(*tree, *grid, content@, goal_id, vl0, cl0, km0, sm0, st0, rng0)
                        == dfs_run(*tree, *grid, content@, goal_id, visited_list@, closed@, key_mask, sw_mask, stack@, rng@));
                }
            },
            None => {
                let ghost prev_stack = stack@;
                let ghost cl2 = closed@;
                closed.set(top, true);
                stack.pop();
                proof {
                    assert forall|j: int| 0 <= j < stack@.len() implies visited_list@.contains(#[trigger] stack@[j]) by {
                        assert(stack@[j] == prev_stack[j]);
                    }
                    assert(closed@ == cl2.update(top as int, true));
                    assert(stack@ == st0.drop_last());
                    assert(dfs_run(*tree, *grid, content@, goal_id, vl0, cl0, km0, sm0, st0, rng0)
                        == dfs_run(*tree, *grid, content@, goal_id, visited_list@, closed@, key_mask, sw_mask, stack@, rng@));
                }
            },
        }
    }
    proof {
        lemma_distinct_below(visited_list@, n as nat);
        assert(grid_walk(*grid, start, visited_list@));
    }
    visited_list.len()
}

/// The rooms visited over three randomised walks from `start`, added up
/// (their average is the exploration measure of the fitness).
pub fn dfs_total_rooms_visited(tree: &DungeonTree, grid: &DungeonGrid, start: usize, content: &[RoomContent], rng: &mut Rng) -> (r: usize)
    requires
        tree.wf(),
        grid.wf(),
        ids_below(*grid, tree.n()),
        start < tree.n(),
        tree.n() <= usize::MAX / 3,
    ensures
        3 <= r <= 3 * tree.n(),
        exists|w1: Seq<usize>, w2: Seq<usize>, w3: Seq<usize>|
            #![trigger grid_walk(*grid, start, w1), grid_walk(*grid, start, w2), grid_walk(*grid, start, w3)]
            grid_walk(*grid, start, w1) && grid_walk(*grid, start, w2) && grid_walk(*grid, start, w3)
                && r == w1.len() + w2.len() + w3.len(),
        exists|goal: usize| #[trigger] goal_choice(*tree, None, Seq::<RoomContent>::empty(), goal as int) && goal < tree.n() && {
            let w1 = dfs_walk(*tree, *grid, content@, goal, start, old(rng)@);
            let w2 = dfs_walk(*tree, *grid, content@, goal, start, w1.1);
            let w3 = dfs_walk(*tree, *grid, content@, goal, start, w2.1);
            &&& r == w1.0.len() + w2.0.len() + w3.0.len()
            &&& final(rng)@ == w3.1
        },
{
    let goal_id = find_goal(tree);
    let a = dfs_rooms_visited(tree, grid, start, goal_id, content, rng);
    let b = dfs_rooms_visited(tree, grid, start, goal_id, content, rng);
    let c = dfs_rooms_visited(tree, grid, start, goal_id, content, rng);
    a + b + c
}


// ── A* ──────────────────────────────────────────────────────────────────────

/// The A* search counts path costs and locks in 32 bits, so it gives up (as
/// if the goal were unreachable) once it has made this many expansions,
/// before a cost could pass the 32-bit range.
pub const SEARCH_FUEL: u64 = 0xffff_ffff;

/// A search state: estimated total cost, cost so far, room, key mask,
/// switch mask, locks opened.
pub type SearchState = (u64, u64, usize, u64, u64, u64);

/// `a` comes out of the open list before `b`: lower estimate first, then
/// the larger cost so far, room, key mask, switch mask and lock count.
pub open spec fn pops_before(a: SearchState, b: SearchState) -> bool {
    if a.0 != b.0 {
        a.0 < b.0
    } else if a.1 != b.1 {
        a.1 > b.1
    } else if a.2 != b.2 {
        a.2 > b.2
    } else if a.3 != b.3 {
        a.3 > b.3
    } else if a.4 != b.4 {
        a.4 > b.4
    } else {
        a.5 >= b.5
    }
}

fn pops_before_exec(a: &SearchState, b: &SearchState) -> (r: bool)
    ensures
        r == pops_before(*a, *b),
{
    if a.0 != b.0 {
        a.0 < b.0
    } else if a.1 != b.1 {
        a.1 > b.1
    } else if a.2 != b.2 {
        a.2 > b.2
    } else if a.3 != b.3 {
        a.3 > b.3
    } else if a.4 != b.4 {
        a.4 > b.4
    } else {
        a.5 >= b.5
    }
}

/// Manhattan distance between two grid positions.
fn manhattan_between(a: (i32, i32), b: (i32, i32)) -> (r: u64)
    ensures
        r == (if a.0 >= b.0 { a.0 - b.0 } else { b.0 - a.0 }) + (if a.1 >= b.1 { a.1 - b.1 } else { b.1 - a.1 }),
{
    let dx: i64 = if a.0 >= b.0 { a.0 as i64 - b.0 as i64 } else { b.0 as i64 - a.0 as i64 };
    let dy: i64 = if a.1 >= b.1 { a.1 as i64 - b.1 as i64 } else { b.1 as i64 - a.1 as i64 };
    dx as u64 + dy as u64
}

/// The key and switch masks after entering `room` holding `km` and `swm`:
/// its key (ids below 64) is added and its switch (ids below 64) toggled.
pub open spec fn masks_after(tree: DungeonTree, content: Seq<RoomContent>, room: int, km: u64, swm: u64) -> (u64, u64) {
    let k2 = match tree.rooms@[room].kind {
        RoomKind::Key { key_id } => if key_id < 64 { km | (1u64 << (key_id as u64)) } else { km },
        _ => km,
    };
    let s2 = if tree.rooms@[room].kind is Switch && room < content.len() && content[room].switch is Some
        && content[room].switch.unwrap().switch_id < 64 {
        swm ^ (1u64 << (content[room].switch.unwrap().switch_id as u64))
    } else {
        swm
    };
    (k2, s2)
}

/// One move of the search from room `a.0` (entered with masks `a.1`,
/// `a.2`) to a grid neighbour `b.0` that is the goal or passable with the
/// masks after collecting the items of `a.0`; `b` carries those masks.
pub open spec fn search_step(tree: DungeonTree, grid: DungeonGrid, content: Seq<RoomContent>, goal: usize, a: (usize, u64, u64), b: (usize, u64, u64)) -> bool {
    let m = masks_after(tree, content, a.0 as int, a.1, a.2);
    &&& grid.neighbours_of(a.0).contains(b.0)
    &&& b.1 == m.0
    &&& b.2 == m.1
    &&& (b.0 == goal || passable(tree, content, b.0 as int, m.0, m.1))
}

/// Entry `j` of `w` follows entry `j - 1` by one move of the search.
pub open spec fn step_at(tree: DungeonTree, grid: DungeonGrid, content: Seq<RoomContent>, goal: usize, w: Seq<(usize, u64, u64)>, j: int) -> bool {
    search_step(tree, grid, content, goal, w[j - 1], w[j])
}

/// A walk of the search: it starts at `start` with no key and no switch
/// on, and every entry follows the previous one by a move.
pub open spec fn search_walk(tree: DungeonTree, grid: DungeonGrid, content: Seq<RoomContent>, start: usize, goal: usize, w: Seq<(usize, u64, u64)>) -> bool {
    &&& w.len() > 0
    &&& w[0] == (start, 0u64, 0u64)
    &&& forall|j: int| 0 < j < w.len() ==> #[trigger] step_at(tree, grid, content, goal, w, j)
}

/// Number of locked rooms entered along a walk (its first room excluded).
pub open spec fn locks_entered(tree: DungeonTree, w: Seq<(usize, u64, u64)>) -> nat
    decreases w.len(),
{
    if w.len() <= 1 {
        0
    } else {
        locks_entered(tree, w.drop_last()) + if tree.rooms@[w.last().0 as int].kind is Locked {
            1nat
        } else {
            0nat
        }
    }
}

/// The open entry `e` is backed by a walk of the search that ends in its
/// room with its masks and entered as many locked rooms as it counts.
pub open spec fn entry_backed(tree: DungeonTree, grid: DungeonGrid, content: Seq<RoomContent>, start: usize, goal: usize, e: SearchState) -> bool {
    exists|w: Seq<(usize, u64, u64)>|
        #[trigger] search_walk(tree, grid, content, start, goal, w) && w.last() == (e.2, e.3, e.4) && locks_entered(tree, w) == e.5
}

/// The entry of the open list that comes out next: scanning from entry `q`
/// with `pick` the best so far, an entry replaces it when it pops before it.
pub open spec fn pick_best(open: Seq<SearchState>, q: int, pick: int) -> int
    decreases open.len() - q,
{
    if 1 <= q < open.len() {
        pick_best(open, q + 1, if pops_before(open[q], open[pick]) { q } else { pick })
    } else {
        pick
    }
}

/// The first entry of `best`, from `b` on, for room `room` with masks `km`
/// and `sm`; `-1` when there is none.
pub open spec fn find_best(best: Seq<(usize, u64, u64, u64)>, room: usize, km: u64, sm: u64, b: int) -> int
    decreases best.len() - b,
{
    if 0 <= b < best.len() {
        if best[b].0 == room && best[b].1 == km && best[b].2 == sm {
            b
        } else {
            find_best(best, room, km, sm, b + 1)
        }
    } else {
        -1
    }
}

/// The open list after the moves from entry `cur` to its neighbours
/// `nbs[k..]` with masks `km`, `sm`: a neighbour that is the goal or
/// passable joins the list, one step further, unless `best` already holds
/// its state at no greater cost.
pub open spec fn astar_push(tree: DungeonTree, grid: DungeonGrid, content: Seq<RoomContent>, goal: usize, goal_pos: (i32, i32),
    best: Seq<(usize, u64, u64, u64)>, nbs: Seq<usize>, k: int, cur: SearchState, km: u64, sm: u64, open: Seq<SearchState>) -> Seq<SearchState>
    decreases nbs.len() - k,
{
    if 0 <= k < nbs.len() {
        let nb = nbs[k];
        if nb == goal || passable(tree, content, nb as int, km, sm) {
            let new_locks = if tree.rooms@[nb as int].kind is Locked { (cur.5 + 1) as u64 } else { cur.5 };
            let new_g = (cur.1 + 1) as u64;
            let np = match grid.pos_of_room(nb) {
                Some(p) => p,
                None => goal_pos,
            };
            let at = find_best(best, nb, km, sm, 0);
            let open2 = if at < 0 || best[at].3 > new_g {
                open.push(((new_g + manhattan_between_spec(np, goal_pos)) as u64, new_g, nb, km, sm, new_locks))
            } else {
                open
            };
            astar_push(tree, grid, content, goal, goal_pos, best, nbs, k + 1, cur, km, sm, open2)
        } else {
            astar_push(tree, grid, content, goal, goal_pos, best, nbs, k + 1, cur, km, sm, open)
        }
    } else {
        open
    }
}

/// The A* search from the open list `open` and the best costs `best`,
/// after `fuel` expansions: take the entry that pops first; at the goal,
/// give its lock count; skip a state already reached at no greater cost;
/// otherwise record its cost, collect its key and toggle its switch, and
/// add the moves to its neighbours. Nothing found when the list runs dry
/// or the fuel is spent.
pub open spec fn astar_run(tree: DungeonTree, grid: DungeonGrid, content: Seq<RoomContent>, goal: usize, goal_pos: (i32, i32),
    open: Seq<SearchState>, best: Seq<(usize, u64, u64, u64)>, fuel: int) -> Option<u32>
    decreases SEARCH_FUEL - fuel,
{
    if open.len() > 0 && 0 <= fuel < SEARCH_FUEL {
        let pick = pick_best(open, 1, 0);
        let cur = open[pick];
        let open1 = open.update(pick, open.last()).drop_last();
        if cur.2 == goal {
            Some(cur.5 as u32)
        } else {
            let at = find_best(best, cur.2, cur.3, cur.4, 0);
            if at >= 0 && best[at].3 <= cur.1 {
                astar_run(tree, grid, content, goal, goal_pos, open1, best, fuel + 1)
            } else {
                let best1 = if at >= 0 { best.update(at, (cur.2, cur.3, cur.4, cur.1)) } else { best.push((cur.2, cur.3, cur.4, cur.1)) };
                let m = masks_after(tree, content, cur.2 as int, cur.3, cur.4);
                let open2 = astar_push(tree, grid, content, goal, goal_pos, best1, grid.neighbours_of(cur.2), 0, cur, m.0, m.1, open1);
                astar_run(tree, grid, content, goal, goal_pos, open2, best1, fuel + 1)
            }
        }
    } else {
        None
    }
}

/// Whether the A* search from `open` and `best` spends its fuel with
/// entries still waiting, following the same steps as [`astar_run`].
pub open spec fn astar_spent(tree: DungeonTree, grid: DungeonGrid, content: Seq<RoomContent>, goal: usize, goal_pos: (i32, i32),
    open: Seq<SearchState>, best: Seq<(usize, u64, u64, u64)>, fuel: int) -> bool
    decreases SEARCH_FUEL - fuel,
{
    if open.len() > 0 && 0 <= fuel < SEARCH_FUEL {
        let pick = pick_best(open, 1, 0);
        let cur = open[pick];
        let open1 = open.update(pick, open.last()).drop_last();
        if cur.2 == goal {
            false
        } else {
            let at = find_best(best, cur.2, cur.3, cur.4, 0);
            if at >= 0 && best[at].3 <= cur.1 {
                astar_spent(tree, grid, content, goal, goal_pos, open1, best, fuel + 1)
            } else {
                let best1 = if at >= 0 { best.update(at, (cur.2, cur.3, cur.4, cur.1)) } else { best.push((cur.2, cur.3, cur.4, cur.1)) };
                let m = masks_after(tree, content, cur.2 as int, cur.3, cur.4);
                let open2 = astar_push(tree, grid, content, goal, goal_pos, best1, grid.neighbours_of(cur.2), 0, cur, m.0, m.1, open1);
                astar_spent(tree, grid, content, goal, goal_pos, open2, best1, fuel + 1)
            }
        }
    } else {
        open.len() > 0
    }
}

/// The A* search from `start` to `goal` stops for want of fuel.
pub open spec fn astar_gave_up(tree: DungeonTree, grid: DungeonGrid, content: Seq<RoomContent>, start: usize, goal: usize) -> bool {
    grid.placed(start) && grid.placed(goal) && {
        let sp = grid.pos_of_room(start).unwrap();
        let gp = grid.pos_of_room(goal).unwrap();
        astar_spent(tree, grid, content, goal, gp, seq![(manhattan_between_spec(sp, gp), 0u64, start, 0u64, 0u64, 0u64)], Seq::empty(), 0)
    }
}

/// The state `s` (room and masks) is held by `best` or by an open entry.
pub open spec fn state_covered(open: Seq<SearchState>, best: Seq<(usize, u64, u64, u64)>, s: (usize, u64, u64)) -> bool {
    ||| exists|i: int| 0 <= i < best.len() && (#[trigger] best[i]).0 == s.0 && best[i].1 == s.1 && best[i].2 == s.2
    ||| exists|q: int| 0 <= q < open.len() && (#[trigger] open[q]).2 == s.0 && open[q].3 == s.1 && open[q].4 == s.2
}

/// Every move of the search out of a state that `best` holds leads to a
/// covered state, and `best` holds no state in the goal room.
#[verifier::opaque]
pub open spec fn search_closed(tree: DungeonTree, grid: DungeonGrid, content: Seq<RoomContent>, goal: usize,
    open: Seq<SearchState>, best: Seq<(usize, u64, u64, u64)>) -> bool {
    &&& forall|i: int| 0 <= i < best.len() ==> (#[trigger] best[i]).0 != goal
    &&& forall|i: int, s: (usize, u64, u64)| 0 <= i < best.len()
        && #[trigger] search_step(tree, grid, content, goal, (best[i].0, best[i].1, best[i].2), s)
        ==> state_covered(open, best, s)
}

/// What `find_best` gives: the first matching entry, or `-1` with none.
proof fn lemma_find_best(best: Seq<(usize, u64, u64, u64)>, room: usize, km: u64, sm: u64, b: int)
    requires
        0 <= b,
    ensures
        find_best(best, room, km, sm, b) >= 0 ==> b <= find_best(best, room, km, sm, b) < best.len() && {
            let at = find_best(best, room, km, sm, b);
            best[at].0 == room && best[at].1 == km && best[at].2 == sm
        },
        find_best(best, room, km, sm, b) < 0 ==> find_best(best, room, km, sm, b) == -1
            && forall|i: int| b <= i < best.len() ==> !((#[trigger] best[i]).0 == room && best[i].1 == km && best[i].2 == sm),
    decreases best.len() - b,
{
    if b < best.len() {
        lemma_find_best(best, room, km, sm, b + 1);
    }
}

/// With nothing left open, a closed search reaches no state in the goal
/// room from the start: every state of a walk is held by `best`.
proof fn lemma_search_exhausted(tree: DungeonTree, grid: DungeonGrid, content: Seq<RoomContent>, start: usize, goal: usize,
    best: Seq<(usize, u64, u64, u64)>, w: Seq<(usize, u64, u64)>, k: int)
    requires
        search_closed(tree, grid, content, goal, Seq::empty(), best),
        state_covered(Seq::empty(), best, (start, 0u64, 0u64)),
        search_walk(tree, grid, content, start, goal, w),
        0 <= k < w.len(),
    ensures
        state_covered(Seq::<SearchState>::empty(), best, w[k]),
        w[k].0 != goal,
    decreases k,
{
    reveal(search_closed);
    if k > 0 {
        lemma_search_exhausted(tree, grid, content, start, goal, best, w, k - 1);
        let i = choose|i: int| 0 <= i < best.len() && (#[trigger] best[i]).0 == w[k - 1].0 && best[i].1 == w[k - 1].1 && best[i].2 == w[k - 1].2;
        assert(step_at(tree, grid, content, goal, w, k));
        assert((best[i].0, best[i].1, best[i].2) == w[k - 1]);
        assert(search_step(tree, grid, content, goal, (best[i].0, best[i].1, best[i].2), w[k]));
    }
    let i = choose|i: int| 0 <= i < best.len() && (#[trigger] best[i]).0 == w[k].0 && best[i].1 == w[k].1 && best[i].2 == w[k].2;
}

/// `b1` keeps the states of `b0` at their places, and may hold more.
pub open spec fn best_extends(b0: Seq<(usize, u64, u64, u64)>, b1: Seq<(usize, u64, u64, u64)>) -> bool {
    &&& b0.len() <= b1.len()
    &&& forall|i: int| 0 <= i < b0.len() ==> (#[trigger] b1[i]).0 == b0[i].0 && b1[i].1 == b0[i].1 && b1[i].2 == b0[i].2
}

/// Every move out of a state of `best` other than `x` leads to a covered state.
#[verifier::opaque]
pub open spec fn closed_but(tree: DungeonTree, grid: DungeonGrid, content: Seq<RoomContent>, goal: usize,
    open: Seq<SearchState>, best: Seq<(usize, u64, u64, u64)>, x: (usize, u64, u64)) -> bool {
    forall|i: int, s: (usize, u64, u64)| 0 <= i < best.len() && (best[i].0, best[i].1, best[i].2) != x
        && #[trigger] search_step(tree, grid, content, goal, (best[i].0, best[i].1, best[i].2), s)
        ==> state_covered(open, best, s)
}

/// What holds while the moves out of `x` to `nbs[..k]` are added.
#[verifier::opaque]
pub open spec fn moves_added(tree: DungeonTree, grid: DungeonGrid, content: Seq<RoomContent>, goal: usize, start: usize,
    open: Seq<SearchState>, best: Seq<(usize, u64, u64, u64)>, x: (usize, u64, u64), nbs: Seq<usize>, k: int, km: u64, swm: u64) -> bool {
    &&& closed_but(tree, grid, content, goal, open, best, x)
    &&& state_covered(open, best, (start, 0u64, 0u64))
    &&& state_covered(open, best, x)
    &&& forall|q: int| 0 <= q < k && (nbs[q] == goal || passable(tree, content, nbs[q] as int, km, swm))
        ==> state_covered(open, best, (#[trigger] nbs[q], km, swm))
}

/// Taking entry `pick` off the open list and keeping `best` (or growing
/// it) leaves covered every state that stays covered by what was taken.
proof fn lemma_cover_pop(open0: Seq<SearchState>, best0: Seq<(usize, u64, u64, u64)>, pick: int,
    best1: Seq<(usize, u64, u64, u64)>, s: (usize, u64, u64))
    requires
        0 <= pick < open0.len(),
        best_extends(best0, best1),
        state_covered(open0.update(pick, open0.last()).drop_last(), best1, (open0[pick].2, open0[pick].3, open0[pick].4)),
        state_covered(open0, best0, s),
    ensures
        state_covered(open0.update(pick, open0.last()).drop_last(), best1, s),
{
    let open1 = open0.update(pick, open0.last()).drop_last();
    if exists|i: int| 0 <= i < best0.len() && (#[trigger] best0[i]).0 == s.0 && best0[i].1 == s.1 && best0[i].2 == s.2 {
        let i = choose|i: int| 0 <= i < best0.len() && (#[trigger] best0[i]).0 == s.0 && best0[i].1 == s.1 && best0[i].2 == s.2;
        assert(best1[i].0 == s.0 && best1[i].1 == s.1 && best1[i].2 == s.2);
    } else {
        let q = choose|q: int| 0 <= q < open0.len() && (#[trigger] open0[q]).2 == s.0 && open0[q].3 == s.1 && open0[q].4 == s.2;
        if q == pick {
            assert(s == (open0[pick].2, open0[pick].3, open0[pick].4));
        } else if q == open0.len() - 1 {
            assert(open1[pick] == open0[q]);
        } else {
            assert(open1[q] == open0[q]);
        }
    }
}

/// After the entry for state `x` is taken off the list and `x` recorded in
/// `best1`, everything but the moves out of `x` stays covered.
proof fn lemma_expand_begin(tree: DungeonTree, grid: DungeonGrid, content: Seq<RoomContent>, goal: usize, start: usize,
    open0: Seq<SearchState>, best0: Seq<(usize, u64, u64, u64)>, pick: int, best1: Seq<(usize, u64, u64, u64)>, nbs: Seq<usize>, km: u64, swm: u64)
    requires
        0 <= pick < open0.len(),
        search_closed(tree, grid, content, goal, open0, best0),
        state_covered(open0, best0, (start, 0u64, 0u64)),
        best_extends(best0, best1),
        best1.len() <= best0.len() + 1,
        best1.len() == best0.len() + 1 ==> ({
            let l = best1.last();
            (l.0, l.1, l.2) == (open0[pick].2, open0[pick].3, open0[pick].4)
        }),
        state_covered(open0.update(pick, open0.last()).drop_last(), best1, (open0[pick].2, open0[pick].3, open0[pick].4)),
    ensures
        moves_added(tree, grid, content, goal, start, open0.update(pick, open0.last()).drop_last(), best1,
            (open0[pick].2, open0[pick].3, open0[pick].4), nbs, 0, km, swm),
{
    reveal(search_closed);
    reveal(closed_but);
    reveal(moves_added);
    let open1 = open0.update(pick, open0.last()).drop_last();
    let x = (open0[pick].2, open0[pick].3, open0[pick].4);
    lemma_cover_pop(open0, best0, pick, best1, (start, 0u64, 0u64));
    assert forall|i: int, s: (usize, u64, u64)| 0 <= i < best1.len() && (best1[i].0, best1[i].1, best1[i].2) != x
        && #[trigger] search_step(tree, grid, content, goal, (best1[i].0, best1[i].1, best1[i].2), s)
        implies state_covered(open1, best1, s) by {
        assert(i < best0.len());
        assert((best1[i].0, best1[i].1, best1[i].2) == (best0[i].0, best0[i].1, best0[i].2));
        assert(search_step(tree, grid, content, goal, (best0[i].0, best0[i].1, best0[i].2), s));
        lemma_cover_pop(open0, best0, pick, best1, s);
    }
}

/// Adding an entry to the open list keeps what was covered covered.
proof fn lemma_moves_push(tree: DungeonTree, grid: DungeonGrid, content: Seq<RoomContent>, goal: usize, start: usize,
    open: Seq<SearchState>, best: Seq<(usize, u64, u64, u64)>, x: (usize, u64, u64), nbs: Seq<usize>, k: int, km: u64, swm: u64, e: SearchState)
    requires
        moves_added(tree, grid, content, goal, start, open, best, x, nbs, k, km, swm),
    ensures
        moves_added(tree, grid, content, goal, start, open.push(e), best, x, nbs, k, km, swm),
{
    reveal(closed_but);
    reveal(moves_added);
    assert forall|s: (usize, u64, u64)| state_covered(open, best, s) implies state_covered(open.push(e), best, s) by {
        if exists|q: int| 0 <= q < open.len() && (#[trigger] open[q]).2 == s.0 && open[q].3 == s.1 && open[q].4 == s.2 {
            let q = choose|q: int| 0 <= q < open.len() && (#[trigger] open[q]).2 == s.0 && open[q].3 == s.1 && open[q].4 == s.2;
            assert(open.push(e)[q] == open[q]);
        }
    }
}

/// Once the moves out of `x` to all its neighbours are covered, the
/// search is closed again.
proof fn lemma_moves_done(tree: DungeonTree, grid: DungeonGrid, content: Seq<RoomContent>, goal: usize, start: usize,
    open: Seq<SearchState>, best: Seq<(usize, u64, u64, u64)>, x: (usize, u64, u64), nbs: Seq<usize>, km: u64, swm: u64)
    requires
        moves_added(tree, grid, content, goal, start, open, best, x, nbs, nbs.len() as int, km, swm),
        nbs == grid.neighbours_of(x.0),
        masks_after(tree, content, x.0 as int, x.1, x.2) == (km, swm),
        forall|i: int| 0 <= i < best.len() ==> (#[trigger] best[i]).0 != goal,
    ensures
        search_closed(tree, grid, content, goal, open, best),
        state_covered(open, best, (start, 0u64, 0u64)),
{
    reveal(search_closed);
    reveal(closed_but);
    reveal(moves_added);
    assert forall|i: int, s: (usize, u64, u64)| 0 <= i < best.len()
        && #[trigger] search_step(tree, grid, content, goal, (best[i].0, best[i].1, best[i].2), s)
        implies state_covered(open, best, s) by {
        if (best[i].0, best[i].1, best[i].2) == x {
            assert(nbs.contains(s.0));
            let q = choose|q: int| 0 <= q < nbs.len() && nbs[q] == s.0;
            assert(s == (nbs[q], km, swm));
        }
    }
}

/// Taking off the list an entry whose state `best` already holds keeps the
/// search closed.
proof fn lemma_skip_closed(tree: DungeonTree, grid: DungeonGrid, content: Seq<RoomContent>, goal: usize, start: usize,
    open0: Seq<SearchState>, best: Seq<(usize, u64, u64, u64)>, pick: int, at: int)
    requires
        0 <= pick < open0.len(),
        0 <= at < best.len(),
        best[at].0 == open0[pick].2 && best[at].1 == open0[pick].3 && best[at].2 == open0[pick].4,
        search_closed(tree, grid, content, goal, open0, best),
        state_covered(open0, best, (start, 0u64, 0u64)),
    ensures
        search_closed(tree, grid, content, goal, open0.update(pick, open0.last()).drop_last(), best),
        state_covered(open0.update(pick, open0.last()).drop_last(), best, (start, 0u64, 0u64)),
{
    reveal(search_closed);
    let open1 = open0.update(pick, open0.last()).drop_last();
    assert(best_extends(best, best));
    assert(state_covered(open1, best, (open0[pick].2, open0[pick].3, open0[pick].4)));
    lemma_cover_pop(open0, best, pick, best, (start, 0u64, 0u64));
    assert forall|i: int, s: (usize, u64, u64)| 0 <= i < best.len()
        && #[trigger] search_step(tree, grid, content, goal, (best[i].0, best[i].1, best[i].2), s)
        implies state_covered(open1, best, s) by {
        lemma_cover_pop(open0, best, pick, best, s);
    }
}

/// One more neighbour handled: its move, where there is one, is covered.
proof fn lemma_moves_step(tree: DungeonTree, grid: DungeonGrid, content: Seq<RoomContent>, goal: usize, start: usize,
    open0: Seq<SearchState>, open: Seq<SearchState>, best: Seq<(usize, u64, u64, u64)>, x: (usize, u64, u64), nbs: Seq<usize>, k: int, km: u64, swm: u64)
    requires
        0 <= k < nbs.len(),
        moves_added(tree, grid, content, goal, start, open0, best, x, nbs, k, km, swm),
        open == open0 || moves_added(tree, grid, content, goal, start, open, best, x, nbs, k, km, swm),
        nbs[k] == goal || passable(tree, content, nbs[k] as int, km, swm) ==> state_covered(open, best, (nbs[k], km, swm)),
    ensures
        moves_added(tree, grid, content, goal, start, open, best, x, nbs, k + 1, km, swm),
{
    reveal(moves_added);
}

/// What the A* search gives from `start` to `goal`: nothing when either is
/// not placed; otherwise the search from the start entry alone.
pub open spec fn astar_result(tree: DungeonTree, grid: DungeonGrid, content: Seq<RoomContent>, start: usize, goal: usize) -> Option<u32> {
    if grid.placed(start) && grid.placed(goal) {
        let sp = grid.pos_of_room(start).unwrap();
        let gp = grid.pos_of_room(goal).unwrap();
        astar_run(tree, grid, content, goal, gp, seq![(manhattan_between_spec(sp, gp), 0u64, start, 0u64, 0u64, 0u64)], Seq::empty(), 0)
    } else {
        None
    }
}

/// The lock count the search gives for a goal entered straight from the
/// start: one when the goal is locked, none otherwise.
pub open spec fn adjacent_locks(tree: DungeonTree, goal: usize) -> u64 {
    if tree.rooms@[goal as int].kind is Locked { 1 } else { 0 }
}

/// The open list holds the goal only at estimate one with the lock count
/// of a straight step, and every other room at estimate two or more.
pub open spec fn goal_first(tree: DungeonTree, goal: usize, open: Seq<SearchState>) -> bool {
    forall|j: int| 0 <= j < open.len() ==> {
        &&& (#[trigger] open[j]).2 == goal ==> open[j].0 == 1 && open[j].5 == adjacent_locks(tree, goal)
        &&& open[j].2 != goal ==> open[j].0 >= 2
    }
}

/// Some entry of `open` is in the goal room.
pub open spec fn holds_goal(open: Seq<SearchState>, goal: usize) -> bool {
    exists|j: int| 0 <= j < open.len() && (#[trigger] open[j]).2 == goal
}

/// The entry that pops first has the lowest estimate of the open list.
proof fn lemma_pick_best_lowest(open: Seq<SearchState>, q: int, pick: int)
    requires
        1 <= q,
        0 <= pick < open.len(),
        forall|j: int| 0 <= j < q && j < open.len() ==> open[pick].0 <= (#[trigger] open[j]).0,
    ensures
        0 <= pick_best(open, q, pick) < open.len(),
        forall|j: int| 0 <= j < open.len() ==> open[pick_best(open, q, pick)].0 <= (#[trigger] open[j]).0,
    decreases open.len() - q,
{
    if q < open.len() {
        let next = if pops_before(open[q], open[pick]) { q } else { pick };
        assert forall|j: int| 0 <= j < q + 1 && j < open.len() implies open[next].0 <= (#[trigger] open[j]).0 by {
            if j < q {
                assert(open[pick].0 <= open[j].0);
            }
        }
        lemma_pick_best_lowest(open, q + 1, next);
    }
}

/// The moves out of the start entry to its neighbours keep the goal first.
proof fn lemma_first_moves(tree: DungeonTree, grid: DungeonGrid, content: Seq<RoomContent>, goal: usize, gp: (i32, i32),
    best: Seq<(usize, u64, u64, u64)>, nbs: Seq<usize>, k: int, cur: SearchState, km: u64, sm: u64, open: Seq<SearchState>)
    requires
        0 <= k,
        forall|i: int| 0 <= i < best.len() ==> (#[trigger] best[i]).0 != goal,
        cur.1 == 0,
        cur.5 == 0,
        grid.pos_of_room(goal) == Some(gp),
        forall|j: int| 0 <= j < nbs.len() ==> grid.pos_of_room(#[trigger] nbs[j]) is Some
            && (nbs[j] != goal ==> manhattan_between_spec(grid.pos_of_room(nbs[j]).unwrap(), gp) >= 1),
        goal_first(tree, goal, open),
    ensures
        goal_first(tree, goal, astar_push(tree, grid, content, goal, gp, best, nbs, k, cur, km, sm, open)),
        (exists|j: int| k <= j < nbs.len() && nbs[j] == goal) || holds_goal(open, goal)
            ==> holds_goal(astar_push(tree, grid, content, goal, gp, best, nbs, k, cur, km, sm, open), goal),
    decreases nbs.len() - k,
{
    if k < nbs.len() {
        let nb = nbs[k];
        if exists|j: int| k <= j < nbs.len() && nbs[j] == goal {
            let j = choose|j: int| k <= j < nbs.len() && nbs[j] == goal;
            if j > k {
                assert(k + 1 <= j < nbs.len() && nbs[j] == goal);
            }
        }
        if nb == goal || passable(tree, content, nb as int, km, sm) {
            let new_locks = if tree.rooms@[nb as int].kind is Locked { (cur.5 + 1) as u64 } else { cur.5 };
            let new_g = (cur.1 + 1) as u64;
            let np = grid.pos_of_room(nb).unwrap();
            lemma_find_best(best, nb, km, sm, 0);
            let at = find_best(best, nb, km, sm, 0);
            let e = ((new_g + manhattan_between_spec(np, gp)) as u64, new_g, nb, km, sm, new_locks);
            let open2 = if at < 0 || best[at].3 > new_g { open.push(e) } else { open };
            if nb == goal {
                assert(at < 0);
                assert(manhattan_between_spec(gp, gp) == 0);
                assert(open2 == open.push(e));
                assert(open2[open.len() as int].2 == goal);
            }
            assert(goal_first(tree, goal, open2)) by {
                assert forall|j: int| 0 <= j < open2.len() implies {
                    &&& (#[trigger] open2[j]).2 == goal ==> open2[j].0 == 1 && open2[j].5 == adjacent_locks(tree, goal)
                    &&& open2[j].2 != goal ==> open2[j].0 >= 2
                } by {
                    if j < open.len() {
                        assert(open2[j] == open[j]);
                    }
                }
            }
            if holds_goal(open, goal) {
                let j = choose|j: int| 0 <= j < open.len() && (#[trigger] open[j]).2 == goal;
                assert(open2[j] == open[j]);
                assert(holds_goal(open2, goal));
            }
            if nb == goal {
                assert(holds_goal(open2, goal));
            }
            lemma_first_moves(tree, grid, content, goal, gp, best, nbs, k + 1, cur, km, sm, open2);
        } else {
            lemma_first_moves(tree, grid, content, goal, gp, best, nbs, k + 1, cur, km, sm, open);
        }
    }
}

/// A grid neighbour of a placed room is placed, and stands on another
/// cell than the goal unless it is the goal.
#[verifier::rlimit(50)]
proof fn lemma_neighbour_cell(grid: DungeonGrid, start: usize, goal: usize, nb: usize)
    requires
        grid.wf(),
        grid.placed(start),
        grid.placed(goal),
        grid.neighbours_of(start).contains(nb),
    ensures
        grid.pos_of_room(nb) is Some,
        nb != goal ==> manhattan_between_spec(grid.pos_of_room(nb).unwrap(), grid.pos_of_room(goal).unwrap()) >= 1,
{
    let sp = grid.pos_of_room(start).unwrap();
    let gp = grid.pos_of_room(goal).unwrap();
    crate::layout::lemma_room_on_own_pos(grid, goal);
    crate::grid::lemma_neighbours_pos_contains(grid, sp, nb);
    if grid.room_on((sp.0 + 1, sp.1 as int)) == Some(nb) {
        crate::grid::lemma_room_on_iff(grid, (sp.0 + 1, sp.1 as int), nb);
    } else if grid.room_on((sp.0 - 1, sp.1 as int)) == Some(nb) {
        crate::grid::lemma_room_on_iff(grid, (sp.0 - 1, sp.1 as int), nb);
    } else if grid.room_on((sp.0 as int, sp.1 + 1)) == Some(nb) {
        crate::grid::lemma_room_on_iff(grid, (sp.0 as int, sp.1 + 1), nb);
    } else {
        crate::grid::lemma_room_on_iff(grid, (sp.0 as int, sp.1 - 1), nb);
    }
    if nb != goal {
        crate::grid::lemma_room_on_iff(grid, (gp.0 as int, gp.1 as int), nb);
        assert(grid.pos_of_room(nb).unwrap() != gp);
        lemma_manhattan_apart(grid.pos_of_room(nb).unwrap(), gp);
    }
}

/// Two different cells lie at Manhattan distance one or more.
proof fn lemma_manhattan_apart(a: (i32, i32), b: (i32, i32))
    requires
        a != b,
    ensures
        manhattan_between_spec(a, b) >= 1,
{
    let d = (if a.0 >= b.0 { a.0 - b.0 } else { b.0 - a.0 }) + (if a.1 >= b.1 { a.1 - b.1 } else { b.1 - a.1 });
    assert(1 <= d <= 0x2_0000_0000);
    assert(d as u64 == d);
}

/// Every grid neighbour of a placed room is placed, and one other than
/// the goal stands on another cell than the goal.
proof fn lemma_neighbour_cells(grid: DungeonGrid, start: usize, goal: usize)
    requires
        grid.wf(),
        grid.placed(start),
        grid.placed(goal),
    ensures
        forall|j: int| 0 <= j < grid.neighbours_of(start).len() ==> grid.pos_of_room(#[trigger] grid.neighbours_of(start)[j]) is Some
            && (grid.neighbours_of(start)[j] != goal ==> manhattan_between_spec(grid.pos_of_room(grid.neighbours_of(start)[j]).unwrap(),
                grid.pos_of_room(goal).unwrap()) >= 1),
{
    let sp = grid.pos_of_room(start).unwrap();
    let gp = grid.pos_of_room(goal).unwrap();
    let nbs = grid.neighbours_of(start);
    crate::layout::lemma_room_on_own_pos(grid, goal);
    assert forall|j: int| 0 <= j < nbs.len() implies grid.pos_of_room(#[trigger] nbs[j]) is Some
        && (nbs[j] != goal ==> manhattan_between_spec(grid.pos_of_room(nbs[j]).unwrap(), gp) >= 1) by {
        assert(nbs.contains(nbs[j]));
        lemma_neighbour_cell(grid, start, goal, nbs[j]);
    }
}

/// When the goal is a grid neighbour of the start, A* takes the direct
/// step: the result counts one lock when the goal itself is locked and
/// none otherwise, whatever the rest of the dungeon holds.
pub proof fn lemma_astar_neighbour_goal(tree: DungeonTree, grid: DungeonGrid, content: Seq<RoomContent>, start: usize, goal: usize)
    requires
        grid.wf(),
        grid.placed(start),
        grid.placed(goal),
        start != goal,
        grid.neighbours_of(start).contains(goal),
    ensures
        astar_result(tree, grid, content, start, goal) == Some(adjacent_locks(tree, goal) as u32),
{
    lemma_astar_neighbour_run(tree, grid, content, start, goal);
}

/// The two expansions of the search for a goal next to the start.
#[verifier::rlimit(60)]
proof fn lemma_astar_neighbour_run(tree: DungeonTree, grid: DungeonGrid, content: Seq<RoomContent>, start: usize, goal: usize)
    requires
        grid.wf(),
        grid.placed(start),
        grid.placed(goal),
        start != goal,
        grid.neighbours_of(start).contains(goal),
    ensures
        astar_result(tree, grid, content, start, goal) == Some(adjacent_locks(tree, goal) as u32),
{
    let sp = grid.pos_of_room(start).unwrap();
    let gp = grid.pos_of_room(goal).unwrap();
    let nbs = grid.neighbours_of(start);
    lemma_neighbour_cells(grid, start, goal);
    let s0 = (manhattan_between_spec(sp, gp), 0u64, start, 0u64, 0u64, 0u64);
    let open0 = seq![s0];
    let best0 = Seq::<(usize, u64, u64, u64)>::empty();
    assert(pick_best(open0, 1, 0) == 0);
    lemma_find_best(best0, start, 0, 0, 0);
    let best1 = best0.push((start, 0u64, 0u64, 0u64));
    let open1 = open0.update(0, open0.last()).drop_last();
    assert(open1 =~= Seq::<SearchState>::empty());
    let m = masks_after(tree, content, start as int, 0, 0);
    let open2 = astar_push(tree, grid, content, goal, gp, best1, nbs, 0, s0, m.0, m.1, open1);
    let j0 = choose|j: int| 0 <= j < nbs.len() && nbs[j] == goal;
    lemma_first_moves(tree, grid, content, goal, gp, best1, nbs, 0, s0, m.0, m.1, open1);
    assert(holds_goal(open2, goal));
    let jg = choose|j: int| 0 <= j < open2.len() && (#[trigger] open2[j]).2 == goal;
    lemma_pick_best_lowest(open2, 1, 0);
    let pick = pick_best(open2, 1, 0);
    assert(open2[pick].0 <= open2[jg].0);
    assert(open2[pick].2 == goal);
    reveal_with_fuel(astar_run, 2);
    assert(astar_run(tree, grid, content, goal, gp, open0, best0, 0) == astar_run(tree, grid, content, goal, gp, open2, best1, 1));
}

/// Number of key locks opened on the way from `start` to `goal` in the
/// plain key/lock dungeon (no content).
pub fn astar_locks_opened(tree: &DungeonTree, grid: &DungeonGrid, start: usize, goal: usize) -> (r: Option<u32>)
    requires
        grid.wf(),
        ids_below(*grid, tree.n()),
    ensures
        !grid.placed(start) || !grid.placed(goal) ==> r is None,
        grid.placed(start) && start == goal ==> r == Some(0u32),
        r matches Some(k) ==> exists|w: Seq<(usize, u64, u64)>| #[trigger] search_walk(*tree, *grid, Seq::<RoomContent>::empty(), start, goal, w)
            && w.last().0 == goal && locks_entered(*tree, w) == k,
        r == astar_result(*tree, *grid, Seq::<RoomContent>::empty(), start, goal),
        grid.placed(start) && grid.placed(goal) && r is None && !astar_gave_up(*tree, *grid, Seq::<RoomContent>::empty(), start, goal)
            ==> forall|w: Seq<(usize, u64, u64)>| #[trigger] search_walk(*tree, *grid, Seq::<RoomContent>::empty(), start, goal, w) ==> w.last().0 != goal,
{
    let none: &[RoomContent] = &[];
    let r = astar_locks_opened_with_content(tree, grid, start, goal, none);
    proof {
        assert(none@ =~= Seq::<RoomContent>::empty());
    }
    r
}

/// A* from `start` to `goal` over (room, key mask, switch mask) states,
/// returning the number of locked rooms entered on the path found. Keys
/// are collected and switches toggled on entry; a room other than the goal
/// is entered only when passable. Nothing is found only when no walk of
/// the search reaches the goal, unless the search spends its fuel
/// ([`SEARCH_FUEL`] expansions) first.
#[verifier::spinoff_prover]
#[verifier::rlimit(100)]
pub fn astar_locks_opened_with_content(tree: &DungeonTree, grid: &DungeonGrid, start: usize, goal: usize, content: &[RoomContent]) -> (r: Option<u32>)
    requires
        grid.wf(),
        ids_below(*grid, tree.n()),
    ensures
        !grid.placed(start) || !grid.placed(goal) ==> r is None,
        grid.placed(start) && start == goal ==> r == Some(0u32),
        r matches Some(k) ==> exists|w: Seq<(usize, u64, u64)>| #[trigger] search_walk(*tree, *grid, content@, start, goal, w)
            && w.last().0 == goal && locks_entered(*tree, w) == k,
        r == astar_result(*tree, *grid, content@, start, goal),
        grid.placed(start) && grid.placed(goal) && r is None && !astar_gave_up(*tree, *grid, content@, start, goal)
            ==> forall|w: Seq<(usize, u64, u64)>| #[trigger] search_walk(*tree, *grid, content@, start, goal, w) ==> w.last().0 != goal,
{
    let start_pos = match grid.pos_of(start) {
        Some(p) => p,
        None => {
            return None;
        },
    };
    let goal_pos = match grid.pos_of(goal) {
        Some(p) => p,
        None => {
            return None;
        },
    };
    proof {
        let k = grid.index_of(start);
        assert(grid.id_at(k) < tree.n());
    }
    let mut open: Vec<SearchState> = Vec::new();
    let mut best: Vec<(usize, u64, u64, u64)> = Vec::new();
    let h0 = manhattan_between(start_pos, goal_pos);
    open.push((h0, 0, start, 0, 0, 0));
    proof {
        assert(grid.placed(start) && grid.placed(goal));
        assert(h0 == manhattan_between_spec(start_pos, goal_pos));
        let w0 = seq![(start, 0u64, 0u64)];
        assert(search_walk(*tree, *grid, content@, start, goal, w0));
        assert(entry_backed(*tree, *grid, content@, start, goal, open@[0]));
    }
    let mut fuel: u64 = 0;
    proof {
        assert(open@ == seq![(manhattan_between_spec(start_pos, goal_pos), 0u64, start, 0u64, 0u64, 0u64)]);
        assert(best@ =~= Seq::<(usize, u64, u64, u64)>::empty());
        reveal(search_closed);
        assert(open@[0].2 == start && open@[0].3 == 0 && open@[0].4 == 0);
        assert(state_covered(open@, best@, (start, 0u64, 0u64)));
    }
    while open.len() > 0 && fuel < SEARCH_FUEL
        invariant
            astar_run(*tree, *grid, content@, goal, goal_pos, open@, best@, fuel as int) == astar_result(*tree, *grid, content@, start, goal),
            astar_spent(*tree, *grid, content@, goal, goal_pos, open@, best@, fuel as int) == astar_gave_up(*tree, *grid, content@, start, goal),
            search_closed(*tree, *grid, content@, goal, open@, best@),
            state_covered(open@, best@, (start, 0u64, 0u64)),
            forall|i: int| 0 <= i < best@.len() ==> (#[trigger] best@[i]).0 != goal,
            grid.pos_of_room(goal) == Some(goal_pos),
            grid.wf(),
            ids_below(*grid, tree.n()),
            fuel <= SEARCH_FUEL,
            forall|j: int| 0 <= j < open@.len() ==> (#[trigger] open@[j]).2 < tree.n() && open@[j].1 <= fuel && open@[j].5 <= open@[j].1,
            forall|j: int| 0 <= j < open@.len() ==> entry_backed(*tree, *grid, content@, start, goal, #[trigger] open@[j]),
            fuel == 0 ==> open@ == seq![(manhattan_between_spec(start_pos, goal_pos), 0u64, start, 0u64, 0u64, 0u64)],
            start == goal ==> fuel == 0,
            grid.placed(start),
            grid.placed(goal),
        decreases SEARCH_FUEL - fuel,
    {
        let mut pick: usize = 0;
        let mut q: usize = 1;
        let ghost best0 = best@;
        let ghost fuel0 = fuel as int;
        while q < open.len()
            invariant
                1 <= q <= open@.len(),
                pick < open@.len(),
                pick_best(open@, q as int, pick as int) == pick_best(open@, 1, 0),
            decreases open@.len() - q,
        {
            if pops_before_exec(&open[q], &open[pick]) {
                pick = q;
            }
            q = q + 1;
        }
        let ghost open0 = open@;
        let cur = open.swap_remove(pick);
        proof {
            if fuel == 0 {
                assert(open0.len() == 1);
                assert(cur == open0[0]);
            }
            assert(entry_backed(*tree, *grid, content@, start, goal, open0[pick as int]));
            assert forall|j: int| 0 <= j < open@.len() implies entry_backed(*tree, *grid, content@, start, goal, #[trigger] open@[j]) by {
                if j == pick {
                    assert(open@[j] == open0.last());
                    assert(entry_backed(*tree, *grid, content@, start, goal, open0[open0.len() - 1]));
                } else {
                    assert(open@[j] == open0[j]);
                }
            }
        }
        let (_f, g, room_id, key_mask, sw_mask, locks) = cur;
        let ghost open1 = open@;
        proof {
            assert(pick == pick_best(open0, 1, 0));
            assert(open1 == open0.update(pick as int, open0.last()).drop_last());
        }
        let ghost cur_walk = choose|w: Seq<(usize, u64, u64)>|
            #[trigger] search_walk(*tree, *grid, content@, start, goal, w) && w.last() == (room_id, key_mask, sw_mask)
                && locks_entered(*tree, w) == locks;
        if room_id == goal {
            return Some(locks as u32);
        }
        fuel = fuel + 1;
        let mut seen = false;
        let mut at: usize = 0;
        let mut b: usize = 0;
        while b < best.len()
            invariant_except_break
                !seen,
            invariant
                b <= best@.len(),
                !seen ==> at == 0,
                seen ==> at < best@.len(),
                find_best(best@, room_id, key_mask, sw_mask, b as int) == find_best(best@, room_id, key_mask, sw_mask, 0),
            ensures
                seen ==> at < best@.len() && at as int == find_best(best@, room_id, key_mask, sw_mask, 0),
                !seen ==> find_best(best@, room_id, key_mask, sw_mask, 0) == -1,
            decreases best@.len() - b,
        {
            if best[b].0 == room_id && best[b].1 == key_mask && best[b].2 == sw_mask {
                seen = true;
                at = b;
                break;
            }
            b = b + 1;
        }
        if seen && best[at].3 <= g {
            proof {
                assert(astar_run(*tree, *grid, content@, goal, goal_pos, open0, best0, fuel0)
                    == astar_run(*tree, *grid, content@, goal, goal_pos, open@, best@, fuel as int));
                assert(astar_spent(*tree, *grid, content@, goal, goal_pos, open0, best0, fuel0)
                    == astar_spent(*tree, *grid, content@, goal, goal_pos, open@, best@, fuel as int));
                lemma_find_best(best@, room_id, key_mask, sw_mask, 0);
                lemma_skip_closed(*tree, *grid, content@, goal, start, open0, best@, pick as int, at as int);
            }
            continue;
        }
        if seen {
            best.set(at, (room_id, key_mask, sw_mask, g));
        } else {
            best.push((room_id, key_mask, sw_mask, g));
        }
        let ghost best1 = best@;
        proof {
            lemma_find_best(best0, room_id, key_mask, sw_mask, 0);
            assert(best_extends(best0, best1));
            if seen {
                assert(best1[at as int].0 == room_id && best1[at as int].1 == key_mask && best1[at as int].2 == sw_mask);
            } else {
                assert(best1[best1.len() - 1].0 == room_id && best1[best1.len() - 1].1 == key_mask && best1[best1.len() - 1].2 == sw_mask);
            }
            assert(state_covered(open1, best1, (room_id, key_mask, sw_mask)));
            assert((open0[pick as int].2, open0[pick as int].3, open0[pick as int].4) == (room_id, key_mask, sw_mask));
        }
        let mut km = key_mask;
        let mut swm = sw_mask;
        if let RoomKind::Key { key_id } = tree.rooms[room_id].kind {
            if key_id < 64 {
                km = km | (1u64 << (key_id as u64));
            }
        }
        if tree.rooms[room_id].kind.is_switch() && room_id < content.len() {
            match &content[room_id].switch {
                Some(sw) => {
                    if sw.switch_id < 64 {
                        swm = swm ^ (1u64 << (sw.switch_id as u64));
                    }
                },
                None => {},
            }
        }
        let nbs = grid.neighbours(room_id);
        proof {
            lemma_neighbours_below(*grid, tree.n(), room_id);
            assert(masks_after(*tree, content@, room_id as int, key_mask, sw_mask) == (km, swm));
        }
        let mut k: usize = 0;
        proof {
            assert(cur == (_f, g, room_id, key_mask, sw_mask, locks));
            lemma_expand_begin(*tree, *grid, content@, goal, start, open0, best0, pick as int, best1, nbs@, km, swm);
            assert forall|i: int| 0 <= i < best1.len() implies (#[trigger] best1[i]).0 != goal by {
                if i < best0.len() {
                    assert(best1[i].0 == best0[i].0);
                }
            }
        }
        while k < nbs.len()
            invariant
                astar_push(*tree, *grid, content@, goal, goal_pos, best1, nbs@, k as int, cur, km, swm, open@)
                    == astar_push(*tree, *grid, content@, goal, goal_pos, best1, nbs@, 0, cur, km, swm, open1),
                best@ == best1,
                cur == (_f, g, room_id, key_mask, sw_mask, locks),
                grid.pos_of_room(goal) == Some(goal_pos),
                grid.wf(),
                ids_below(*grid, tree.n()),
                forall|q: int| 0 <= q < nbs@.len() ==> #[trigger] nbs@[q] < tree.n(),
                nbs@ == grid.neighbours_of(room_id),
                k <= nbs@.len(),
                g < fuel,
                locks <= g,
                fuel <= SEARCH_FUEL,
                forall|j: int| 0 <= j < open@.len() ==> (#[trigger] open@[j]).2 < tree.n() && open@[j].1 <= fuel && open@[j].5 <= open@[j].1,
                forall|j: int| 0 <= j < open@.len() ==> entry_backed(*tree, *grid, content@, start, goal, #[trigger] open@[j]),
                search_walk(*tree, *grid, content@, start, goal, cur_walk),
                cur_walk.last() == (room_id, key_mask, sw_mask),
                locks_entered(*tree, cur_walk) == locks,
                masks_after(*tree, content@, room_id as int, key_mask, sw_mask) == (km, swm),
                moves_added(*tree, *grid, content@, goal, start, open@, best1, (room_id, key_mask, sw_mask), nbs@, k as int, km, swm),
                forall|i: int| 0 <= i < best1.len() ==> (#[trigger] best1[i]).0 != goal,
            decreases nbs@.len() - k,
        {
            let nb = nbs[k];
            let ghost ob = open@;
            if nb == goal || is_passable(nb, tree, content, km, swm, 0) {
                let ghost new_walk = cur_walk.push((nb, km, swm));
                proof {
                    assert(nbs@[k as int] == nb);
                    assert(grid.neighbours_of(room_id).contains(nb));
                    assert(search_step(*tree, *grid, content@, goal, cur_walk.last(), (nb, km, swm)));
                    assert forall|j: int| 0 < j < new_walk.len() implies #[trigger] step_at(*tree, *grid, content@, goal, new_walk, j) by {
                        if j < cur_walk.len() {
                            assert(step_at(*tree, *grid, content@, goal, cur_walk, j));
                            assert(new_walk[j - 1] == cur_walk[j - 1] && new_walk[j] == cur_walk[j]);
                        } else {
                            assert(new_walk[j - 1] == cur_walk.last());
                        }
                    }
                    assert(search_walk(*tree, *grid, content@, start, goal, new_walk));
                    assert(new_walk.drop_last() == cur_walk);
                }
                let new_locks = if tree.rooms[nb].kind.is_locked() { locks + 1 } else { locks };
                let new_g = g + 1;
                let np = match grid.pos_of(nb) {
                    Some(p) => p,
                    None => goal_pos,
                };
                let mut better = true;
                let mut b2: usize = 0;
                let mut found = false;
                while b2 < best.len()
                    invariant_except_break
                        !found,
                    invariant
                        b2 <= best@.len(),
                        !found ==> better,
                        find_best(best@, nb, km, swm, b2 as int) == find_best(best@, nb, km, swm, 0),
                    ensures
                        better == (find_best(best@, nb, km, swm, 0) < 0 || best@[find_best(best@, nb, km, swm, 0)].3 > new_g),
                    decreases best@.len() - b2,
                {
                    if best[b2].0 == nb && best[b2].1 == km && best[b2].2 == swm {
                        better = best[b2].3 > new_g;
                        found = true;
                        break;
                    }
                    b2 = b2 + 1;
                }
                if better {
                    let ghost open1 = open@;
                    let entry = (new_g + manhattan_between(np, goal_pos), new_g, nb, km, swm, new_locks);
                    proof {
                        lemma_moves_push(*tree, *grid, content@, goal, start, open@, best1, (room_id, key_mask, sw_mask), nbs@, k as int, km, swm, entry);
                    }
                    open.push(entry);
                    proof {
                        assert(open@[open@.len() - 1].2 == nb && open@[open@.len() - 1].3 == km && open@[open@.len() - 1].4 == swm);
                        assert(state_covered(open@, best1, (nb, km, swm)));
                        assert(locks_entered(*tree, new_walk) == new_locks);
                        assert(entry_backed(*tree, *grid, content@, start, goal, open@[open@.len() - 1]));
                        assert forall|j: int| 0 <= j < open@.len() implies entry_backed(*tree, *grid, content@, start, goal, #[trigger] open@[j]) by {
                            if j < open1.len() {
                                assert(open@[j] == open1[j]);
                            }
                        }
                    }
                } else {
                    proof {
                        lemma_find_best(best@, nb, km, swm, 0);
                        let at2 = find_best(best@, nb, km, swm, 0);
                        assert(best1[at2].0 == nb && best1[at2].1 == km && best1[at2].2 == swm);
                    }
                }
                proof {
                    assert(state_covered(open@, best1, (nb, km, swm)));
                }
            }
            proof {
                assert(nbs@[k as int] == nb);
                lemma_moves_step(*tree, *grid, content@, goal, start, ob, open@, best1, (room_id, key_mask, sw_mask), nbs@, k as int, km, swm);
                assert(astar_push(*tree, *grid, content@, goal, goal_pos, best1, nbs@, k as int, cur, km, swm, ob)
                    == astar_push(*tree, *grid, content@, goal, goal_pos, best1, nbs@, k + 1, cur, km, swm, open@));
            }
            k = k + 1;
        }
        proof {
            assert(astar_run(*tree, *grid, content@, goal, goal_pos, open0, best0, fuel0)
                == astar_run(*tree, *grid, content@, goal, goal_pos, open@, best@, fuel as int));
            assert(astar_spent(*tree, *grid, content@, goal, goal_pos, open0, best0, fuel0)
                == astar_spent(*tree, *grid, content@, goal, goal_pos, open@, best@, fuel as int));
            lemma_moves_done(*tree, *grid, content@, goal, start, open@, best@, (room_id, key_mask, sw_mask), nbs@, km, swm);
        }
    }
    proof {
        if !astar_gave_up(*tree, *grid, content@, start, goal) {
            assert(open@.len() == 0);
            assert(open@ =~= Seq::<SearchState>::empty());
            assert forall|w: Seq<(usize, u64, u64)>| #[trigger] search_walk(*tree, *grid, content@, start, goal, w) implies w.last().0 != goal by {
                lemma_search_exhausted(*tree, *grid, content@, start, goal, best@, w, w.len() - 1);
            }
        }
    }
    None
}

/// Manhattan distance between two grid positions.
pub open spec fn manhattan_between_spec(a: (i32, i32), b: (i32, i32)) -> u64 {
    ((if a.0 >= b.0 { a.0 - b.0 } else { b.0 - a.0 }) + (if a.1 >= b.1 { a.1 - b.1 } else { b.1 - a.1 })) as u64
}

} // verus!
