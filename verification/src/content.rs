//! **Room content layer**: switches and parity doors, enemy groups and the
//! boss, signs, and the exit room, laid over the structural room kinds.
//!
//! A door is **open** when the number of activated switches that share at
//! least one signal id with it is **odd**.
use vstd::prelude::*;

use crate::grid::{DungeonGrid, GridCell, manhattan, lemma_placed_below_root};
use crate::pathfinding::{critical_path_rooms, sealed_rooms, find_goal_in_grid, goal_choice, ids_below, off_critical_path, lemma_off_critical, on_critical_path};
use crate::rng::{Rng, RngState, usize_draw, chance_hit, xoshiro_next, fisher_yates};
use crate::render::{render, render_canvas, is_glyph};
use crate::room::{Direction, RoomKind, direction_offset};
use crate::tree::{DungeonTree, child_appended, is_bfs_from, lemma_distinct_below, vec_contains, lemma_bfs_unique};
use crate::pathfinding::lemma_permutation_members;

verus! {

// ── Switch / SwitchDoor ─────────────────────────────────────────────────────

/// A switch in a room. Activating it flips the parity of every door that
/// shares at least one signal id with it.
#[derive(Debug)]
pub struct SwitchState {
    /// Switch id (bit `switch_id` of an activation mask).
    pub switch_id: u32,
    /// Signal ids that this switch broadcasts when toggled.
    pub signals: Vec<u32>,
}

/// A locked passage controlled by the parity of linked switches.
#[derive(Debug)]
pub struct SwitchDoor {
    /// Door id.
    pub door_id: u32,
    /// Signal ids this door listens to.
    pub signals: Vec<u32>,
}

/// A copy of a list of signal ids.
pub fn copy_signals(v: &Vec<u32>) -> (r: Vec<u32>)
    ensures
        r@ == v@,
{
    let mut r: Vec<u32> = Vec::new();
    let mut i: usize = 0;
    while i < v.len()
        invariant
            i <= v@.len(),
            r@ == v@.take(i as int),
        decreases v@.len() - i,
    {
        r.push(v[i]);
        proof {
            assert(v@.take(i as int + 1) =~= v@.take(i as int).push(v@[i as int]));
        }
        i = i + 1;
    }
    proof {
        assert(v@.take(v@.len() as int) =~= v@);
    }
    r
}

impl SwitchState {
    /// A copy of this switch.
    pub fn duplicate(&self) -> (r: Self)
        ensures
            r.switch_id == self.switch_id,
            r.signals@ == self.signals@,
    {
        SwitchState { switch_id: self.switch_id, signals: copy_signals(&self.signals) }
    }
}

impl SwitchDoor {
    /// A copy of this door.
    pub fn duplicate(&self) -> (r: Self)
        ensures
            r.door_id == self.door_id,
            r.signals@ == self.signals@,
    {
        SwitchDoor { door_id: self.door_id, signals: copy_signals(&self.signals) }
    }
}

/// Two switch lists that agree on ids and signals.
pub open spec fn same_switches(a: Seq<SwitchState>, b: Seq<SwitchState>) -> bool {
    &&& a.len() == b.len()
    &&& forall|k: int| 0 <= k < a.len() ==> (#[trigger] a[k]).switch_id == b[k].switch_id && a[k].signals@ == b[k].signals@
}

/// Switch lists that agree on ids and signals open the same doors.
pub proof fn lemma_same_switches_count(door: Seq<u32>, mask: u64, a: Seq<SwitchState>, b: Seq<SwitchState>)
    requires
        same_switches(a, b),
    ensures
        linked_on_count(door, mask, a) == linked_on_count(door, mask, b),
    decreases a.len(),
{
    if a.len() > 0 {
        assert forall|k: int| 0 <= k < a.drop_last().len() implies (#[trigger] a.drop_last()[k]).switch_id == b.drop_last()[k].switch_id
            && a.drop_last()[k].signals@ == b.drop_last()[k].signals@ by {
            assert(a.drop_last()[k] == a[k]);
            assert(b.drop_last()[k] == b[k]);
        }
        lemma_same_switches_count(door, mask, a.drop_last(), b.drop_last());
        assert(a[a.len() - 1] == a.last());
        assert(b[b.len() - 1] == b.last());
    }
}

/// Some signal of `a` is among `b`.
pub open spec fn shares_signal(a: Seq<u32>, b: Seq<u32>) -> bool {
    exists|i: int| 0 <= i < a.len() && #[trigger] b.contains(a[i])
}

/// Bit `id` of `mask` is set (ids from 64 on are never active).
pub open spec fn switch_on(mask: u64, id: u32) -> bool {
    id < 64 && (mask >> (id as u64)) & 1u64 == 1u64
}

/// The switch `sw` is active under `mask` and linked to a door listening to `door`.
pub open spec fn linked_and_on(door: Seq<u32>, mask: u64, sw: SwitchState) -> bool {
    switch_on(mask, sw.switch_id) && shares_signal(sw.signals@, door)
}

/// Number of switches of `sws` that are active under `mask` and linked to `door`.
pub open spec fn linked_on_count(door: Seq<u32>, mask: u64, sws: Seq<SwitchState>) -> nat
    decreases sws.len(),
{
    if sws.len() == 0 {
        0
    } else {
        linked_on_count(door, mask, sws.drop_last()) + if linked_and_on(door, mask, sws.last()) {
            1nat
        } else {
            0nat
        }
    }
}

/// The door listening to `door` is open under `mask`.
pub open spec fn door_open(door: Seq<u32>, mask: u64, sws: Seq<SwitchState>) -> bool {
    linked_on_count(door, mask, sws) % 2 == 1
}

/// Membership of a signal id.
fn signals_contain(v: &Vec<u32>, x: u32) -> (r: bool)
    ensures
        r == v@.contains(x),
{
    let mut i: usize = 0;
    while i < v.len()
        invariant
            i <= v@.len(),
            forall|j: int| 0 <= j < i ==> v@[j] != x,
        decreases v@.len() - i,
    {
        if v[i] == x {
            return true;
        }
        i = i + 1;
    }
    false
}

/// Some signal of `a` is among `b`.
fn signals_overlap(a: &Vec<u32>, b: &Vec<u32>) -> (r: bool)
    ensures
        r == shares_signal(a@, b@),
{
    let mut i: usize = 0;
    while i < a.len()
        invariant
            i <= a@.len(),
            forall|j: int| 0 <= j < i ==> !#[trigger] b@.contains(a@[j]),
        decreases a@.len() - i,
    {
        if signals_contain(b, a[i]) {
            return true;
        }
        i = i + 1;
    }
    false
}

impl SwitchDoor {
    /// Whether this door is open given a mask of activated switches (bit
    /// `i` set: the switch with id `i` is active) and every switch of the
    /// dungeon: open when an odd number of active switches share a signal
    /// with it.
    pub fn is_open(&self, switch_mask: u64, all_switches: &[SwitchState]) -> (r: bool)
        ensures
            r == door_open(self.signals@, switch_mask, all_switches@),
    {
        let mut count: usize = 0;
        let mut i: usize = 0;
        while i < all_switches.len()
            invariant
                i <= all_switches@.len(),
                count == linked_on_count(self.signals@, switch_mask, all_switches@.take(i as int)),
                count <= i,
            decreases all_switches@.len() - i,
        {
            let sw = &all_switches[i];
            proof {
                assert(all_switches@.take(i as int + 1).drop_last() =~= all_switches@.take(i as int));
                assert(all_switches@.take(i as int + 1).last() == all_switches@[i as int]);
            }
            let on = sw.switch_id < 64 && (switch_mask >> (sw.switch_id as u64)) & 1 == 1;
            if on && signals_overlap(&sw.signals, &self.signals) {
                count = count + 1;
            }
            i = i + 1;
        }
        proof {
            assert(all_switches@.take(all_switches@.len() as int) =~= all_switches@);
        }
        count % 2 == 1
    }
}

/// Toggling bit `k` flips bit `k` and keeps every other bit.
pub proof fn lemma_toggle_bit(mask: u64, k: u64, j: u64)
    requires
        k < 64,
        j < 64,
    ensures
        j != k ==> ((mask ^ (1u64 << k)) >> j) & 1u64 == (mask >> j) & 1u64,
        j == k ==> ((((mask ^ (1u64 << k)) >> j) & 1u64 == 1u64) <==> ((mask >> j) & 1u64 != 1u64)),
{
    assert(j != k ==> ((mask ^ (1u64 << k)) >> j) & 1u64 == (mask >> j) & 1u64) by (bit_vector)
        requires
            k < 64,
            j < 64,
    ;
    assert(j == k ==> ((((mask ^ (1u64 << k)) >> j) & 1u64 == 1u64) <==> ((mask >> j) & 1u64 != 1u64))) by (bit_vector)
        requires
            k < 64,
            j < 64,
    ;
}

/// With no switch active no door is open.
pub proof fn lemma_closed_without_activation(door: Seq<u32>, sws: Seq<SwitchState>)
    ensures
        !door_open(door, 0u64, sws),
{
    lemma_count_none_on(door, sws);
}

proof fn lemma_count_none_on(door: Seq<u32>, sws: Seq<SwitchState>)
    ensures
        linked_on_count(door, 0u64, sws) == 0,
    decreases sws.len(),
{
    if sws.len() > 0 {
        lemma_count_none_on(door, sws.drop_last());
        let id = sws.last().switch_id as u64;
        if id < 64 {
            assert((0u64 >> id) & 1u64 == 0u64) by (bit_vector);
        }
    }
}

/// Toggling a switch id that no switch linked to the door carries leaves
/// the door as it was.
pub proof fn lemma_unrelated_toggle(door: Seq<u32>, mask: u64, sws: Seq<SwitchState>, id: u32)
    requires
        id < 64,
        forall|j: int| 0 <= j < sws.len() && (#[trigger] sws[j]).switch_id == id ==> !shares_signal(sws[j].signals@, door),
    ensures
        linked_on_count(door, mask ^ (1u64 << (id as u64)), sws) == linked_on_count(door, mask, sws),
        door_open(door, mask ^ (1u64 << (id as u64)), sws) == door_open(door, mask, sws),
    decreases sws.len(),
{
    if sws.len() > 0 {
        let d = sws.drop_last();
        assert forall|j: int| 0 <= j < d.len() && (#[trigger] d[j]).switch_id == id implies !shares_signal(d[j].signals@, door) by {
            assert(d[j] == sws[j]);
        }
        lemma_unrelated_toggle(door, mask, d, id);
        let sw = sws.last();
        assert(sws[sws.len() - 1] == sw);
        if sw.switch_id < 64 && sw.switch_id != id {
            lemma_toggle_bit(mask, id as u64, sw.switch_id as u64);
        }
    }
}

/// When switch ids are distinct, toggling the id of a switch linked to the
/// door flips the door.
pub proof fn lemma_linked_toggle(door: Seq<u32>, mask: u64, sws: Seq<SwitchState>, s: int)
    requires
        0 <= s < sws.len(),
        sws[s].switch_id < 64,
        shares_signal(sws[s].signals@, door),
        forall|a: int, b: int| 0 <= a < sws.len() && 0 <= b < sws.len() && a != b ==> #[trigger] sws[a].switch_id != #[trigger] sws[b].switch_id,
    ensures
        door_open(door, mask ^ (1u64 << (sws[s].switch_id as u64)), sws) == !door_open(door, mask, sws),
{
    lemma_linked_toggle_count(door, mask, sws, s);
}

proof fn lemma_linked_toggle_count(door: Seq<u32>, mask: u64, sws: Seq<SwitchState>, s: int)
    requires
        0 <= s < sws.len(),
        sws[s].switch_id < 64,
        shares_signal(sws[s].signals@, door),
        forall|a: int, b: int| 0 <= a < sws.len() && 0 <= b < sws.len() && a != b ==> #[trigger] sws[a].switch_id != #[trigger] sws[b].switch_id,
    ensures
        ({
            let id = sws[s].switch_id;
            let before = linked_on_count(door, mask, sws);
            let after = linked_on_count(door, mask ^ (1u64 << (id as u64)), sws);
            if switch_on(mask, id) {
                after + 1 == before
            } else {
                after == before + 1
            }
        }),
    decreases sws.len(),
{
    let id = sws[s].switch_id;
    let d = sws.drop_last();
    let last = sws.last();
    assert(sws[sws.len() - 1] == last);
    lemma_toggle_bit(mask, id as u64, id as u64);
    if s == sws.len() - 1 {
        assert forall|j: int| 0 <= j < d.len() && (#[trigger] d[j]).switch_id == id implies !shares_signal(d[j].signals@, door) by {
            assert(d[j] == sws[j]);
            assert(sws[j].switch_id != sws[s].switch_id);
        }
        lemma_unrelated_toggle(door, mask, d, id);
    } else {
        assert forall|a: int, b: int| 0 <= a < d.len() && 0 <= b < d.len() && a != b implies #[trigger] d[a].switch_id != #[trigger] d[b].switch_id by {
            assert(d[a] == sws[a] && d[b] == sws[b]);
        }
        assert(d[s] == sws[s]);
        lemma_linked_toggle_count(door, mask, d, s);
        assert(last.switch_id != id) by {
            assert(sws[sws.len() - 1].switch_id != sws[s].switch_id);
        }
        if last.switch_id < 64 {
            lemma_toggle_bit(mask, id as u64, last.switch_id as u64);
        }
    }
}

// ── Enemies / Boss ──────────────────────────────────────────────────────────

/// A group of enemies occupying a room.
#[derive(Clone, Copy, Debug)]
pub struct EnemyGroup {
    /// How many enemies.
    pub count: u32,
    /// True for the final boss.
    pub is_boss: bool,
}

impl EnemyGroup {
    pub fn regular(count: u32) -> (r: Self)
        ensures
            r.count == count,
            !r.is_boss,
    {
        EnemyGroup { count, is_boss: false }
    }

    pub fn boss(count: u32) -> (r: Self)
        ensures
            r.count == count,
            r.is_boss,
    {
        EnemyGroup { count, is_boss: true }
    }
}

// ── Signs ───────────────────────────────────────────────────────────────────

/// Discriminates between the two sign placement strategies.
#[derive(Clone, Copy, Debug, PartialEq, Eq, Structural)]
pub enum SignKind {
    /// Placed next to a key or locked room; the text is a hint.
    Contextual,
    /// Placed in a random normal room; purely atmospheric.
    Atmospheric,
}

/// A readable sign in a room.
#[derive(Debug)]
pub struct Sign {
    pub kind: SignKind,
    pub text: String,
}

// ── RoomContent ─────────────────────────────────────────────────────────────

/// The content annotation attached to every room; all of it optional.
#[derive(Debug)]
pub struct RoomContent {
    /// An enemy group in this room (cleared on first visit).
    pub enemies: Option<EnemyGroup>,
    /// A switch that the player can toggle.
    pub switch: Option<SwitchState>,
    /// A switch door sealing the passage to this room's parent.
    pub switch_door: Option<SwitchDoor>,
    /// An optional sign.
    pub sign: Option<Sign>,
    /// This room is the dungeon exit.
    pub is_exit: bool,
}

impl RoomContent {
    /// Nothing in it.
    pub open spec fn empty_spec(self) -> bool {
        &&& self.enemies is None
        &&& self.switch is None
        &&& self.switch_door is None
        &&& self.sign is None
        &&& !self.is_exit
    }

    pub fn is_empty(&self) -> (r: bool)
        ensures
            r == self.empty_spec(),
    {
        self.enemies.is_none() && self.switch.is_none() && self.switch_door.is_none() && self.sign.is_none()
            && !self.is_exit
    }
}

impl Default for RoomContent {
    fn default() -> (r: Self)
        ensures
            r.empty_spec(),
    {
        RoomContent { enemies: None, switch: None, switch_door: None, sign: None, is_exit: false }
    }
}

// ── Placement parameters ────────────────────────────────────────────────────

/// Parameters controlling how content is scattered across a dungeon.
/// Probabilities are numerators over 2^53 (see `Rng::next_unit`).
#[derive(Debug)]
pub struct ContentConfig {
    /// Target number of enemy groups (not counting the boss).
    pub target_enemy_groups: u32,
    /// Maximum enemies per group (at least one).
    pub max_enemies_per_group: u32,
    /// Target number of switch/door pairs.
    pub target_switch_pairs: u32,
    /// Maximum number of signals per switch/door pair (at least one).
    pub max_signals_per_pair: u32,
    /// Chance, over 2^53, that a normal room next to a key or locked room gets a hint sign.
    pub prob_contextual_sign: u64,
    /// Chance, over 2^53, that any other normal room gets an atmospheric sign.
    pub prob_atmospheric_sign: u64,
}

impl Default for ContentConfig {
    /// Four enemy groups of up to three, two switch pairs of up to two
    /// signals, hint signs with chance 0.5 and atmospheric signs with 0.08.
    fn default() -> (r: Self)
        ensures
            r.target_enemy_groups == 4,
            r.max_enemies_per_group == 3,
            r.target_switch_pairs == 2,
            r.max_signals_per_pair == 2,
            r.prob_contextual_sign == 4503599627370496,
            r.prob_atmospheric_sign == 720575940379280,
    {
        ContentConfig {
            target_enemy_groups: 4,
            max_enemies_per_group: 3,
            target_switch_pairs: 2,
            max_signals_per_pair: 2,
            prob_contextual_sign: 4503599627370496,
            prob_atmospheric_sign: 720575940379280,
        }
    }
}


// ── Nearest free cell ───────────────────────────────────────────────────────

/// `q` is one step east, west, south or north of `p`.
pub open spec fn one_step(p: (i32, i32), q: (i32, i32)) -> bool {
    ||| q.0 == p.0 + 1 && q.1 == p.1
    ||| q.0 == p.0 - 1 && q.1 == p.1
    ||| q.0 == p.0 && q.1 == p.1 + 1
    ||| q.0 == p.0 && q.1 == p.1 - 1
}

/// The step taken in the order east, west, south, north.
pub open spec fn step_at(p: (i32, i32), d: int) -> (int, int) {
    if d == 0 {
        (p.0 + 1, p.1 as int)
    } else if d == 1 {
        (p.0 - 1, p.1 as int)
    } else if d == 2 {
        (p.0 as int, p.1 + 1)
    } else {
        (p.0 as int, p.1 - 1)
    }
}

/// A taken position lies within the grid's Manhattan bound.
proof fn lemma_occupied_bound(g: DungeonGrid, p: (i32, i32))
    requires
        g.wf(),
        g.occupied((p.0 as int, p.1 as int)),
    ensures
        manhattan(p) < g.ncells(),
{
    let k = choose|k: int| 0 <= k < g.ncells() && (#[trigger] g.pos_at(k)).0 == p.0 && g.pos_at(k).1 == p.1;
    assert(g.pos_at(k) == p);
    assert(manhattan(g.pos_at(k)) <= k);
}

/// Distinct taken positions number at most the cells.
proof fn lemma_distinct_occupied(g: DungeonGrid, s: Seq<(i32, i32)>)
    requires
        g.wf(),
        s.no_duplicates(),
        forall|j: int| 0 <= j < s.len() ==> g.occupied(((#[trigger] s[j]).0 as int, s[j].1 as int)),
    ensures
        s.len() <= g.ncells(),
{
    let idx = Seq::new(s.len(), |j: int| choose|k: int| 0 <= k < g.ncells() && (#[trigger] g.pos_at(k)).0 == s[j].0 && g.pos_at(k).1 == s[j].1);
    let m = idx.map_values(|k: int| k as usize);
    assert forall|j: int| 0 <= j < m.len() implies #[trigger] m[j] < g.ncells() && g.pos_at(m[j] as int) == s[j] by {
        assert(g.occupied((s[j].0 as int, s[j].1 as int)));
        let k = idx[j];
        assert(0 <= k < g.ncells() && g.pos_at(k).0 == s[j].0 && g.pos_at(k).1 == s[j].1);
    }
    assert forall|a: int, b: int| 0 <= a < m.len() && 0 <= b < m.len() && a != b implies m[a] != m[b] by {
        assert(g.pos_at(m[a] as int) == s[a]);
        assert(g.pos_at(m[b] as int) == s[b]);
    }
    lemma_distinct_below(m, g.ncells() as nat);
}

/// Some entry of a non-empty list of positions has the largest x.
proof fn lemma_max_x(s: Seq<(i32, i32)>) -> (i: int)
    requires
        s.len() > 0,
    ensures
        0 <= i < s.len(),
        forall|j: int| 0 <= j < s.len() ==> (#[trigger] s[j]).0 <= s[i].0,
    decreases s.len(),
{
    if s.len() == 1 {
        0
    } else {
        let i0 = lemma_max_x(s.drop_last());
        assert forall|j: int| 0 <= j < s.len() - 1 implies (#[trigger] s[j]).0 <= s[i0].0 by {
            assert(s.drop_last()[j] == s[j]);
        }
        if s.last().0 > s[i0].0 {
            (s.len() - 1) as int
        } else {
            i0
        }
    }
}

fn contains_pos(v: &Vec<(i32, i32)>, p: (i32, i32)) -> (r: bool)
    ensures
        r == v@.contains(p),
{
    let mut i: usize = 0;
    while i < v.len()
        invariant
            i <= v@.len(),
            forall|j: int| 0 <= j < i ==> v@[j] != p,
        decreases v@.len() - i,
    {
        if v[i].0 == p.0 && v[i].1 == p.1 {
            return true;
        }
        i = i + 1;
    }
    false
}

/// The breadth-first search for a free cell over the taken cells: the
/// queue `visited` is worked from entry `head`, trying step `d` onwards
/// (east, west, south, north) from it; the first free step is the answer,
/// and each taken cell not yet queued joins the queue.
pub open spec fn free_search(g: DungeonGrid, visited: Seq<(i32, i32)>, head: int, d: int) -> (i32, i32)
    decreases g.ncells() - head, 4 - d,
{
    if 0 <= head < visited.len() && visited.len() <= g.ncells() && 0 <= d {
        if d < 4 {
            let s = step_at(visited[head], d);
            let nx = (s.0 as i32, s.1 as i32);
            if !g.occupied(s) {
                nx
            } else if visited.contains(nx) {
                free_search(g, visited, head, d + 1)
            } else {
                free_search(g, visited.push(nx), head, d + 1)
            }
        } else {
            free_search(g, visited, head + 1, 0)
        }
    } else {
        (0i32, 0i32)
    }
}

/// The first free cell found breadth first from `origin` (steps tried east,
/// west, south, north): a free position one step from a taken one.
fn find_nearest_free_cell(grid: &DungeonGrid, origin: (i32, i32)) -> (r: (i32, i32))
    requires
        grid.wf(),
        grid.occupied((origin.0 as int, origin.1 as int)),
    ensures
        !grid.occupied((r.0 as int, r.1 as int)),
        exists|q: (i32, i32)| grid.occupied((q.0 as int, q.1 as int)) && #[trigger] one_step(q, r),
        r == free_search(*grid, seq![origin], 0, 0),
{
    let mut visited: Vec<(i32, i32)> = Vec::new();
    visited.push(origin);
    let mut head: usize = 0;
    proof {
        assert(visited@ == seq![origin]);
    }
    while head < visited.len()
        invariant
            free_search(*grid, visited@, head as int, 0) == free_search(*grid, seq![origin], 0, 0),
            grid.wf(),
            grid.occupied((origin.0 as int, origin.1 as int)),
            head <= visited@.len(),
            visited@.len() > 0,
            visited@.no_duplicates(),
            forall|j: int| 0 <= j < visited@.len() ==> grid.occupied(((#[trigger] visited@[j]).0 as int, visited@[j].1 as int)),
            forall|j: int, d: int| 0 <= j < head && 0 <= d < 4 ==> {
                let s = #[trigger] step_at(visited@[j], d);
                visited@.contains((s.0 as i32, s.1 as i32)) && -0x8000_0000 <= s.0 < 0x8000_0000 && -0x8000_0000 <= s.1 < 0x8000_0000
            },
        decreases grid.ncells() - head,
    {
        proof {
            lemma_distinct_occupied(*grid, visited@);
        }
        let pos = visited[head];
        proof {
            lemma_occupied_bound(*grid, pos);
        }
        let mut d: usize = 0;
        while d < 4
            invariant
                free_search(*grid, visited@, head as int, d as int) == free_search(*grid, seq![origin], 0, 0),
                visited@.len() <= grid.ncells(),
                grid.wf(),
                head < visited@.len(),
                pos == visited@[head as int],
                manhattan(pos) < grid.ncells(),
                grid.ncells() <= 0x7fff_ffff,
                d <= 4,
                visited@.len() > 0,
                visited@.no_duplicates(),
                forall|j: int| 0 <= j < visited@.len() ==> grid.occupied(((#[trigger] visited@[j]).0 as int, visited@[j].1 as int)),
                forall|j: int, e: int| 0 <= j < head && 0 <= e < 4 ==> {
                    let s = #[trigger] step_at(visited@[j], e);
                    visited@.contains((s.0 as i32, s.1 as i32)) && -0x8000_0000 <= s.0 < 0x8000_0000 && -0x8000_0000 <= s.1 < 0x8000_0000
                },
                forall|e: int| 0 <= e < d ==> {
                    let s = #[trigger] step_at(pos, e);
                    visited@.contains((s.0 as i32, s.1 as i32)) && -0x8000_0000 <= s.0 < 0x8000_0000 && -0x8000_0000 <= s.1 < 0x8000_0000
                },
            decreases 4 - d,
        {
            let next: (i32, i32) = if d == 0 {
                (pos.0 + 1, pos.1)
            } else if d == 1 {
                (pos.0 - 1, pos.1)
            } else if d == 2 {
                (pos.0, pos.1 + 1)
            } else {
                (pos.0, pos.1 - 1)
            };
            if grid.room_at(next).is_none() {
                proof {
                    assert(one_step(pos, next));
                }
                return next;
            }
            let ghost prev = visited@;
            proof {
                assert(next == (step_at(pos, d as int).0 as i32, step_at(pos, d as int).1 as i32));
            }
            if !contains_pos(&visited, next) {
                visited.push(next);
                proof {
                    assert forall|a: int, b: int| 0 <= a < visited@.len() && 0 <= b < visited@.len() && a != b
                        implies visited@[a] != visited@[b] by {
                        if a < prev.len() && b < prev.len() {
                            assert(visited@[a] == prev[a] && visited@[b] == prev[b]);
                        } else if a == prev.len() {
                            assert(prev[b] == visited@[b]);
                        } else {
                            assert(prev[a] == visited@[a]);
                        }
                    }
                    assert(visited@[prev.len() as int] == next);
                }
            }
            proof {
                assert forall|x: (i32, i32)| prev.contains(x) implies visited@.contains(x) by {
                    let w = choose|w: int| 0 <= w < prev.len() && prev[w] == x;
                    assert(visited@[w] == x);
                }
                assert(visited@.contains(next));
                lemma_distinct_occupied(*grid, visited@);
            }
            d = d + 1;
        }
        head = head + 1;
    }
    proof {
        let i = lemma_max_x(visited@);
        let p = visited@[i];
        lemma_occupied_bound(*grid, p);
        let s = step_at(p, 0);
        assert(visited@.contains((s.0 as i32, s.1 as i32)));
        let w = choose|w: int| 0 <= w < visited@.len() && visited@[w] == (s.0 as i32, s.1 as i32);
        assert(visited@[w].0 <= p.0);
        assert(false);
    }
    (origin.0 + 1000, origin.1 + 1000)
}


// ── Sign texts ──────────────────────────────────────────────────────────────

/// Number of texts in each pool: hints next to a locked room (0), next to
/// a key room (1), other hints (2), and atmospheric lines (3).
pub open spec fn pool_size(pool: u8) -> nat {
    if pool == 0 { 5 } else if pool == 1 { 5 } else if pool == 2 { 3 } else { 15 }
}
/// Text `i` of pool `pool`.
pub open spec fn sign_text(pool: u8, i: int) -> Seq<char> {
    if pool == 0 && i == 0 {
        "This door will not yield without a key."@
    } else if pool == 0 && i == 1 {
        "Seek the matching key before you proceed."@
    } else if pool == 0 && i == 2 {
        "A locked path — look elsewhere first."@
    } else if pool == 0 && i == 3 {
        "Only the prepared may pass."@
    } else if pool == 0 && i == 4 {
        "Turn back; you are not yet ready."@
    } else if pool == 1 && i == 0 {
        "Something glints behind that door…"@
    } else if pool == 1 && i == 1 {
        "A useful tool lies just ahead."@
    } else if pool == 1 && i == 2 {
        "The brave are rewarded."@
    } else if pool == 1 && i == 3 {
        "What you seek is close."@
    } else if pool == 1 && i == 4 {
        "Those who search shall find."@
    } else if pool == 2 && i == 0 {
        "Many have walked this path."@
    } else if pool == 2 && i == 1 {
        "Beware what lurks ahead."@
    } else if pool == 2 && i == 2 {
        "The dungeon remembers all who enter."@
    } else if pool == 3 && i == 0 {
        "The torches flicker in a sourceless wind."@
    } else if pool == 3 && i == 1 {
        "Scratched into the stone: 'Do not open the red chest.'"@
    } else if pool == 3 && i == 2 {
        "Water drips somewhere in the darkness."@
    } else if pool == 3 && i == 3 {
        "The air smells of old iron."@
    } else if pool == 3 && i == 4 {
        "Footprints lead in — none lead out."@
    } else if pool == 3 && i == 5 {
        "Someone has been here recently."@
    } else if pool == 3 && i == 6 {
        "The walls are warm to the touch."@
    } else if pool == 3 && i == 7 {
        "An eerie silence fills the chamber."@
    } else if pool == 3 && i == 8 {
        "Strange symbols cover the floor."@
    } else if pool == 3 && i == 9 {
        "This room feels watched."@
    } else if pool == 3 && i == 10 {
        "A faint humming emanates from the walls."@
    } else if pool == 3 && i == 11 {
        "The dust is undisturbed here."@
    } else if pool == 3 && i == 12 {
        "Old bones rest in the corner."@
    } else if pool == 3 && i == 13 {
        "The ceiling is higher than it looks."@
    } else if pool == 3 && i == 14 {
        "You feel a chill that has nothing to do with the cold."@
    } else {
        Seq::<char>::empty()
    }
}

/// Text `i` of pool `pool`.
fn sign_string(pool: u8, i: usize) -> (r: String)
    requires
        pool < 4,
        i < pool_size(pool),
    ensures
        r@ == sign_text(pool, i as int),
        r@.len() > 0,
{
    if pool == 0 && i == 0 {
        proof {
            reveal_strlit("This door will not yield without a key.");
        }
        "This door will not yield without a key.".to_owned()
    } else if pool == 0 && i == 1 {
        proof {
            reveal_strlit("Seek the matching key before you proceed.");
        }
        "Seek the matching key before you proceed.".to_owned()
    } else if pool == 0 && i == 2 {
        proof {
            reveal_strlit("A locked path — look elsewhere first.");
        }
        "A locked path — look elsewhere first.".to_owned()
    } else if pool == 0 && i == 3 {
        proof {
            reveal_strlit("Only the prepared may pass.");
        }
        "Only the prepared may pass.".to_owned()
    } else if pool == 0 && i == 4 {
        proof {
            reveal_strlit("Turn back; you are not yet ready.");
        }
        "Turn back; you are not yet ready.".to_owned()
    } else if pool == 1 && i == 0 {
        proof {
            reveal_strlit("Something glints behind that door…");
        }
        "Something glints behind that door…".to_owned()
    } else if pool == 1 && i == 1 {
        proof {
            reveal_strlit("A useful tool lies just ahead.");
        }
        "A useful tool lies just ahead.".to_owned()
    } else if pool == 1 && i == 2 {
        proof {
            reveal_strlit("The brave are rewarded.");
        }
        "The brave are rewarded.".to_owned()
    } else if pool == 1 && i == 3 {
        proof {
            reveal_strlit("What you seek is close.");
        }
        "What you seek is close.".to_owned()
    } else if pool == 1 && i == 4 {
        proof {
            reveal_strlit("Those who search shall find.");
        }
        "Those who search shall find.".to_owned()
    } else if pool == 2 && i == 0 {
        proof {
            reveal_strlit("Many have walked this path.");
        }
        "Many have walked this path.".to_owned()
    } else if pool == 2 && i == 1 {
        proof {
            reveal_strlit("Beware what lurks ahead.");
        }
        "Beware what lurks ahead.".to_owned()
    } else if pool == 2 && i == 2 {
        proof {
            reveal_strlit("The dungeon remembers all who enter.");
        }
        "The dungeon remembers all who enter.".to_owned()
    } else if pool == 3 && i == 0 {
        proof {
            reveal_strlit("The torches flicker in a sourceless wind.");
        }
        "The torches flicker in a sourceless wind.".to_owned()
    } else if pool == 3 && i == 1 {
        proof {
            reveal_strlit("Scratched into the stone: 'Do not open the red chest.'");
        }
        "Scratched into the stone: 'Do not open the red chest.'".to_owned()
    } else if pool == 3 && i == 2 {
        proof {
            reveal_strlit("Water drips somewhere in the darkness.");
        }
        "Water drips somewhere in the darkness.".to_owned()
    } else if pool == 3 && i == 3 {
        proof {
            reveal_strlit("The air smells of old iron.");
        }
        "The air smells of old iron.".to_owned()
    } else if pool == 3 && i == 4 {
        proof {
            reveal_strlit("Footprints lead in — none lead out.");
        }
        "Footprints lead in — none lead out.".to_owned()
    } else if pool == 3 && i == 5 {
        proof {
            reveal_strlit("Someone has been here recently.");
        }
        "Someone has been here recently.".to_owned()
    } else if pool == 3 && i == 6 {
        proof {
            reveal_strlit("The walls are warm to the touch.");
        }
        "The walls are warm to the touch.".to_owned()
    } else if pool == 3 && i == 7 {
        proof {
            reveal_strlit("An eerie silence fills the chamber.");
        }
        "An eerie silence fills the chamber.".to_owned()
    } else if pool == 3 && i == 8 {
        proof {
            reveal_strlit("Strange symbols cover the floor.");
        }
        "Strange symbols cover the floor.".to_owned()
    } else if pool == 3 && i == 9 {
        proof {
            reveal_strlit("This room feels watched.");
        }
        "This room feels watched.".to_owned()
    } else if pool == 3 && i == 10 {
        proof {
            reveal_strlit("A faint humming emanates from the walls.");
        }
        "A faint humming emanates from the walls.".to_owned()
    } else if pool == 3 && i == 11 {
        proof {
            reveal_strlit("The dust is undisturbed here.");
        }
        "The dust is undisturbed here.".to_owned()
    } else if pool == 3 && i == 12 {
        proof {
            reveal_strlit("Old bones rest in the corner.");
        }
        "Old bones rest in the corner.".to_owned()
    } else if pool == 3 && i == 13 {
        proof {
            reveal_strlit("The ceiling is higher than it looks.");
        }
        "The ceiling is higher than it looks.".to_owned()
    } else if pool == 3 && i == 14 {
        proof {
            reveal_strlit("You feel a chill that has nothing to do with the cold.");
        }
        "You feel a chill that has nothing to do with the cold.".to_owned()
    } else {
        proof {
            reveal_strlit("You feel a chill that has nothing to do with the cold.");
        }
        "You feel a chill that has nothing to do with the cold.".to_owned()
    }
}

/// A hint for a sign in room `room_id`: from the locked-room pool when a
/// grid neighbour is locked, else from the key pool when one holds a key,
/// else from the general pool; the text is drawn at random from the pool.
fn contextual_hint(tree: &DungeonTree, grid: &DungeonGrid, room_id: usize, rng: &mut Rng) -> (r: String)
    requires
        grid.wf(),
        ids_below(*grid, tree.n()),
    ensures
        exists|pool: u8, i: int| #![trigger sign_text(pool, i)]
            pool < 3 && 0 <= i < pool_size(pool) && r@ == sign_text(pool, i)
            && pool == hint_pool(*tree, grid.neighbours_of(room_id)),
        r@.len() > 0,
        ({
            let pool = hint_pool(*tree, grid.neighbours_of(room_id));
            let d = usize_draw(old(rng)@, pool_size(pool) as usize);
            r@ == sign_text(pool, d.0 as int) && final(rng)@ == d.1
        }),
        beside_locked(*tree, *grid, room_id) ==> lock_hint_text(r@),
        beside_key_only(*tree, *grid, room_id) ==> key_hint_text(r@),
{
    let neighbours = grid.neighbours(room_id);
    proof {
        crate::pathfinding::lemma_neighbours_below(*grid, tree.n(), room_id);
    }
    let mut has_key_near = false;
    let mut has_lock_near = false;
    let mut k: usize = 0;
    while k < neighbours.len()
        invariant
            k <= neighbours@.len(),
            forall|q: int| 0 <= q < neighbours@.len() ==> #[trigger] neighbours@[q] < tree.n(),
            has_key_near == exists|q: int| 0 <= q < k && (#[trigger] tree.rooms@[neighbours@[q] as int]).kind is Key,
            has_lock_near == exists|q: int| 0 <= q < k && (#[trigger] tree.rooms@[neighbours@[q] as int]).kind is Locked,
        decreases neighbours@.len() - k,
    {
        let kind = tree.rooms[neighbours[k]].kind;
        if kind.is_key() {
            has_key_near = true;
        }
        if kind.is_locked() {
            has_lock_near = true;
        }
        k = k + 1;
    }
    let pool: u8 = if has_lock_near {
        0
    } else if has_key_near {
        1
    } else {
        2
    };
    let size: usize = if pool == 0 {
        5
    } else if pool == 1 {
        5
    } else {
        3
    };
    let i = rng.next_usize(size);
    let r = sign_string(pool, i);
    proof {
        lemma_hint_text(*tree, *grid, room_id, i as int);
    }
    r
}

/// The pool a hint next to `neighbours` is drawn from.
pub open spec fn hint_pool(tree: DungeonTree, neighbours: Seq<usize>) -> u8 {
    if exists|q: int| 0 <= q < neighbours.len() && (#[trigger] tree.rooms@[neighbours[q] as int]).kind is Locked {
        0
    } else if exists|q: int| 0 <= q < neighbours.len() && (#[trigger] tree.rooms@[neighbours[q] as int]).kind is Key {
        1
    } else {
        2
    }
}

/// Room `id` has a locked room among its grid neighbours.
pub open spec fn beside_locked(tree: DungeonTree, grid: DungeonGrid, id: usize) -> bool {
    exists|x: usize| #[trigger] grid.neighbours_of(id).contains(x) && tree.rooms@[x as int].kind is Locked
}

/// Room `id` has a key room, and no locked room, among its grid neighbours.
pub open spec fn beside_key_only(tree: DungeonTree, grid: DungeonGrid, id: usize) -> bool {
    &&& exists|x: usize| #[trigger] grid.neighbours_of(id).contains(x) && tree.rooms@[x as int].kind is Key
    &&& !beside_locked(tree, grid, id)
}

/// One of the five hints a locked door gives.
pub open spec fn lock_hint_text(t: Seq<char>) -> bool {
    ||| t == "This door will not yield without a key."@
    ||| t == "Seek the matching key before you proceed."@
    ||| t == "A locked path — look elsewhere first."@
    ||| t == "Only the prepared may pass."@
    ||| t == "Turn back; you are not yet ready."@
}

/// One of the five hints a key room gives.
pub open spec fn key_hint_text(t: Seq<char>) -> bool {
    ||| t == "Something glints behind that door…"@
    ||| t == "A useful tool lies just ahead."@
    ||| t == "The brave are rewarded."@
    ||| t == "What you seek is close."@
    ||| t == "Those who search shall find."@
}

/// Signs `signs` show a locked-door hint on every contextual sign beside a
/// locked room, and a key hint on every contextual sign beside a key room
/// and no locked room.
pub open spec fn hints_fit(tree: DungeonTree, grid: DungeonGrid, signs: Seq<Option<(SignKind, Seq<char>)>>) -> bool {
    forall|id: int| 0 <= id < signs.len() && (#[trigger] signs[id]) is Some && signs[id].unwrap().0 is Contextual ==> {
        &&& beside_locked(tree, grid, id as usize) ==> lock_hint_text(signs[id].unwrap().1)
        &&& beside_key_only(tree, grid, id as usize) ==> key_hint_text(signs[id].unwrap().1)
    }
}

/// A hint drawn for a room beside a locked room is a locked-door hint; one
/// drawn for a room beside a key room and no locked room is a key hint.
pub proof fn lemma_hint_text(tree: DungeonTree, grid: DungeonGrid, id: usize, i: int)
    requires
        0 <= i < pool_size(hint_pool(tree, grid.neighbours_of(id))),
    ensures
        beside_locked(tree, grid, id) ==> lock_hint_text(sign_text(hint_pool(tree, grid.neighbours_of(id)), i)),
        beside_key_only(tree, grid, id) ==> key_hint_text(sign_text(hint_pool(tree, grid.neighbours_of(id)), i)),
{
    let nbs = grid.neighbours_of(id);
    if beside_locked(tree, grid, id) {
        let x = choose|x: usize| #[trigger] nbs.contains(x) && tree.rooms@[x as int].kind is Locked;
        let q = choose|q: int| 0 <= q < nbs.len() && nbs[q] == x;
        assert(tree.rooms@[nbs[q] as int].kind is Locked);
        assert(hint_pool(tree, nbs) == 0);
    } else if beside_key_only(tree, grid, id) {
        let x = choose|x: usize| #[trigger] nbs.contains(x) && tree.rooms@[x as int].kind is Key;
        let q = choose|q: int| 0 <= q < nbs.len() && nbs[q] == x;
        assert(tree.rooms@[nbs[q] as int].kind is Key);
        assert forall|q2: int| 0 <= q2 < nbs.len() implies !((#[trigger] tree.rooms@[nbs[q2] as int]).kind is Locked) by {
            assert(nbs.contains(nbs[q2]));
        }
        assert(hint_pool(tree, nbs) == 1);
    }
}

/// The hint pass keeps every contextual sign fitting its neighbours
/// (see [`hints_fit`]).
pub proof fn lemma_hint_pass_fits(tree: DungeonTree, grid: DungeonGrid, order: Seq<usize>, q: int,
    signs: Seq<Option<(SignKind, Seq<char>)>>, prob: u64, s: RngState)
    requires
        hints_fit(tree, grid, signs),
        forall|k: int| 0 <= k < order.len() ==> #[trigger] order[k] < signs.len(),
    ensures
        hints_fit(tree, grid, hint_pass(tree, grid, order, q, signs, prob, s).0),
        hint_pass(tree, grid, order, q, signs, prob, s).0.len() == signs.len(),
    decreases order.len() - q,
{
    if 0 <= q < order.len() {
        let id = order[q];
        if tree.rooms@[id as int].kind is Normal && signs[id as int] is None && beside_special(tree, grid, order, id) {
            if chance_hit(s, prob) {
                let pool = hint_pool(tree, grid.neighbours_of(id));
                let n = pool_size(pool) as usize;
                let d = usize_draw(xoshiro_next(s), n);
                crate::rng::lemma_usize_draw_below(xoshiro_next(s), n);
                lemma_hint_text(tree, grid, id, d.0 as int);
                let signs2 = signs.update(id as int, Some((SignKind::Contextual, sign_text(pool, d.0 as int))));
                assert(hints_fit(tree, grid, signs2)) by {
                    assert forall|j: int| 0 <= j < signs2.len() && (#[trigger] signs2[j]) is Some && signs2[j].unwrap().0 is Contextual implies {
                        &&& beside_locked(tree, grid, j as usize) ==> lock_hint_text(signs2[j].unwrap().1)
                        &&& beside_key_only(tree, grid, j as usize) ==> key_hint_text(signs2[j].unwrap().1)
                    } by {
                        if j != id as int {
                            assert(signs2[j] == signs[j]);
                        }
                    }
                }
                lemma_hint_pass_fits(tree, grid, order, q + 1, signs2, prob, d.1);
            } else {
                lemma_hint_pass_fits(tree, grid, order, q + 1, signs, prob, xoshiro_next(s));
            }
        } else {
            lemma_hint_pass_fits(tree, grid, order, q + 1, signs, prob, s);
        }
    }
}

/// The atmospheric pass adds only atmospheric signs, so contextual signs
/// keep fitting their neighbours.
pub proof fn lemma_mood_pass_fits(tree: DungeonTree, grid: DungeonGrid, enemies: Seq<bool>, order: Seq<usize>, q: int,
    signs: Seq<Option<(SignKind, Seq<char>)>>, prob: u64, s: RngState)
    requires
        hints_fit(tree, grid, signs),
        forall|k: int| 0 <= k < order.len() ==> #[trigger] order[k] < signs.len(),
    ensures
        hints_fit(tree, grid, mood_pass(tree, enemies, order, q, signs, prob, s).0),
    decreases order.len() - q,
{
    if 0 <= q < order.len() {
        let id = order[q];
        if tree.rooms@[id as int].kind is Normal && signs[id as int] is None && !enemies[id as int] {
            if chance_hit(s, prob) {
                let d = usize_draw(xoshiro_next(s), 15);
                let signs2 = signs.update(id as int, Some((SignKind::Atmospheric, sign_text(3, d.0 as int))));
                assert(hints_fit(tree, grid, signs2)) by {
                    assert forall|j: int| 0 <= j < signs2.len() && (#[trigger] signs2[j]) is Some && signs2[j].unwrap().0 is Contextual implies {
                        &&& beside_locked(tree, grid, j as usize) ==> lock_hint_text(signs2[j].unwrap().1)
                        &&& beside_key_only(tree, grid, j as usize) ==> key_hint_text(signs2[j].unwrap().1)
                    } by {
                        if j != id as int {
                            assert(signs2[j] == signs[j]);
                        }
                    }
                }
                lemma_mood_pass_fits(tree, grid, enemies, order, q + 1, signs2, prob, d.1);
            } else {
                lemma_mood_pass_fits(tree, grid, enemies, order, q + 1, signs, prob, xoshiro_next(s));
            }
        } else {
            lemma_mood_pass_fits(tree, grid, enemies, order, q + 1, signs, prob, s);
        }
    }
}

/// Both sign passes over rooms of `c` leave every contextual sign beside a
/// locked room with a locked-door hint, and every one beside a key room
/// and no locked room with a key hint.
pub proof fn lemma_sign_passes_fit(tree: DungeonTree, grid: DungeonGrid, c: Seq<RoomContent>, order: Seq<usize>, cfg: ContentConfig, s: RngState)
    requires
        forall|k: int| 0 <= k < order.len() ==> #[trigger] order[k] < c.len(),
    ensures
        hints_fit(tree, grid, sign_passes(tree, grid, c, order, cfg, s).0),
{
    let none = Seq::new(c.len(), |i: int| None::<(SignKind, Seq<char>)>);
    assert(hints_fit(tree, grid, none));
    lemma_hint_pass_fits(tree, grid, order, 0, none, cfg.prob_contextual_sign, s);
    let p1 = hint_pass(tree, grid, order, 0, none, cfg.prob_contextual_sign, s);
    lemma_mood_pass_fits(tree, grid, enemy_flags(c), order, 0, p1.0, cfg.prob_atmospheric_sign, p1.1);
}

/// An atmospheric line drawn at random.
fn atmospheric_line(rng: &mut Rng) -> (r: String)
    ensures
        exists|i: int| 0 <= i < pool_size(3) && r@ == #[trigger] sign_text(3, i),
        r@.len() > 0,
        r@ == sign_text(3, usize_draw(old(rng)@, 15).0 as int),
        final(rng)@ == usize_draw(old(rng)@, 15).1,
{
    let i = rng.next_usize(15);
    sign_string(3, i)
}

// ── Exit room ───────────────────────────────────────────────────────────────

/// The direction the exit room is tagged with: right or left when it lies
/// beside the boss cell on that side, down otherwise.
pub open spec fn exit_direction(boss: (i32, i32), exit: (i32, i32)) -> Direction {
    if exit == ((boss.0 + 1) as i32, boss.1) {
        Direction::Right
    } else if exit == ((boss.0 - 1) as i32, boss.1) {
        Direction::Left
    } else {
        Direction::Down
    }
}

/// The depth of a child of a room at depth `d`, the deepest depth standing for itself.
pub open spec fn child_depth(d: u32) -> u32 {
    if d < u32::MAX { (d + 1) as u32 } else { d }
}

/// Append the exit room as a new child of the boss room, on the first free
/// cell found breadth first from the boss cell; when the boss room is not
/// placed, the boss room itself is marked as the exit. Returns the exit id.
fn append_exit_room(tree: &mut DungeonTree, grid: &mut DungeonGrid, content: &mut Vec<RoomContent>, boss_id: usize) -> (r: usize)
    requires
        old(tree).wf(),
        old(grid).wf(),
        ids_below(*old(grid), old(tree).n()),
        old(grid).ncells() < 0x7fff_ffff,
        old(tree).n() < usize::MAX,
        boss_id < old(tree).n(),
        old(content)@.len() == old(tree).n(),
    ensures
        final(tree).wf(),
        final(grid).wf(),
        ids_below(*final(grid), final(tree).n()),
        final(content)@.len() == final(tree).n(),
        final(content)@[r as int].is_exit,
        r < final(tree).n(),
        forall|i: int| 0 <= i < old(tree).n() && i != r ==> #[trigger] final(content)@[i] == old(content)@[i],
        forall|i: int| 0 <= i < old(tree).n() ==> (#[trigger] final(tree).rooms@[i]).kind == old(tree).rooms@[i].kind,
        final(tree).root == old(tree).root,
        forall|id: usize| old(grid).placed(id) ==> #[trigger] final(grid).placed(id),
        old(grid).placed(boss_id) ==> {
            &&& r == old(tree).n()
            &&& child_appended(*old(tree), *final(tree), boss_id as int)
            &&& final(tree).rooms@[r as int].kind is Normal
            &&& final(tree).is_child(boss_id as int, r as int)
            &&& final(grid).placed(r)
            &&& final(content)@[r as int].empty_spec() == false
            &&& final(content)@[r as int].enemies is None && final(content)@[r as int].switch is None
                && final(content)@[r as int].switch_door is None && final(content)@[r as int].sign is None
            &&& final(grid).ncells() == old(grid).ncells() + 1
            &&& forall|k: int| 0 <= k < old(grid).ncells() ==> #[trigger] final(grid).pos_at(k) == old(grid).pos_at(k)
            &&& forall|k: int| 0 <= k < old(grid).ncells() ==> #[trigger] final(grid).id_at(k) == old(grid).id_at(k)
            &&& final(grid).id_at(old(grid).ncells() as int) == r
            &&& final(grid).pos_at(old(grid).ncells() as int) == free_search(*old(grid), seq![old(grid).pos_of_room(boss_id).unwrap()], 0, 0)
            &&& !old(grid).occupied((final(grid).pos_at(old(grid).ncells() as int).0 as int, final(grid).pos_at(old(grid).ncells() as int).1 as int))
            &&& exists|q: (i32, i32)| old(grid).occupied((q.0 as int, q.1 as int))
                && #[trigger] one_step(q, final(grid).pos_at(old(grid).ncells() as int))
            &&& final(tree).rooms@[r as int].grid_pos == final(grid).pos_at(old(grid).ncells() as int)
            &&& final(tree).rooms@[r as int].direction
                == Some(exit_direction(old(grid).pos_of_room(boss_id).unwrap(), final(grid).pos_at(old(grid).ncells() as int)))
            &&& final(tree).rooms@[r as int].depth == child_depth(old(tree).rooms@[boss_id as int].depth)
        },
        !old(grid).placed(boss_id) ==> {
            &&& r == boss_id
            &&& *final(tree) == *old(tree)
            &&& *final(grid) == *old(grid)
            &&& final(content)@[r as int].enemies == old(content)@[r as int].enemies
            &&& final(content)@[r as int].switch == old(content)@[r as int].switch
            &&& final(content)@[r as int].switch_door == old(content)@[r as int].switch_door
            &&& final(content)@[r as int].sign == old(content)@[r as int].sign
        },
{
    let boss_pos = match grid.pos_of(boss_id) {
        Some(p) => p,
        None => {
            content[boss_id].is_exit = true;
            proof {
                assert forall|i: int| 0 <= i < old(tree).n() && i != boss_id implies #[trigger] content@[i] == old(content)@[i] by {}
            }
            return boss_id;
        },
    };
    proof {
        let k = grid.index_of(boss_id);
        assert(grid.pos_at(k) == boss_pos);
        assert(grid.occupied((boss_pos.0 as int, boss_pos.1 as int)));
        assert(manhattan(grid.pos_at(k)) <= k);
    }
    let exit_pos = find_nearest_free_cell(grid, boss_pos);
    let exit_id = tree.rooms.len();
    let dir = if boss_pos.0 as i64 + 1 == exit_pos.0 as i64 && boss_pos.1 == exit_pos.1 {
        Direction::Right
    } else if boss_pos.0 as i64 - 1 == exit_pos.0 as i64 && boss_pos.1 == exit_pos.1 {
        Direction::Left
    } else {
        Direction::Down
    };
    let depth = tree.rooms[boss_id].depth;
    let ghost before = *tree;
    let exit_depth = if depth < u32::MAX { depth + 1 } else { depth };
    let new_id = tree.push_child(boss_id, RoomKind::Normal, Some(dir), exit_depth, exit_pos);
    let ghost g0 = *grid;
    proof {
        lemma_free_step_bound(g0, exit_pos);
    }
    grid.cells.push(GridCell { room_id: exit_id, pos: exit_pos });
    if exit_pos.0 < grid.min_x {
        grid.min_x = exit_pos.0;
    }
    if exit_pos.0 > grid.max_x {
        grid.max_x = exit_pos.0;
    }
    if exit_pos.1 < grid.min_y {
        grid.min_y = exit_pos.1;
    }
    if exit_pos.1 > grid.max_y {
        grid.max_y = exit_pos.1;
    }
    proof {
        lemma_grid_push_free(g0, *grid, exit_id, exit_pos, before.n());
        assert(grid.ncells() == g0.ncells() + 1);
        assert forall|k: int| 0 <= k < g0.ncells() implies #[trigger] grid.pos_at(k) == g0.pos_at(k) by {
            assert(grid.cells@[k] == g0.cells@[k]);
        }
        assert forall|k: int| 0 <= k < g0.ncells() implies #[trigger] grid.id_at(k) == g0.id_at(k) by {
            assert(grid.cells@[k] == g0.cells@[k]);
        }
        assert(grid.pos_at(g0.ncells() as int) == exit_pos);
    }
    content.push(RoomContent { enemies: None, switch: None, switch_door: None, sign: None, is_exit: true });
    exit_id
}

/// A free cell one step from a taken one is within the next Manhattan bound.
proof fn lemma_free_step_bound(g: DungeonGrid, p: (i32, i32))
    requires
        g.wf(),
        exists|q: (i32, i32)| g.occupied((q.0 as int, q.1 as int)) && #[trigger] one_step(q, p),
    ensures
        manhattan(p) <= g.ncells(),
{
    let q = choose|q: (i32, i32)| g.occupied((q.0 as int, q.1 as int)) && #[trigger] one_step(q, p);
    lemma_occupied_bound(g, q);
}

/// Adding a cell for a new room on a free position keeps the grid well formed.
proof fn lemma_grid_push_free(g0: DungeonGrid, g: DungeonGrid, id: usize, p: (i32, i32), n: int)
    requires
        g0.wf(),
        ids_below(g0, n),
        id == n,
        !g0.occupied((p.0 as int, p.1 as int)),
        manhattan(p) <= g0.ncells(),
        g0.ncells() < 0x7fff_ffff,
        g.cells@ == g0.cells@.push(GridCell { room_id: id, pos: p }),
        g.min_x == (if p.0 < g0.min_x { p.0 } else { g0.min_x }),
        g.max_x == (if p.0 > g0.max_x { p.0 } else { g0.max_x }),
        g.min_y == (if p.1 < g0.min_y { p.1 } else { g0.min_y }),
        g.max_y == (if p.1 > g0.max_y { p.1 } else { g0.max_y }),
    ensures
        g.wf(),
        ids_below(g, n + 1),
        g.placed(id),
        forall|x: usize| g0.placed(x) ==> #[trigger] g.placed(x),
{
    let m = g0.ncells();
    assert forall|k: int| 0 <= k < m implies #[trigger] g.pos_at(k) == g0.pos_at(k) && g.id_at(k) == g0.id_at(k) by {}
    assert(g.pos_at(m) == p && g.id_at(m) == id);
    assert forall|a: int, b: int| 0 <= a < g.ncells() && 0 <= b < g.ncells() && a != b implies #[trigger] g.pos_at(a) != #[trigger] g.pos_at(b) by {
        if a == m {
            assert(!(g0.pos_at(b).0 == p.0 && g0.pos_at(b).1 == p.1));
        } else if b == m {
            assert(!(g0.pos_at(a).0 == p.0 && g0.pos_at(a).1 == p.1));
        }
    }
    assert forall|a: int, b: int| 0 <= a < g.ncells() && 0 <= b < g.ncells() && a != b implies #[trigger] g.id_at(a) != #[trigger] g.id_at(b) by {
        if a == m {
            assert(g0.id_at(b) < n);
        } else if b == m {
            assert(g0.id_at(a) < n);
        }
    }
    assert forall|k: int| 0 <= k < g.ncells() implies manhattan(#[trigger] g.pos_at(k)) <= k by {
        if k < m {
            assert(manhattan(g0.pos_at(k)) <= k);
        }
    }
    assert forall|k: int| 0 <= k < g.ncells() implies g.min_x <= (#[trigger] g.pos_at(k)).0 <= g.max_x && g.min_y <= g.pos_at(k).1 <= g.max_y by {
        if k < m {
            assert(g0.min_x <= g0.pos_at(k).0 <= g0.max_x && g0.min_y <= g0.pos_at(k).1 <= g0.max_y);
        }
    }
    let kx0 = choose|k: int| 0 <= k < m && (#[trigger] g0.pos_at(k)).0 == g0.min_x;
    let kx1 = choose|k: int| 0 <= k < m && (#[trigger] g0.pos_at(k)).0 == g0.max_x;
    let ky0 = choose|k: int| 0 <= k < m && (#[trigger] g0.pos_at(k)).1 == g0.min_y;
    let ky1 = choose|k: int| 0 <= k < m && (#[trigger] g0.pos_at(k)).1 == g0.max_y;
    if p.0 < g0.min_x {
        assert(g.pos_at(m).0 == g.min_x);
    } else {
        assert(g.pos_at(kx0).0 == g.min_x);
    }
    if p.0 > g0.max_x {
        assert(g.pos_at(m).0 == g.max_x);
    } else {
        assert(g.pos_at(kx1).0 == g.max_x);
    }
    if p.1 < g0.min_y {
        assert(g.pos_at(m).1 == g.min_y);
    } else {
        assert(g.pos_at(ky0).1 == g.min_y);
    }
    if p.1 > g0.max_y {
        assert(g.pos_at(m).1 == g.max_y);
    } else {
        assert(g.pos_at(ky1).1 == g.max_y);
    }
    assert(g.id_at(0) == g0.id_at(0));
    assert forall|k: int| 0 <= k < g.ncells() implies (#[trigger] g.id_at(k)) < n + 1 by {
        if k < m {
            assert(g0.id_at(k) < n);
        }
    }
    assert forall|x: usize| g0.placed(x) implies #[trigger] g.placed(x) by {
        let k = choose|k: int| 0 <= k < m && #[trigger] g0.id_at(k) == x;
        assert(g.id_at(k) == x);
    }
}


// ── Content placement ───────────────────────────────────────────────────────

/// The rooms where regular enemy groups may go: the placed normal rooms
/// reached from the root of `t`, other than the root, the boss room and
/// the exit.
pub open spec fn enemy_pool(t: DungeonTree, g: DungeonGrid, boss: int, exit: int) -> Set<usize> {
    t.subtree_set(t.root as int).filter(|x: usize| g.placed(x) && x != t.root && x as int != boss && x as int != exit
        && t.rooms@[x as int].kind is Normal)
}

/// On a grid decoded from its tree, the boss room is placed: the goal
/// itself when it is placed, else the goal the grid gives, which is a
/// placed barrier, a placed leaf or the root. So [`place_content`] always
/// appends the exit room there.
pub proof fn lemma_boss_room_placed(t: DungeonTree, g: DungeonGrid, goal: usize, b: int)
    requires
        t.wf(),
        g.decodes(t),
        g.ncells() > 0,
        boss_room(t, g, goal, b),
    ensures
        g.placed(b as usize),
{
    if !g.placed(goal) {
        let order = choose|order: Seq<usize>| #[trigger] is_bfs_from(t.rooms@, t.root, order)
            && (forall|m: int| 0 <= m < order.len() ==> #[trigger] order[m] < t.n()) && crate::pathfinding::goal_along(t, Some(&g), order, b);
        if crate::pathfinding::has_barrier(t, Some(&g), order) {
            let m = choose|m: int| #[trigger] crate::pathfinding::last_barrier(t, Some(&g), order, m) && b == order[m];
        } else if crate::pathfinding::has_leaf(t, Some(&g), order) {
            let m = choose|m: int| #[trigger] crate::pathfinding::deepest_leaf(t, Some(&g), order, m) && b == order[m];
        } else {
            assert(g.id_at(0) == t.root);
        }
    }
}

/// On a grid decoded from its tree, the enemy pool is every placed normal
/// room other than the root, the boss room and the exit.
pub proof fn lemma_enemy_pool_placed(t: DungeonTree, g: DungeonGrid, boss: int, exit: int)
    requires
        t.wf(),
        g.decodes(t),
    ensures
        forall|x: usize| #[trigger] enemy_pool(t, g, boss, exit).contains(x) <==> (g.placed(x) && x != t.root && x as int != boss
            && x as int != exit && t.rooms@[x as int].kind is Normal),
{
    lemma_placed_below_root(g, t);
}

/// The rooms where switches and switch doors may go: those of the enemy
/// pool that lie on no shortest walk from the root to the exit over grid `g`.
pub open spec fn switch_pool(t: DungeonTree, g0: DungeonGrid, boss: int, exit: int, g: DungeonGrid, tf: DungeonTree) -> Set<usize> {
    enemy_pool(t, g0, boss, exit).filter(|x: usize| off_critical_path(g, sealed_rooms(tf, g), tf.n(), t.root, exit as usize, x as int))
}

/// The smaller of `a` and `b`.
pub open spec fn min_of(a: int, b: int) -> int {
    if a < b { a } else { b }
}

/// The boss room for goal `goal`: the goal itself when it is placed, else
/// the goal the grid gives (see [`goal_choice`]).
pub open spec fn boss_room(tree: DungeonTree, grid: DungeonGrid, goal: usize, b: int) -> bool {
    if grid.placed(goal) {
        b == goal
    } else {
        goal_choice(tree, Some(&grid), Seq::<RoomContent>::empty(), b)
    }
}

/// What placed content always satisfies: one entry per room; exactly one
/// exit (`exit`); the boss group on `boss` and nowhere else; regular enemy
/// groups only on placed normal rooms other than the root, the boss room
/// and the exit; non-empty signal lists and sign texts.
pub open spec fn content_ok(c: Seq<RoomContent>, t: DungeonTree, g: DungeonGrid, boss: int, exit: int) -> bool {
    &&& c.len() == t.n()
    &&& 0 <= exit < t.n()
    &&& 0 <= boss < t.n()
    &&& c[exit].is_exit
    &&& forall|i: int| 0 <= i < c.len() && (#[trigger] c[i]).is_exit ==> i == exit
    &&& c[boss].enemies == Some(EnemyGroup { count: 1, is_boss: true })
    &&& forall|i: int| 0 <= i < c.len() && (#[trigger] c[i]).enemies is Some && c[i].enemies.unwrap().is_boss ==> i == boss
    &&& forall|i: int| 0 <= i < c.len() && (#[trigger] c[i]).enemies is Some && !c[i].enemies.unwrap().is_boss ==> {
        &&& i != t.root
        &&& i != boss
        &&& i != exit
        &&& t.rooms@[i].kind is Normal
        &&& g.placed(i as usize)
    }
    &&& forall|i: int| 0 <= i < c.len() && ((#[trigger] c[i]).switch is Some || c[i].switch_door is Some) ==> {
        &&& i != t.root
        &&& i != boss
        &&& i != exit
        &&& t.rooms@[i].kind is Normal
        &&& g.placed(i as usize)
        &&& off_critical_path(g, sealed_rooms(t, g), t.n(), t.root, exit as usize, i)
    }
    &&& forall|i: int| 0 <= i < c.len() && (#[trigger] c[i]).switch is Some ==> c[i].switch.unwrap().signals@.len() > 0
    &&& forall|i: int| 0 <= i < c.len() && (#[trigger] c[i]).switch_door is Some ==> c[i].switch_door.unwrap().signals@.len() > 0
    &&& forall|i: int| 0 <= i < c.len() && (#[trigger] c[i]).sign is Some ==> c[i].sign.unwrap().text@.len() > 0
}

/// Filtering a list without repeats, entry by entry, makes a list without repeats.
proof fn lemma_push_fresh(p0: Seq<usize>, p1: Seq<usize>, src: Seq<usize>, q: int)
    requires
        0 <= q < src.len(),
        src.no_duplicates(),
        p0.no_duplicates(),
        forall|x: usize| #[trigger] p0.contains(x) ==> exists|k: int| 0 <= k < q && src[k] == x,
        p1 == p0 || p1 == p0.push(src[q]),
    ensures
        p1.no_duplicates(),
        forall|x: usize| #[trigger] p1.contains(x) ==> exists|k: int| 0 <= k < q + 1 && src[k] == x,
{
    if p1 == p0.push(src[q]) {
        if p0.contains(src[q]) {
            let k = choose|k: int| 0 <= k < q && src[k] == src[q];
        }
        assert forall|a: int, b: int| 0 <= a < p1.len() && 0 <= b < p1.len() && a != b implies p1[a] != p1[b] by {
            if a == p0.len() {
                assert(p0.contains(p1[b]));
            } else if b == p0.len() {
                assert(p0.contains(p1[a]));
            }
        }
        assert forall|x: usize| #[trigger] p1.contains(x) implies exists|k: int| 0 <= k < q + 1 && src[k] == x by {
            let i = choose|i: int| 0 <= i < p1.len() && p1[i] == x;
            if i < p0.len() {
                assert(p0.contains(x));
            }
        }
    } else {
        assert forall|x: usize| #[trigger] p1.contains(x) implies exists|k: int| 0 <= k < q + 1 && src[k] == x by {
            assert(p0.contains(x));
        }
    }
}

/// Every signal id in `s` is below `bound`.
pub open spec fn signals_below(s: Seq<u32>, bound: int) -> bool {
    forall|k: int| 0 <= k < s.len() ==> (#[trigger] s[k]) < bound
}

/// Adding a switch to one free room and its door to another, with a fresh
/// id and fresh signals, keeps the finer content facts.
#[verifier::rlimit(40)]
proof fn lemma_pair_added(
    c0: Seq<RoomContent>,
    c: Seq<RoomContent>,
    t: DungeonTree,
    g: DungeonGrid,
    cfg: ContentConfig,
    sw: int,
    dr: int,
    id: u32,
    sigs: Seq<u32>,
    sig0: int,
)
    requires
        content_detail(c0, t, g, cfg),
        0 <= sw < c0.len(),
        0 <= dr < c0.len(),
        sw != dr,
        c0[sw].switch is None && c0[sw].switch_door is None,
        c0[dr].switch is None && c0[dr].switch_door is None,
        forall|i: int| 0 <= i < c0.len() && (#[trigger] c0[i]).switch is Some ==> c0[i].switch.unwrap().switch_id < id
            && signals_below(c0[i].switch.unwrap().signals@, sig0),
        forall|k: int| 0 <= k < sigs.len() ==> (#[trigger] sigs[k]) >= sig0,
        sigs.len() <= cfg.max_signals_per_pair,
        c.len() == c0.len(),
        forall|i: int| 0 <= i < c.len() && i != sw && i != dr ==> #[trigger] c[i] == c0[i],
        c[sw].switch is Some,
        c[sw].switch.unwrap().switch_id == id,
        c[sw].switch.unwrap().signals@ == sigs,
        c[sw].switch_door == c0[sw].switch_door,
        c[sw].enemies == c0[sw].enemies,
        c[sw].sign == c0[sw].sign,
        c[dr].switch_door is Some,
        c[dr].switch_door.unwrap().door_id == id,
        c[dr].switch_door.unwrap().signals@ == sigs,
        c[dr].switch == c0[dr].switch,
        c[dr].enemies == c0[dr].enemies,
        c[dr].sign == c0[dr].sign,
    ensures
        content_detail(c, t, g, cfg),
        count_rooms(c, regular_rooms()) == count_rooms(c0, regular_rooms()),
        count_rooms(c, switch_rooms()) == count_rooms(c0, switch_rooms()) + 1,
        count_rooms(c, door_rooms()) == count_rooms(c0, door_rooms()) + 1,
{
    let c1 = c0.update(sw, c[sw]);
    assert(c =~= c1.update(dr, c[dr]));
    assert forall|i: int| 0 <= i < c.len() && (#[trigger] c[i]).switch is Some implies c[i].switch.unwrap().signals@.len() <= cfg.max_signals_per_pair by {
        if i != sw && i != dr {
            assert(c[i] == c0[i]);
        }
    }
    assert forall|i: int| 0 <= i < c.len() && (#[trigger] c[i]).switch_door is Some implies c[i].switch_door.unwrap().signals@.len() <= cfg.max_signals_per_pair by {
        if i != sw && i != dr {
            assert(c[i] == c0[i]);
        }
    }
    lemma_count_rooms_update(c0, sw, c[sw], switch_rooms());
    lemma_count_rooms_update(c1, dr, c[dr], switch_rooms());
    lemma_count_rooms_update(c0, sw, c[sw], door_rooms());
    lemma_count_rooms_update(c1, dr, c[dr], door_rooms());
    assert forall|i: int| 0 <= i < c0.len() implies regular_rooms()(#[trigger] c0[i]) == regular_rooms()(c[i]) by {
        assert(c[i].enemies == c0[i].enemies);
    }
    lemma_count_rooms_same(c0, c, regular_rooms());
    assert(paired(c[sw], c[dr]));
    assert forall|a: int, b: int| 0 <= a < c.len() && 0 <= b < c.len() && a != b && (#[trigger] c[a]).switch is Some && (#[trigger] c[b]).switch is Some
        implies c[a].switch.unwrap().switch_id != c[b].switch.unwrap().switch_id
            && !shares_signal(c[a].switch.unwrap().signals@, c[b].switch.unwrap().signals@) by {
        if a == sw {
            assert(c[b] == c0[b]);
            assert(signals_below(c0[b].switch.unwrap().signals@, sig0));
            if shares_signal(c[a].switch.unwrap().signals@, c[b].switch.unwrap().signals@) {
                let k = choose|k: int| 0 <= k < sigs.len() && #[trigger] c0[b].switch.unwrap().signals@.contains(sigs[k]);
                let m = choose|m: int| 0 <= m < c0[b].switch.unwrap().signals@.len() && c0[b].switch.unwrap().signals@[m] == sigs[k];
            }
        } else if b == sw {
            assert(c[a] == c0[a]);
            assert(signals_below(c0[a].switch.unwrap().signals@, sig0));
            if shares_signal(c[a].switch.unwrap().signals@, c[b].switch.unwrap().signals@) {
                let k = choose|k: int| 0 <= k < c0[a].switch.unwrap().signals@.len() && #[trigger] sigs.contains(c0[a].switch.unwrap().signals@[k]);
                let m = choose|m: int| 0 <= m < sigs.len() && sigs[m] == c0[a].switch.unwrap().signals@[k];
            }
        } else {
            assert(c[a] == c0[a] && c[b] == c0[b]);
        }
    }
    assert forall|j: int| 0 <= j < c.len() && (#[trigger] c[j]).switch_door is Some implies exists|i: int| 0 <= i < c.len() && #[trigger] paired(c[i], c[j]) by {
        if j != dr {
            assert(c[j] == c0[j] || j == sw);
            assert(j != sw);
            let i = choose|i: int| 0 <= i < c0.len() && #[trigger] paired(c0[i], c0[j]);
            assert(i != sw && i != dr);
            assert(paired(c[i], c[j]));
        }
    }
    assert forall|i: int| 0 <= i < c.len() && (#[trigger] c[i]).switch is Some implies exists|j: int| 0 <= j < c.len() && #[trigger] paired(c[i], c[j]) by {
        if i != sw {
            assert(i != dr);
            let j = choose|j: int| 0 <= j < c0.len() && #[trigger] paired(c0[i], c0[j]);
            assert(j != sw && j != dr);
            assert(paired(c[i], c[j]));
        }
    }
    assert forall|i: int| 0 <= i < c.len() && (#[trigger] c[i]).enemies is Some && !c[i].enemies.unwrap().is_boss
        implies 1 <= c[i].enemies.unwrap().count <= cfg.max_enemies_per_group by {
        assert(c[i].enemies == c0[i].enemies);
    }
    assert forall|i: int| 0 <= i < c.len() && (#[trigger] c[i]).sign is Some implies {
        &&& t.rooms@[i].kind is Normal
        &&& c[i].sign.unwrap().kind is Atmospheric ==> c[i].enemies is None
        &&& c[i].sign.unwrap().kind is Contextual ==> exists|nb: usize|
            #[trigger] g.neighbours_of(i as usize).contains(nb) && !(t.rooms@[nb as int].kind is Normal)
    } by {
        assert(c[i].sign == c0[i].sign && c[i].enemies == c0[i].enemies);
    }
}

/// Putting a sign in a normal room (an atmospheric one only where there
/// are no enemies, a hint only beside a room of another kind) keeps the
/// finer content facts.
proof fn lemma_sign_added(c0: Seq<RoomContent>, c: Seq<RoomContent>, t: DungeonTree, g: DungeonGrid, cfg: ContentConfig, id: int)
    requires
        content_detail(c0, t, g, cfg),
        0 <= id < c0.len(),
        c.len() == c0.len(),
        forall|i: int| 0 <= i < c.len() && i != id ==> #[trigger] c[i] == c0[i],
        c[id].sign is Some,
        c[id].enemies == c0[id].enemies,
        c[id].switch == c0[id].switch,
        c[id].switch_door == c0[id].switch_door,
        t.rooms@[id].kind is Normal,
        c[id].sign.unwrap().kind is Atmospheric ==> c[id].enemies is None,
        c[id].sign.unwrap().kind is Contextual ==> exists|nb: usize|
            #[trigger] g.neighbours_of(id as usize).contains(nb) && !(t.rooms@[nb as int].kind is Normal),
    ensures
        content_detail(c, t, g, cfg),
        count_rooms(c, regular_rooms()) == count_rooms(c0, regular_rooms()),
        count_rooms(c, switch_rooms()) == count_rooms(c0, switch_rooms()),
        count_rooms(c, door_rooms()) == count_rooms(c0, door_rooms()),
{
    assert forall|i: int| 0 <= i < c0.len() implies regular_rooms()(#[trigger] c0[i]) == regular_rooms()(c[i])
        && switch_rooms()(c0[i]) == switch_rooms()(c[i]) && door_rooms()(c0[i]) == door_rooms()(c[i]) by {
        if i != id {
            assert(c[i] == c0[i]);
        }
    }
    lemma_count_rooms_same(c0, c, regular_rooms());
    lemma_count_rooms_same(c0, c, switch_rooms());
    lemma_count_rooms_same(c0, c, door_rooms());
    assert forall|i: int| 0 <= i < c.len() && (#[trigger] c[i]).enemies is Some && !c[i].enemies.unwrap().is_boss
        implies 1 <= c[i].enemies.unwrap().count <= cfg.max_enemies_per_group by {
        assert(c[i].enemies == c0[i].enemies);
    }
    assert forall|a: int, b: int| 0 <= a < c.len() && 0 <= b < c.len() && a != b && (#[trigger] c[a]).switch is Some && (#[trigger] c[b]).switch is Some
        implies c[a].switch.unwrap().switch_id != c[b].switch.unwrap().switch_id
            && !shares_signal(c[a].switch.unwrap().signals@, c[b].switch.unwrap().signals@) by {
        assert(c[a].switch == c0[a].switch && c[b].switch == c0[b].switch);
    }
    assert forall|j: int| 0 <= j < c.len() && (#[trigger] c[j]).switch_door is Some implies exists|i: int| 0 <= i < c.len() && #[trigger] paired(c[i], c[j]) by {
        assert(c[j].switch_door == c0[j].switch_door);
        let i = choose|i: int| 0 <= i < c0.len() && #[trigger] paired(c0[i], c0[j]);
        assert(c[i].switch == c0[i].switch);
        assert(paired(c[i], c[j]));
    }
    assert forall|i: int| 0 <= i < c.len() && (#[trigger] c[i]).switch is Some implies exists|j: int| 0 <= j < c.len() && #[trigger] paired(c[i], c[j]) by {
        assert(c[i].switch == c0[i].switch);
        let j = choose|j: int| 0 <= j < c0.len() && #[trigger] paired(c0[i], c0[j]);
        assert(c[j].switch_door == c0[j].switch_door);
        assert(paired(c[i], c[j]));
    }
    assert forall|i: int| 0 <= i < c.len() && (#[trigger] c[i]).sign is Some implies {
        &&& t.rooms@[i].kind is Normal
        &&& c[i].sign.unwrap().kind is Atmospheric ==> c[i].enemies is None
        &&& c[i].sign.unwrap().kind is Contextual ==> exists|nb: usize|
            #[trigger] g.neighbours_of(i as usize).contains(nb) && !(t.rooms@[nb as int].kind is Normal)
    } by {
        if i != id {
            assert(c[i] == c0[i]);
        }
    }
}

/// How many rooms of `c` satisfy `f`.
pub open spec fn count_rooms(c: Seq<RoomContent>, f: spec_fn(RoomContent) -> bool) -> nat
    decreases c.len(),
{
    if c.len() == 0 {
        0
    } else {
        count_rooms(c.drop_last(), f) + if f(c.last()) { 1nat } else { 0nat }
    }
}

/// The room holds a regular (not boss) enemy group.
pub open spec fn has_regular_group(x: RoomContent) -> bool {
    x.enemies is Some && !x.enemies.unwrap().is_boss
}

/// Rooms with a regular enemy group.
pub open spec fn regular_rooms() -> spec_fn(RoomContent) -> bool {
    |x: RoomContent| has_regular_group(x)
}

/// Rooms with a switch.
pub open spec fn switch_rooms() -> spec_fn(RoomContent) -> bool {
    |x: RoomContent| x.switch is Some
}

/// Rooms with a switch door.
pub open spec fn door_rooms() -> spec_fn(RoomContent) -> bool {
    |x: RoomContent| x.switch_door is Some
}

/// Changing one room changes the count by what that room was and became.
proof fn lemma_count_rooms_update(c: Seq<RoomContent>, i: int, x: RoomContent, f: spec_fn(RoomContent) -> bool)
    requires
        0 <= i < c.len(),
    ensures
        count_rooms(c.update(i, x), f) + (if f(c[i]) { 1nat } else { 0nat }) == count_rooms(c, f) + (if f(x) { 1nat } else { 0nat }),
    decreases c.len(),
{
    let c2 = c.update(i, x);
    if i < c.len() - 1 {
        assert(c2.drop_last() =~= c.drop_last().update(i, x));
        lemma_count_rooms_update(c.drop_last(), i, x, f);
    } else {
        assert(c2.drop_last() =~= c.drop_last());
    }
}

/// Rooms that agree on `f` give the same count.
proof fn lemma_count_rooms_same(a: Seq<RoomContent>, b: Seq<RoomContent>, f: spec_fn(RoomContent) -> bool)
    requires
        a.len() == b.len(),
        forall|i: int| 0 <= i < a.len() ==> f(#[trigger] a[i]) == f(b[i]),
    ensures
        count_rooms(a, f) == count_rooms(b, f),
    decreases a.len(),
{
    if a.len() > 0 {
        assert forall|i: int| 0 <= i < a.drop_last().len() implies f(#[trigger] a.drop_last()[i]) == f(b.drop_last()[i]) by {
            assert(a.drop_last()[i] == a[i] && b.drop_last()[i] == b[i]);
        }
        lemma_count_rooms_same(a.drop_last(), b.drop_last(), f);
        assert(f(a[a.len() - 1]) == f(b[b.len() - 1]));
    }
}

/// No room satisfying `f` gives the count zero.
proof fn lemma_count_rooms_none(c: Seq<RoomContent>, f: spec_fn(RoomContent) -> bool)
    requires
        forall|i: int| 0 <= i < c.len() ==> !f(#[trigger] c[i]),
    ensures
        count_rooms(c, f) == 0,
    decreases c.len(),
{
    if c.len() > 0 {
        assert forall|i: int| 0 <= i < c.drop_last().len() implies !f(#[trigger] c.drop_last()[i]) by {
            assert(c.drop_last()[i] == c[i]);
        }
        lemma_count_rooms_none(c.drop_last(), f);
        assert(!f(c[c.len() - 1]));
    }
}

/// Content `s` holds the switch paired with the switch door of content
/// `d`: the same id and the same signals.
pub open spec fn paired(s: RoomContent, d: RoomContent) -> bool {
    &&& s.switch is Some
    &&& d.switch_door is Some
    &&& s.switch.unwrap().switch_id == d.switch_door.unwrap().door_id
    &&& s.switch.unwrap().signals@ == d.switch_door.unwrap().signals@
}

/// The finer facts of placed content: a regular enemy group holds from one
/// to `max_enemies_per_group` enemies; no two switches share an id or a
/// signal; each switch door listens to exactly the signals of a switch
/// with its id, and each switch has such a door; no pair carries more than
/// `max_signals_per_pair` signals; a sign stands in a normal
/// room, a hint sign beside a room of another kind and an atmospheric sign
/// in a room without enemies.
pub open spec fn content_detail(c: Seq<RoomContent>, t: DungeonTree, g: DungeonGrid, cfg: ContentConfig) -> bool {
    &&& forall|i: int| 0 <= i < c.len() && (#[trigger] c[i]).enemies is Some && !c[i].enemies.unwrap().is_boss
        ==> 1 <= c[i].enemies.unwrap().count <= cfg.max_enemies_per_group
    &&& forall|a: int, b: int| 0 <= a < c.len() && 0 <= b < c.len() && a != b && (#[trigger] c[a]).switch is Some && (#[trigger] c[b]).switch is Some
        ==> c[a].switch.unwrap().switch_id != c[b].switch.unwrap().switch_id
            && !shares_signal(c[a].switch.unwrap().signals@, c[b].switch.unwrap().signals@)
    &&& forall|j: int| 0 <= j < c.len() && (#[trigger] c[j]).switch_door is Some ==> exists|i: int| 0 <= i < c.len() && #[trigger] paired(c[i], c[j])
    &&& forall|i: int| 0 <= i < c.len() && (#[trigger] c[i]).switch is Some ==> exists|j: int| 0 <= j < c.len() && #[trigger] paired(c[i], c[j])
    &&& forall|i: int| 0 <= i < c.len() && (#[trigger] c[i]).switch is Some ==> c[i].switch.unwrap().signals@.len() <= cfg.max_signals_per_pair
    &&& forall|i: int| 0 <= i < c.len() && (#[trigger] c[i]).switch_door is Some ==> c[i].switch_door.unwrap().signals@.len() <= cfg.max_signals_per_pair
    &&& forall|i: int| 0 <= i < c.len() && (#[trigger] c[i]).sign is Some ==> {
        &&& t.rooms@[i].kind is Normal
        &&& c[i].sign.unwrap().kind is Atmospheric ==> c[i].enemies is None
        &&& c[i].sign.unwrap().kind is Contextual ==> exists|nb: usize|
            #[trigger] g.neighbours_of(i as usize).contains(nb) && !(t.rooms@[nb as int].kind is Normal)
    }
}

/// Cell `k` of the grid has a taken cell one step away.
pub open spec fn touches(g: DungeonGrid, k: int) -> bool {
    exists|d: int| 0 <= d < 4 && #[trigger] g.occupied(step_at(g.pos_at(k), d))
}

/// Every cell of the grid has a taken cell one step away.
pub open spec fn grid_touching(g: DungeonGrid) -> bool {
    forall|k: int| 0 <= k < g.ncells() ==> #[trigger] touches(g, k)
}

/// Adding a cell one step from a taken cell keeps every cell touching
/// another, and makes a grid of one cell touching.
proof fn lemma_touching_push(g0: DungeonGrid, g: DungeonGrid)
    requires
        g0.ncells() > 0,
        g.ncells() == g0.ncells() + 1,
        forall|k: int| 0 <= k < g0.ncells() ==> #[trigger] g.pos_at(k) == g0.pos_at(k),
        exists|q: (i32, i32)| g0.occupied((q.0 as int, q.1 as int)) && #[trigger] one_step(q, g.pos_at(g0.ncells() as int)),
        grid_touching(g0) || g0.ncells() == 1,
    ensures
        grid_touching(g),
{
    let n = g0.ncells() as int;
    let p = g.pos_at(n);
    let q = choose|q: (i32, i32)| g0.occupied((q.0 as int, q.1 as int)) && #[trigger] one_step(q, p);
    let kq = choose|k: int| 0 <= k < g0.ncells() && (#[trigger] g0.pos_at(k)).0 == q.0 && g0.pos_at(k).1 == q.1;
    assert(g.pos_at(kq) == g0.pos_at(kq));
    assert forall|k: int| 0 <= k < g.ncells() implies #[trigger] touches(g, k) by {
        if k == n {
            let d = if q.0 == p.0 - 1 { 1int } else if q.0 == p.0 + 1 { 0int } else if q.1 == p.1 - 1 { 3int } else { 2int };
            assert(step_at(p, d) == (q.0 as int, q.1 as int));
            assert(g.occupied(step_at(g.pos_at(k), d)));
        } else if g0.ncells() == 1 {
            assert(k == 0 && kq == 0);
            let d = if p.0 == q.0 + 1 { 0int } else if p.0 == q.0 - 1 { 1int } else if p.1 == q.1 + 1 { 2int } else { 3int };
            assert(step_at(g.pos_at(0), d) == (p.0 as int, p.1 as int));
            assert(g.occupied(step_at(g.pos_at(k), d)));
        } else {
            assert(g.pos_at(k) == g0.pos_at(k));
            assert(touches(g0, k));
            let d = choose|d: int| 0 <= d < 4 && #[trigger] g0.occupied(step_at(g0.pos_at(k), d));
            let s = step_at(g0.pos_at(k), d);
            let m = choose|m: int| 0 <= m < g0.ncells() && (#[trigger] g0.pos_at(m)).0 == s.0 && g0.pos_at(m).1 == s.1;
            assert(g.pos_at(m) == g0.pos_at(m));
            assert(g.occupied(step_at(g.pos_at(k), d)));
        }
    }
}

/// What a room's sign shows: its kind and its text.
pub open spec fn sign_of(c: RoomContent) -> Option<(SignKind, Seq<char>)> {
    match c.sign {
        Some(sg) => Some((sg.kind, sg.text@)),
        None => None,
    }
}

/// The signs of the rooms of `c`.
pub open spec fn sign_views(c: Seq<RoomContent>) -> Seq<Option<(SignKind, Seq<char>)>> {
    Seq::new(c.len(), |i: int| sign_of(c[i]))
}

/// Which rooms of `c` hold an enemy group.
pub open spec fn enemy_flags(c: Seq<RoomContent>) -> Seq<bool> {
    Seq::new(c.len(), |i: int| c[i].enemies is Some)
}

/// The entries of `s` that `g` places, in order.
pub open spec fn placed_only(g: DungeonGrid, s: Seq<usize>) -> Seq<usize>
    decreases s.len(),
{
    if s.len() == 0 {
        Seq::empty()
    } else if g.placed(s.last()) {
        placed_only(g, s.drop_last()).push(s.last())
    } else {
        placed_only(g, s.drop_last())
    }
}

/// The rooms of `t` that `g` places, in breadth-first order.
pub open spec fn placed_bfs_order(t: DungeonTree, g: DungeonGrid) -> Seq<usize> {
    placed_only(g, choose|o: Seq<usize>| #[trigger] is_bfs_from(t.rooms@, t.root, o) && (forall|m: int| 0 <= m < o.len() ==> #[trigger] o[m] < t.n()))
}

/// Room `id` has a grid neighbour along `order` that is not a normal room.
pub open spec fn beside_special(tree: DungeonTree, grid: DungeonGrid, order: Seq<usize>, id: usize) -> bool {
    exists|x: usize| #[trigger] grid.neighbours_of(id).contains(x) && order.contains(x) && !(tree.rooms@[x as int].kind is Normal)
}

/// The hint pass over `order` from position `q`: a normal room without a
/// sign next to a special room draws a chance `prob` (over 2^53); on a hit
/// it gets a hint drawn from the pool its neighbours select.
pub open spec fn hint_pass(tree: DungeonTree, grid: DungeonGrid, order: Seq<usize>, q: int,
    signs: Seq<Option<(SignKind, Seq<char>)>>, prob: u64, s: RngState) -> (Seq<Option<(SignKind, Seq<char>)>>, RngState)
    decreases order.len() - q,
{
    if 0 <= q < order.len() {
        let id = order[q];
        if tree.rooms@[id as int].kind is Normal && signs[id as int] is None && beside_special(tree, grid, order, id) {
            if chance_hit(s, prob) {
                let pool = hint_pool(tree, grid.neighbours_of(id));
                let d = usize_draw(xoshiro_next(s), pool_size(pool) as usize);
                hint_pass(tree, grid, order, q + 1, signs.update(id as int, Some((SignKind::Contextual, sign_text(pool, d.0 as int)))), prob, d.1)
            } else {
                hint_pass(tree, grid, order, q + 1, signs, prob, xoshiro_next(s))
            }
        } else {
            hint_pass(tree, grid, order, q + 1, signs, prob, s)
        }
    } else {
        (signs, s)
    }
}

/// The atmospheric pass over `order` from position `q`: a normal room
/// without a sign and without enemies draws a chance `prob` (over 2^53);
/// on a hit it gets a line drawn from the atmospheric pool.
pub open spec fn mood_pass(tree: DungeonTree, enemies: Seq<bool>, order: Seq<usize>, q: int,
    signs: Seq<Option<(SignKind, Seq<char>)>>, prob: u64, s: RngState) -> (Seq<Option<(SignKind, Seq<char>)>>, RngState)
    decreases order.len() - q,
{
    if 0 <= q < order.len() {
        let id = order[q];
        if tree.rooms@[id as int].kind is Normal && signs[id as int] is None && !enemies[id as int] {
            if chance_hit(s, prob) {
                let d = usize_draw(xoshiro_next(s), 15);
                mood_pass(tree, enemies, order, q + 1, signs.update(id as int, Some((SignKind::Atmospheric, sign_text(3, d.0 as int)))), prob, d.1)
            } else {
                mood_pass(tree, enemies, order, q + 1, signs, prob, xoshiro_next(s))
            }
        } else {
            mood_pass(tree, enemies, order, q + 1, signs, prob, s)
        }
    } else {
        (signs, s)
    }
}

/// The signs of content `c` and the generator state after both passes
/// over `order` from state `s`, starting from rooms without signs.
pub open spec fn sign_passes(tree: DungeonTree, grid: DungeonGrid, c: Seq<RoomContent>, order: Seq<usize>, cfg: ContentConfig, s: RngState)
    -> (Seq<Option<(SignKind, Seq<char>)>>, RngState) {
    let p1 = hint_pass(tree, grid, order, 0, Seq::new(c.len(), |i: int| None::<(SignKind, Seq<char>)>), cfg.prob_contextual_sign, s);
    mood_pass(tree, enemy_flags(c), order, 0, p1.0, cfg.prob_atmospheric_sign, p1.1)
}

/// The entries of `s` that may hold enemies, switches or switch doors:
/// normal rooms of `t` other than its root, `boss` and `exit`, in order.
pub open spec fn pool_order(t: DungeonTree, s: Seq<usize>, boss: int, exit: int) -> Seq<usize>
    decreases s.len(),
{
    if s.len() == 0 {
        Seq::empty()
    } else {
        let x = s.last();
        if x != t.root && x as int != boss && x as int != exit && t.rooms@[x as int].kind is Normal {
            pool_order(t, s.drop_last(), boss, exit).push(x)
        } else {
            pool_order(t, s.drop_last(), boss, exit)
        }
    }
}

/// The entries of `s` on no shortest walk from the root of `t` to `exit`
/// over grid `g`, in order.
pub open spec fn off_path_order(g: DungeonGrid, t: DungeonTree, s: Seq<usize>, exit: usize) -> Seq<usize>
    decreases s.len(),
{
    if s.len() == 0 {
        Seq::empty()
    } else if off_critical_path(g, sealed_rooms(t, g), t.n(), t.root, exit, s.last() as int) {
        off_path_order(g, t, s.drop_last(), exit).push(s.last())
    } else {
        off_path_order(g, t, s.drop_last(), exit)
    }
}

/// `k` draws below `max` in a row from state `s`: the values drawn and the
/// state left.
pub open spec fn group_draws(s: RngState, max: u32, k: nat) -> (Seq<usize>, RngState)
    decreases k,
{
    if k == 0 {
        (Seq::empty(), s)
    } else {
        let prev = group_draws(s, max, (k - 1) as nat);
        let d = usize_draw(prev.1, max as usize);
        (prev.0.push(d.0), d.1)
    }
}

/// The enemy groups drawn from state `s`: the pool in breadth-first order
/// is shuffled, its first `min(target, pool size)` rooms get a group each,
/// whose size is one more than a draw below the largest group size. The
/// rooms, the draws and the state left.
pub open spec fn enemy_plan(t: DungeonTree, g: DungeonGrid, boss: int, exit: int, cfg: ContentConfig, s: RngState)
    -> (Seq<usize>, Seq<usize>, RngState) {
    let pool = pool_order(t, placed_bfs_order(t, g), boss, exit);
    let sh = fisher_yates(pool, s, pool.len() - 1);
    let k = min_of(cfg.target_enemy_groups as int, pool.len() as int);
    let d = group_draws(sh.1, cfg.max_enemies_per_group, k as nat);
    (sh.0.take(k), d.0, d.1)
}

/// Up to `k` switch/door pairs drawn from the candidates `c` in state `s`:
/// the switch is drawn from the first half of the candidates, the door
/// from the rest once the switch is taken out, then the number of signals
/// (one more than a draw below `max_sig`). The pairs as (switch room,
/// door room, signal count), and the state left.
pub open spec fn pair_plan(c: Seq<usize>, k: nat, s: RngState, max_sig: u32) -> (Seq<(usize, usize, usize)>, RngState)
    decreases k,
{
    if k == 0 || c.len() < 2 {
        (Seq::empty(), s)
    } else {
        let a = usize_draw(s, (c.len() / 2) as usize);
        let c1 = c.remove(a.0 as int);
        let b = usize_draw(a.1, c1.len() as usize);
        let c2 = c1.remove(b.0 as int);
        let m = usize_draw(b.1, max_sig as usize);
        let rest = pair_plan(c2, (k - 1) as nat, m.1, max_sig);
        (seq![(c[a.0 as int], c1[b.0 as int], (m.0 + 1) as usize)] + rest.0, rest.1)
    }
}

/// The first signal id of pair `p`: the signals of the pairs before it, counted.
pub open spec fn signals_before(plan: Seq<(usize, usize, usize)>, p: int) -> int
    decreases p,
{
    if p <= 0 {
        0
    } else {
        signals_before(plan, p - 1) + plan[p - 1].2
    }
}

/// The signal ids `start`, `start + 1`, ... (`len` of them).
pub open spec fn signal_span(start: int, len: int) -> Seq<u32> {
    Seq::new(len as nat, |m: int| (start + m) as u32)
}

/// The switch/door pairs drawn after the enemy groups: candidates are the
/// enemy pool in breadth-first order, off the critical path of the final
/// grid `g` and tree `tf`; there are `min(target, candidates / 2)` pairs.
pub open spec fn switch_plan(t: DungeonTree, g0: DungeonGrid, boss: int, exit: int, g: DungeonGrid, tf: DungeonTree,
    cfg: ContentConfig, s: RngState) -> (Seq<(usize, usize, usize)>, RngState) {
    let c = off_path_order(g, tf, pool_order(t, placed_bfs_order(t, g0), boss, exit), exit as usize);
    pair_plan(c, min_of(cfg.target_switch_pairs as int, (c.len() / 2) as int) as nat, s, cfg.max_signals_per_pair)
}

/// The signals before pair `p` do not depend on the pairs after it.
proof fn lemma_signals_before_prefix(plan: Seq<(usize, usize, usize)>, t: (usize, usize, usize), p: int)
    requires
        p <= plan.len(),
    ensures
        signals_before(plan.push(t), p) == signals_before(plan, p),
    decreases p,
{
    if p > 0 {
        lemma_signals_before_prefix(plan, t, p - 1);
        assert(plan.push(t)[p - 1] == plan[p - 1]);
    }
}

/// Content `c` holds the pairs of `plan`: pair `p` puts switch `p` and door
/// `p` on its rooms, both listening to its own run of signal ids.
#[verifier::opaque]
pub open spec fn pairs_placed(c: Seq<RoomContent>, plan: Seq<(usize, usize, usize)>) -> bool {
    forall|p: int| 0 <= p < plan.len() ==> {
        &&& (#[trigger] plan[p]).0 < c.len()
        &&& plan[p].1 < c.len()
        &&& c[plan[p].0 as int].switch is Some
        &&& c[plan[p].0 as int].switch.unwrap().switch_id == p
        &&& c[plan[p].0 as int].switch.unwrap().signals@ == signal_span(signals_before(plan, p), plan[p].2 as int)
        &&& c[plan[p].1 as int].switch_door is Some
        &&& c[plan[p].1 as int].switch_door.unwrap().door_id == p
        &&& c[plan[p].1 as int].switch_door.unwrap().signals@ == signal_span(signals_before(plan, p), plan[p].2 as int)
    }
}

/// Content `c` holds the enemy groups `draws` (each one more than the draw)
/// on `rooms`.
#[verifier::opaque]
pub open spec fn groups_placed(c: Seq<RoomContent>, rooms: Seq<usize>, draws: Seq<usize>) -> bool {
    &&& draws.len() == rooms.len()
    &&& forall|j: int| 0 <= j < rooms.len() ==> (#[trigger] rooms[j]) < c.len()
        && c[rooms[j] as int].enemies == Some(EnemyGroup { count: (draws[j] + 1) as u32, is_boss: false })
}

/// Placing one more pair, on rooms without a switch or a switch door,
/// keeps the pairs placed before it.
proof fn lemma_pairs_step(c0: Seq<RoomContent>, c1: Seq<RoomContent>, done: Seq<(usize, usize, usize)>, t: (usize, usize, usize))
    requires
        pairs_placed(c0, done),
        c1.len() == c0.len(),
        t.0 < c0.len(),
        t.1 < c0.len(),
        c0[t.0 as int].switch is None,
        c0[t.1 as int].switch_door is None,
        forall|i: int| 0 <= i < c1.len() && i != t.0 ==> (#[trigger] c1[i]).switch == c0[i].switch,
        forall|i: int| 0 <= i < c1.len() && i != t.1 ==> (#[trigger] c1[i]).switch_door == c0[i].switch_door,
        c1[t.0 as int].switch is Some,
        c1[t.0 as int].switch.unwrap().switch_id == done.len(),
        c1[t.0 as int].switch.unwrap().signals@ == signal_span(signals_before(done, done.len() as int), t.2 as int),
        c1[t.1 as int].switch_door is Some,
        c1[t.1 as int].switch_door.unwrap().door_id == done.len(),
        c1[t.1 as int].switch_door.unwrap().signals@ == signal_span(signals_before(done, done.len() as int), t.2 as int),
    ensures
        pairs_placed(c1, done.push(t)),
{
    reveal(pairs_placed);
    let d1 = done.push(t);
    assert forall|p: int| 0 <= p < d1.len() implies {
        &&& (#[trigger] d1[p]).0 < c1.len()
        &&& d1[p].1 < c1.len()
        &&& c1[d1[p].0 as int].switch is Some
        &&& c1[d1[p].0 as int].switch.unwrap().switch_id == p
        &&& c1[d1[p].0 as int].switch.unwrap().signals@ == signal_span(signals_before(d1, p), d1[p].2 as int)
        &&& c1[d1[p].1 as int].switch_door is Some
        &&& c1[d1[p].1 as int].switch_door.unwrap().door_id == p
        &&& c1[d1[p].1 as int].switch_door.unwrap().signals@ == signal_span(signals_before(d1, p), d1[p].2 as int)
    } by {
        lemma_signals_before_prefix(done, t, p);
        if p < done.len() {
            assert(d1[p] == done[p]);
            assert(c0[done[p].0 as int].switch is Some);
            assert(c0[done[p].1 as int].switch_door is Some);
            assert(c1[done[p].0 as int].switch == c0[done[p].0 as int].switch);
            assert(c1[done[p].1 as int].switch_door == c0[done[p].1 as int].switch_door);
        }
    }
}

/// Keeping every room's enemies keeps the groups placed.
proof fn lemma_groups_keep(c0: Seq<RoomContent>, c1: Seq<RoomContent>, rooms: Seq<usize>, draws: Seq<usize>)
    requires
        groups_placed(c0, rooms, draws),
        c1.len() == c0.len(),
        forall|i: int| 0 <= i < c1.len() ==> (#[trigger] c1[i]).enemies == c0[i].enemies,
    ensures
        groups_placed(c1, rooms, draws),
{
    reveal(groups_placed);
    assert forall|j: int| 0 <= j < rooms.len() implies (#[trigger] rooms[j]) < c1.len()
        && c1[rooms[j] as int].enemies == Some(EnemyGroup { count: (draws[j] + 1) as u32, is_boss: false }) by {
        assert(c1[rooms[j] as int].enemies == c0[rooms[j] as int].enemies);
    }
}

/// Keeping every room's switch and switch door keeps the pairs placed.
proof fn lemma_pairs_keep(c0: Seq<RoomContent>, c1: Seq<RoomContent>, plan: Seq<(usize, usize, usize)>)
    requires
        pairs_placed(c0, plan),
        c1.len() == c0.len(),
        forall|i: int| 0 <= i < c1.len() ==> (#[trigger] c1[i]).switch == c0[i].switch && c1[i].switch_door == c0[i].switch_door,
    ensures
        pairs_placed(c1, plan),
{
    reveal(pairs_placed);
    assert forall|p: int| 0 <= p < plan.len() implies {
        &&& (#[trigger] plan[p]).0 < c1.len()
        &&& plan[p].1 < c1.len()
        &&& c1[plan[p].0 as int].switch is Some
        &&& c1[plan[p].0 as int].switch.unwrap().switch_id == p
        &&& c1[plan[p].0 as int].switch.unwrap().signals@ == signal_span(signals_before(plan, p), plan[p].2 as int)
        &&& c1[plan[p].1 as int].switch_door is Some
        &&& c1[plan[p].1 as int].switch_door.unwrap().door_id == p
        &&& c1[plan[p].1 as int].switch_door.unwrap().signals@ == signal_span(signals_before(plan, p), plan[p].2 as int)
    } by {
        assert(c1[plan[p].0 as int].switch == c0[plan[p].0 as int].switch);
        assert(c1[plan[p].1 as int].switch_door == c0[plan[p].1 as int].switch_door);
    }
}

/// The random choices of content placement from state `s`, as drawn: the
/// enemy groups of [`enemy_plan`], then the pairs of [`switch_plan`] from
/// the state the groups leave, then the signs of [`sign_passes`] from the
/// state the pairs leave, which ends in state `s_end`.
#[verifier::opaque]
pub open spec fn content_as_drawn(c: Seq<RoomContent>, t: DungeonTree, g0: DungeonGrid, boss: int, exit: int,
    g: DungeonGrid, tf: DungeonTree, cfg: ContentConfig, s: RngState, s_end: RngState) -> bool {
    let ep = enemy_plan(t, g0, boss, exit, cfg, s);
    let sp = switch_plan(t, g0, boss, exit, g, tf, cfg, ep.2);
    &&& groups_placed(c, ep.0, ep.1)
    &&& ep.0.len() == count_rooms(c, regular_rooms())
    &&& pairs_placed(c, sp.0)
    &&& sp.0.len() == count_rooms(c, switch_rooms())
    &&& sign_passes(tf, g, c, placed_bfs_order(t, g0), cfg, sp.1) == (sign_views(c), s_end)
}

/// The draws of content placement, step by step, are those of
/// [`content_as_drawn`].
proof fn lemma_content_drawn(c: Seq<RoomContent>, t: DungeonTree, g0: DungeonGrid, boss: int, exit: int, g: DungeonGrid,
    tf: DungeonTree, cfg: ContentConfig, s: RngState, s_end: RngState, pool: Seq<usize>, shuffled: Seq<usize>,
    s_groups: RngState, k: nat, cands: Seq<usize>, plan: (Seq<(usize, usize, usize)>, RngState))
    requires
        pool == pool_order(t, placed_bfs_order(t, g0), boss, exit),
        (shuffled, s_groups) == fisher_yates(pool, s, pool.len() - 1),
        k == min_of(cfg.target_enemy_groups as int, pool.len() as int),
        groups_placed(c, shuffled.take(k as int), group_draws(s_groups, cfg.max_enemies_per_group, k).0),
        k <= shuffled.len(),
        k == count_rooms(c, regular_rooms()),
        cands == off_path_order(g, tf, pool, exit as usize),
        plan == pair_plan(cands, min_of(cfg.target_switch_pairs as int, (cands.len() / 2) as int) as nat,
            group_draws(s_groups, cfg.max_enemies_per_group, k).1, cfg.max_signals_per_pair),
        pairs_placed(c, plan.0),
        plan.0.len() == count_rooms(c, switch_rooms()),
        sign_passes(tf, g, c, placed_bfs_order(t, g0), cfg, plan.1) == (sign_views(c), s_end),
    ensures
        content_as_drawn(c, t, g0, boss, exit, g, tf, cfg, s, s_end),
{
    reveal(content_as_drawn);
}

/// Shuffle the enemy pool and put a group on each of its first
/// `min(target, pool size)` rooms, of one more than a draw below the
/// largest group size. Returns how many groups were placed.
#[verifier::spinoff_prover]
#[verifier::rlimit(60)]
fn draw_enemy_groups(content: &mut Vec<RoomContent>, pool: &mut Vec<usize>, tree: &DungeonTree, grid: &DungeonGrid,
    boss_id: usize, exit_room_id: usize, cfg: &ContentConfig, rng: &mut Rng) -> (k: usize)
    requires
        cfg.max_enemies_per_group > 0,
        content_ok(old(content)@, *tree, *grid, boss_id as int, exit_room_id as int),
        content_detail(old(content)@, *tree, *grid, *cfg),
        forall|i: int| 0 <= i < old(content)@.len() ==> (#[trigger] old(content)@[i]).sign is None && old(content)@[i].switch is None
            && old(content)@[i].switch_door is None,
        forall|i: int| 0 <= i < old(content)@.len() && i != boss_id ==> (#[trigger] old(content)@[i]).enemies is None,
        old(pool)@.no_duplicates(),
        forall|j: int| 0 <= j < old(pool)@.len() ==> {
            let id = #[trigger] old(pool)@[j];
            &&& id < tree.n()
            &&& id != tree.root
            &&& id != boss_id
            &&& id != exit_room_id
            &&& tree.rooms@[id as int].kind is Normal
            &&& grid.placed(id)
        },
    ensures
        k == min_of(cfg.target_enemy_groups as int, old(pool)@.len() as int),
        final(pool)@.len() == old(pool)@.len(),
        final(pool)@ == fisher_yates(old(pool)@, old(rng)@, old(pool)@.len() - 1).0,
        final(rng)@ == group_draws(fisher_yates(old(pool)@, old(rng)@, old(pool)@.len() - 1).1, cfg.max_enemies_per_group, k as nat).1,
        groups_placed(final(content)@, final(pool)@.take(k as int),
            group_draws(fisher_yates(old(pool)@, old(rng)@, old(pool)@.len() - 1).1, cfg.max_enemies_per_group, k as nat).0),
        final(content)@.len() == old(content)@.len(),
        content_ok(final(content)@, *tree, *grid, boss_id as int, exit_room_id as int),
        content_detail(final(content)@, *tree, *grid, *cfg),
        forall|i: int| 0 <= i < final(content)@.len() ==> (#[trigger] final(content)@[i]).sign is None && final(content)@[i].switch is None
            && final(content)@[i].switch_door is None,
        count_rooms(final(content)@, regular_rooms()) == k,
{
    let ghost before_shuffle = pool@;
    let ghost s_shuffle = rng@;
    rng.shuffle(pool);
    let ghost s_groups = rng@;
    let ghost shuffled = pool@;
    proof {
        lemma_permutation_members(before_shuffle, pool@);
        assert forall|j: int| 0 <= j < pool@.len() implies {
            let id = #[trigger] pool@[j];
            &&& id < tree.n()
            &&& id != tree.root
            &&& id != boss_id
            &&& id != exit_room_id
            &&& tree.rooms@[id as int].kind is Normal
            &&& grid.placed(id)
            &&& content@[id as int].enemies is None
        } by {
            assert(pool@.contains(pool@[j]));
            assert(before_shuffle.contains(pool@[j]));
        }
        before_shuffle.lemma_multiset_has_no_duplicates();
        pool@.lemma_multiset_has_no_duplicates_conv();
        assert forall|i: int| 0 <= i < content@.len() implies !regular_rooms()(#[trigger] content@[i]) by {
            if i != boss_id as int {
                assert(!(content@[i].enemies is Some && !content@[i].enemies.unwrap().is_boss));
            }
        }
        lemma_count_rooms_none(content@, regular_rooms());
    }
    let k: usize = if (cfg.target_enemy_groups as usize) < pool.len() {
        cfg.target_enemy_groups as usize
    } else {
        pool.len()
    };
    assert(k == min_of(cfg.target_enemy_groups as int, before_shuffle.len() as int));
    let mut e: usize = 0;
    proof {
        assert(group_draws(s_groups, cfg.max_enemies_per_group, 0).0.len() == 0);
        reveal(groups_placed);
        assert(groups_placed(content@, pool@.take(0), group_draws(s_groups, cfg.max_enemies_per_group, 0).0));
    }
    while e < k
        invariant
            pool@ == shuffled,
            rng@ == group_draws(s_groups, cfg.max_enemies_per_group, e as nat).1,
            group_draws(s_groups, cfg.max_enemies_per_group, e as nat).0.len() == e,
            groups_placed(content@, pool@.take(e as int), group_draws(s_groups, cfg.max_enemies_per_group, e as nat).0),
            e <= k <= pool@.len(),
            cfg.max_enemies_per_group > 0,
            content_ok(content@, *tree, *grid, boss_id as int, exit_room_id as int),
            content_detail(content@, *tree, *grid, *cfg),
            forall|i: int| 0 <= i < content@.len() ==> (#[trigger] content@[i]).sign is None && content@[i].switch is None
                && content@[i].switch_door is None,
            count_rooms(content@, regular_rooms()) == e,
            pool@.no_duplicates(),
            forall|j: int| e <= j < pool@.len() ==> content@[(#[trigger] pool@[j]) as int].enemies is None,
            forall|j: int| 0 <= j < pool@.len() ==> {
                let id = #[trigger] pool@[j];
                &&& id < tree.n()
                &&& id != tree.root
                &&& id != boss_id
                &&& id != exit_room_id
                &&& tree.rooms@[id as int].kind is Normal
                &&& grid.placed(id)
            },
        decreases k - e,
    {
        let id = pool[e];
        let ghost gd0 = group_draws(s_groups, cfg.max_enemies_per_group, e as nat);
        let count = 1 + rng.next_usize(cfg.max_enemies_per_group as usize);
        let ghost c0 = content@;
        content[id].enemies = Some(EnemyGroup::regular(count as u32));
        proof {
            reveal(groups_placed);
            let gd1 = group_draws(s_groups, cfg.max_enemies_per_group, (e + 1) as nat);
            assert(gd1.0 == gd0.0.push((count - 1) as usize));
            let rooms1 = pool@.take(e + 1);
            assert forall|j: int| 0 <= j < rooms1.len() implies (#[trigger] rooms1[j]) < content@.len()
                && content@[rooms1[j] as int].enemies == Some(EnemyGroup { count: (gd1.0[j] + 1) as u32, is_boss: false }) by {
                if j < e {
                    assert(rooms1[j] == pool@.take(e as int)[j]);
                    assert(gd1.0[j] == gd0.0[j]);
                    assert(pool@[j] != id);
                }
            }
            assert forall|j: int| 0 <= j < content@.len() && j != id implies #[trigger] content@[j] == c0[j] by {}
            assert(content_ok(content@, *tree, *grid, boss_id as int, exit_room_id as int));
            assert(content_detail(content@, *tree, *grid, *cfg));
            assert(content@ =~= c0.update(id as int, content@[id as int]));
            lemma_count_rooms_update(c0, id as int, content@[id as int], regular_rooms());
            assert forall|j: int| e + 1 <= j < pool@.len() implies content@[(#[trigger] pool@[j]) as int].enemies is None by {
                assert(pool@[j] != id);
            }
        }
        e = e + 1;
    }
    k
}

/// Put the signs, in two passes over the placed rooms `placed_bfs` (see
/// [`sign_passes`]): hint signs beside special rooms, then atmospheric
/// signs. Nothing but the signs changes.
#[verifier::spinoff_prover]
#[verifier::rlimit(60)]
fn place_signs(content: &mut Vec<RoomContent>, tree: &DungeonTree, grid: &DungeonGrid, placed_bfs: &Vec<usize>,
    boss_id: usize, exit_room_id: usize, cfg: &ContentConfig, rng: &mut Rng)
    requires
        grid.wf(),
        ids_below(*grid, tree.n()),
        content_ok(old(content)@, *tree, *grid, boss_id as int, exit_room_id as int),
        content_detail(old(content)@, *tree, *grid, *cfg),
        forall|j: int| 0 <= j < placed_bfs@.len() ==> #[trigger] placed_bfs@[j] < tree.n() && grid.placed(placed_bfs@[j]),
        forall|i: int| 0 <= i < old(content)@.len() ==> (#[trigger] old(content)@[i]).sign is None,
    ensures
        final(content)@.len() == old(content)@.len(),
        forall|i: int| 0 <= i < final(content)@.len() ==> (#[trigger] final(content)@[i]).enemies == old(content)@[i].enemies
            && final(content)@[i].switch == old(content)@[i].switch && final(content)@[i].switch_door == old(content)@[i].switch_door,
        content_ok(final(content)@, *tree, *grid, boss_id as int, exit_room_id as int),
        content_detail(final(content)@, *tree, *grid, *cfg),
        forall|i: int| 0 <= i < final(content)@.len() && (#[trigger] final(content)@[i]).sign is Some ==> grid.placed(i as usize),
        sign_passes(*tree, *grid, final(content)@, placed_bfs@, *cfg, old(rng)@) == (sign_views(final(content)@), final(rng)@),
        hints_fit(*tree, *grid, sign_views(final(content)@)),
{
    let n = tree.rooms.len();
    let ghost c_start = content@;
    let ghost s_start = rng@;
    let ghost pb = placed_bfs@;
    proof {
        assert(forall|i: int| 0 <= i < c_start.len() ==> (#[trigger] c_start[i]).sign is None);
        assert(sign_views(c_start) =~= Seq::new(c_start.len(), |i: int| None::<(SignKind, Seq<char>)>));
    }
    let mut special_ids: Vec<usize> = Vec::new();
    let mut q: usize = 0;
    while q < placed_bfs.len()
        invariant
            q <= placed_bfs@.len(),
            forall|j: int| 0 <= j < placed_bfs@.len() ==> #[trigger] placed_bfs@[j] < n,
            n <= tree.n(),
            forall|j: int| 0 <= j < special_ids@.len() ==> #[trigger] special_ids@[j] < n && !(tree.rooms@[special_ids@[j] as int].kind is Normal),
            forall|x: usize| #[trigger] special_ids@.contains(x) ==> placed_bfs@.contains(x) && !(tree.rooms@[x as int].kind is Normal),
            forall|k: int| 0 <= k < q && !(tree.rooms@[#[trigger] placed_bfs@[k] as int].kind is Normal) ==> special_ids@.contains(placed_bfs@[k]),
        decreases placed_bfs@.len() - q,
    {
        let ghost sp0 = special_ids@;
        if !tree.rooms[placed_bfs[q]].kind.is_normal() {
            special_ids.push(placed_bfs[q]);
        }
        proof {
            assert(placed_bfs@.contains(placed_bfs@[q as int]));
            assert forall|x: usize| #[trigger] special_ids@.contains(x) implies placed_bfs@.contains(x) && !(tree.rooms@[x as int].kind is Normal) by {
                let w = choose|w: int| 0 <= w < special_ids@.len() && special_ids@[w] == x;
                if w < sp0.len() {
                    assert(sp0[w] == x);
                    assert(sp0.contains(x));
                }
            }
            assert forall|k: int| 0 <= k < q + 1 && !(tree.rooms@[#[trigger] placed_bfs@[k] as int].kind is Normal) implies special_ids@.contains(placed_bfs@[k]) by {
                if k < q {
                    let w = choose|w: int| 0 <= w < sp0.len() && sp0[w] == placed_bfs@[k];
                    assert(special_ids@[w] == sp0[w]);
                } else {
                    assert(special_ids@[special_ids@.len() - 1] == placed_bfs@[k]);
                }
            }
        }
        q = q + 1;
    }
    proof {
        assert forall|x: usize| #[trigger] special_ids@.contains(x) <==> (placed_bfs@.contains(x) && !(tree.rooms@[x as int].kind is Normal)) by {
            if placed_bfs@.contains(x) && !(tree.rooms@[x as int].kind is Normal) {
                let k = choose|k: int| 0 <= k < placed_bfs@.len() && placed_bfs@[k] == x;
                assert(!(tree.rooms@[placed_bfs@[k] as int].kind is Normal));
            }
        }
    }
    let mut q: usize = 0;
    while q < placed_bfs.len()
        invariant
            q <= placed_bfs@.len(),
            forall|j: int| 0 <= j < placed_bfs@.len() ==> #[trigger] placed_bfs@[j] < n,
            n <= tree.n(),
            grid.wf(),
            ids_below(*grid, tree.n()),
            content_ok(content@, *tree, *grid, boss_id as int, exit_room_id as int),
            content_detail(content@, *tree, *grid, *cfg),
            forall|j: int| 0 <= j < special_ids@.len() ==> #[trigger] special_ids@[j] < n && !(tree.rooms@[special_ids@[j] as int].kind is Normal),
            forall|i: int| 0 <= i < content@.len() && (#[trigger] content@[i]).sign is Some ==> grid.placed(i as usize),
            forall|j: int| 0 <= j < placed_bfs@.len() ==> grid.placed(#[trigger] placed_bfs@[j]),
            pb == placed_bfs@,
            c_start.len() == content@.len(),
            forall|i: int| 0 <= i < content@.len() ==> (#[trigger] content@[i]).enemies == c_start[i].enemies
                && content@[i].switch == c_start[i].switch && content@[i].switch_door == c_start[i].switch_door,
            forall|x: usize| #[trigger] special_ids@.contains(x) <==> (placed_bfs@.contains(x) && !(tree.rooms@[x as int].kind is Normal)),
            hint_pass(*tree, *grid, placed_bfs@, q as int, sign_views(content@), cfg.prob_contextual_sign, rng@)
                == hint_pass(*tree, *grid, placed_bfs@, 0, sign_views(c_start), cfg.prob_contextual_sign, s_start),
        decreases placed_bfs@.len() - q,
    {
        let id = placed_bfs[q];
        let ghost sv0 = sign_views(content@);
        let ghost s0 = rng@;
        proof {
            assert(id < content@.len());
            assert(sv0[id as int] == sign_of(content@[id as int]));
        }
        if tree.rooms[id].kind.is_normal() && content[id].sign.is_none() {
            let nbs = grid.neighbours(id);
            let mut near_special = false;
            let mut k: usize = 0;
            while k < nbs.len()
                invariant_except_break
                    !near_special,
                invariant
                    k <= nbs@.len(),
                    near_special ==> exists|x: usize| #[trigger] nbs@.contains(x) && special_ids@.contains(x),
                    forall|j: int| 0 <= j < k ==> !special_ids@.contains(#[trigger] nbs@[j]),
                ensures
                    near_special <==> exists|x: usize| #[trigger] nbs@.contains(x) && special_ids@.contains(x),
                decreases nbs@.len() - k,
            {
                if vec_contains(&special_ids, nbs[k]) {
                    near_special = true;
                    proof {
                        assert(nbs@.contains(nbs@[k as int]));
                    }
                    break;
                }
                k = k + 1;
            }
            proof {
                if !near_special && exists|x: usize| #[trigger] nbs@.contains(x) && special_ids@.contains(x) {
                    let x = choose|x: usize| #[trigger] nbs@.contains(x) && special_ids@.contains(x);
                    let j = choose|j: int| 0 <= j < nbs@.len() && nbs@[j] == x;
                    assert(!special_ids@.contains(nbs@[j]));
                }
                assert(near_special == beside_special(*tree, *grid, pb, id));
            }
            let ghost s_q = rng@;
            let ghost sv = sign_views(content@);
            if near_special && rng.chance_below(cfg.prob_contextual_sign) {
                let ghost s_q1 = rng@;
                let text = contextual_hint(tree, grid, id, rng);
                let ghost c0 = content@;
                content[id].sign = Some(Sign { kind: SignKind::Contextual, text });
                proof {
                    assert(sign_views(content@) =~= sv.update(id as int, Some((SignKind::Contextual, text@))));
                    assert forall|j: int| 0 <= j < content@.len() && j != id implies #[trigger] content@[j] == c0[j] by {}
                    assert(content_ok(content@, *tree, *grid, boss_id as int, exit_room_id as int));
                    let x = choose|x: usize| #[trigger] nbs@.contains(x) && special_ids@.contains(x);
                    let w = choose|w: int| 0 <= w < special_ids@.len() && special_ids@[w] == x;
                    assert(grid.neighbours_of((id as int) as usize).contains(x) && !(tree.rooms@[x as int].kind is Normal));
                    lemma_sign_added(c0, content@, *tree, *grid, *cfg, id as int);
                }
            }
        }
        proof {
            assert(hint_pass(*tree, *grid, placed_bfs@, q as int, sv0, cfg.prob_contextual_sign, s0)
                == hint_pass(*tree, *grid, placed_bfs@, q + 1, sign_views(content@), cfg.prob_contextual_sign, rng@));
        }
        q = q + 1;
    }
    let ghost signs1 = sign_views(content@);
    let ghost s1 = rng@;
    proof {
        assert(enemy_flags(content@) =~= enemy_flags(c_start));
    }
    let mut q: usize = 0;
    while q < placed_bfs.len()
        invariant
            q <= placed_bfs@.len(),
            forall|j: int| 0 <= j < placed_bfs@.len() ==> #[trigger] placed_bfs@[j] < n,
            n <= tree.n(),
            content_ok(content@, *tree, *grid, boss_id as int, exit_room_id as int),
            content_detail(content@, *tree, *grid, *cfg),
            forall|i: int| 0 <= i < content@.len() && (#[trigger] content@[i]).sign is Some ==> grid.placed(i as usize),
            forall|j: int| 0 <= j < placed_bfs@.len() ==> grid.placed(#[trigger] placed_bfs@[j]),
            pb == placed_bfs@,
            c_start.len() == content@.len(),
            forall|i: int| 0 <= i < content@.len() ==> (#[trigger] content@[i]).enemies == c_start[i].enemies
                && content@[i].switch == c_start[i].switch && content@[i].switch_door == c_start[i].switch_door,
            mood_pass(*tree, enemy_flags(c_start), placed_bfs@, q as int, sign_views(content@), cfg.prob_atmospheric_sign, rng@)
                == mood_pass(*tree, enemy_flags(c_start), placed_bfs@, 0, signs1, cfg.prob_atmospheric_sign, s1),
        decreases placed_bfs@.len() - q,
    {
        let id = placed_bfs[q];
        let ghost sv0 = sign_views(content@);
        let ghost st0 = rng@;
        proof {
            assert(id < content@.len());
            assert(sv0[id as int] == sign_of(content@[id as int]));
            assert(enemy_flags(c_start)[id as int] == (content@[id as int].enemies is Some));
        }
        if tree.rooms[id].kind.is_normal() && content[id].sign.is_none() && content[id].enemies.is_none() {
            if rng.chance_below(cfg.prob_atmospheric_sign) {
                let text = atmospheric_line(rng);
                let ghost c0 = content@;
                content[id].sign = Some(Sign { kind: SignKind::Atmospheric, text });
                proof {
                    assert(sign_views(content@) =~= sv0.update(id as int, Some((SignKind::Atmospheric, text@))));
                    assert forall|j: int| 0 <= j < content@.len() && j != id implies #[trigger] content@[j] == c0[j] by {}
                    assert(content_ok(content@, *tree, *grid, boss_id as int, exit_room_id as int));
                    lemma_sign_added(c0, content@, *tree, *grid, *cfg, id as int);
                }
            }
        }
        proof {
            assert(mood_pass(*tree, enemy_flags(c_start), placed_bfs@, q as int, sv0, cfg.prob_atmospheric_sign, st0)
                == mood_pass(*tree, enemy_flags(c_start), placed_bfs@, q + 1, sign_views(content@), cfg.prob_atmospheric_sign, rng@));
        }
        q = q + 1;
    }
    proof {
        assert(enemy_flags(content@) =~= enemy_flags(c_start));
        assert(sign_passes(*tree, *grid, content@, placed_bfs@, *cfg, s_start) == (sign_views(content@), rng@));
        lemma_sign_passes_fit(*tree, *grid, content@, placed_bfs@, *cfg, s_start);
    }
}

/// Place all content onto the rooms of a decoded dungeon and return it
/// with the exit room's id. The boss goes on the goal room (or, when that
/// is not placed, on the goal the grid gives); the exit room is appended
/// as a new child of the boss room on the nearest free cell. Then, on
/// placed normal rooms other than the root, the boss room and the exit:
/// up to `target_enemy_groups` enemy groups at random; up to
/// `target_switch_pairs` switch/door pairs off the critical path from the
/// root to the exit, each sharing fresh signal ids (so each switch door
/// listens to its own switch alone); hint signs next to special rooms, and
/// atmospheric signs in the remaining normal rooms without enemies, in two
/// passes over the placed rooms in breadth-first order where each room in
/// turn draws its chance and its text (see [`sign_passes`]). Every draw,
/// in order, is spelled out by [`content_as_drawn`].
#[verifier::spinoff_prover]
#[verifier::rlimit(100)]
pub fn place_content(tree: &mut DungeonTree, grid: &mut DungeonGrid, goal_id: usize, cfg: &ContentConfig, rng: &mut Rng) -> (r: (Vec<RoomContent>, usize))
    requires
        old(tree).wf(),
        old(grid).wf(),
        ids_below(*old(grid), old(tree).n()),
        old(grid).ncells() < 0x7fff_ffff,
        old(tree).n() < u32::MAX,
        cfg.max_enemies_per_group > 0,
        cfg.max_signals_per_pair > 0,
        cfg.target_switch_pairs * cfg.max_signals_per_pair <= u32::MAX,
    ensures
        final(tree).wf(),
        final(grid).wf(),
        ids_below(*final(grid), final(tree).n()),
        forall|i: int| 0 <= i < old(tree).n() ==> (#[trigger] final(tree).rooms@[i]).kind == old(tree).rooms@[i].kind,
        final(tree).root == old(tree).root,
        content_detail(r.0@, *final(tree), *final(grid), *cfg),
        count_rooms(r.0@, regular_rooms()) <= cfg.target_enemy_groups,
        count_rooms(r.0@, switch_rooms()) <= cfg.target_switch_pairs,
        count_rooms(r.0@, door_rooms()) == count_rooms(r.0@, switch_rooms()),
        grid_touching(*old(grid)) ==> grid_touching(*final(grid)),
        old(grid).ncells() == 1 && final(grid).ncells() == 2 ==> grid_touching(*final(grid)),
        final(grid).ncells() == old(grid).ncells() || final(grid).ncells() == old(grid).ncells() + 1,
        exists|b: int| #[trigger] boss_room(*old(tree), *old(grid), goal_id, b) && content_ok(r.0@, *final(tree), *final(grid), b, r.1 as int)
            && (old(grid).placed(b as usize) ==> r.1 == old(tree).n() && final(tree).is_child(b, r.1 as int) && final(grid).placed(r.1))
            && (!old(grid).placed(b as usize) ==> r.1 == b)
            && (old(grid).placed(b as usize) ==> {
                &&& child_appended(*old(tree), *final(tree), b)
                &&& final(tree).rooms@[r.1 as int].kind is Normal
                &&& final(grid).ncells() == old(grid).ncells() + 1
                &&& (forall|k: int| 0 <= k < old(grid).ncells() ==> #[trigger] final(grid).pos_at(k) == old(grid).pos_at(k)
                    && final(grid).id_at(k) == old(grid).id_at(k))
                &&& final(grid).id_at(old(grid).ncells() as int) == r.1
                &&& final(grid).pos_at(old(grid).ncells() as int)
                    == free_search(*old(grid), seq![old(grid).pos_of_room(b as usize).unwrap()], 0, 0)
                &&& !old(grid).occupied((final(grid).pos_at(old(grid).ncells() as int).0 as int,
                    final(grid).pos_at(old(grid).ncells() as int).1 as int))
                &&& final(tree).rooms@[r.1 as int].grid_pos == final(grid).pos_at(old(grid).ncells() as int)
                &&& final(tree).rooms@[r.1 as int].direction
                    == Some(exit_direction(old(grid).pos_of_room(b as usize).unwrap(), final(grid).pos_at(old(grid).ncells() as int)))
                &&& final(tree).rooms@[r.1 as int].depth == child_depth(old(tree).rooms@[b].depth)
            })
            && (!old(grid).placed(b as usize) ==> *final(tree) == *old(tree) && *final(grid) == *old(grid))
            && count_rooms(r.0@, regular_rooms()) == min_of(cfg.target_enemy_groups as int, enemy_pool(*old(tree), *old(grid), b, r.1 as int).len() as int)
            && count_rooms(r.0@, switch_rooms()) == min_of(cfg.target_switch_pairs as int,
                (switch_pool(*old(tree), *old(grid), b, r.1 as int, *final(grid), *final(tree)).len() / 2) as int)
            && enemy_pool(*old(tree), *old(grid), b, r.1 as int).finite()
            && switch_pool(*old(tree), *old(grid), b, r.1 as int, *final(grid), *final(tree)).finite()
            && content_as_drawn(r.0@, *old(tree), *old(grid), b, r.1 as int, *final(grid), *final(tree), *cfg, old(rng)@, final(rng)@),
        forall|i: int| 0 <= i < r.0@.len() && (#[trigger] r.0@[i]).switch is Some
            ==> r.0@[i].switch.unwrap().switch_id < count_rooms(r.0@, switch_rooms()),
        forall|i: int| 0 <= i < r.0@.len() && (#[trigger] r.0@[i]).switch_door is Some
            ==> r.0@[i].switch_door.unwrap().door_id < count_rooms(r.0@, door_rooms()),
        forall|a: int, b: int| 0 <= a < r.0@.len() && 0 <= b < r.0@.len() && a != b && (#[trigger] r.0@[a]).switch_door is Some
            && (#[trigger] r.0@[b]).switch_door is Some ==> r.0@[a].switch_door.unwrap().door_id != r.0@[b].switch_door.unwrap().door_id,
        forall|i: int| 0 <= i < r.0@.len() && (#[trigger] r.0@[i]).sign is Some ==> final(grid).placed(i as usize),
        hints_fit(*final(tree), *final(grid), sign_views(r.0@)),
{
    let ghost t0 = *tree;
    let ghost g0 = *grid;
    let boss_id = if grid.is_placed(goal_id) {
        proof {
            let k = grid.index_of(goal_id);
            assert(grid.id_at(k) < tree.n());
        }
        goal_id
    } else {
        find_goal_in_grid(tree, Some(&*grid))
    };
    proof {
        assert(boss_room(t0, g0, goal_id, boss_id as int));
    }
    let n = tree.rooms.len();
    let mut content: Vec<RoomContent> = Vec::new();
    let mut i: usize = 0;
    while i < n
        invariant
            i <= n,
            content@.len() == i,
            forall|j: int| 0 <= j < i ==> (#[trigger] content@[j]).empty_spec(),
        decreases n - i,
    {
        content.push(RoomContent::default());
        i = i + 1;
    }
    let bfs = tree.bfs_order();
    let mut placed_bfs: Vec<usize> = Vec::new();
    let mut q: usize = 0;
    while q < bfs.len()
        invariant
            q <= bfs@.len(),
            forall|j: int| 0 <= j < bfs@.len() ==> #[trigger] bfs@[j] < n,
            forall|j: int| 0 <= j < placed_bfs@.len() ==> #[trigger] placed_bfs@[j] < n && g0.placed(placed_bfs@[j]),
            g0 == *grid,
            bfs@.no_duplicates(),
            placed_bfs@.no_duplicates(),
            forall|x: usize| #[trigger] placed_bfs@.contains(x) ==> exists|k: int| 0 <= k < q && bfs@[k] == x,
            forall|k: int| 0 <= k < q && g0.placed(#[trigger] bfs@[k]) ==> placed_bfs@.contains(bfs@[k]),
            placed_bfs@ == placed_only(g0, bfs@.take(q as int)),
        decreases bfs@.len() - q,
    {
        let ghost p0 = placed_bfs@;
        proof {
            assert(bfs@.take(q as int + 1).drop_last() =~= bfs@.take(q as int));
            assert(bfs@.take(q as int + 1).last() == bfs@[q as int]);
        }
        if grid.is_placed(bfs[q]) {
            placed_bfs.push(bfs[q]);
        }
        proof {
            lemma_push_fresh(p0, placed_bfs@, bfs@, q as int);
            assert forall|k: int| 0 <= k < q + 1 && g0.placed(#[trigger] bfs@[k]) implies placed_bfs@.contains(bfs@[k]) by {
                if k < q {
                    let w = choose|w: int| 0 <= w < p0.len() && p0[w] == bfs@[k];
                    assert(placed_bfs@[w] == p0[w]);
                } else {
                    assert(placed_bfs@[p0.len() as int] == bfs@[q as int]);
                }
            }
        }
        q = q + 1;
    }
    proof {
        assert(bfs@.take(bfs@.len() as int) =~= bfs@);
        let o = choose|o: Seq<usize>| #[trigger] is_bfs_from(t0.rooms@, t0.root, o) && (forall|m: int| 0 <= m < o.len() ==> #[trigger] o[m] < t0.n());
        lemma_bfs_unique(t0, t0.root, o, bfs@);
        assert(placed_bfs@ == placed_bfs_order(t0, g0));
        assert forall|x: usize| t0.subtree_set(t0.root as int).contains(x) && g0.placed(x) implies #[trigger] placed_bfs@.contains(x) by {
            assert(bfs@.to_set().contains(x));
            let k = choose|k: int| 0 <= k < bfs@.len() && bfs@[k] == x;
        }
        assert forall|x: usize| #[trigger] placed_bfs@.contains(x) implies t0.subtree_set(t0.root as int).contains(x) && g0.placed(x) by {
            let k = choose|k: int| 0 <= k < bfs@.len() && bfs@[k] == x;
            assert(bfs@.to_set().contains(bfs@[k]));
            let w = choose|w: int| 0 <= w < placed_bfs@.len() && placed_bfs@[w] == x;
        }
    }
    content[boss_id].enemies = Some(EnemyGroup::boss(1));
    let ghost pre = content@;
    proof {
        assert forall|j: int| 0 <= j < n && j != boss_id implies (#[trigger] pre[j]).empty_spec() by {}
    }
    let exit_room_id = append_exit_room(tree, grid, &mut content, boss_id);
    proof {
        if g0.placed(boss_id) {
            if grid_touching(g0) || g0.ncells() == 1 {
                lemma_touching_push(g0, *grid);
            }
        }
        assert forall|j: int| 0 <= j < content@.len() && (#[trigger] content@[j]).is_exit implies j == exit_room_id by {
            if j != exit_room_id && j < n {
                assert(content@[j] == pre[j]);
            }
        }
        if g0.placed(boss_id) {
            assert(content@[boss_id as int] == pre[boss_id as int]);
        }
        assert forall|j: int| 0 <= j < content@.len() && (#[trigger] content@[j]).enemies is Some implies j == boss_id by {
            if j != exit_room_id && j < n {
                assert(content@[j] == pre[j]);
            }
        }
        assert(content@.len() == tree.n());
        assert(content@[exit_room_id as int].is_exit);
        assert(content@[boss_id as int].enemies == Some(EnemyGroup { count: 1, is_boss: true }));
        assert forall|j: int| 0 <= j < content@.len() implies (#[trigger] content@[j]).switch is None && content@[j].switch_door is None
            && content@[j].sign is None by {
            if j < n {
                if j != exit_room_id {
                    assert(content@[j] == pre[j]);
                }
            }
        }
        assert(content_ok(content@, *tree, *grid, boss_id as int, exit_room_id as int));
        assert(content_detail(content@, *tree, *grid, *cfg));
    }
    let root = tree.root;
    // ── Enemy groups ──
    let mut enemy_candidates: Vec<usize> = Vec::new();
    let mut q: usize = 0;
    while q < placed_bfs.len()
        invariant
            q <= placed_bfs@.len(),
            content_ok(content@, *tree, *grid, boss_id as int, exit_room_id as int),
            forall|j: int| 0 <= j < placed_bfs@.len() ==> #[trigger] placed_bfs@[j] < n && g0.placed(placed_bfs@[j]),
            forall|x: usize| g0.placed(x) ==> #[trigger] grid.placed(x),
            n <= tree.n(),
            root == tree.root,
            forall|j: int| 0 <= j < enemy_candidates@.len() ==> {
                let id = #[trigger] enemy_candidates@[j];
                &&& id < n
                &&& id != root
                &&& id != boss_id
                &&& id != exit_room_id
                &&& tree.rooms@[id as int].kind is Normal
                &&& grid.placed(id)
                &&& content@[id as int].enemies is None
            },
            placed_bfs@.no_duplicates(),
            enemy_candidates@.no_duplicates(),
            forall|x: usize| #[trigger] enemy_candidates@.contains(x) ==> exists|k: int| 0 <= k < q && placed_bfs@[k] == x,
            forall|j: int| 0 <= j < content@.len() && j != boss_id ==> (#[trigger] content@[j]).enemies is None,
            forall|x: usize| #[trigger] placed_bfs@.contains(x) <==> (t0.subtree_set(t0.root as int).contains(x) && g0.placed(x)),
            forall|i: int| 0 <= i < n ==> (#[trigger] tree.rooms@[i]).kind == t0.rooms@[i].kind,
            root == t0.root,
            n == t0.n(),
            forall|k: int| 0 <= k < q && #[trigger] placed_bfs@[k] != root && placed_bfs@[k] != boss_id && placed_bfs@[k] != exit_room_id
                && tree.rooms@[placed_bfs@[k] as int].kind is Normal ==> enemy_candidates@.contains(placed_bfs@[k]),
            enemy_candidates@ == pool_order(t0, placed_bfs@.take(q as int), boss_id as int, exit_room_id as int),
        decreases placed_bfs@.len() - q,
    {
        let id = placed_bfs[q];
        let ghost p0 = enemy_candidates@;
        proof {
            assert(placed_bfs@.take(q as int + 1).drop_last() =~= placed_bfs@.take(q as int));
            assert(placed_bfs@.take(q as int + 1).last() == placed_bfs@[q as int]);
            assert(tree.rooms@[id as int].kind == t0.rooms@[id as int].kind);
        }
        if id != root && id != boss_id && id != exit_room_id && tree.rooms[id].kind.is_normal() && content[id].enemies.is_none() {
            enemy_candidates.push(id);
        }
        proof {
            lemma_push_fresh(p0, enemy_candidates@, placed_bfs@, q as int);
            assert forall|k: int| 0 <= k < q + 1 && #[trigger] placed_bfs@[k] != root && placed_bfs@[k] != boss_id && placed_bfs@[k] != exit_room_id
                && tree.rooms@[placed_bfs@[k] as int].kind is Normal implies enemy_candidates@.contains(placed_bfs@[k]) by {
                if k < q {
                    let w = choose|w: int| 0 <= w < p0.len() && p0[w] == placed_bfs@[k];
                    assert(enemy_candidates@[w] == p0[w]);
                } else {
                    assert(enemy_candidates@[p0.len() as int] == placed_bfs@[q as int]);
                }
            }
        }
        q = q + 1;
    }
    proof {
        let pool = enemy_pool(t0, g0, boss_id as int, exit_room_id as int);
        assert forall|x: usize| #[trigger] enemy_candidates@.to_set().contains(x) <==> pool.contains(x) by {
            if enemy_candidates@.contains(x) {
                let w = choose|w: int| 0 <= w < enemy_candidates@.len() && enemy_candidates@[w] == x;
                let k = choose|k: int| 0 <= k < placed_bfs@.len() && placed_bfs@[k] == x;
                assert(placed_bfs@.contains(x));
            }
            if pool.contains(x) {
                assert(placed_bfs@.contains(x));
                let k = choose|k: int| 0 <= k < placed_bfs@.len() && placed_bfs@[k] == x;
            }
        }
        assert(enemy_candidates@.to_set() =~= pool);
        enemy_candidates@.unique_seq_to_set();
    }
    let ghost before_shuffle = enemy_candidates@;
    proof {
        assert(placed_bfs@.take(placed_bfs@.len() as int) =~= placed_bfs@);
        assert(before_shuffle == pool_order(t0, placed_bfs_order(t0, g0), boss_id as int, exit_room_id as int));
    }
    let ghost s_shuffle = rng@;
    let n_enemies = draw_enemy_groups(&mut content, &mut enemy_candidates, tree, grid, boss_id, exit_room_id, cfg, rng);
    let ghost s_groups = fisher_yates(before_shuffle, s_shuffle, before_shuffle.len() - 1).1;
    let ghost shuffled = enemy_candidates@;
    // ── Switch / door pairs ──
    let mut switch_candidates: Vec<usize> = Vec::new();
    let mut q: usize = 0;
    while q < placed_bfs.len()
        invariant
            q <= placed_bfs@.len(),
            forall|j: int| 0 <= j < placed_bfs@.len() ==> #[trigger] placed_bfs@[j] < n && g0.placed(placed_bfs@[j]),
            forall|x: usize| g0.placed(x) ==> #[trigger] grid.placed(x),
            n <= tree.n(),
            root == tree.root,
            content@.len() == tree.n(),
            forall|j: int| 0 <= j < switch_candidates@.len() ==> {
                let id = #[trigger] switch_candidates@[j];
                &&& id < n
                &&& id != root
                &&& id != boss_id
                &&& id != exit_room_id
                &&& tree.rooms@[id as int].kind is Normal
                &&& grid.placed(id)
                &&& content@[id as int].switch is None
                &&& content@[id as int].switch_door is None
            },
            placed_bfs@.no_duplicates(),
            switch_candidates@.no_duplicates(),
            forall|x: usize| #[trigger] switch_candidates@.contains(x) ==> exists|k: int| 0 <= k < q && placed_bfs@[k] == x,
            forall|j: int| 0 <= j < content@.len() ==> (#[trigger] content@[j]).switch is None && content@[j].switch_door is None,
            forall|x: usize| #[trigger] placed_bfs@.contains(x) <==> (t0.subtree_set(t0.root as int).contains(x) && g0.placed(x)),
            forall|i: int| 0 <= i < n ==> (#[trigger] tree.rooms@[i]).kind == t0.rooms@[i].kind,
            root == t0.root,
            n == t0.n(),
            forall|k: int| 0 <= k < q && #[trigger] placed_bfs@[k] != root && placed_bfs@[k] != boss_id && placed_bfs@[k] != exit_room_id
                && tree.rooms@[placed_bfs@[k] as int].kind is Normal ==> switch_candidates@.contains(placed_bfs@[k]),
            switch_candidates@ == pool_order(t0, placed_bfs@.take(q as int), boss_id as int, exit_room_id as int),
        decreases placed_bfs@.len() - q,
    {
        let id = placed_bfs[q];
        let ghost p0 = switch_candidates@;
        proof {
            assert(placed_bfs@.take(q as int + 1).drop_last() =~= placed_bfs@.take(q as int));
            assert(placed_bfs@.take(q as int + 1).last() == placed_bfs@[q as int]);
            assert(tree.rooms@[id as int].kind == t0.rooms@[id as int].kind);
        }
        if id != root && id != boss_id && id != exit_room_id && tree.rooms[id].kind.is_normal() && content[id].switch.is_none()
            && content[id].switch_door.is_none() {
            switch_candidates.push(id);
        }
        proof {
            lemma_push_fresh(p0, switch_candidates@, placed_bfs@, q as int);
            assert forall|k: int| 0 <= k < q + 1 && #[trigger] placed_bfs@[k] != root && placed_bfs@[k] != boss_id && placed_bfs@[k] != exit_room_id
                && tree.rooms@[placed_bfs@[k] as int].kind is Normal implies switch_candidates@.contains(placed_bfs@[k]) by {
                if k < q {
                    let w = choose|w: int| 0 <= w < p0.len() && p0[w] == placed_bfs@[k];
                    assert(switch_candidates@[w] == p0[w]);
                } else {
                    assert(switch_candidates@[p0.len() as int] == placed_bfs@[q as int]);
                }
            }
        }
        q = q + 1;
    }
    proof {
        let pool = enemy_pool(t0, g0, boss_id as int, exit_room_id as int);
        assert forall|x: usize| #[trigger] switch_candidates@.contains(x) <==> pool.contains(x) by {
            if switch_candidates@.contains(x) {
                let k = choose|k: int| 0 <= k < placed_bfs@.len() && placed_bfs@[k] == x;
                assert(placed_bfs@.contains(x));
            }
            if pool.contains(x) {
                assert(placed_bfs@.contains(x));
                let k = choose|k: int| 0 <= k < placed_bfs@.len() && placed_bfs@[k] == x;
            }
        }
    }
    proof {
        assert(placed_bfs@.take(placed_bfs@.len() as int) =~= placed_bfs@);
        assert(switch_candidates@ == before_shuffle);
    }
    let crit = critical_path_rooms(tree, grid, root, exit_room_id);
    let mut cands: Vec<usize> = Vec::new();
    let mut q: usize = 0;
    while q < switch_candidates.len()
        invariant
            q <= switch_candidates@.len(),
            n <= tree.n(),
            grid.wf(),
            ids_below(*grid, tree.n()),
            root == tree.root,
            root < tree.n(),
            exit_room_id < tree.n(),
            tree.n() <= u32::MAX,
            exists|ds: Seq<Option<u32>>, dg: Seq<Option<u32>>|
                #![trigger crate::pathfinding::bfs_dist_ok(*grid, sealed_rooms(*tree, *grid), root, tree.n(), ds), crate::pathfinding::bfs_dist_ok(*grid, sealed_rooms(*tree, *grid), exit_room_id, tree.n(), dg)]
                crate::pathfinding::bfs_dist_ok(*grid, sealed_rooms(*tree, *grid), root, tree.n(), ds) && crate::pathfinding::bfs_dist_ok(*grid, sealed_rooms(*tree, *grid), exit_room_id, tree.n(), dg)
                && forall|x: int| 0 <= x < tree.n() ==> (#[trigger] crit@.contains(x as usize) <==> on_critical_path(ds, dg, exit_room_id as int, x)),
            forall|j: int| 0 <= j < switch_candidates@.len() ==> {
                let id = #[trigger] switch_candidates@[j];
                &&& id < n
                &&& id != root
                &&& id != boss_id
                &&& id != exit_room_id
                &&& tree.rooms@[id as int].kind is Normal
                &&& grid.placed(id)
            },
            forall|j: int| 0 <= j < cands@.len() ==> {
                let id = #[trigger] cands@[j];
                &&& id < n
                &&& id != root
                &&& id != boss_id
                &&& id != exit_room_id
                &&& tree.rooms@[id as int].kind is Normal
                &&& grid.placed(id)
                &&& off_critical_path(*grid, sealed_rooms(*tree, *grid), tree.n(), root, exit_room_id, id as int)
            },
            forall|j: int| 0 <= j < switch_candidates@.len() ==> content@[(#[trigger] switch_candidates@[j]) as int].switch is None
                && content@[switch_candidates@[j] as int].switch_door is None,
            forall|j: int| 0 <= j < cands@.len() ==> content@[(#[trigger] cands@[j]) as int].switch is None
                && content@[cands@[j] as int].switch_door is None,
            switch_candidates@.no_duplicates(),
            cands@.no_duplicates(),
            forall|x: usize| #[trigger] cands@.contains(x) ==> exists|k: int| 0 <= k < q && switch_candidates@[k] == x,
            forall|x: usize| #[trigger] switch_candidates@.contains(x) <==> enemy_pool(t0, g0, boss_id as int, exit_room_id as int).contains(x),
            forall|k: int| 0 <= k < q && off_critical_path(*grid, sealed_rooms(*tree, *grid), tree.n(), root, exit_room_id, #[trigger] switch_candidates@[k] as int)
                ==> cands@.contains(switch_candidates@[k]),
            cands@ == off_path_order(*grid, *tree, switch_candidates@.take(q as int), exit_room_id),
        decreases switch_candidates@.len() - q,
    {
        let ghost p0 = cands@;
        let c = switch_candidates[q];
        proof {
            assert(switch_candidates@.take(q as int + 1).drop_last() =~= switch_candidates@.take(q as int));
            assert(switch_candidates@.take(q as int + 1).last() == switch_candidates@[q as int]);
        }
        if !vec_contains(&crit, c) {
            proof {
                let (ds, dg) = choose|ds: Seq<Option<u32>>, dg: Seq<Option<u32>>|
                    crate::pathfinding::bfs_dist_ok(*grid, sealed_rooms(*tree, *grid), root, tree.n(), ds) && crate::pathfinding::bfs_dist_ok(*grid, sealed_rooms(*tree, *grid), exit_room_id, tree.n(), dg)
                    && forall|x: int| 0 <= x < tree.n() ==> (#[trigger] crit@.contains(x as usize) <==> on_critical_path(ds, dg, exit_room_id as int, x));
                assert(!crit@.contains(c as int as usize));
                assert(tree.rooms@.len() == tree.rooms.len());
                lemma_off_critical(*grid, sealed_rooms(*tree, *grid), tree.n(), root, exit_room_id, ds, dg, c as int);
            }
            cands.push(c);
        } else {
            proof {
                let (ds, dg) = choose|ds: Seq<Option<u32>>, dg: Seq<Option<u32>>|
                    crate::pathfinding::bfs_dist_ok(*grid, sealed_rooms(*tree, *grid), root, tree.n(), ds) && crate::pathfinding::bfs_dist_ok(*grid, sealed_rooms(*tree, *grid), exit_room_id, tree.n(), dg)
                    && forall|x: int| 0 <= x < tree.n() ==> (#[trigger] crit@.contains(x as usize) <==> on_critical_path(ds, dg, exit_room_id as int, x));
                assert(crit@.contains(c as int as usize));
                assert(tree.rooms@.len() == tree.rooms.len());
                assert(!off_critical_path(*grid, sealed_rooms(*tree, *grid), tree.n(), root, exit_room_id, c as int));
            }
        }
        proof {
            lemma_push_fresh(p0, cands@, switch_candidates@, q as int);
            assert forall|k: int| 0 <= k < q + 1 && off_critical_path(*grid, sealed_rooms(*tree, *grid), tree.n(), root, exit_room_id, #[trigger] switch_candidates@[k] as int)
                implies cands@.contains(switch_candidates@[k]) by {
                if k < q {
                    let w = choose|w: int| 0 <= w < p0.len() && p0[w] == switch_candidates@[k];
                    assert(cands@[w] == p0[w]);
                } else {
                    assert(cands@[p0.len() as int] == switch_candidates@[q as int]);
                }
            }
        }
        q = q + 1;
    }
    let ghost spool = switch_pool(t0, g0, boss_id as int, exit_room_id as int, *grid, *tree);
    proof {
        assert(switch_candidates@.take(switch_candidates@.len() as int) =~= switch_candidates@);
        assert forall|x: usize| #[trigger] cands@.to_set().contains(x) <==> spool.contains(x) by {
            if cands@.contains(x) {
                let k = choose|k: int| 0 <= k < switch_candidates@.len() && switch_candidates@[k] == x;
                assert(switch_candidates@.contains(x));
            }
            if spool.contains(x) {
                assert(switch_candidates@.contains(x));
                let k = choose|k: int| 0 <= k < switch_candidates@.len() && switch_candidates@[k] == x;
            }
        }
        assert(cands@.to_set() =~= spool);
        cands@.unique_seq_to_set();
    }
    let ghost m0 = cands@.len();
    let n_pairs: usize = if (cfg.target_switch_pairs as usize) < cands.len() / 2 {
        cfg.target_switch_pairs as usize
    } else {
        cands.len() / 2
    };
    assert(n_pairs == min_of(cfg.target_switch_pairs as int, (spool.len() / 2) as int));
    proof {
        assert forall|i: int| 0 <= i < content@.len() implies !switch_rooms()(#[trigger] content@[i]) && !door_rooms()(content@[i]) by {}
        lemma_count_rooms_none(content@, switch_rooms());
        lemma_count_rooms_none(content@, door_rooms());
    }
    let mut next_switch_id: u32 = 0;
    let mut next_door_id: u32 = 0;
    let mut next_signal_id: u32 = 0;
    let mut pair: usize = 0;
    let ghost s_pairs = rng@;
    let ghost cands0 = cands@;
    let ghost c_enemies = content@;
    let ghost mut done: Seq<(usize, usize, usize)> = Seq::empty();
    let ghost full_plan = pair_plan(cands0, n_pairs as nat, s_pairs, cfg.max_signals_per_pair);
    proof {
        assert(pairs_placed(content@, done)) by {
            reveal(pairs_placed);
        }
        assert(done + pair_plan(cands@, (n_pairs - pair) as nat, rng@, cfg.max_signals_per_pair).0 =~= full_plan.0);
    }
    while pair < n_pairs
        invariant
            done.len() == pair,
            done + pair_plan(cands@, (n_pairs - pair) as nat, rng@, cfg.max_signals_per_pair).0 == full_plan.0,
            pair_plan(cands@, (n_pairs - pair) as nat, rng@, cfg.max_signals_per_pair).1 == full_plan.1,
            next_signal_id == signals_before(done, pair as int),
            pairs_placed(content@, done),
            content@.len() == c_enemies.len(),
            forall|i: int| 0 <= i < content@.len() ==> (#[trigger] content@[i]).enemies == c_enemies[i].enemies,
            full_plan == pair_plan(cands0, n_pairs as nat, s_pairs, cfg.max_signals_per_pair),
            pair <= n_pairs <= cfg.target_switch_pairs,
            cfg.max_signals_per_pair > 0,
            cfg.target_switch_pairs * cfg.max_signals_per_pair <= u32::MAX,
            next_switch_id == pair,
            next_door_id == pair,
            next_signal_id <= pair * cfg.max_signals_per_pair,
            content_ok(content@, *tree, *grid, boss_id as int, exit_room_id as int),
            content_detail(content@, *tree, *grid, *cfg),
            root == tree.root,
            forall|j: int| 0 <= j < cands@.len() ==> {
                let id = #[trigger] cands@[j];
                &&& id < n
                &&& id != root
                &&& id != boss_id
                &&& id != exit_room_id
                &&& tree.rooms@[id as int].kind is Normal
                &&& grid.placed(id)
                &&& off_critical_path(*grid, sealed_rooms(*tree, *grid), tree.n(), root, exit_room_id, id as int)
            },
            forall|j: int| 0 <= j < cands@.len() ==> content@[(#[trigger] cands@[j]) as int].switch is None
                && content@[cands@[j] as int].switch_door is None,
            cands@.no_duplicates(),
            forall|i: int| 0 <= i < content@.len() && (#[trigger] content@[i]).switch is Some ==> content@[i].switch.unwrap().switch_id < next_switch_id
                && signals_below(content@[i].switch.unwrap().signals@, next_signal_id as int),
            n <= tree.n(),
            count_rooms(content@, regular_rooms()) == n_enemies,
            n_enemies <= cfg.target_enemy_groups,
            count_rooms(content@, switch_rooms()) == pair,
            count_rooms(content@, door_rooms()) == pair,
            cands@.len() + 2 * pair == m0,
            n_pairs <= m0 / 2,
            forall|i: int| 0 <= i < content@.len() ==> (#[trigger] content@[i]).sign is None,
            forall|i: int| 0 <= i < content@.len() && (#[trigger] content@[i]).switch_door is Some
                ==> content@[i].switch_door.unwrap().door_id < next_door_id,
            forall|a: int, b: int| 0 <= a < content@.len() && 0 <= b < content@.len() && a != b && (#[trigger] content@[a]).switch_door is Some
                && (#[trigger] content@[b]).switch_door is Some ==> content@[a].switch_door.unwrap().door_id != content@[b].switch_door.unwrap().door_id,
        ensures
            pair == n_pairs,
            done.len() == n_pairs,
            done + pair_plan(cands@, 0, rng@, cfg.max_signals_per_pair).0 == full_plan.0,
            pair_plan(cands@, 0, rng@, cfg.max_signals_per_pair).1 == full_plan.1,
            pairs_placed(content@, done),
            content@.len() == c_enemies.len(),
            forall|i: int| 0 <= i < content@.len() ==> (#[trigger] content@[i]).enemies == c_enemies[i].enemies,
            count_rooms(content@, switch_rooms()) == n_pairs,
            count_rooms(content@, door_rooms()) == n_pairs,
            count_rooms(content@, regular_rooms()) == n_enemies,
            content_ok(content@, *tree, *grid, boss_id as int, exit_room_id as int),
            content_detail(content@, *tree, *grid, *cfg),
            forall|i: int| 0 <= i < content@.len() ==> (#[trigger] content@[i]).sign is None,
            forall|i: int| 0 <= i < content@.len() && (#[trigger] content@[i]).switch is Some ==> content@[i].switch.unwrap().switch_id < n_pairs,
            forall|i: int| 0 <= i < content@.len() && (#[trigger] content@[i]).switch_door is Some
                ==> content@[i].switch_door.unwrap().door_id < n_pairs,
            forall|a: int, b: int| 0 <= a < content@.len() && 0 <= b < content@.len() && a != b && (#[trigger] content@[a]).switch_door is Some
                && (#[trigger] content@[b]).switch_door is Some ==> content@[a].switch_door.unwrap().door_id != content@[b].switch_door.unwrap().door_id,
        decreases n_pairs - pair,
    {
        if cands.len() < 2 {
            break;
        }
        let ghost plan0 = pair_plan(cands@, (n_pairs - pair) as nat, rng@, cfg.max_signals_per_pair);
        let ghost content_before = content@;
        let half = cands.len() / 2;
        let sw_idx = rng.next_usize(if half > 0 { half } else { 1 });
        let ghost cs0 = cands@;
        let sw_room = cands.remove(sw_idx);
        proof {
            assert(sw_room == cs0[sw_idx as int]);
            assert forall|j: int| 0 <= j < cands@.len() implies {
                let id = #[trigger] cands@[j];
                &&& id < n
                &&& id != root
                &&& id != boss_id
                &&& id != exit_room_id
                &&& tree.rooms@[id as int].kind is Normal
                &&& grid.placed(id)
                &&& off_critical_path(*grid, sealed_rooms(*tree, *grid), tree.n(), root, exit_room_id, id as int)
            } by {
                assert(cands@[j] == cs0[if j < sw_idx { j } else { j + 1 }]);
            }
            assert forall|j: int| 0 <= j < cands@.len() implies content@[(#[trigger] cands@[j]) as int].switch is None
                && content@[cands@[j] as int].switch_door is None by {
                assert(cands@[j] == cs0[if j < sw_idx { j } else { j + 1 }]);
            }
            assert forall|a: int, b: int| 0 <= a < cands@.len() && 0 <= b < cands@.len() && a != b implies cands@[a] != cands@[b] by {
                assert(cands@[a] == cs0[if a < sw_idx { a } else { a + 1 }]);
                assert(cands@[b] == cs0[if b < sw_idx { b } else { b + 1 }]);
            }
            assert forall|j: int| 0 <= j < cands@.len() implies cands@[j] != sw_room by {
                assert(cands@[j] == cs0[if j < sw_idx { j } else { j + 1 }]);
            }
        }
        if cands.len() == 0 {
            break;
        }
        let dr_idx = rng.next_usize(cands.len());
        let ghost cs1 = cands@;
        let door_room = cands.remove(dr_idx);
        proof {
            assert(door_room == cs1[dr_idx as int]);
            assert forall|j: int| 0 <= j < cands@.len() implies {
                let id = #[trigger] cands@[j];
                &&& id < n
                &&& id != root
                &&& id != boss_id
                &&& id != exit_room_id
                &&& tree.rooms@[id as int].kind is Normal
                &&& grid.placed(id)
                &&& off_critical_path(*grid, sealed_rooms(*tree, *grid), tree.n(), root, exit_room_id, id as int)
            } by {
                assert(cands@[j] == cs1[if j < dr_idx { j } else { j + 1 }]);
            }
            assert forall|j: int| 0 <= j < cands@.len() implies content@[(#[trigger] cands@[j]) as int].switch is None
                && content@[cands@[j] as int].switch_door is None by {
                assert(cands@[j] == cs1[if j < dr_idx { j } else { j + 1 }]);
            }
            assert forall|a: int, b: int| 0 <= a < cands@.len() && 0 <= b < cands@.len() && a != b implies cands@[a] != cands@[b] by {
                assert(cands@[a] == cs1[if a < dr_idx { a } else { a + 1 }]);
                assert(cands@[b] == cs1[if b < dr_idx { b } else { b + 1 }]);
            }
            assert forall|j: int| 0 <= j < cands@.len() implies cands@[j] != door_room && cands@[j] != sw_room by {
                assert(cands@[j] == cs1[if j < dr_idx { j } else { j + 1 }]);
            }
            assert(door_room != sw_room);
        }
        let n_signals = 1 + rng.next_usize(cfg.max_signals_per_pair as usize);
        proof {
            assert(pair * cfg.max_signals_per_pair + n_signals <= (pair + 1) * cfg.max_signals_per_pair) by (nonlinear_arith)
                requires n_signals <= cfg.max_signals_per_pair;
            assert((pair + 1) * cfg.max_signals_per_pair <= cfg.target_switch_pairs * cfg.max_signals_per_pair) by (nonlinear_arith)
                requires pair + 1 <= cfg.target_switch_pairs;
        }
        let mut signals: Vec<u32> = Vec::new();
        let mut k: usize = 0;
        let ghost sig0 = next_signal_id;
        while k < n_signals
            invariant
                k <= n_signals,
                signals@.len() == k,
                signals@ == signal_span(sig0 as int, k as int),
                next_signal_id == sig0 + k,
                sig0 + n_signals <= u32::MAX,
                forall|m: int| 0 <= m < k ==> (#[trigger] signals@[m]) >= sig0 && signals@[m] < next_signal_id,
            decreases n_signals - k,
        {
            signals.push(next_signal_id);
            proof {
                assert(signals@ =~= signal_span(sig0 as int, k + 1));
            }
            next_signal_id = next_signal_id + 1;
            k = k + 1;
        }
        let ghost c0 = content@;
        content[sw_room].switch = Some(SwitchState { switch_id: next_switch_id, signals: copy_signals(&signals) });
        next_switch_id = next_switch_id + 1;
        content[door_room].switch_door = Some(SwitchDoor { door_id: next_door_id, signals });
        next_door_id = next_door_id + 1;
        proof {
            let t = (sw_room, door_room, n_signals);
            let rest = pair_plan(cands@, (n_pairs - pair - 1) as nat, rng@, cfg.max_signals_per_pair);
            assert(plan0.0 == seq![t] + rest.0);
            assert(plan0.1 == rest.1);
            let done1 = done.push(t);
            assert(done1 + rest.0 =~= done + plan0.0);
            lemma_signals_before_prefix(done, t, pair as int);
            assert(signals_before(done1, pair + 1) == signals_before(done, pair as int) + n_signals);
            assert(content_before[sw_room as int].switch is None);
            assert(content_before[door_room as int].switch_door is None);
            assert forall|i: int| 0 <= i < content@.len() && i != sw_room implies (#[trigger] content@[i]).switch == content_before[i].switch by {}
            assert forall|i: int| 0 <= i < content@.len() && i != door_room implies (#[trigger] content@[i]).switch_door == content_before[i].switch_door by {}
            lemma_pairs_step(content_before, content@, done, t);
            done = done1;
            assert forall|j: int| 0 <= j < content@.len() implies {
                &&& (#[trigger] content@[j]).enemies == c0[j].enemies
                &&& content@[j].is_exit == c0[j].is_exit
                &&& content@[j].sign == c0[j].sign
            } by {}
            assert(content_ok(content@, *tree, *grid, boss_id as int, exit_room_id as int));
            lemma_pair_added(c0, content@, *tree, *grid, *cfg, sw_room as int, door_room as int, (next_switch_id - 1) as u32, signals@, sig0 as int);
            assert forall|i: int| 0 <= i < content@.len() && (#[trigger] content@[i]).switch is Some implies content@[i].switch.unwrap().switch_id < next_switch_id
                && signals_below(content@[i].switch.unwrap().signals@, next_signal_id as int) by {
                if i != sw_room as int {
                    assert(content@[i].switch == c0[i].switch);
                }
            }
            assert forall|i: int| 0 <= i < content@.len() implies (#[trigger] content@[i]).sign is None by {
                assert(content@[i].sign == c0[i].sign);
            }
            assert forall|i: int| 0 <= i < content@.len() && (#[trigger] content@[i]).switch_door is Some
                implies content@[i].switch_door.unwrap().door_id < next_door_id by {
                if i != door_room as int {
                    assert(content@[i].switch_door == c0[i].switch_door);
                }
            }
            assert forall|a: int, b: int| 0 <= a < content@.len() && 0 <= b < content@.len() && a != b && (#[trigger] content@[a]).switch_door is Some
                && (#[trigger] content@[b]).switch_door is Some implies content@[a].switch_door.unwrap().door_id != content@[b].switch_door.unwrap().door_id by {
                if a != door_room as int {
                    assert(content@[a].switch_door == c0[a].switch_door);
                }
                if b != door_room as int {
                    assert(content@[b].switch_door == c0[b].switch_door);
                }
            }
        }
        pair = pair + 1;
    }
    // ── Signs ──
    proof {
        assert(done + pair_plan(cands@, 0, rng@, cfg.max_signals_per_pair).0 =~= done);
        assert forall|j: int| 0 <= j < placed_bfs@.len() implies grid.placed(#[trigger] placed_bfs@[j]) by {
            assert(placed_bfs@.contains(placed_bfs@[j]));
        }
    }
    let ghost c_start = content@;
    let ghost s_start = rng@;
    place_signs(&mut content, tree, grid, &placed_bfs, boss_id, exit_room_id, cfg, rng);
    proof {
        assert forall|i: int| 0 <= i < c_start.len() implies regular_rooms()(#[trigger] c_start[i]) == regular_rooms()(content@[i])
            && switch_rooms()(c_start[i]) == switch_rooms()(content@[i]) && door_rooms()(c_start[i]) == door_rooms()(content@[i]) by {
            assert(content@[i].enemies == c_start[i].enemies);
        }
        lemma_count_rooms_same(c_start, content@, regular_rooms());
        lemma_count_rooms_same(c_start, content@, switch_rooms());
        lemma_count_rooms_same(c_start, content@, door_rooms());
        assert(sign_passes(*tree, *grid, content@, placed_bfs_order(t0, g0), *cfg, s_start) == (sign_views(content@), rng@));
        let k = n_enemies as nat;
        let gd = group_draws(s_groups, cfg.max_enemies_per_group, k);
        lemma_groups_keep(c_enemies, c_start, shuffled.take(n_enemies as int), gd.0);
        lemma_groups_keep(c_start, content@, shuffled.take(n_enemies as int), gd.0);
        lemma_pairs_keep(c_start, content@, done);
        lemma_content_drawn(content@, t0, g0, boss_id as int, exit_room_id as int, *grid, *tree, *cfg, s_shuffle, rng@,
            before_shuffle, shuffled, s_groups, k, cands0, full_plan);
    }
    (content, exit_room_id)
}

// ── Content overview ────────────────────────────────────────────────────────

/// The glyph of room `id` on the content map: `S` for the root; else `X`
/// for the exit, `B` for the boss, `E` for enemies, then by kind `K`, `L`,
/// `W`, `D`; `$` for a normal room with a sign and `.` without.
pub open spec fn content_glyph(tree: DungeonTree, content: Seq<RoomContent>, id: usize) -> u8 {
    if id == tree.root {
        83u8
    } else if id < content.len() && content[id as int].is_exit {
        88u8
    } else if id < content.len() && content[id as int].enemies is Some && content[id as int].enemies.unwrap().is_boss {
        66u8
    } else if id < content.len() && content[id as int].enemies is Some {
        69u8
    } else {
        match tree.rooms@[id as int].kind {
            RoomKind::Key { .. } => 75u8,
            RoomKind::Locked { .. } => 76u8,
            RoomKind::Switch => 87u8,
            RoomKind::SwitchDoor => 68u8,
            RoomKind::Normal => if id < content.len() && content[id as int].sign is Some {
                36u8
            } else {
                46u8
            },
        }
    }
}

fn content_glyph_exec(tree: &DungeonTree, content: &[RoomContent], id: usize) -> (r: u8)
    requires
        id < tree.n(),
    ensures
        r == content_glyph(*tree, content@, id),
        is_glyph(r),
{
    if id == tree.root {
        return 83;
    }
    if id < content.len() {
        let c = &content[id];
        if c.is_exit {
            return 88;
        }
        match &c.enemies {
            Some(e) => {
                return if e.is_boss { 66 } else { 69 };
            },
            None => {},
        }
    }
    match tree.rooms[id].kind {
        RoomKind::Key { .. } => 75,
        RoomKind::Locked { .. } => 76,
        RoomKind::Switch => 87,
        RoomKind::SwitchDoor => 68,
        RoomKind::Normal => if id < content.len() && content[id].sign.is_some() {
            36
        } else {
            46
        },
    }
}

/// The content map glyph at column `c`, row `r` of the bounding box.
pub open spec fn content_map_glyph(tree: DungeonTree, grid: DungeonGrid, content: Seq<RoomContent>, c: int, r: int) -> u8 {
    match grid.room_on((grid.min_x + c, grid.min_y + r)) {
        Some(id) => content_glyph(tree, content, id),
        None => 32u8,
    }
}

/// The content map glyphs of the bounding box, row-major.
pub open spec fn content_canvas(tree: DungeonTree, grid: DungeonGrid, content: Seq<RoomContent>) -> Seq<u8> {
    Seq::new((grid.box_width() * grid.box_height()) as nat, |k: int| content_map_glyph(tree, grid, content, k % grid.box_width(), k / grid.box_width()))
}

/// The dungeon map as text with its content: `E` enemies, `B` boss, `X`
/// exit, `W` switch, `D` switch door, `$` sign, `S` spawn, `K` key, `L`
/// locked, `.` normal, blank for no room.
pub fn ascii_map_with_content(tree: &DungeonTree, grid: &DungeonGrid, content: &[RoomContent]) -> (r: String)
    requires
        grid.wf(),
        ids_below(*grid, tree.n()),
        grid.box_width() * grid.box_height() <= usize::MAX,
    ensures
        r@ == render(grid.box_width() as nat, grid.box_height() as nat, content_canvas(*tree, *grid, content@)),
{
    proof {
        let k0 = choose|k: int| 0 <= k < grid.ncells() && (#[trigger] grid.pos_at(k)).0 == grid.min_x;
        assert(grid.min_x <= grid.pos_at(k0).0 <= grid.max_x);
        let k1 = choose|k: int| 0 <= k < grid.ncells() && (#[trigger] grid.pos_at(k)).1 == grid.min_y;
        assert(grid.min_y <= grid.pos_at(k1).1 <= grid.max_y);
        assert(grid.box_width() * grid.box_height() >= grid.box_width()) by (nonlinear_arith)
            requires grid.box_height() >= 1, grid.box_width() >= 1;
        assert(grid.box_width() * grid.box_height() >= grid.box_height()) by (nonlinear_arith)
            requires grid.box_height() >= 1, grid.box_width() >= 1;
    }
    let w = (grid.max_x as i64 - grid.min_x as i64 + 1) as usize;
    let h = (grid.max_y as i64 - grid.min_y as i64 + 1) as usize;
    let total = w * h;
    let mut canvas: Vec<u8> = Vec::new();
    let mut k: usize = 0;
    while k < total
        invariant
            grid.wf(),
            ids_below(*grid, tree.n()),
            w == grid.box_width(),
            h == grid.box_height(),
            w >= 1,
            total == w * h,
            k <= total,
            canvas@.len() == k,
            forall|j: int| 0 <= j < k ==> #[trigger] canvas@[j] == content_map_glyph(*tree, *grid, content@, j % (w as int), j / (w as int)),
            forall|j: int| 0 <= j < k ==> is_glyph(#[trigger] canvas@[j]),
        decreases total - k,
    {
        let col = k % w;
        let row = k / w;
        proof {
            assert(row < h) by (nonlinear_arith)
                requires row == k / w, k < w * h, w >= 1;
        }
        let x = (grid.min_x as i64 + col as i64) as i32;
        let y = (grid.min_y as i64 + row as i64) as i32;
        let g = match grid.room_at((x, y)) {
            Some(id) => {
                proof {
                    crate::pathfinding::lemma_room_on_below(*grid, tree.n(), (x as int, y as int));
                }
                content_glyph_exec(tree, content, id)
            },
            None => 32u8,
        };
        canvas.push(g);
        k = k + 1;
    }
    proof {
        assert(canvas@ =~= content_canvas(*tree, *grid, content@));
    }
    render_canvas(w, h, &canvas)
}

/// Some placed room at `(x, y)` holds `sign`.
pub open spec fn sign_at(grid: DungeonGrid, content: Seq<RoomContent>, x: i32, y: i32, sign: Sign) -> bool {
    exists|id: int| 0 <= id < content.len() && #[trigger] content[id].sign == Some(sign) && grid.pos_of_room(id as usize) == Some((x, y))
}

/// Some placed room at `(x, y)` holds the enemy group `eg`.
pub open spec fn enemies_at(grid: DungeonGrid, content: Seq<RoomContent>, x: i32, y: i32, eg: EnemyGroup) -> bool {
    exists|id: int| 0 <= id < content.len() && #[trigger] content[id].enemies == Some(eg) && grid.pos_of_room(id as usize) == Some((x, y))
}

/// The signs of the first `k` rooms whose room is placed, with the room's
/// grid position, in room order.
pub open spec fn placed_signs(grid: DungeonGrid, content: Seq<RoomContent>, k: nat) -> Seq<(i32, i32, Sign)>
    decreases k,
{
    if k == 0 {
        Seq::empty()
    } else {
        let pre = placed_signs(grid, content, (k - 1) as nat);
        match (content[k - 1].sign, grid.pos_of_room((k - 1) as usize)) {
            (Some(s), Some(p)) => pre.push((p.0, p.1, s)),
            _ => pre,
        }
    }
}

/// The enemy groups of the first `k` rooms whose room is placed, with the
/// room's grid position, in room order.
pub open spec fn placed_enemies(grid: DungeonGrid, content: Seq<RoomContent>, k: nat) -> Seq<(i32, i32, EnemyGroup)>
    decreases k,
{
    if k == 0 {
        Seq::empty()
    } else {
        let pre = placed_enemies(grid, content, (k - 1) as nat);
        match (content[k - 1].enemies, grid.pos_of_room((k - 1) as usize)) {
            (Some(e), Some(p)) => pre.push((p.0, p.1, e)),
            _ => pre,
        }
    }
}

/// The rooms with a sign whose room is placed, with their grid positions,
/// in room order.
pub fn signs_of<'a>(grid: &DungeonGrid, content: &'a [RoomContent]) -> (r: Vec<(i32, i32, &'a Sign)>)
    requires
        grid.wf(),
    ensures
        forall|k: int| 0 <= k < r@.len() ==> sign_at(*grid, content@, (#[trigger] r@[k]).0, r@[k].1, *r@[k].2),
        r@.map_values(|e: (i32, i32, &Sign)| (e.0, e.1, *e.2)) == placed_signs(*grid, content@, content@.len()),
{
    let mut out: Vec<(i32, i32, &'a Sign)> = Vec::new();
    let mut id: usize = 0;
    while id < content.len()
        invariant
            grid.wf(),
            id <= content@.len(),
            forall|k: int| 0 <= k < out@.len() ==> sign_at(*grid, content@, (#[trigger] out@[k]).0, out@[k].1, *out@[k].2),
            out@.map_values(|e: (i32, i32, &Sign)| (e.0, e.1, *e.2)) == placed_signs(*grid, content@, id as nat),
        decreases content@.len() - id,
    {
        match &content[id].sign {
            Some(sign) => {
                match grid.pos_of(id) {
                    Some(pos) => {
                        out.push((pos.0, pos.1, sign));
                        proof {
                            assert(content@[id as int].sign == Some(*out@[out@.len() - 1].2));
                            assert(sign_at(*grid, content@, pos.0, pos.1, *sign));
                        }
                    },
                    None => {},
                }
            },
            None => {},
        }
        proof {
            assert(out@.map_values(|e: (i32, i32, &Sign)| (e.0, e.1, *e.2)) =~= placed_signs(*grid, content@, (id + 1) as nat));
        }
        id = id + 1;
    }
    out
}

/// The enemy groups whose room is placed, with their grid positions, in room order.
pub fn enemies_of<'a>(grid: &DungeonGrid, content: &'a [RoomContent]) -> (r: Vec<(i32, i32, &'a EnemyGroup)>)
    requires
        grid.wf(),
    ensures
        forall|k: int| 0 <= k < r@.len() ==> enemies_at(*grid, content@, (#[trigger] r@[k]).0, r@[k].1, *r@[k].2),
        r@.map_values(|e: (i32, i32, &EnemyGroup)| (e.0, e.1, *e.2)) == placed_enemies(*grid, content@, content@.len()),
{
    let mut out: Vec<(i32, i32, &'a EnemyGroup)> = Vec::new();
    let mut id: usize = 0;
    while id < content.len()
        invariant
            grid.wf(),
            id <= content@.len(),
            forall|k: int| 0 <= k < out@.len() ==> enemies_at(*grid, content@, (#[trigger] out@[k]).0, out@[k].1, *out@[k].2),
            out@.map_values(|e: (i32, i32, &EnemyGroup)| (e.0, e.1, *e.2)) == placed_enemies(*grid, content@, id as nat),
        decreases content@.len() - id,
    {
        match &content[id].enemies {
            Some(eg) => {
                match grid.pos_of(id) {
                    Some(pos) => {
                        out.push((pos.0, pos.1, eg));
                        proof {
                            assert(content@[id as int].enemies == Some(*out@[out@.len() - 1].2));
                            assert(enemies_at(*grid, content@, pos.0, pos.1, *eg));
                        }
                    },
                    None => {},
                }
            },
            None => {},
        }
        proof {
            assert(out@.map_values(|e: (i32, i32, &EnemyGroup)| (e.0, e.1, *e.2)) =~= placed_enemies(*grid, content@, (id + 1) as nat));
        }
        id = id + 1;
    }
    out
}

} // verus!
