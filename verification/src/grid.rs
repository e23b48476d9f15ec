//! **Phenotype decoder**: turns a [`DungeonTree`] genotype into a 2-D
//! grid of room positions, applying the rotation rule and discarding nodes
//! whose cell is already taken.
use vstd::prelude::*;

use crate::room::{Direction, RoomKind, direction_offset, rotated_direction};
use crate::render::{render, render_canvas, is_glyph};
use crate::tree::{DungeonTree, lemma_parent_unique, lemma_distinct_below, lemma_child_in_subtree, lemma_ancestor_refl};

verus! {

/// A cell in the decoded 2-D map.
#[derive(Debug)]
pub struct GridCell {
    pub room_id: usize,
    pub pos: (i32, i32),
}

/// Manhattan size of a position.
pub open spec fn manhattan(p: (i32, i32)) -> int {
    (if p.0 >= 0 { p.0 as int } else { -p.0 }) + (if p.1 >= 0 { p.1 as int } else { -p.1 })
}

/// The position one step from `p` along offset `o`.
pub open spec fn step(p: (i32, i32), o: (i32, i32)) -> (int, int) {
    (p.0 + o.0, p.1 + o.1)
}

/// The direction a child of `p` is actually laid out in.
pub open spec fn effective_direction(t: DungeonTree, p: int, c: int) -> Direction {
    match t.rooms@[p].direction {
        Some(pd) => rotated_direction(t.rooms@[c].direction.unwrap(), pd),
        None => t.rooms@[c].direction.unwrap(),
    }
}

/// The decoded spatial layout of a dungeon.
#[derive(Debug)]
pub struct DungeonGrid {
    /// All placed cells, in the order they were placed.
    pub cells: Vec<GridCell>,
    /// The bounding box.
    pub min_x: i32,
    pub max_x: i32,
    pub min_y: i32,
    pub max_y: i32,
}

impl DungeonGrid {
    pub open spec fn ncells(self) -> int {
        self.cells@.len() as int
    }

    pub open spec fn pos_at(self, k: int) -> (i32, i32) {
        self.cells@[k].pos
    }

    pub open spec fn id_at(self, k: int) -> usize {
        self.cells@[k].room_id
    }

    /// Room `id` has a cell.
    pub open spec fn placed(self, id: usize) -> bool {
        exists|k: int| 0 <= k < self.ncells() && #[trigger] self.id_at(k) == id
    }

    /// Position `p` is taken by some cell.
    pub open spec fn occupied(self, p: (int, int)) -> bool {
        exists|k: int| 0 <= k < self.ncells() && (#[trigger] self.pos_at(k)).0 == p.0 && self.pos_at(k).1 == p.1
    }

    /// The cell index of a placed room.
    pub open spec fn index_of(self, id: usize) -> int {
        choose|k: int| 0 <= k < self.ncells() && #[trigger] self.id_at(k) == id
    }

    /// Well-formedness: the origin cell comes first, positions and room ids
    /// are distinct, cell `k` lies within Manhattan distance `k` of the
    /// origin, and the bounding box is exactly that of the cells.
    pub open spec fn wf(self) -> bool {
        let n = self.ncells();
        &&& n > 0
        &&& n <= 0x7fff_ffff
        &&& self.pos_at(0) == (0i32, 0i32)
        &&& forall|k: int| 0 <= k < n ==> manhattan(#[trigger] self.pos_at(k)) <= k
        &&& forall|a: int, b: int| 0 <= a < n && 0 <= b < n && a != b ==> #[trigger] self.pos_at(a) != #[trigger] self.pos_at(b)
        &&& forall|a: int, b: int| 0 <= a < n && 0 <= b < n && a != b ==> #[trigger] self.id_at(a) != #[trigger] self.id_at(b)
        &&& forall|k: int| 0 <= k < n ==> self.min_x <= (#[trigger] self.pos_at(k)).0 <= self.max_x && self.min_y <= self.pos_at(k).1 <= self.max_y
        &&& exists|k: int| 0 <= k < n && (#[trigger] self.pos_at(k)).0 == self.min_x
        &&& exists|k: int| 0 <= k < n && (#[trigger] self.pos_at(k)).0 == self.max_x
        &&& exists|k: int| 0 <= k < n && (#[trigger] self.pos_at(k)).1 == self.min_y
        &&& exists|k: int| 0 <= k < n && (#[trigger] self.pos_at(k)).1 == self.max_y
    }

    /// Cell `k` holds a child of the room of cell `q`, one rotated step from it.
    pub open spec fn laid_out_from(self, t: DungeonTree, k: int, q: int) -> bool {
        &&& t.is_child(self.id_at(q) as int, self.id_at(k) as int)
        &&& t.rooms@[self.id_at(k) as int].direction is Some
        &&& step(self.pos_at(q), direction_offset(effective_direction(t, self.id_at(q) as int, self.id_at(k) as int)))
            == (self.pos_at(k).0 as int, self.pos_at(k).1 as int)
    }

    /// Cell `k` was laid out from an earlier cell.
    pub open spec fn has_source(self, t: DungeonTree, k: int) -> bool {
        exists|q: int| 0 <= q < k && #[trigger] self.laid_out_from(t, k, q)
    }

    /// The grid decodes `t`: the root sits at the origin, every other cell
    /// belongs to a child of an earlier cell's room and lies one rotated
    /// step from it, and every child with a direction of a placed room is
    /// either placed or blocked by a cell on its target position.
    pub open spec fn decodes(self, t: DungeonTree) -> bool {
        &&& self.id_at(0) == t.root
        &&& forall|k: int| 0 <= k < self.ncells() ==> (#[trigger] self.id_at(k)) < t.n()
        &&& forall|k: int| 0 < k < self.ncells() ==> #[trigger] self.has_source(t, k)
        &&& forall|q: int, j: int|
            0 <= q < self.ncells() && 0 <= j < t.kids(self.id_at(q) as int).len() && t.rooms@[t.kids(self.id_at(q) as int)[j] as int].direction is Some
                ==> self.placed(#[trigger] t.kids(self.id_at(q) as int)[j]) || self.occupied(step(self.pos_at(q), direction_offset(effective_direction(t, self.id_at(q) as int, t.kids(self.id_at(q) as int)[j] as int))))
    }
}


/// Some cell of `cs` belongs to room `id`.
pub open spec fn cells_placed(cs: Seq<GridCell>, id: usize) -> bool {
    exists|k: int| 0 <= k < cs.len() && #[trigger] cs[k].room_id == id
}

/// Some cell of `cs` sits on `p`.
pub open spec fn cells_occupied(cs: Seq<GridCell>, p: (int, int)) -> bool {
    exists|k: int| 0 <= k < cs.len() && (#[trigger] cs[k]).pos.0 == p.0 && cs[k].pos.1 == p.1
}

/// The basic shape of a list of cells: the root's cell first at the origin,
/// cell `k` within Manhattan distance `k`, distinct positions and rooms.
pub open spec fn basic_cells(t: DungeonTree, cs: Seq<GridCell>) -> bool {
    &&& cs.len() > 0
    &&& cs.len() <= t.n()
    &&& cs[0].room_id == t.root
    &&& cs[0].pos == (0i32, 0i32)
    &&& forall|k: int| 0 <= k < cs.len() ==> manhattan((#[trigger] cs[k]).pos) <= k
    &&& forall|k: int| 0 <= k < cs.len() ==> (#[trigger] cs[k]).room_id < t.n()
    &&& forall|a: int, b: int| 0 <= a < cs.len() && 0 <= b < cs.len() && a != b
        ==> (#[trigger] cs[a]).pos != (#[trigger] cs[b]).pos
    &&& forall|a: int, b: int| 0 <= a < cs.len() && 0 <= b < cs.len() && a != b
        ==> (#[trigger] cs[a]).room_id != (#[trigger] cs[b]).room_id
}

/// The position a child room `c` of room `p` takes when `p` sits on `pp`.
pub open spec fn child_target(t: DungeonTree, pp: (i32, i32), p: int, c: int) -> (int, int) {
    step(pp, direction_offset(effective_direction(t, p, c)))
}

/// Cell `k` (for `k >= 1`) was laid out as child number `which[k]` of the
/// room of cell `par[k]`, an earlier cell.
pub open spec fn parents_ok(t: DungeonTree, cs: Seq<GridCell>, par: Seq<int>, which: Seq<int>) -> bool {
    &&& par.len() == cs.len()
    &&& which.len() == cs.len()
    &&& forall|k: int| #![trigger par[k]] 1 <= k < cs.len() ==> {
        &&& 0 <= par[k] < k
        &&& 0 <= which[k] < t.kids(cs[par[k]].room_id as int).len()
        &&& t.kids(cs[par[k]].room_id as int)[which[k]] == cs[k].room_id
        &&& t.rooms@[cs[k].room_id as int].direction is Some
        &&& child_target(t, cs[par[k]].pos, cs[par[k]].room_id as int, cs[k].room_id as int)
            == (cs[k].pos.0 as int, cs[k].pos.1 as int)
    }
}

/// Every child (with a direction) of the rooms of cells `0..i` is placed or
/// finds its target cell taken.
pub open spec fn complete_upto(t: DungeonTree, cs: Seq<GridCell>, i: int) -> bool {
    forall|q: int, j: int|
        0 <= q < i && 0 <= j < t.kids(cs[q].room_id as int).len()
            && t.rooms@[t.kids(cs[q].room_id as int)[j] as int].direction is Some
            ==> cells_placed(cs, #[trigger] t.kids(cs[q].room_id as int)[j])
            || cells_occupied(cs, child_target(t, cs[q].pos, cs[q].room_id as int, t.kids(cs[q].room_id as int)[j] as int))
}

/// Cell `a` was laid out before child number `j` of the room of cell `q`
/// came up: it is the root's cell, or it comes earlier in the order
/// (parent cell, then child number).
pub open spec fn laid_before(par: Seq<int>, which: Seq<int>, a: int, q: int, j: int) -> bool {
    a == 0 || par[a] < q || (par[a] == q && which[a] < j)
}

/// Child number `j` of the room of cell `q` has its own cell, laid out from `q`.
pub open spec fn child_laid(cs: Seq<GridCell>, par: Seq<int>, which: Seq<int>, q: int, j: int) -> bool {
    exists|k: int| 1 <= k < cs.len() && #[trigger] par[k] == q && which[k] == j
}

/// The target cell of child number `j` of the room of cell `q` is taken by
/// a cell laid out before that child came up.
pub open spec fn child_blocked(t: DungeonTree, cs: Seq<GridCell>, par: Seq<int>, which: Seq<int>, q: int, j: int) -> bool {
    let target = child_target(t, cs[q].pos, cs[q].room_id as int, t.kids(cs[q].room_id as int)[j] as int);
    exists|a: int| 0 <= a < cs.len() && laid_before(par, which, a, q, j)
        && (#[trigger] cs[a]).pos.0 == target.0 && cs[a].pos.1 == target.1
}

/// The cells are laid out breadth first: after the root's cell they come in
/// the order (parent cell, then child number), and every child (with a
/// direction) of the rooms of the first `i` cells has its own cell unless
/// its target was taken by a cell laid out before it came up.
pub open spec fn laid_out_upto(t: DungeonTree, cs: Seq<GridCell>, par: Seq<int>, which: Seq<int>, i: int) -> bool {
    &&& forall|a: int, b: int| #![trigger par[a], par[b]] 1 <= a < b < cs.len() ==> laid_before(par, which, a, par[b], which[b])
    &&& forall|q: int, j: int|
        0 <= q < i && 0 <= j < t.kids(cs[q].room_id as int).len() && t.rooms@[t.kids(cs[q].room_id as int)[j] as int].direction is Some
            ==> #[trigger] child_laid(cs, par, which, q, j) || child_blocked(t, cs, par, which, q, j)
}

/// Pushing a new cell keeps a child laid out or blocked.
proof fn lemma_laid_or_blocked_push(
    t: DungeonTree,
    cs: Seq<GridCell>,
    par: Seq<int>,
    which: Seq<int>,
    c: GridCell,
    pi: int,
    pj: int,
    q: int,
    j: int,
)
    requires
        par.len() == cs.len(),
        which.len() == cs.len(),
        0 <= q < cs.len(),
        child_laid(cs, par, which, q, j) || child_blocked(t, cs, par, which, q, j),
    ensures
        child_laid(cs.push(c), par.push(pi), which.push(pj), q, j)
            || child_blocked(t, cs.push(c), par.push(pi), which.push(pj), q, j),
{
    let cs2 = cs.push(c);
    let par2 = par.push(pi);
    let which2 = which.push(pj);
    assert(cs2[q] == cs[q]);
    if child_laid(cs, par, which, q, j) {
        let k = choose|k: int| 1 <= k < cs.len() && #[trigger] par[k] == q && which[k] == j;
        assert(par2[k] == par[k] && which2[k] == which[k]);
        assert(child_laid(cs2, par2, which2, q, j));
    } else {
        let target = child_target(t, cs[q].pos, cs[q].room_id as int, t.kids(cs[q].room_id as int)[j] as int);
        let a = choose|a: int| 0 <= a < cs.len() && laid_before(par, which, a, q, j)
            && (#[trigger] cs[a]).pos.0 == target.0 && cs[a].pos.1 == target.1;
        assert(cs2[a] == cs[a] && par2[a] == par[a] && which2[a] == which[a]);
        assert(laid_before(par2, which2, a, q, j));
        assert(child_blocked(t, cs2, par2, which2, q, j));
    }
}

/// Laying out child number `j` of the room of cell `i` as a new cell keeps
/// the breadth-first order, and that child is now laid out.
proof fn lemma_laid_push(
    t: DungeonTree,
    cs: Seq<GridCell>,
    par: Seq<int>,
    which: Seq<int>,
    c: GridCell,
    i: int,
    j: int,
)
    requires
        par.len() == cs.len(),
        which.len() == cs.len(),
        0 <= i < cs.len(),
        laid_out_upto(t, cs, par, which, i),
        forall|k: int| #![trigger par[k]] 1 <= k < cs.len() ==> par[k] < i || (par[k] == i && which[k] < j),
        forall|jj: int|
            0 <= jj < j && t.rooms@[t.kids(cs[i].room_id as int)[jj] as int].direction is Some
                ==> #[trigger] child_laid(cs, par, which, i, jj) || child_blocked(t, cs, par, which, i, jj),
    ensures
        laid_out_upto(t, cs.push(c), par.push(i), which.push(j), i),
        forall|jj: int|
            0 <= jj <= j && t.rooms@[t.kids(cs[i].room_id as int)[jj] as int].direction is Some
                ==> #[trigger] child_laid(cs.push(c), par.push(i), which.push(j), i, jj)
                || child_blocked(t, cs.push(c), par.push(i), which.push(j), i, jj),
{
    let cs2 = cs.push(c);
    let par2 = par.push(i);
    let which2 = which.push(j);
    assert forall|a: int, b: int| #![trigger par2[a], par2[b]] 1 <= a < b < cs2.len() implies laid_before(par2, which2, a, par2[b], which2[b]) by {
        assert(par2[a] == par[a] && which2[a] == which[a]);
        if b < cs.len() {
            assert(par2[b] == par[b] && which2[b] == which[b]);
            assert(laid_before(par, which, a, par[b], which[b]));
        } else {
            assert(par[a] < i || (par[a] == i && which[a] < j));
        }
    }
    assert forall|q: int, jj: int|
        0 <= q < i && 0 <= jj < t.kids(cs2[q].room_id as int).len() && t.rooms@[t.kids(cs2[q].room_id as int)[jj] as int].direction is Some
            implies #[trigger] child_laid(cs2, par2, which2, q, jj) || child_blocked(t, cs2, par2, which2, q, jj) by {
        assert(cs2[q] == cs[q]);
        assert(child_laid(cs, par, which, q, jj) || child_blocked(t, cs, par, which, q, jj));
        lemma_laid_or_blocked_push(t, cs, par, which, c, i, j, q, jj);
    }
    assert forall|jj: int|
        0 <= jj <= j && t.rooms@[t.kids(cs[i].room_id as int)[jj] as int].direction is Some
            implies #[trigger] child_laid(cs2, par2, which2, i, jj) || child_blocked(t, cs2, par2, which2, i, jj) by {
        if jj == j {
            let k = cs.len() as int;
            assert(par2[k] == i && which2[k] == j);
        } else {
            assert(child_laid(cs, par, which, i, jj) || child_blocked(t, cs, par, which, i, jj));
            lemma_laid_or_blocked_push(t, cs, par, which, c, i, j, i, jj);
        }
    }
}

/// A child whose target is taken by some cell is blocked: every cell so
/// far was laid out before it came up.
proof fn lemma_blocked(t: DungeonTree, cs: Seq<GridCell>, par: Seq<int>, which: Seq<int>, i: int, j: int)
    requires
        par.len() == cs.len(),
        which.len() == cs.len(),
        0 <= i < cs.len(),
        forall|k: int| #![trigger par[k]] 1 <= k < cs.len() ==> par[k] < i || (par[k] == i && which[k] < j),
        cells_occupied(cs, child_target(t, cs[i].pos, cs[i].room_id as int, t.kids(cs[i].room_id as int)[j] as int)),
    ensures
        child_blocked(t, cs, par, which, i, j),
{
    let target = child_target(t, cs[i].pos, cs[i].room_id as int, t.kids(cs[i].room_id as int)[j] as int);
    let a = choose|a: int| 0 <= a < cs.len() && (#[trigger] cs[a]).pos.0 == target.0 && cs[a].pos.1 == target.1;
    if a >= 1 {
        assert(par[a] < i || (par[a] == i && which[a] < j));
    }
    assert(laid_before(par, which, a, i, j));
}

proof fn lemma_placed_push(cs: Seq<GridCell>, c: GridCell, x: usize)
    requires
        cells_placed(cs, x),
    ensures
        cells_placed(cs.push(c), x),
{
    let w = choose|w: int| 0 <= w < cs.len() && #[trigger] cs[w].room_id == x;
    assert(cs.push(c)[w] == cs[w]);
}

proof fn lemma_occupied_push(cs: Seq<GridCell>, c: GridCell, p: (int, int))
    requires
        cells_occupied(cs, p),
    ensures
        cells_occupied(cs.push(c), p),
{
    let w = choose|w: int| 0 <= w < cs.len() && (#[trigger] cs[w]).pos.0 == p.0 && cs[w].pos.1 == p.1;
    assert(cs.push(c)[w] == cs[w]);
}

proof fn lemma_complete_push(t: DungeonTree, cs: Seq<GridCell>, i: int, c: GridCell)
    requires
        complete_upto(t, cs, i),
        i <= cs.len(),
    ensures
        complete_upto(t, cs.push(c), i),
{
    let cs2 = cs.push(c);
    assert forall|q: int, j: int|
        0 <= q < i && 0 <= j < t.kids(cs2[q].room_id as int).len()
            && t.rooms@[t.kids(cs2[q].room_id as int)[j] as int].direction is Some
            implies cells_placed(cs2, #[trigger] t.kids(cs2[q].room_id as int)[j])
            || cells_occupied(cs2, child_target(t, cs2[q].pos, cs2[q].room_id as int, t.kids(cs2[q].room_id as int)[j] as int)) by {
        assert(cs2[q] == cs[q]);
        let x = t.kids(cs[q].room_id as int)[j];
        if cells_placed(cs, x) {
            lemma_placed_push(cs, c, x);
        } else {
            lemma_occupied_push(cs, c, child_target(t, cs[q].pos, cs[q].room_id as int, x as int));
        }
    }
}

/// Is position `p` taken by one of the cells?
fn cell_taken(cells: &Vec<GridCell>, p: (i32, i32)) -> (r: bool)
    ensures
        r == cells_occupied(cells@, (p.0 as int, p.1 as int)),
{
    let mut k: usize = 0;
    while k < cells.len()
        invariant
            k <= cells@.len(),
            forall|j: int| 0 <= j < k ==> !((#[trigger] cells@[j]).pos.0 == p.0 && cells@[j].pos.1 == p.1),
        decreases cells@.len() - k,
    {
        if cells[k].pos.0 == p.0 && cells[k].pos.1 == p.1 {
            return true;
        }
        k = k + 1;
    }
    false
}

/// A child that is about to be laid out is not yet in the cells.
proof fn lemma_child_fresh(t: DungeonTree, cs: Seq<GridCell>, par: Seq<int>, which: Seq<int>, i: int, j: int)
    requires
        t.wf(),
        basic_cells(t, cs),
        parents_ok(t, cs, par, which),
        0 <= i < cs.len(),
        0 <= j < t.kids(cs[i].room_id as int).len(),
        forall|k: int| #![trigger par[k]] 1 <= k < cs.len() ==> par[k] < i || (par[k] == i && which[k] < j),
    ensures
        !cells_placed(cs, t.kids(cs[i].room_id as int)[j]),
{
    let p = cs[i].room_id;
    let c = t.kids(p as int)[j];
    assert(t.is_child(p as int, c as int));
    lemma_parent_unique(t, p as int, c as int);
    if cells_placed(cs, c) {
        let k = choose|k: int| 0 <= k < cs.len() && #[trigger] cs[k].room_id == c;
        if k == 0 {
        } else {
            let q = par[k];
            assert(t.kids(cs[q].room_id as int)[which[k]] == c);
            assert(t.is_child(cs[q].room_id as int, c as int));
            lemma_parent_unique(t, cs[q].room_id as int, c as int);
            assert(cs[q].room_id == cs[i].room_id);
            assert(q == i);
            assert(t.kids(p as int)[which[k]] == t.kids(p as int)[j]);
        }
    }
}

impl DungeonGrid {
    /// Decode a [`DungeonTree`] into a grid, skipping overlapping nodes.
    ///
    /// The root is placed at `(0, 0)`; each child, visited breadth-first,
    /// goes one step from its parent along its direction rotated so that the
    /// parent stays north of it; a child whose cell is taken is discarded.
    pub fn from_tree(tree: &DungeonTree) -> (g: Self)
        requires
            tree.wf(),
            tree.n() <= 0x7fff_ffff,
        ensures
            g.wf(),
            g.decodes(*tree),
            exists|par: Seq<int>, which: Seq<int>|
                #![trigger laid_out_upto(*tree, g.cells@, par, which, g.ncells())]
                parents_ok(*tree, g.cells@, par, which) && laid_out_upto(*tree, g.cells@, par, which, g.ncells()),
    {
        let mut cells: Vec<GridCell> = Vec::new();
        cells.push(GridCell { room_id: tree.root, pos: (0, 0) });
        let ghost mut par: Seq<int> = seq![0int];
        let ghost mut which: Seq<int> = seq![0int];
        let mut i: usize = 0;
        while i < cells.len()
            invariant
                tree.wf(),
                tree.n() <= 0x7fff_ffff,
                i <= cells@.len(),
                basic_cells(*tree, cells@),
                parents_ok(*tree, cells@, par, which),
                forall|k: int| #![trigger par[k]] 1 <= k < cells@.len() ==> par[k] < i,
                complete_upto(*tree, cells@, i as int),
                laid_out_upto(*tree, cells@, par, which, i as int),
            decreases tree.n() - i,
        {
            let parent_id = cells[i].room_id;
            let parent_pos = cells[i].pos;
            let parent_dir = tree.rooms[parent_id].direction;
            let nk = tree.rooms[parent_id].children.len();
            let ghost before = cells@;
            let mut j: usize = 0;
            while j < nk
                invariant
                    tree.wf(),
                    tree.n() <= 0x7fff_ffff,
                    i < before.len(),
                    before.len() <= cells@.len(),
                    cells@[i as int] == before[i as int],
                    parent_id == before[i as int].room_id,
                    parent_pos == before[i as int].pos,
                    parent_dir == tree.rooms@[parent_id as int].direction,
                    nk == tree.kids(parent_id as int).len(),
                    j <= nk,
                    basic_cells(*tree, cells@),
                    parents_ok(*tree, cells@, par, which),
                    forall|k: int| #![trigger par[k]] 1 <= k < cells@.len() ==> par[k] < i || (par[k] == i && which[k] < j),
                    complete_upto(*tree, cells@, i as int),
                    laid_out_upto(*tree, cells@, par, which, i as int),
                    forall|jj: int|
                        0 <= jj < j && tree.rooms@[tree.kids(parent_id as int)[jj] as int].direction is Some
                            ==> #[trigger] child_laid(cells@, par, which, i as int, jj) || child_blocked(*tree, cells@, par, which, i as int, jj),
                    forall|jj: int|
                        0 <= jj < j && tree.rooms@[tree.kids(parent_id as int)[jj] as int].direction is Some
                            ==> cells_placed(cells@, #[trigger] tree.kids(parent_id as int)[jj])
                            || cells_occupied(cells@, child_target(*tree, parent_pos, parent_id as int, tree.kids(parent_id as int)[jj] as int)),
                decreases nk - j,
            {
                let child_id = tree.rooms[parent_id].children[j];
                proof {
                    assert(tree.kids(parent_id as int)[j as int] == child_id);
                    assert(manhattan(parent_pos) <= i);
                    lemma_child_fresh(*tree, cells@, par, which, i as int, j as int);
                }
                let ghost pre = cells@;
                match tree.rooms[child_id].direction {
                    None => {},
                    Some(child_dir) => {
                        let effective_dir = match parent_dir {
                            Some(pd) => child_dir.rotate_for_parent(pd),
                            None => child_dir,
                        };
                        let (dx, dy) = effective_dir.offset();
                        let child_pos = (parent_pos.0 + dx, parent_pos.1 + dy);
                        if !cell_taken(&cells, child_pos) {
                            let cell = GridCell { room_id: child_id, pos: child_pos };
                            proof {
                                let ids = pre.map_values(|c: GridCell| c.room_id);
                                assert forall|a: int, b: int| 0 <= a < ids.len() && 0 <= b < ids.len() && a != b implies ids[a] != ids[b] by {
                                    assert(pre[a].room_id != pre[b].room_id);
                                }
                                assert forall|a: int| 0 <= a < ids.len() implies (#[trigger] ids[a]) < tree.n() by {
                                    assert(pre[a].room_id < tree.n());
                                }
                                lemma_distinct_below(ids, tree.n() as nat);
                                assert(tree.is_child(parent_id as int, child_id as int));
                                lemma_parent_unique(*tree, parent_id as int, child_id as int);
                                assert(ids.len() < tree.n()) by {
                                    if ids.len() == tree.n() {
                                        // every room already has a cell, including the child
                                        let ids2 = ids.push(child_id);
                                        assert forall|a: int, b: int| 0 <= a < ids2.len() && 0 <= b < ids2.len() && a != b implies ids2[a] != ids2[b] by {
                                            if a == ids.len() {
                                                assert(pre[b].room_id != child_id);
                                            } else if b == ids.len() {
                                                assert(pre[a].room_id != child_id);
                                            } else {
                                                assert(pre[a].room_id != pre[b].room_id);
                                            }
                                        }
                                        assert forall|a: int| 0 <= a < ids2.len() implies (#[trigger] ids2[a]) < tree.n() by {
                                            if a < ids.len() {
                                                assert(pre[a].room_id < tree.n());
                                            }
                                        }
                                        lemma_distinct_below(ids2, tree.n() as nat);
                                    }
                                }
                            }
                            proof {
                                assert(pre[i as int] == before[i as int]);
                                lemma_laid_push(*tree, pre, par, which, cell, i as int, j as int);
                            }
                            cells.push(cell);
                            proof {
                                par = par.push(i as int);
                                which = which.push(j as int);
                                let cs = cells@;
                                assert(cs == pre.push(cell));
                                assert forall|k: int| 0 <= k < cs.len() implies manhattan((#[trigger] cs[k]).pos) <= k by {
                                    if k < pre.len() { assert(cs[k] == pre[k]); }
                                }
                                assert forall|k: int| 0 <= k < cs.len() implies (#[trigger] cs[k]).room_id < tree.n() by {
                                    if k < pre.len() { assert(cs[k] == pre[k]); }
                                }
                                assert forall|a: int, b: int| 0 <= a < cs.len() && 0 <= b < cs.len() && a != b implies (#[trigger] cs[a]).pos != (#[trigger] cs[b]).pos by {
                                    if a < pre.len() && b < pre.len() {
                                        assert(cs[a] == pre[a] && cs[b] == pre[b]);
                                    } else if a < pre.len() {
                                        assert(cs[a] == pre[a]);
                                    } else if b < pre.len() {
                                        assert(cs[b] == pre[b]);
                                    }
                                }
                                assert forall|a: int, b: int| 0 <= a < cs.len() && 0 <= b < cs.len() && a != b implies (#[trigger] cs[a]).room_id != (#[trigger] cs[b]).room_id by {
                                    if a < pre.len() && b < pre.len() {
                                        assert(cs[a] == pre[a] && cs[b] == pre[b]);
                                    } else if a < pre.len() {
                                        assert(cs[a] == pre[a]);
                                    } else if b < pre.len() {
                                        assert(cs[b] == pre[b]);
                                    }
                                }
                                assert(basic_cells(*tree, cs));
                                assert forall|k: int| #![trigger par[k]] 1 <= k < cs.len() implies {
                                    &&& 0 <= par[k] < k
                                    &&& 0 <= which[k] < tree.kids(cs[par[k]].room_id as int).len()
                                    &&& tree.kids(cs[par[k]].room_id as int)[which[k]] == cs[k].room_id
                                    &&& tree.rooms@[cs[k].room_id as int].direction is Some
                                    &&& child_target(*tree, cs[par[k]].pos, cs[par[k]].room_id as int, cs[k].room_id as int)
                                        == (cs[k].pos.0 as int, cs[k].pos.1 as int)
                                } by {
                                    if k < pre.len() {
                                        assert(cs[k] == pre[k]);
                                        assert(cs[par[k]] == pre[par[k]]);
                                    } else {
                                        assert(cs[par[k]] == before[i as int]);
                                    }
                                }
                                assert(parents_ok(*tree, cs, par, which));
                                lemma_complete_push(*tree, pre, i as int, cell);
                                assert forall|jj: int|
                                    0 <= jj < j + 1 && tree.rooms@[tree.kids(parent_id as int)[jj] as int].direction is Some
                                        implies cells_placed(cs, #[trigger] tree.kids(parent_id as int)[jj])
                                        || cells_occupied(cs, child_target(*tree, parent_pos, parent_id as int, tree.kids(parent_id as int)[jj] as int)) by {
                                    let x = tree.kids(parent_id as int)[jj];
                                    if jj == j {
                                        assert(cs[cs.len() - 1].room_id == x);
                                    } else if cells_placed(pre, x) {
                                        lemma_placed_push(pre, cell, x);
                                    } else {
                                        lemma_occupied_push(pre, cell, child_target(*tree, parent_pos, parent_id as int, x as int));
                                    }
                                }
                            }
                        } else {
                            proof {
                                assert(pre[i as int] == before[i as int]);
                                assert(cells_occupied(pre, child_target(*tree, pre[i as int].pos, pre[i as int].room_id as int, tree.kids(pre[i as int].room_id as int)[j as int] as int)));
                                lemma_blocked(*tree, pre, par, which, i as int, j as int);
                            }
                        }
                    },
                }
                j = j + 1;
            }
            proof {
                assert forall|q: int, jj: int|
                    0 <= q < i + 1 && 0 <= jj < tree.kids(cells@[q].room_id as int).len()
                        && tree.rooms@[tree.kids(cells@[q].room_id as int)[jj] as int].direction is Some
                        implies cells_placed(cells@, #[trigger] tree.kids(cells@[q].room_id as int)[jj])
                        || cells_occupied(cells@, child_target(*tree, cells@[q].pos, cells@[q].room_id as int, tree.kids(cells@[q].room_id as int)[jj] as int)) by {
                    if q == i {
                        assert(cells@[q] == before[i as int]);
                    }
                }
                assert forall|q: int, jj: int|
                    0 <= q < i + 1 && 0 <= jj < tree.kids(cells@[q].room_id as int).len()
                        && tree.rooms@[tree.kids(cells@[q].room_id as int)[jj] as int].direction is Some
                        implies #[trigger] child_laid(cells@, par, which, q, jj) || child_blocked(*tree, cells@, par, which, q, jj) by {
                    if q == i {
                        assert(cells@[q] == before[i as int]);
                    }
                }
            }
            i = i + 1;
        }
        let (min_x, max_x, min_y, max_y) = bounding_box(&cells);
        let ghost cs = cells@;
        let ghost w1 = choose|j: int| 0 <= j < cs.len() && (#[trigger] cs[j]).pos.0 == min_x;
        let ghost w2 = choose|j: int| 0 <= j < cs.len() && (#[trigger] cs[j]).pos.0 == max_x;
        let ghost w3 = choose|j: int| 0 <= j < cs.len() && (#[trigger] cs[j]).pos.1 == min_y;
        let ghost w4 = choose|j: int| 0 <= j < cs.len() && (#[trigger] cs[j]).pos.1 == max_y;
        let g = DungeonGrid { cells, min_x, max_x, min_y, max_y };
        proof {
            assert(g.cells@[w1].pos.0 == g.min_x);
            assert(g.cells@[w2].pos.0 == g.max_x);
            assert(g.cells@[w3].pos.1 == g.min_y);
            assert(g.cells@[w4].pos.1 == g.max_y);
            lemma_grid_from_cells(*tree, g);
            lemma_grid_decodes(*tree, g, par, which);
            assert(parents_ok(*tree, g.cells@, par, which) && laid_out_upto(*tree, g.cells@, par, which, g.ncells()));
        }
        g
    }
}

/// The bounding box of a non-empty list of cells whose first cell is the
/// origin.
fn bounding_box(cells: &Vec<GridCell>) -> (r: (i32, i32, i32, i32))
    requires
        cells@.len() > 0,
        cells@[0].pos == (0i32, 0i32),
    ensures
        forall|j: int| 0 <= j < cells@.len() ==> r.0 <= (#[trigger] cells@[j]).pos.0 <= r.1 && r.2 <= cells@[j].pos.1 <= r.3,
        exists|j: int| 0 <= j < cells@.len() && (#[trigger] cells@[j]).pos.0 == r.0,
        exists|j: int| 0 <= j < cells@.len() && (#[trigger] cells@[j]).pos.0 == r.1,
        exists|j: int| 0 <= j < cells@.len() && (#[trigger] cells@[j]).pos.1 == r.2,
        exists|j: int| 0 <= j < cells@.len() && (#[trigger] cells@[j]).pos.1 == r.3,
{
    let mut min_x: i32 = 0;
    let mut max_x: i32 = 0;
    let mut min_y: i32 = 0;
    let mut max_y: i32 = 0;
    let mut k: usize = 1;
    proof {
        assert(cells@[0].pos.0 == 0);
    }
    while k < cells.len()
        invariant
            1 <= k <= cells@.len(),
            forall|j: int| 0 <= j < k ==> min_x <= (#[trigger] cells@[j]).pos.0 <= max_x && min_y <= cells@[j].pos.1 <= max_y,
            exists|j: int| 0 <= j < k && (#[trigger] cells@[j]).pos.0 == min_x,
            exists|j: int| 0 <= j < k && (#[trigger] cells@[j]).pos.0 == max_x,
            exists|j: int| 0 <= j < k && (#[trigger] cells@[j]).pos.1 == min_y,
            exists|j: int| 0 <= j < k && (#[trigger] cells@[j]).pos.1 == max_y,
        decreases cells@.len() - k,
    {
        let (x, y) = cells[k].pos;
        if x < min_x {
            min_x = x;
        }
        if x > max_x {
            max_x = x;
        }
        if y < min_y {
            min_y = y;
        }
        if y > max_y {
            max_y = y;
        }
        k = k + 1;
    }
    (min_x, max_x, min_y, max_y)
}

#[verifier::spinoff_prover]
proof fn lemma_grid_from_cells(t: DungeonTree, g: DungeonGrid)
    requires
        t.wf(),
        t.n() <= 0x7fff_ffff,
        basic_cells(t, g.cells@),
        forall|j: int| 0 <= j < g.ncells() ==> g.min_x <= (#[trigger] g.cells@[j]).pos.0 <= g.max_x && g.min_y <= g.cells@[j].pos.1 <= g.max_y,
        exists|j: int| 0 <= j < g.ncells() && (#[trigger] g.cells@[j]).pos.0 == g.min_x,
        exists|j: int| 0 <= j < g.ncells() && (#[trigger] g.cells@[j]).pos.0 == g.max_x,
        exists|j: int| 0 <= j < g.ncells() && (#[trigger] g.cells@[j]).pos.1 == g.min_y,
        exists|j: int| 0 <= j < g.ncells() && (#[trigger] g.cells@[j]).pos.1 == g.max_y,
    ensures
        g.wf(),
{
    let cs = g.cells@;
    assert forall|kk: int| 0 <= kk < g.ncells() implies manhattan(#[trigger] g.pos_at(kk)) <= kk by {
        assert(g.pos_at(kk) == cs[kk].pos);
    }
    assert forall|a: int, b: int| 0 <= a < g.ncells() && 0 <= b < g.ncells() && a != b implies #[trigger] g.pos_at(a) != #[trigger] g.pos_at(b) by {
        assert(cs[a].pos != cs[b].pos);
    }
    assert forall|a: int, b: int| 0 <= a < g.ncells() && 0 <= b < g.ncells() && a != b implies #[trigger] g.id_at(a) != #[trigger] g.id_at(b) by {
        assert(cs[a].room_id != cs[b].room_id);
    }
    assert forall|kk: int| 0 <= kk < g.ncells() implies g.min_x <= (#[trigger] g.pos_at(kk)).0 <= g.max_x && g.min_y <= g.pos_at(kk).1 <= g.max_y by {
        assert(g.pos_at(kk) == cs[kk].pos);
    }
    let w1 = choose|j: int| 0 <= j < g.ncells() && (#[trigger] cs[j]).pos.0 == g.min_x;
    assert(g.pos_at(w1).0 == g.min_x);
    let w2 = choose|j: int| 0 <= j < g.ncells() && (#[trigger] cs[j]).pos.0 == g.max_x;
    assert(g.pos_at(w2).0 == g.max_x);
    let w3 = choose|j: int| 0 <= j < g.ncells() && (#[trigger] cs[j]).pos.1 == g.min_y;
    assert(g.pos_at(w3).1 == g.min_y);
    let w4 = choose|j: int| 0 <= j < g.ncells() && (#[trigger] cs[j]).pos.1 == g.max_y;
    assert(g.pos_at(w4).1 == g.max_y);
    assert(g.wf());
}

#[verifier::spinoff_prover]
proof fn lemma_grid_decodes(t: DungeonTree, g: DungeonGrid, par: Seq<int>, which: Seq<int>)
    requires
        g.ncells() > 0,
        g.cells@[0].room_id == t.root,
        forall|k: int| 0 <= k < g.ncells() ==> (#[trigger] g.cells@[k]).room_id < t.n(),
        parents_ok(t, g.cells@, par, which),
        complete_upto(t, g.cells@, g.ncells()),
    ensures
        g.decodes(t),
{
    let cs = g.cells@;
    assert forall|kk: int| 0 <= kk < g.ncells() implies (#[trigger] g.id_at(kk)) < t.n() by {
        assert(cs[kk].room_id < t.n());
    }
    lemma_grid_decodes_parents(t, g, par, which);
    lemma_grid_decodes_complete(t, g);
}

#[verifier::spinoff_prover]
proof fn lemma_grid_decodes_parents(t: DungeonTree, g: DungeonGrid, par: Seq<int>, which: Seq<int>)
    requires
        parents_ok(t, g.cells@, par, which),
        forall|k: int| 0 <= k < g.ncells() ==> (#[trigger] g.cells@[k]).room_id < t.n(),
    ensures
        forall|k: int| 0 < k < g.ncells() ==> #[trigger] g.has_source(t, k),
{
    let cs = g.cells@;
    assert forall|kk: int| 0 < kk < g.ncells() implies #[trigger] g.has_source(t, kk) by {
        let q = par[kk];
        assert(t.kids(cs[q].room_id as int)[which[kk]] == cs[kk].room_id);
        assert(t.is_child(g.id_at(q) as int, g.id_at(kk) as int));
        assert(g.laid_out_from(t, kk, q));
    }
}

#[verifier::spinoff_prover]
proof fn lemma_grid_decodes_complete(t: DungeonTree, g: DungeonGrid)
    requires
        complete_upto(t, g.cells@, g.ncells()),
    ensures
        forall|q: int, j: int|
            0 <= q < g.ncells() && 0 <= j < t.kids(g.id_at(q) as int).len() && t.rooms@[t.kids(g.id_at(q) as int)[j] as int].direction is Some
                ==> g.placed(#[trigger] t.kids(g.id_at(q) as int)[j]) || g.occupied(step(g.pos_at(q), direction_offset(effective_direction(t, g.id_at(q) as int, t.kids(g.id_at(q) as int)[j] as int)))),
{
    let cs = g.cells@;
    assert forall|q: int, j: int|
        0 <= q < g.ncells() && 0 <= j < t.kids(g.id_at(q) as int).len() && t.rooms@[t.kids(g.id_at(q) as int)[j] as int].direction is Some
        implies g.placed(#[trigger] t.kids(g.id_at(q) as int)[j]) || g.occupied(step(g.pos_at(q), direction_offset(effective_direction(t, g.id_at(q) as int, t.kids(g.id_at(q) as int)[j] as int)))) by {
        let x = t.kids(cs[q].room_id as int)[j];
        if cells_placed(cs, x) {
            let w = choose|w: int| 0 <= w < cs.len() && #[trigger] cs[w].room_id == x;
            assert(g.id_at(w) == x);
        } else {
            let tp = child_target(t, cs[q].pos, cs[q].room_id as int, x as int);
            let w = choose|w: int| 0 <= w < cs.len() && (#[trigger] cs[w]).pos.0 == tp.0 && cs[w].pos.1 == tp.1;
            assert(g.pos_at(w) == cs[w].pos);
        }
    }
}


impl DungeonGrid {
    /// The room on position `p`, if any.
    pub open spec fn room_on(self, p: (int, int)) -> Option<usize> {
        if self.occupied(p) {
            Some(self.id_at(choose|k: int| 0 <= k < self.ncells() && (#[trigger] self.pos_at(k)).0 == p.0 && self.pos_at(k).1 == p.1))
        } else {
            None
        }
    }

    /// The position of room `id`, if placed.
    pub open spec fn pos_of_room(self, id: usize) -> Option<(i32, i32)> {
        if self.placed(id) {
            Some(self.pos_at(self.index_of(id)))
        } else {
            None
        }
    }

    /// Rooms on the four cells next to `p`, in the order east, west, south, north.
    pub open spec fn neighbours_of_pos(self, p: (i32, i32)) -> Seq<usize> {
        let e = self.room_on((p.0 + 1, p.1 as int));
        let w = self.room_on((p.0 - 1, p.1 as int));
        let s = self.room_on((p.0 as int, p.1 + 1));
        let n = self.room_on((p.0 as int, p.1 - 1));
        (if e is Some { seq![e.unwrap()] } else { Seq::<usize>::empty() })
            + (if w is Some { seq![w.unwrap()] } else { Seq::<usize>::empty() })
            + (if s is Some { seq![s.unwrap()] } else { Seq::<usize>::empty() })
            + (if n is Some { seq![n.unwrap()] } else { Seq::<usize>::empty() })
    }

    /// The rooms next to room `id` on the grid.
    pub open spec fn neighbours_of(self, id: usize) -> Seq<usize> {
        match self.pos_of_room(id) {
            Some(p) => self.neighbours_of_pos(p),
            None => Seq::<usize>::empty(),
        }
    }

    /// Look up the room on `p`.
    pub fn room_at(&self, p: (i32, i32)) -> (r: Option<usize>)
        requires
            self.wf(),
        ensures
            r == self.room_on((p.0 as int, p.1 as int)),
    {
        let mut k: usize = 0;
        while k < self.cells.len()
            invariant
                self.wf(),
                k <= self.ncells(),
                forall|j: int| 0 <= j < k ==> !((#[trigger] self.pos_at(j)).0 == p.0 && self.pos_at(j).1 == p.1),
            decreases self.ncells() - k,
        {
            if self.cells[k].pos.0 == p.0 && self.cells[k].pos.1 == p.1 {
                proof {
                    assert(self.pos_at(k as int) == p);
                    assert(self.occupied((p.0 as int, p.1 as int)));
                    let c = choose|c: int| 0 <= c < self.ncells() && (#[trigger] self.pos_at(c)).0 == p.0 && self.pos_at(c).1 == p.1;
                    if c != k {
                        assert(self.pos_at(c) == self.pos_at(k as int));
                    }
                }
                return Some(self.cells[k].room_id);
            }
            k = k + 1;
        }
        None
    }

    /// Position of `room_id` in the grid, if it was placed.
    pub fn pos_of(&self, room_id: usize) -> (r: Option<(i32, i32)>)
        requires
            self.wf(),
        ensures
            r == self.pos_of_room(room_id),
    {
        let mut k: usize = 0;
        while k < self.cells.len()
            invariant
                self.wf(),
                k <= self.ncells(),
                forall|j: int| 0 <= j < k ==> #[trigger] self.id_at(j) != room_id,
            decreases self.ncells() - k,
        {
            if self.cells[k].room_id == room_id {
                proof {
                    assert(self.id_at(k as int) == room_id);
                    let c = self.index_of(room_id);
                    if c != k {
                        assert(self.id_at(c) == self.id_at(k as int));
                    }
                }
                return Some(self.cells[k].pos);
            }
            k = k + 1;
        }
        None
    }

    /// IDs of all placed (non-overlapping) rooms, in placement order.
    pub fn placed_room_ids(&self) -> (r: Vec<usize>)
        ensures
            r@.len() == self.ncells(),
            forall|k: int| 0 <= k < self.ncells() ==> #[trigger] r@[k] == self.id_at(k),
    {
        let mut r: Vec<usize> = Vec::new();
        let mut k: usize = 0;
        while k < self.cells.len()
            invariant
                k <= self.ncells(),
                r@.len() == k,
                forall|j: int| 0 <= j < k ==> #[trigger] r@[j] == self.id_at(j),
            decreases self.ncells() - k,
        {
            r.push(self.cells[k].room_id);
            k = k + 1;
        }
        r
    }

    /// Neighbours of `room_id` (rooms in adjacent cardinal cells), in the
    /// order east, west, south, north.
    pub fn neighbours(&self, room_id: usize) -> (r: Vec<usize>)
        requires
            self.wf(),
        ensures
            r@ == self.neighbours_of(room_id),
    {
        let pos = match self.pos_of(room_id) {
            Some(p) => p,
            None => {
                return Vec::new();
            },
        };
        proof {
            let k = self.index_of(room_id);
            assert(manhattan(self.pos_at(k)) <= k);
        }
        let mut r: Vec<usize> = Vec::new();
        let e = self.room_at((pos.0 + 1, pos.1));
        if let Some(id) = e {
            r.push(id);
        }
        let w = self.room_at((pos.0 - 1, pos.1));
        if let Some(id) = w {
            r.push(id);
        }
        let s = self.room_at((pos.0, pos.1 + 1));
        if let Some(id) = s {
            r.push(id);
        }
        let n = self.room_at((pos.0, pos.1 - 1));
        if let Some(id) = n {
            r.push(id);
        }
        proof {
            assert(r@ =~= self.neighbours_of_pos(pos));
        }
        r
    }

    /// Width of the bounding box (in rooms).
    pub fn width(&self) -> (r: i32)
        requires
            self.max_x - self.min_x + 1 <= i32::MAX,
            self.min_x <= self.max_x,
        ensures
            r == self.max_x - self.min_x + 1,
    {
        self.max_x - self.min_x + 1
    }

    /// Height of the bounding box (in rooms).
    pub fn height(&self) -> (r: i32)
        requires
            self.max_y - self.min_y + 1 <= i32::MAX,
            self.min_y <= self.max_y,
        ensures
            r == self.max_y - self.min_y + 1,
    {
        self.max_y - self.min_y + 1
    }

    /// Is room `id` placed?
    pub fn is_placed(&self, id: usize) -> (r: bool)
        ensures
            r == self.placed(id),
    {
        let mut k: usize = 0;
        while k < self.cells.len()
            invariant
                k <= self.ncells(),
                forall|j: int| 0 <= j < k ==> #[trigger] self.id_at(j) != id,
            decreases self.ncells() - k,
        {
            if self.cells[k].room_id == id {
                proof {
                    assert(self.id_at(k as int) == id);
                }
                return true;
            }
            k = k + 1;
        }
        false
    }

    /// Number of placed rooms in the subtree rooted at `node_id`.
    pub fn rooms_in_subtree(&self, node_id: usize, tree: &DungeonTree) -> (r: usize)
        requires
            self.wf(),
            tree.wf(),
            node_id < tree.n(),
        ensures
            r == tree.subtree_set(node_id as int).filter(|x: usize| self.placed(x)).len(),
            r <= tree.subtree_set(node_id as int).len(),
            r <= self.ncells(),
    {
        let ids = tree.subtree_ids(node_id);
        let ghost f = |x: usize| self.placed(x);
        let mut count: usize = 0;
        let mut i: usize = 0;
        while i < ids.len()
            invariant
                self.wf(),
                i <= ids@.len(),
                f == (|x: usize| self.placed(x)),
                count == crate::tree::count_ids(ids@.take(i as int), f),
                count <= i,
            decreases ids@.len() - i,
        {
            proof {
                assert(ids@.take(i as int + 1).drop_last() =~= ids@.take(i as int));
            }
            if self.is_placed(ids[i]) {
                count = count + 1;
            }
            i = i + 1;
        }
        proof {
            assert(ids@.take(ids@.len() as int) =~= ids@);
            crate::tree::lemma_count_ids_set(ids@, f);
            ids@.unique_seq_to_set();
            let cells = Seq::new(self.ncells() as nat, |k: int| self.id_at(k));
            assert(cells.no_duplicates()) by {
                assert forall|a: int, b: int| 0 <= a < cells.len() && 0 <= b < cells.len() && a != b implies cells[a] != cells[b] by {
                    assert(self.id_at(a) != self.id_at(b));
                }
            }
            cells.unique_seq_to_set();
            let fs = tree.subtree_set(node_id as int).filter(f);
            assert(fs.subset_of(cells.to_set())) by {
                assert forall|x: usize| fs.contains(x) implies cells.to_set().contains(x) by {
                    let k = choose|k: int| 0 <= k < self.ncells() && #[trigger] self.id_at(k) == x;
                    assert(cells[k] == x);
                }
            }
            vstd::set_lib::lemma_len_subset(fs, cells.to_set());
        }
        count
    }
}

/// Every room a decoded grid places lies in the tree below the root: a
/// cell is only laid out from the cell of its parent, so rooms cut off
/// from the root, or without a direction, are never placed.
pub proof fn lemma_placed_below_root(g: DungeonGrid, t: DungeonTree)
    requires
        t.wf(),
        g.decodes(t),
    ensures
        forall|x: usize| #[trigger] g.placed(x) ==> t.subtree_set(t.root as int).contains(x),
        forall|x: usize| #[trigger] g.placed(x) && x != t.root ==> t.has_parent(x as int)
            && t.rooms@[x as int].direction is Some,
{
    assert forall|x: usize| #[trigger] g.placed(x) implies t.subtree_set(t.root as int).contains(x) by {
        let k = choose|k: int| 0 <= k < g.ncells() && #[trigger] g.id_at(k) == x;
        lemma_cell_below_root(g, t, k);
    }
    assert forall|x: usize| #[trigger] g.placed(x) && x != t.root implies t.has_parent(x as int)
        && t.rooms@[x as int].direction is Some by {
        let k = choose|k: int| 0 <= k < g.ncells() && #[trigger] g.id_at(k) == x;
        assert(k != 0);
        assert(g.has_source(t, k));
        let q = choose|q: int| 0 <= q < k && #[trigger] g.laid_out_from(t, k, q);
        assert(t.is_child(g.id_at(q) as int, x as int));
    }
}

/// The room of cell `k` of a decoded grid lies below the root.
proof fn lemma_cell_below_root(g: DungeonGrid, t: DungeonTree, k: int)
    requires
        t.wf(),
        g.decodes(t),
        0 <= k < g.ncells(),
    ensures
        t.is_ancestor(t.root as int, g.id_at(k) as int),
    decreases k,
{
    if k > 0 {
        assert(g.has_source(t, k));
        let q = choose|q: int| 0 <= q < k && #[trigger] g.laid_out_from(t, k, q);
        lemma_cell_below_root(g, t, q);
        lemma_parent_unique(t, g.id_at(q) as int, g.id_at(k) as int);
    }
}

/// The root of a decoded grid sits at the origin.
pub proof fn lemma_root_at_origin(g: DungeonGrid, t: DungeonTree)
    requires
        g.wf(),
        g.decodes(t),
    ensures
        g.pos_of_room(t.root) == Some((0i32, 0i32)),
{
    assert(g.id_at(0) == t.root);
    let c = g.index_of(t.root);
    if c != 0 {
        assert(g.id_at(c) == g.id_at(0));
    }
}


/// The glyph of room `id` on the map: `S` for the root, else by kind:
/// `.` normal, `K` key, `L` locked, `W` switch, `D` switch door.
pub open spec fn room_glyph(tree: DungeonTree, id: usize) -> u8 {
    if id == tree.root {
        83u8
    } else {
        match tree.rooms@[id as int].kind {
            RoomKind::Normal => 46u8,
            RoomKind::Key { .. } => 75u8,
            RoomKind::Locked { .. } => 76u8,
            RoomKind::Switch => 87u8,
            RoomKind::SwitchDoor => 68u8,
        }
    }
}

fn room_glyph_exec(tree: &DungeonTree, id: usize) -> (r: u8)
    requires
        id < tree.n(),
    ensures
        r == room_glyph(*tree, id),
        is_glyph(r),
{
    if id == tree.root {
        83
    } else {
        match tree.rooms[id].kind {
            RoomKind::Normal => 46,
            RoomKind::Key { .. } => 75,
            RoomKind::Locked { .. } => 76,
            RoomKind::Switch => 87,
            RoomKind::SwitchDoor => 68,
        }
    }
}

impl DungeonGrid {
    /// Width of the bounding box, as a spec value.
    pub open spec fn box_width(self) -> int {
        self.max_x - self.min_x + 1
    }

    /// Height of the bounding box, as a spec value.
    pub open spec fn box_height(self) -> int {
        self.max_y - self.min_y + 1
    }

    /// The map glyph at column `c`, row `r` of the bounding box: the room
    /// there, or a blank.
    pub open spec fn map_glyph(self, tree: DungeonTree, c: int, r: int) -> u8 {
        match self.room_on((self.min_x + c, self.min_y + r)) {
            Some(id) => room_glyph(tree, id),
            None => 32u8,
        }
    }

    /// The glyphs of the bounding box, row-major.
    pub open spec fn map_canvas(self, tree: DungeonTree) -> Seq<u8> {
        Seq::new((self.box_width() * self.box_height()) as nat, |k: int| self.map_glyph(tree, k % self.box_width(), k / self.box_width()))
    }

    /// The map as text, one line per row of the bounding box: `S` spawn,
    /// `K` key room, `L` locked room, `W` switch, `D` switch door, `.`
    /// normal room, blank for no room.
    pub fn ascii_map(&self, tree: &DungeonTree) -> (r: String)
        requires
            self.wf(),
            crate::pathfinding::ids_below(*self, tree.n()),
            self.box_width() * self.box_height() <= usize::MAX,
        ensures
            r@ == render(self.box_width() as nat, self.box_height() as nat, self.map_canvas(*tree)),
    {
        proof {
            let k0 = choose|k: int| 0 <= k < self.ncells() && (#[trigger] self.pos_at(k)).0 == self.min_x;
            assert(self.min_x <= self.pos_at(k0).0 <= self.max_x);
            let k1 = choose|k: int| 0 <= k < self.ncells() && (#[trigger] self.pos_at(k)).1 == self.min_y;
            assert(self.min_y <= self.pos_at(k1).1 <= self.max_y);
            assert(self.box_width() >= 1 && self.box_height() >= 1);
            assert(self.box_width() * self.box_height() >= self.box_width()) by (nonlinear_arith)
                requires self.box_height() >= 1, self.box_width() >= 1;
            assert(self.box_width() * self.box_height() >= self.box_height()) by (nonlinear_arith)
                requires self.box_height() >= 1, self.box_width() >= 1;
        }
        let w = (self.max_x as i64 - self.min_x as i64 + 1) as usize;
        let h = (self.max_y as i64 - self.min_y as i64 + 1) as usize;
        let total = w * h;
        let mut canvas: Vec<u8> = Vec::new();
        let mut k: usize = 0;
        while k < total
            invariant
                self.wf(),
                crate::pathfinding::ids_below(*self, tree.n()),
                w == self.box_width(),
                h == self.box_height(),
                w >= 1,
                total == w * h,
                k <= total,
                canvas@.len() == k,
                forall|j: int| 0 <= j < k ==> #[trigger] canvas@[j] == self.map_glyph(*tree, j % (w as int), j / (w as int)),
                forall|j: int| 0 <= j < k ==> is_glyph(#[trigger] canvas@[j]),
            decreases total - k,
        {
            let col = k % w;
            let row = k / w;
            proof {
                assert(row < h) by (nonlinear_arith)
                    requires row == k / w, k < w * h, w >= 1;
            }
            let x = (self.min_x as i64 + col as i64) as i32;
            let y = (self.min_y as i64 + row as i64) as i32;
            let g = match self.room_at((x, y)) {
                Some(id) => {
                    proof {
                        crate::pathfinding::lemma_room_on_below(*self, tree.n(), (x as int, y as int));
                    }
                    room_glyph_exec(tree, id)
                },
                None => 32u8,
            };
            canvas.push(g);
            k = k + 1;
        }
        proof {
            assert(canvas@ =~= self.map_canvas(*tree));
        }
        render_canvas(w, h, &canvas)
    }
}

/// The room on cell `q` is `b` exactly when `b` is placed on `q`.
pub proof fn lemma_room_on_iff(g: DungeonGrid, q: (int, int), b: usize)
    requires
        g.wf(),
    ensures
        g.room_on(q) == Some(b) <==> (g.placed(b) && g.pos_of_room(b).unwrap().0 == q.0 && g.pos_of_room(b).unwrap().1 == q.1),
{
    if g.room_on(q) == Some(b) {
        let k = choose|k: int| 0 <= k < g.ncells() && (#[trigger] g.pos_at(k)).0 == q.0 && g.pos_at(k).1 == q.1;
        assert(g.id_at(k) == b);
        assert(g.placed(b));
        let k2 = g.index_of(b);
        if k2 != k {
            assert(g.id_at(k2) != g.id_at(k));
        }
    }
    if g.placed(b) && g.pos_of_room(b).unwrap().0 == q.0 && g.pos_of_room(b).unwrap().1 == q.1 {
        let k2 = g.index_of(b);
        assert(g.occupied(q));
        let k = choose|k: int| 0 <= k < g.ncells() && (#[trigger] g.pos_at(k)).0 == q.0 && g.pos_at(k).1 == q.1;
        if k != k2 {
            assert(g.pos_at(k) != g.pos_at(k2));
        }
    }
}

/// The rooms next to cell `p` are those on its four sides.
pub proof fn lemma_neighbours_pos_contains(g: DungeonGrid, p: (i32, i32), b: usize)
    ensures
        g.neighbours_of_pos(p).contains(b) <==> (g.room_on((p.0 + 1, p.1 as int)) == Some(b) || g.room_on((p.0 - 1, p.1 as int)) == Some(b)
            || g.room_on((p.0 as int, p.1 + 1)) == Some(b) || g.room_on((p.0 as int, p.1 - 1)) == Some(b)),
{
    let e = g.room_on((p.0 + 1, p.1 as int));
    let w = g.room_on((p.0 - 1, p.1 as int));
    let s = g.room_on((p.0 as int, p.1 + 1));
    let n = g.room_on((p.0 as int, p.1 - 1));
    let se = if e is Some { seq![e.unwrap()] } else { Seq::<usize>::empty() };
    let sw = if w is Some { seq![w.unwrap()] } else { Seq::<usize>::empty() };
    let ss = if s is Some { seq![s.unwrap()] } else { Seq::<usize>::empty() };
    let sn = if n is Some { seq![n.unwrap()] } else { Seq::<usize>::empty() };
    let all = se + sw + ss + sn;
    assert(g.neighbours_of_pos(p) == all);
    if all.contains(b) {
        let i = choose|i: int| 0 <= i < all.len() && all[i] == b;
        if i < se.len() {
        } else if i < se.len() + sw.len() {
            assert(all[i] == sw[i - se.len()]);
        } else if i < se.len() + sw.len() + ss.len() {
            assert(all[i] == ss[i - se.len() - sw.len()]);
        } else {
            assert(all[i] == sn[i - se.len() - sw.len() - ss.len()]);
        }
    }
    if e == Some(b) {
        assert(all[0] == b);
    } else if w == Some(b) {
        assert(all[se.len() as int] == b);
    } else if s == Some(b) {
        assert(all[(se.len() + sw.len()) as int] == b);
    } else if n == Some(b) {
        assert(all[(se.len() + sw.len() + ss.len()) as int] == b);
    }
}

/// Being next to each other on the grid goes both ways.
pub proof fn lemma_neighbours_symmetric(g: DungeonGrid, a: usize, b: usize)
    requires
        g.wf(),
    ensures
        g.neighbours_of(a).contains(b) <==> g.neighbours_of(b).contains(a),
{
    if g.neighbours_of(a).contains(b) {
        let pa = g.pos_of_room(a).unwrap();
        lemma_neighbours_pos_contains(g, pa, b);
        let q: (int, int) = if g.room_on((pa.0 + 1, pa.1 as int)) == Some(b) { (pa.0 + 1, pa.1 as int) }
            else if g.room_on((pa.0 - 1, pa.1 as int)) == Some(b) { (pa.0 - 1, pa.1 as int) }
            else if g.room_on((pa.0 as int, pa.1 + 1)) == Some(b) { (pa.0 as int, pa.1 + 1) }
            else { (pa.0 as int, pa.1 - 1) };
        lemma_room_on_iff(g, q, b);
        let pb = g.pos_of_room(b).unwrap();
        lemma_room_on_iff(g, (pa.0 as int, pa.1 as int), a);
        lemma_neighbours_pos_contains(g, pb, a);
    }
    if g.neighbours_of(b).contains(a) {
        let pb = g.pos_of_room(b).unwrap();
        lemma_neighbours_pos_contains(g, pb, a);
        let q: (int, int) = if g.room_on((pb.0 + 1, pb.1 as int)) == Some(a) { (pb.0 + 1, pb.1 as int) }
            else if g.room_on((pb.0 - 1, pb.1 as int)) == Some(a) { (pb.0 - 1, pb.1 as int) }
            else if g.room_on((pb.0 as int, pb.1 + 1)) == Some(a) { (pb.0 as int, pb.1 + 1) }
            else { (pb.0 as int, pb.1 - 1) };
        lemma_room_on_iff(g, q, a);
        let pa = g.pos_of_room(a).unwrap();
        lemma_room_on_iff(g, (pb.0 as int, pb.1 as int), b);
        lemma_neighbours_pos_contains(g, pa, b);
    }
}

} // verus!
