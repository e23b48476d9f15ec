//! Keeping every walkable tile of a room reachable from its doors.
//!
//! After an interior template has been laid, a walkable tile that no walk
//! from a door reaches is joined to the reached tiles by turning the
//! obstacles on a cheapest path (one per obstacle crossed) into floor.
use vstd::prelude::*;

use crate::layout::{
    TileKind, CELL_SIZE, TOTAL_TILES, tiles_framed, same_ring, plain_interior, interior, walkable,
    tile_adj, tile_walk, walk_step, walk_reaches, tix, first_entry, put, tile_index, door_entry,
    flood_fill, union_into, step_dir, lemma_adj_has_dir, entry_candidate, same_walk, near_doors_clear,
    near_door, door_kind,
};
use crate::tree::lemma_distinct_below;

verus! {

/// `b` is `a` with some solid tiles turned into floor.
pub open spec fn carved(a: Seq<TileKind>, b: Seq<TileKind>) -> bool {
    &&& b.len() == a.len()
    &&& forall|p: int| 0 <= p < a.len() ==> #[trigger] b[p] == a[p] || (!walkable(a[p]) && b[p] is Floor)
}

/// Carving twice is carving.
pub proof fn lemma_carved_trans(a: Seq<TileKind>, b: Seq<TileKind>, c: Seq<TileKind>)
    requires
        carved(a, b),
        carved(b, c),
    ensures
        carved(a, c),
{
    assert forall|p: int| 0 <= p < a.len() implies #[trigger] c[p] == a[p] || (!walkable(a[p]) && c[p] is Floor) by {
        assert(b[p] == a[p] || (!walkable(a[p]) && b[p] is Floor));
        assert(c[p] == b[p] || (!walkable(b[p]) && c[p] is Floor));
    }
}

/// A walk stays a walk once solid tiles have been carved into floor.
pub proof fn lemma_walk_carved(a: Seq<TileKind>, b: Seq<TileKind>, s: int, w: Seq<int>)
    requires
        a.len() == 121,
        carved(a, b),
        tile_walk(a, s, w),
    ensures
        tile_walk(b, s, w),
{
    assert forall|j: int| 0 < j < w.len() implies #[trigger] walk_step(b, w, j) by {
        assert(walk_step(a, w, j));
        assert(b[w[j]] == a[w[j]] || b[w[j]] is Floor);
    }
}

/// Walk on from the end of one walk along a second.
pub proof fn lemma_walk_concat(t: Seq<TileKind>, s: int, w1: Seq<int>, w2: Seq<int>)
    requires
        tile_walk(t, s, w1),
        tile_walk(t, w1.last(), w2),
    ensures
        tile_walk(t, s, w1 + w2.drop_first()),
        (w1 + w2.drop_first()).last() == w2.last(),
{
    let w = w1 + w2.drop_first();
    assert forall|j: int| 0 < j < w.len() implies #[trigger] walk_step(t, w, j) by {
        if j < w1.len() {
            assert(w[j] == w1[j] && w[j - 1] == w1[j - 1]);
            assert(walk_step(t, w1, j));
        } else {
            let k = j - w1.len() + 1;
            assert(w[j] == w2[k]);
            assert(w[j - 1] == w2[k - 1]);
            assert(walk_step(t, w2, k));
        }
    }
    if w2.len() == 1 {
        assert(w =~= w1);
    }
}

/// A walk from a walkable tile can be walked backwards.
pub proof fn lemma_walk_reverse(t: Seq<TileKind>, s: int, w: Seq<int>)
    requires
        tile_walk(t, s, w),
        0 <= s < 121,
        walkable(t[s]),
    ensures
        tile_walk(t, w.last(), w.reverse()),
        w.reverse().last() == s,
{
    let n = w.len();
    let r = w.reverse();
    assert forall|j: int| 0 < j < r.len() implies #[trigger] walk_step(t, r, j) by {
        assert(r[j] == w[n - 1 - j] && r[j - 1] == w[n - j]);
        assert(walk_step(t, w, n - j));
        if n - 1 - j > 0 {
            assert(walk_step(t, w, n - 1 - j));
        }
    }
}

/// Reachability is transitive.
pub proof fn lemma_reach_trans(t: Seq<TileKind>, a: int, b: int, c: int)
    requires
        walk_reaches(t, a, b),
        walk_reaches(t, b, c),
    ensures
        walk_reaches(t, a, c),
{
    let w1 = choose|w: Seq<int>| #[trigger] tile_walk(t, a, w) && w.last() == b;
    let w2 = choose|w: Seq<int>| #[trigger] tile_walk(t, b, w) && w.last() == c;
    lemma_walk_concat(t, a, w1, w2);
}

/// Row and column of the tile at `(c, r)`.
pub(crate) proof fn lemma_tix(c: int, r: int)
    requires
        0 <= c < 11,
        0 <= r < 11,
    ensures
        0 <= tix(c, r) < 121,
        tix(c, r) % 11 == c,
        tix(c, r) / 11 == r,
{
    assert(tix(c, r) % 11 == c && tix(c, r) / 11 == r) by (nonlinear_arith)
        requires 0 <= c < 11, 0 <= r < 11, tix(c, r) == r * 11 + c;
}

/// Tile `p` lies in the interior.
pub open spec fn inside(p: int) -> bool {
    0 <= p < 121 && interior(p % 11, p / 11)
}

/// With every marked interior tile, its interior neighbours are marked.
spec fn spreads(mk: Seq<bool>) -> bool {
    forall|p: int, q: int| inside(p) && #[trigger] mk[p] && #[trigger] tile_adj(p, q) && inside(q) ==> mk[q]
}

proof fn lemma_spread_row(mk: Seq<bool>, c0: int, r: int, c: int)
    requires
        mk.len() == 121,
        spreads(mk),
        interior(c0, r),
        interior(c, r),
        mk[tix(c0, r)],
    ensures
        mk[tix(c, r)],
    decreases if c >= c0 { c - c0 } else { c0 - c },
{
    if c != c0 {
        let c1 = if c > c0 { c - 1 } else { c + 1 };
        lemma_spread_row(mk, c0, r, c1);
        lemma_tix(c1, r);
        lemma_tix(c, r);
        assert(tile_adj(tix(c1, r), tix(c, r)));
        assert(inside(tix(c1, r)) && inside(tix(c, r)));
    }
}

proof fn lemma_spread_col(mk: Seq<bool>, c: int, r0: int, r: int)
    requires
        mk.len() == 121,
        spreads(mk),
        interior(c, r0),
        interior(c, r),
        mk[tix(c, r0)],
    ensures
        mk[tix(c, r)],
    decreases if r >= r0 { r - r0 } else { r0 - r },
{
    if r != r0 {
        let r1 = if r > r0 { r - 1 } else { r + 1 };
        lemma_spread_col(mk, c, r0, r1);
        lemma_tix(c, r1);
        lemma_tix(c, r);
        assert(tile_adj(tix(c, r1), tix(c, r)));
        assert(inside(tix(c, r1)) && inside(tix(c, r)));
    }
}

/// A marking that holds an interior tile and spreads holds the whole interior.
proof fn lemma_spread_all(mk: Seq<bool>, s: int)
    requires
        mk.len() == 121,
        spreads(mk),
        inside(s),
        mk[s],
    ensures
        forall|p: int| #[trigger] inside(p) ==> mk[p],
{
    let c0 = s % 11;
    let r0 = s / 11;
    assert(s == tix(c0, r0));
    assert forall|p: int| #[trigger] inside(p) implies mk[p] by {
        let c = p % 11;
        let r = p / 11;
        assert(p == tix(c, r));
        lemma_spread_row(mk, c0, r0, c);
        lemma_spread_col(mk, c, r0, r);
    }
}

/// The union of the walks from each of `starts`.
fn flood_from_all(tiles: &[TileKind; TOTAL_TILES], starts: &Vec<usize>) -> (m: [bool; TOTAL_TILES])
    requires
        forall|q: int| 0 <= q < starts@.len() ==> #[trigger] starts@[q] < 121,
    ensures
        forall|p: int| 0 <= p < 121 ==> (#[trigger] m@[p] <==> exists|q: int| 0 <= q < starts@.len() && #[trigger] walk_reaches(tiles@, starts@[q] as int, p)),
{
    let mut reachable: [bool; TOTAL_TILES] = [false; TOTAL_TILES];
    let ghost r0 = reachable@;
    proof {
        assert forall|p: int| 0 <= p < 121 implies !#[trigger] reachable@[p] by {
            assert(reachable@[p] == r0[p]);
        }
    }
    let mut j: usize = 0;
    while j < starts.len()
        invariant
            j <= starts@.len(),
            forall|q: int| 0 <= q < starts@.len() ==> #[trigger] starts@[q] < 121,
            forall|p: int| 0 <= p < 121 ==> (#[trigger] reachable@[p] <==> exists|q: int| 0 <= q < j && #[trigger] walk_reaches(tiles@, starts@[q] as int, p)),
        decreases starts@.len() - j,
    {
        let ghost r1 = reachable@;
        let f = flood_fill(tiles, starts[j]);
        union_into(&mut reachable, &f);
        proof {
            assert forall|p: int| 0 <= p < 121 implies (#[trigger] reachable@[p] <==> exists|q: int| 0 <= q < j + 1 && #[trigger] walk_reaches(tiles@, starts@[q] as int, p)) by {
                if f@[p] {
                    assert(walk_reaches(tiles@, starts@[j as int] as int, p));
                }
                if exists|q: int| 0 <= q < j + 1 && #[trigger] walk_reaches(tiles@, starts@[q] as int, p) {
                    let q = choose|q: int| 0 <= q < j + 1 && #[trigger] walk_reaches(tiles@, starts@[q] as int, p);
                    if q == j {
                        assert(f@[p]);
                    } else {
                        assert(r1[p]);
                    }
                }
            }
        }
        j = j + 1;
    }
    reachable
}

// ── Connectivity repair ─────────────────────────────────────────────────────

/// The carving search gives up after this many steps (a 9×9 interior needs
/// far fewer).
const CARVE_FUEL: usize = 100000;

/// The tile of a search entry `(cost, col, row)`.
spec fn entry_tile(e: (u64, usize, usize)) -> int {
    tix(e.1 as int, e.2 as int)
}

/// Every pending entry lies inside, costs at least `floor` and at most
/// `fuel`, and at least the best cost known for its tile; two entries of
/// one tile cost differently.
spec fn heap_ok(dist: Seq<Option<u64>>, heap: Seq<(u64, usize, usize)>, floor: int, fuel: int) -> bool {
    &&& forall|q: int| 0 <= q < heap.len() ==> {
        &&& interior((#[trigger] heap[q]).1 as int, heap[q].2 as int)
        &&& floor <= heap[q].0 <= fuel
        &&& dist[entry_tile(heap[q])] is Some
        &&& dist[entry_tile(heap[q])].unwrap() <= heap[q].0
    }
    &&& forall|q1: int, q2: int| #![trigger heap[q1], heap[q2]]
        0 <= q1 < heap.len() && 0 <= q2 < heap.len() && q1 != q2 && entry_tile(heap[q1]) == entry_tile(heap[q2])
            ==> heap[q1].0 != heap[q2].0
}

/// Costs and back links: the start costs nothing and has no back link;
/// every other tile with a cost has a back link to a tile beside it that
/// was already settled; the settled tiles come in order from the start,
/// each linked back to an earlier one.
spec fn marks_ok(start: int, dist: Seq<Option<u64>>, prev: Seq<Option<usize>>, closed: Seq<usize>) -> bool {
    &&& dist.len() == 121
    &&& prev.len() == 121
    &&& inside(start)
    &&& dist[start] == Some(0u64)
    &&& prev[start] is None
    &&& forall|n: int| 0 <= n < 121 && (#[trigger] dist[n]) is Some ==> inside(n) && (n != start ==> prev[n] is Some)
    &&& forall|n: int| 0 <= n < 121 && (#[trigger] prev[n]) is Some ==> {
        &&& dist[n] is Some
        &&& closed.contains(prev[n].unwrap())
        &&& tile_adj(prev[n].unwrap() as int, n)
    }
    &&& closed.no_duplicates()
    &&& forall|j: int| 0 <= j < closed.len() ==> inside(#[trigger] closed[j] as int)
    &&& closed.len() > 0 ==> closed[0] == start
    &&& forall|j: int| 0 < j < closed.len() ==> (#[trigger] prev[closed[j] as int]) is Some
        && exists|i: int| 0 <= i < j && closed[i] == prev[closed[j] as int].unwrap()
}

/// Every tile with a cost is settled or has a pending entry at that cost.
spec fn search_complete(dist: Seq<Option<u64>>, heap: Seq<(u64, usize, usize)>, closed: Seq<usize>) -> bool {
    forall|n: int| 0 <= n < 121 && (#[trigger] dist[n]) is Some ==> closed.contains(n as usize)
        || exists|q: int| 0 <= q < heap.len() && heap[q].0 == dist[n].unwrap() && #[trigger] entry_tile(heap[q]) == n
}

/// The back links from a settled tile lead, through settled tiles, to the
/// start; every link joins two tiles side by side inside.
spec fn chain_ok(start: int, prev: Seq<Option<usize>>, closed: Seq<usize>) -> bool {
    &&& prev.len() == 121
    &&& prev[start] is None
    &&& closed.len() <= 121
    &&& closed.len() > 0 ==> closed[0] == start
    &&& forall|j: int| 0 <= j < closed.len() ==> inside(#[trigger] closed[j] as int)
    &&& forall|j: int| 0 < j < closed.len() ==> (#[trigger] prev[closed[j] as int]) is Some
        && exists|i: int| 0 <= i < j && closed[i] == prev[closed[j] as int].unwrap()
    &&& forall|n: int| 0 <= n < 121 && (#[trigger] prev[n]) is Some ==> {
        &&& inside(n)
        &&& inside(prev[n].unwrap() as int)
        &&& tile_adj(prev[n].unwrap() as int, n)
    }
}

/// What stepping onto tile `q` costs the carving search: one for a solid
/// tile, nothing for a walkable one.
pub open spec fn step_cost(t: Seq<TileKind>, q: int) -> nat {
    if walkable(t[q]) { 0 } else { 1 }
}

/// Number of solid tiles a walk steps onto (its first tile not counted).
pub open spec fn walk_cost(t: Seq<TileKind>, w: Seq<int>) -> nat
    decreases w.len(),
{
    if w.len() <= 1 {
        0
    } else {
        step_cost(t, w[1]) + walk_cost(t, w.drop_first())
    }
}

/// A walk from `s` over interior tiles side by side, whatever they hold.
pub open spec fn inner_walk(s: int, w: Seq<int>) -> bool {
    &&& w.len() > 0
    &&& w[0] == s
    &&& forall|j: int| 0 <= j < w.len() ==> inside(#[trigger] w[j])
    &&& forall|j: int| 0 < j < w.len() ==> tile_adj(w[j - 1], #[trigger] w[j])
}

/// The cost of a walk is that of all but its last step, plus the last.
proof fn lemma_walk_cost_last(t: Seq<TileKind>, w: Seq<int>)
    requires
        w.len() >= 2,
    ensures
        walk_cost(t, w) == walk_cost(t, w.drop_last()) + step_cost(t, w.last()),
    decreases w.len(),
{
    if w.len() > 2 {
        lemma_walk_cost_last(t, w.drop_first());
        assert(w.drop_first().drop_last() =~= w.drop_last().drop_first());
        assert(w.drop_first().last() == w.last());
        assert(w.drop_last()[1] == w[1]);
        assert(walk_cost(t, w.drop_last()) == step_cost(t, w[1]) + walk_cost(t, w.drop_last().drop_first()));
    } else {
        assert(w.drop_first().len() == 1);
        assert(w.drop_last().len() == 1);
        assert(walk_cost(t, w.drop_first()) == 0);
        assert(walk_cost(t, w.drop_last()) == 0);
        assert(w.last() == w[1]);
    }
}

/// Every tile beside a settled tile inside has a cost of at most one step
/// more than the settled one.
spec fn near_ok(t: Seq<TileKind>, dist: Seq<Option<u64>>, closed: Seq<usize>) -> bool {
    forall|j: int, m: int| #![trigger closed[j], tile_adj(closed[j] as int, m)]
        0 <= j < closed.len() && inside(m) && tile_adj(closed[j] as int, m)
            ==> dist[m] is Some && dist[closed[j] as int] is Some
                && dist[m].unwrap() <= dist[closed[j] as int].unwrap() + step_cost(t, m)
}

/// A back link gives the cost of one step from the linked tile.
spec fn links_ok(t: Seq<TileKind>, dist: Seq<Option<u64>>, prev: Seq<Option<usize>>) -> bool {
    forall|n: int| 0 <= n < 121 && (#[trigger] prev[n]) is Some ==> {
        &&& dist[n] is Some
        &&& dist[prev[n].unwrap() as int] is Some
        &&& dist[n].unwrap() == dist[prev[n].unwrap() as int].unwrap() + step_cost(t, n)
    }
}

/// No interior walk from `start` to a settled tile costs less than the
/// tile's cost.
spec fn settled_low(t: Seq<TileKind>, start: int, dist: Seq<Option<u64>>, closed: Seq<usize>) -> bool {
    forall|j: int, w: Seq<int>| #![trigger closed[j], inner_walk(start, w)]
        0 <= j < closed.len() && inner_walk(start, w) && w.last() == closed[j] as int
            ==> dist[closed[j] as int] is Some && dist[closed[j] as int].unwrap() <= walk_cost(t, w)
}

/// An interior walk from the start either stays on settled tiles or costs
/// at least the cheapest pending entry `c`.
proof fn lemma_walk_low_rec(t: Seq<TileKind>, start: int, dist: Seq<Option<u64>>, heap: Seq<(u64, usize, usize)>,
    closed: Seq<usize>, c: int, w: Seq<int>)
    requires
        dist.len() == 121,
        dist[start] == Some(0u64),
        near_ok(t, dist, closed),
        settled_low(t, start, dist, closed),
        search_complete(dist, heap, closed),
        forall|q: int| 0 <= q < heap.len() ==> c <= #[trigger] heap[q].0,
        c >= 0,
        inner_walk(start, w),
    ensures
        c <= walk_cost(t, w) || forall|i: int| 0 <= i < w.len() ==> closed.contains(#[trigger] w[i] as usize),
    decreases w.len(),
{
    if w.len() == 1 {
        if !closed.contains(start as usize) {
            let q = choose|q: int| 0 <= q < heap.len() && heap[q].0 == dist[start].unwrap() && #[trigger] entry_tile(heap[q]) == start;
            assert(heap[q].0 == 0);
        } else {
            assert forall|i: int| 0 <= i < w.len() implies closed.contains(#[trigger] w[i] as usize) by {
                assert(i == 0);
            }
        }
    } else {
        let w1 = w.drop_last();
        assert(inner_walk(start, w1)) by {
            assert forall|j: int| 0 <= j < w1.len() implies inside(#[trigger] w1[j]) by {
                assert(inside(w[j]));
            }
            assert forall|j: int| 0 < j < w1.len() implies tile_adj(w1[j - 1], #[trigger] w1[j]) by {
                assert(tile_adj(w[j - 1], w[j]));
            }
        }
        lemma_walk_low_rec(t, start, dist, heap, closed, c, w1);
        lemma_walk_cost_last(t, w);
        if c <= walk_cost(t, w1) {
        } else if closed.contains(w.last() as usize) {
            assert forall|i: int| 0 <= i < w.len() implies closed.contains(#[trigger] w[i] as usize) by {
                if i < w.len() - 1 {
                    assert(w1[i] == w[i]);
                }
            }
        } else {
            let p = w1.last();
            assert(closed.contains(w1[w1.len() - 1] as usize));
            let j = choose|j: int| 0 <= j < closed.len() && closed[j] == p as usize;
            assert(inside(p));
            assert(closed[j] as int == p);
            let m = w.last();
            assert(inside(w[w.len() - 1]));
            assert(tile_adj(w[w.len() - 2], w[w.len() - 1]));
            assert(tile_adj(closed[j] as int, m));
            assert(dist[m].unwrap() <= dist[p].unwrap() + step_cost(t, m));
            assert(dist[p].unwrap() <= walk_cost(t, w1));
            assert(0 <= m < 121);
            let q = choose|q: int| 0 <= q < heap.len() && heap[q].0 == dist[m].unwrap() && #[trigger] entry_tile(heap[q]) == m;
            assert(c <= heap[q].0);
        }
    }
}

/// A walk from the start to a tile not yet settled costs at least the
/// cheapest pending entry.
proof fn lemma_walk_low(t: Seq<TileKind>, start: int, dist: Seq<Option<u64>>, heap: Seq<(u64, usize, usize)>,
    closed: Seq<usize>, c: int)
    requires
        dist.len() == 121,
        dist[start] == Some(0u64),
        near_ok(t, dist, closed),
        settled_low(t, start, dist, closed),
        search_complete(dist, heap, closed),
        forall|q: int| 0 <= q < heap.len() ==> c <= #[trigger] heap[q].0,
        c >= 0,
    ensures
        forall|w: Seq<int>| #[trigger] inner_walk(start, w) && !closed.contains(w.last() as usize) ==> c <= walk_cost(t, w),
{
    assert forall|w: Seq<int>| #[trigger] inner_walk(start, w) && !closed.contains(w.last() as usize) implies c <= walk_cost(t, w) by {
        lemma_walk_low_rec(t, start, dist, heap, closed, c, w);
        if !(c <= walk_cost(t, w)) {
            assert(closed.contains(w[w.len() - 1] as usize));
        }
    }
}

/// Settling `pos` at cost `c`, below every walk to an unsettled tile.
proof fn lemma_settled_low_push(t: Seq<TileKind>, start: int, dist: Seq<Option<u64>>, closed: Seq<usize>, pos: usize, c: int)
    requires
        settled_low(t, start, dist, closed),
        dist[pos as int] is Some,
        dist[pos as int].unwrap() == c,
        !closed.contains(pos),
        forall|w: Seq<int>| #[trigger] inner_walk(start, w) && !closed.contains(w.last() as usize) ==> c <= walk_cost(t, w),
    ensures
        settled_low(t, start, dist, closed.push(pos)),
{
    let c1 = closed.push(pos);
    assert forall|j: int, w: Seq<int>| #![trigger c1[j], inner_walk(start, w)]
        0 <= j < c1.len() && inner_walk(start, w) && w.last() == c1[j] as int
            implies dist[c1[j] as int] is Some && dist[c1[j] as int].unwrap() <= walk_cost(t, w) by {
        if j < closed.len() {
            assert(c1[j] == closed[j]);
        } else {
            assert(c1[j] == pos);
            assert(inside(w[w.len() - 1]));
            assert(w.last() as usize == pos);
        }
    }
}

/// Settled costs that stay put keep being lowest.
proof fn lemma_settled_low_frame(t: Seq<TileKind>, start: int, d0: Seq<Option<u64>>, d1: Seq<Option<u64>>, closed: Seq<usize>)
    requires
        settled_low(t, start, d0, closed),
        forall|j: int| 0 <= j < closed.len() ==> d1[#[trigger] closed[j] as int] == d0[closed[j] as int],
    ensures
        settled_low(t, start, d1, closed),
{
    assert forall|j: int, w: Seq<int>| #![trigger closed[j], inner_walk(start, w)]
        0 <= j < closed.len() && inner_walk(start, w) && w.last() == closed[j] as int
            implies d1[closed[j] as int] is Some && d1[closed[j] as int].unwrap() <= walk_cost(t, w) by {
        assert(d1[closed[j] as int] == d0[closed[j] as int]);
    }
}

/// What `swap_remove` leaves: entry `k` of the result is entry
/// `src(k)` of the input, and every input entry but the removed one is kept.
proof fn lemma_swap_remove(h0: Seq<(u64, usize, usize)>, pick: int, h1: Seq<(u64, usize, usize)>)
    requires
        0 <= pick < h0.len(),
        h1 == h0.update(pick, h0.last()).drop_last(),
    ensures
        h1.len() == h0.len() - 1,
        forall|k: int| 0 <= k < h1.len() ==> (#[trigger] h1[k]) == h0[if k == pick { h0.len() - 1 } else { k }],
        forall|k: int| 0 <= k < h0.len() && k != pick ==> h1[if k == h0.len() - 1 { pick } else { k }] == #[trigger] h0[k],
{
}

/// Settled tiles: their cost is final (at most `floor`, and every pending
/// entry of theirs costs more), and none of them is wanted.
spec fn settled_ok(reachable: Seq<bool>, dist: Seq<Option<u64>>, heap: Seq<(u64, usize, usize)>, closed: Seq<usize>, floor: int) -> bool {
    &&& forall|j: int| 0 <= j < closed.len() ==> {
        &&& (#[trigger] dist[closed[j] as int]) is Some
        &&& dist[closed[j] as int].unwrap() <= floor
        &&& !reachable[closed[j] as int]
    }
    &&& forall|j: int, q: int| #![trigger closed[j], heap[q]]
        0 <= j < closed.len() && 0 <= q < heap.len() && entry_tile(heap[q]) == closed[j] as int
            ==> heap[q].0 > dist[closed[j] as int].unwrap()
}

/// Each tile of `closed` has a cost on every tile beside it inside.
spec fn spread_ok(dist: Seq<Option<u64>>, closed: Seq<usize>) -> bool {
    forall|j: int, m: int| #![trigger closed[j], tile_adj(closed[j] as int, m)]
        0 <= j < closed.len() && inside(m) && tile_adj(closed[j] as int, m) ==> dist[m] is Some
}

/// Take out a cheapest entry.
fn pop_cheapest(heap: &mut Vec<(u64, usize, usize)>) -> (r: ((u64, usize, usize), Ghost<int>))
    requires
        old(heap)@.len() > 0,
    ensures
        0 <= r.1@ < old(heap)@.len(),
        r.0 == old(heap)@[r.1@],
        final(heap)@ == old(heap)@.update(r.1@, old(heap)@.last()).drop_last(),
        forall|k: int| 0 <= k < old(heap)@.len() ==> r.0.0 <= #[trigger] old(heap)@[k].0,
{
    let mut pick: usize = 0;
    let mut q: usize = 1;
    while q < heap.len()
        invariant
            heap@ == old(heap)@,
            1 <= q <= heap@.len(),
            pick < heap@.len(),
            forall|k: int| 0 <= k < q ==> heap@[pick as int].0 <= #[trigger] heap@[k].0,
        decreases heap@.len() - q,
    {
        let a = heap[q];
        let b = heap[pick];
        if a.0 < b.0 || (a.0 == b.0 && (a.1 > b.1 || (a.1 == b.1 && a.2 >= b.2))) {
            pick = q;
        }
        q = q + 1;
    }
    let e = heap.swap_remove(pick);
    (e, Ghost(pick as int))
}

/// Taking out a cheapest entry raises the floor to its cost.
proof fn lemma_pop(
    reachable: Seq<bool>,
    dist: Seq<Option<u64>>,
    h0: Seq<(u64, usize, usize)>,
    pick: int,
    h1: Seq<(u64, usize, usize)>,
    closed: Seq<usize>,
    floor: int,
    fuel: int,
)
    requires
        0 <= pick < h0.len(),
        h1 == h0.update(pick, h0.last()).drop_last(),
        forall|k: int| 0 <= k < h0.len() ==> h0[pick].0 <= #[trigger] h0[k].0,
        heap_ok(dist, h0, floor, fuel),
        settled_ok(reachable, dist, h0, closed, floor),
    ensures
        heap_ok(dist, h1, h0[pick].0 as int, fuel + 1),
        settled_ok(reachable, dist, h1, closed, h0[pick].0 as int),
        dist[entry_tile(h0[pick])] is Some,
        dist[entry_tile(h0[pick])].unwrap() <= h0[pick].0,
        interior(h0[pick].1 as int, h0[pick].2 as int),
        forall|k: int| 0 <= k < h1.len() ==> exists|k0: int| 0 <= k0 < h0.len() && k0 != pick && #[trigger] h1[k] == h0[k0],
{
    lemma_swap_remove(h0, pick, h1);
    let c = h0[pick].0 as int;
    let src = |k: int| if k == pick { h0.len() - 1 } else { k };
    assert forall|k: int| 0 <= k < h1.len() implies exists|k0: int| 0 <= k0 < h0.len() && k0 != pick && #[trigger] h1[k] == h0[k0] by {
        assert(h1[k] == h0[src(k)]);
    }
    assert forall|q1: int, q2: int| #![trigger h1[q1], h1[q2]]
        0 <= q1 < h1.len() && 0 <= q2 < h1.len() && q1 != q2 && entry_tile(h1[q1]) == entry_tile(h1[q2])
            implies h1[q1].0 != h1[q2].0 by {
        assert(h1[q1] == h0[src(q1)] && h1[q2] == h0[src(q2)]);
    }
    assert forall|q: int| 0 <= q < h1.len() implies {
        &&& interior((#[trigger] h1[q]).1 as int, h1[q].2 as int)
        &&& c <= h1[q].0 <= fuel + 1
        &&& dist[entry_tile(h1[q])] is Some
        &&& dist[entry_tile(h1[q])].unwrap() <= h1[q].0
    } by {
        assert(h1[q] == h0[src(q)]);
    }
    assert forall|j: int, q: int| #![trigger closed[j], h1[q]]
        0 <= j < closed.len() && 0 <= q < h1.len() && entry_tile(h1[q]) == closed[j] as int
            implies h1[q].0 > dist[closed[j] as int].unwrap() by {
        assert(h1[q] == h0[src(q)]);
    }
}

/// A stale entry leaves every tile with a cost settled or pending.
proof fn lemma_drop_stale(
    dist: Seq<Option<u64>>,
    h0: Seq<(u64, usize, usize)>,
    pick: int,
    h1: Seq<(u64, usize, usize)>,
    closed: Seq<usize>,
)
    requires
        0 <= pick < h0.len(),
        h1 == h0.update(pick, h0.last()).drop_last(),
        search_complete(dist, h0, closed),
        dist[entry_tile(h0[pick])] is Some,
        dist[entry_tile(h0[pick])].unwrap() < h0[pick].0,
    ensures
        search_complete(dist, h1, closed),
{
    lemma_swap_remove(h0, pick, h1);
    assert forall|n: int| 0 <= n < 121 && (#[trigger] dist[n]) is Some implies closed.contains(n as usize)
        || exists|q: int| 0 <= q < h1.len() && h1[q].0 == dist[n].unwrap() && #[trigger] entry_tile(h1[q]) == n by {
        if !closed.contains(n as usize) {
            let q0 = choose|q: int| 0 <= q < h0.len() && h0[q].0 == dist[n].unwrap() && #[trigger] entry_tile(h0[q]) == n;
            assert(q0 != pick);
            let q1 = if q0 == h0.len() - 1 { pick } else { q0 };
            assert(h1[q1] == h0[q0]);
        }
    }
}

/// Settling the tile of a fresh cheapest entry.
proof fn lemma_settle(
    start: int,
    reachable: Seq<bool>,
    dist: Seq<Option<u64>>,
    prev: Seq<Option<usize>>,
    h0: Seq<(u64, usize, usize)>,
    pick: int,
    h1: Seq<(u64, usize, usize)>,
    closed: Seq<usize>,
    pos: usize,
    floor0: int,
    fuel0: int,
)
    requires
        0 <= pick < h0.len(),
        h1 == h0.update(pick, h0.last()).drop_last(),
        entry_tile(h0[pick]) == pos as int,
        inside(pos as int),
        dist[pos as int] == Some(h0[pick].0),
        !reachable[pos as int],
        heap_ok(dist, h0, floor0, fuel0),
        marks_ok(start, dist, prev, closed),
        settled_ok(reachable, dist, h0, closed, h0[pick].0 as int),
        search_complete(dist, h0, closed),
        closed.len() == 0 ==> forall|q: int| 0 <= q < h0.len() ==> #[trigger] entry_tile(h0[q]) == start,
    ensures
        !closed.contains(pos),
        closed.push(pos).len() <= 121,
        marks_ok(start, dist, prev, closed.push(pos)),
        settled_ok(reachable, dist, h1, closed.push(pos), h0[pick].0 as int),
        search_complete(dist, h1, closed.push(pos)),
{
    lemma_swap_remove(h0, pick, h1);
    let cost = h0[pick].0;
    let c1 = closed.push(pos);
    if closed.contains(pos) {
        let j = choose|j: int| 0 <= j < closed.len() && closed[j] == pos;
        assert(h0[pick].0 > dist[closed[j] as int].unwrap());
    }
    if closed.len() > 0 {
        assert(closed.contains(closed[0]));
    } else {
        assert(entry_tile(h0[pick]) == start);
    }
    assert forall|j: int| 0 <= j < c1.len() implies inside(#[trigger] c1[j] as int) by {
        if j < closed.len() {
            assert(c1[j] == closed[j]);
        }
    }
    assert forall|j: int| 0 <= j < c1.len() implies (#[trigger] c1[j]) < 121usize by {
        if j < closed.len() {
            assert(c1[j] == closed[j]);
        }
    }
    lemma_distinct_below(c1, 121);
    assert forall|j: int| 0 < j < c1.len() implies (#[trigger] prev[c1[j] as int]) is Some
        && exists|i: int| 0 <= i < j && c1[i] == prev[c1[j] as int].unwrap() by {
        if j == c1.len() - 1 {
            let p = prev[pos as int].unwrap();
            assert(closed.contains(p));
            let i = choose|i: int| 0 <= i < closed.len() && closed[i] == p;
            assert(c1[i] == p);
        } else {
            assert(c1[j] == closed[j]);
            let i = choose|i: int| 0 <= i < j && closed[i] == prev[closed[j] as int].unwrap();
            assert(c1[i] == closed[i]);
        }
    }
    assert forall|n: int| 0 <= n < 121 && (#[trigger] prev[n]) is Some implies {
        &&& dist[n] is Some
        &&& c1.contains(prev[n].unwrap())
        &&& tile_adj(prev[n].unwrap() as int, n)
    } by {
        let i = choose|i: int| 0 <= i < closed.len() && closed[i] == prev[n].unwrap();
        assert(c1[i] == closed[i]);
    }
    assert forall|j: int| 0 <= j < c1.len() implies {
        &&& (#[trigger] dist[c1[j] as int]) is Some
        &&& dist[c1[j] as int].unwrap() <= cost
        &&& !reachable[c1[j] as int]
    } by {
        if j < closed.len() {
            assert(c1[j] == closed[j]);
        }
    }
    let src = |k: int| if k == pick { h0.len() - 1 } else { k };
    assert forall|j: int, q: int| #![trigger c1[j], h1[q]]
        0 <= j < c1.len() && 0 <= q < h1.len() && entry_tile(h1[q]) == c1[j] as int
            implies h1[q].0 > dist[c1[j] as int].unwrap() by {
        assert(h1[q] == h0[src(q)]);
        if j < closed.len() {
            assert(c1[j] == closed[j]);
        } else {
            assert(src(q) != pick);
            assert(h0[src(q)].0 != h0[pick].0);
        }
    }
    assert forall|n: int| 0 <= n < 121 && (#[trigger] dist[n]) is Some implies c1.contains(n as usize)
        || exists|q: int| 0 <= q < h1.len() && h1[q].0 == dist[n].unwrap() && #[trigger] entry_tile(h1[q]) == n by {
        if n == pos {
            assert(c1[c1.len() - 1] == pos);
        } else if !closed.contains(n as usize) {
            let q0 = choose|q: int| 0 <= q < h0.len() && h0[q].0 == dist[n].unwrap() && #[trigger] entry_tile(h0[q]) == n;
            assert(q0 != pick);
            let q1 = if q0 == h0.len() - 1 { pick } else { q0 };
            assert(h1[q1] == h0[q0]);
        } else {
            let i = choose|i: int| 0 <= i < closed.len() && closed[i] == n as usize;
            assert(c1[i] == closed[i]);
        }
    }
}

/// Give every tile beside the settled tile `(col, row)` inside a cost,
/// lowering it (and pointing the tile back here) where the step from here
/// is cheaper.
#[verifier::rlimit(40)]
fn relax_neighbours(
    tiles: &[TileKind; TOTAL_TILES],
    dist: &mut Vec<Option<u64>>,
    prev: &mut Vec<Option<usize>>,
    heap: &mut Vec<(u64, usize, usize)>,
    start: usize,
    col: usize,
    row: usize,
    cost: u64,
    fuel: usize,
    Ghost(reachable): Ghost<Seq<bool>>,
    Ghost(closed0): Ghost<Seq<usize>>,
)
    requires
        1 <= col <= 9,
        1 <= row <= 9,
        !closed0.contains(tix(col as int, row as int) as usize),
        closed0.push(tix(col as int, row as int) as usize).len() <= 121,
        old(dist)@[tix(col as int, row as int)] == Some(cost),
        cost < fuel,
        fuel <= CARVE_FUEL,
        heap_ok(old(dist)@, old(heap)@, cost as int, fuel as int),
        marks_ok(start as int, old(dist)@, old(prev)@, closed0.push(tix(col as int, row as int) as usize)),
        settled_ok(reachable, old(dist)@, old(heap)@, closed0.push(tix(col as int, row as int) as usize), cost as int),
        spread_ok(old(dist)@, closed0),
        search_complete(old(dist)@, old(heap)@, closed0.push(tix(col as int, row as int) as usize)),
        fuel + old(heap)@.len() <= 1 + 4 * closed0.len(),
        near_ok(tiles@, old(dist)@, closed0),
        links_ok(tiles@, old(dist)@, old(prev)@),
    ensures
        heap_ok(final(dist)@, final(heap)@, cost as int, fuel as int),
        marks_ok(start as int, final(dist)@, final(prev)@, closed0.push(tix(col as int, row as int) as usize)),
        settled_ok(reachable, final(dist)@, final(heap)@, closed0.push(tix(col as int, row as int) as usize), cost as int),
        spread_ok(final(dist)@, closed0.push(tix(col as int, row as int) as usize)),
        search_complete(final(dist)@, final(heap)@, closed0.push(tix(col as int, row as int) as usize)),
        fuel + final(heap)@.len() <= 1 + 4 * (closed0.len() + 1),
        near_ok(tiles@, final(dist)@, closed0.push(tix(col as int, row as int) as usize)),
        links_ok(tiles@, final(dist)@, final(prev)@),
        forall|j: int| 0 <= j < closed0.len() + 1 ==>
            final(dist)@[#[trigger] closed0.push(tix(col as int, row as int) as usize)[j] as int]
                == old(dist)@[closed0.push(tix(col as int, row as int) as usize)[j] as int],
{
    let pos = tile_index(col, row);
    let ghost closed = closed0.push(pos);
    proof {
        lemma_tix(col as int, row as int);
    }
    let mut d: usize = 0;
    while d < 4
        invariant
            1 <= col <= 9,
            1 <= row <= 9,
            pos == tix(col as int, row as int),
            pos % 11 == col,
            pos / 11 == row,
            closed == closed0.push(pos),
            !closed0.contains(pos),
            dist@[pos as int] == Some(cost),
            cost < fuel,
            heap_ok(dist@, heap@, cost as int, fuel as int),
            marks_ok(start as int, dist@, prev@, closed),
            settled_ok(reachable, dist@, heap@, closed, cost as int),
            spread_ok(dist@, closed0),
            forall|m: int, dd: int| 0 <= dd < d && inside(m) && #[trigger] step_dir(pos as int, m, dd) ==> dist@[m] is Some
                && dist@[m].unwrap() <= cost + step_cost(tiles@, m),
            near_ok(tiles@, dist@, closed0),
            links_ok(tiles@, dist@, prev@),
            forall|j: int| 0 <= j < closed.len() ==> dist@[#[trigger] closed[j] as int] == old(dist)@[closed[j] as int],
            search_complete(dist@, heap@, closed),
            fuel + heap@.len() <= 1 + 4 * closed0.len() + d,
            d <= 4,
        decreases 4 - d,
    {
        let (nc, nr): (usize, usize) = if d == 0 {
            (col, row + 1)
        } else if d == 1 {
            (col, row - 1)
        } else if d == 2 {
            (col + 1, row)
        } else {
            (col - 1, row)
        };
        let ghost m = tix(nc as int, nr as int);
        proof {
            assert(step_dir(pos as int, m, d as int));
            assert forall|m2: int| #[trigger] step_dir(pos as int, m2, d as int) implies m2 == m by {}
        }
        if 1 <= nc && nc <= 9 && 1 <= nr && nr <= 9 {
            let npos = tile_index(nc, nr);
            proof {
                lemma_tix(nc as int, nr as int);
                assert(inside(m));
            }
            let sc: u64 = if tiles[npos].is_solid() { 1 } else { 0 };
            let new_cost = cost + sc;
            proof {
                assert(new_cost == cost + step_cost(tiles@, npos as int));
            }
            let better = match dist[npos] {
                Some(old_d) => new_cost < old_d,
                None => true,
            };
            if better {
                let ghost dist0 = dist@;
                let ghost prev0 = prev@;
                let ghost heap0 = heap@;
                proof {
                    if closed.contains(npos) {
                        let j = choose|j: int| 0 <= j < closed.len() && closed[j] == npos;
                        assert(dist@[closed[j] as int].unwrap() <= cost);
                    }
                    assert(tile_adj(pos as int, npos as int)) by {
                        lemma_tix(col as int, row as int);
                    }
                }
                dist.set(npos, Some(new_cost));
                prev.set(npos, Some(pos));
                heap.push((new_cost, nc, nr));
                proof {
                    lemma_relaxed(tiles@, start as int, reachable, dist0, prev0, heap0, dist@, prev@, heap@, closed, closed0, cost as int, fuel as int, pos, npos, new_cost, nc, nr);
                }
            }
        }
        d = d + 1;
    }
    proof {
        assert forall|j: int, m: int| #![trigger closed[j], tile_adj(closed[j] as int, m)]
            0 <= j < closed.len() && inside(m) && tile_adj(closed[j] as int, m) implies dist@[m] is Some by {
            if j == closed.len() - 1 {
                lemma_adj_has_dir(pos as int, m);
                let dd = choose|dd: int| 0 <= dd < 4 && step_dir(pos as int, m, dd);
            } else {
                assert(closed[j] == closed0[j]);
            }
        }
        assert forall|j: int, m: int| #![trigger closed[j], tile_adj(closed[j] as int, m)]
            0 <= j < closed.len() && inside(m) && tile_adj(closed[j] as int, m)
                implies dist@[m] is Some && dist@[closed[j] as int] is Some
                    && dist@[m].unwrap() <= dist@[closed[j] as int].unwrap() + step_cost(tiles@, m) by {
            if j == closed.len() - 1 {
                lemma_adj_has_dir(pos as int, m);
                let dd = choose|dd: int| 0 <= dd < 4 && step_dir(pos as int, m, dd);
            } else {
                assert(closed[j] == closed0[j]);
            }
        }
    }
}

/// Lowering the cost of tile `npos` (not settled) to `new_cost` through
/// the settled tile `pos`.
proof fn lemma_relaxed(
    t: Seq<TileKind>,
    start: int,
    reachable: Seq<bool>,
    dist0: Seq<Option<u64>>,
    prev0: Seq<Option<usize>>,
    heap0: Seq<(u64, usize, usize)>,
    dist: Seq<Option<u64>>,
    prev: Seq<Option<usize>>,
    heap: Seq<(u64, usize, usize)>,
    closed: Seq<usize>,
    closed0: Seq<usize>,
    cost: int,
    fuel: int,
    pos: usize,
    npos: usize,
    new_cost: u64,
    nc: usize,
    nr: usize,
)
    requires
        closed == closed0.push(pos),
        !closed.contains(npos),
        npos as int == tix(nc as int, nr as int),
        interior(nc as int, nr as int),
        inside(npos as int),
        tile_adj(pos as int, npos as int),
        cost <= new_cost <= fuel,
        dist0[npos as int] is Some ==> new_cost < dist0[npos as int].unwrap(),
        dist == dist0.update(npos as int, Some(new_cost)),
        prev == prev0.update(npos as int, Some(pos)),
        heap == heap0.push((new_cost, nc, nr)),
        heap_ok(dist0, heap0, cost, fuel),
        marks_ok(start, dist0, prev0, closed),
        settled_ok(reachable, dist0, heap0, closed, cost),
        spread_ok(dist0, closed0),
        search_complete(dist0, heap0, closed),
        near_ok(t, dist0, closed0),
        links_ok(t, dist0, prev0),
        dist0[pos as int] is Some,
        dist0[pos as int].unwrap() == cost,
        new_cost == cost + step_cost(t, npos as int),
    ensures
        heap_ok(dist, heap, cost, fuel),
        marks_ok(start, dist, prev, closed),
        settled_ok(reachable, dist, heap, closed, cost),
        spread_ok(dist, closed0),
        search_complete(dist, heap, closed),
        near_ok(t, dist, closed0),
        links_ok(t, dist, prev),
{
    assert(closed.contains(pos)) by {
        assert(closed[closed.len() - 1] == pos);
    }
    assert(pos != npos);
    assert forall|n: int| 0 <= n < 121 && (#[trigger] prev[n]) is Some implies {
        &&& dist[n] is Some
        &&& dist[prev[n].unwrap() as int] is Some
        &&& dist[n].unwrap() == dist[prev[n].unwrap() as int].unwrap() + step_cost(t, n)
    } by {
        if n != npos {
            assert(prev[n] == prev0[n]);
            assert(closed.contains(prev0[n].unwrap()));
            assert(prev0[n].unwrap() != npos);
        }
    }
    assert forall|j: int, m: int| #![trigger closed0[j], tile_adj(closed0[j] as int, m)]
        0 <= j < closed0.len() && inside(m) && tile_adj(closed0[j] as int, m)
            implies dist[m] is Some && dist[closed0[j] as int] is Some
                && dist[m].unwrap() <= dist[closed0[j] as int].unwrap() + step_cost(t, m) by {
        assert(closed[j] == closed0[j]);
        assert(closed0[j] != npos);
    }
    assert(npos != start);
    assert(entry_tile(heap[heap.len() - 1]) == npos);
    assert forall|q: int| 0 <= q < heap0.len() implies #[trigger] heap[q] == heap0[q] by {}
    assert forall|q: int| 0 <= q < heap0.len() && entry_tile(heap0[q]) == npos implies heap0[q].0 > new_cost by {
        assert(dist0[npos as int].unwrap() <= heap0[q].0);
    }
    assert forall|q: int| 0 <= q < heap.len() implies {
        &&& interior((#[trigger] heap[q]).1 as int, heap[q].2 as int)
        &&& cost <= heap[q].0 <= fuel
        &&& dist[entry_tile(heap[q])] is Some
        &&& dist[entry_tile(heap[q])].unwrap() <= heap[q].0
    } by {
        if q < heap0.len() {
            assert(heap[q] == heap0[q]);
        }
    }
    assert forall|q1: int, q2: int| #![trigger heap[q1], heap[q2]]
        0 <= q1 < heap.len() && 0 <= q2 < heap.len() && q1 != q2 && entry_tile(heap[q1]) == entry_tile(heap[q2])
            implies heap[q1].0 != heap[q2].0 by {
        if q1 < heap0.len() && q2 < heap0.len() {
            assert(heap[q1] == heap0[q1] && heap[q2] == heap0[q2]);
        } else if q1 < heap0.len() {
            assert(heap[q1] == heap0[q1]);
        } else {
            assert(heap[q2] == heap0[q2]);
        }
    }
    assert forall|n: int| 0 <= n < 121 && (#[trigger] dist[n]) is Some implies inside(n) && (n != start ==> prev[n] is Some) by {
        if n != npos {
            assert(dist[n] == dist0[n]);
        }
    }
    assert forall|n: int| 0 <= n < 121 && (#[trigger] prev[n]) is Some implies {
        &&& dist[n] is Some
        &&& closed.contains(prev[n].unwrap())
        &&& tile_adj(prev[n].unwrap() as int, n)
    } by {
        if n == npos {
            assert(closed[closed.len() - 1] == pos);
        } else {
            assert(prev[n] == prev0[n]);
        }
    }
    assert forall|j: int| 0 < j < closed.len() implies (#[trigger] prev[closed[j] as int]) is Some
        && exists|i: int| 0 <= i < j && closed[i] == prev[closed[j] as int].unwrap() by {
        assert(closed[j] != npos);
        assert(prev[closed[j] as int] == prev0[closed[j] as int]);
    }
    assert forall|j: int| 0 <= j < closed.len() implies {
        &&& (#[trigger] dist[closed[j] as int]) is Some
        &&& dist[closed[j] as int].unwrap() <= cost
        &&& !reachable[closed[j] as int]
    } by {
        assert(closed[j] != npos);
    }
    assert forall|j: int, q: int| #![trigger closed[j], heap[q]]
        0 <= j < closed.len() && 0 <= q < heap.len() && entry_tile(heap[q]) == closed[j] as int
            implies heap[q].0 > dist[closed[j] as int].unwrap() by {
        assert(closed[j] != npos);
        if q < heap0.len() {
            assert(heap[q] == heap0[q]);
        }
    }
    assert forall|j: int, m: int| #![trigger closed0[j], tile_adj(closed0[j] as int, m)]
        0 <= j < closed0.len() && inside(m) && tile_adj(closed0[j] as int, m) implies dist[m] is Some by {
        if m != npos {
            assert(dist[m] == dist0[m]);
        }
    }
    assert forall|n: int| 0 <= n < 121 && (#[trigger] dist[n]) is Some implies closed.contains(n as usize)
        || exists|q: int| 0 <= q < heap.len() && heap[q].0 == dist[n].unwrap() && #[trigger] entry_tile(heap[q]) == n by {
        if n == npos {
            assert(heap[heap0.len() as int].0 == new_cost);
        } else if !closed.contains(n as usize) {
            assert(dist[n] == dist0[n]);
            let q0 = choose|q: int| 0 <= q < heap0.len() && heap0[q].0 == dist0[n].unwrap() && #[trigger] entry_tile(heap0[q]) == n;
            assert(heap[q0] == heap0[q0]);
        }
    }
}

/// Cheapest-first search from `start` over the interior (stepping onto a
/// solid tile costs one, onto a walkable tile nothing), popping the
/// cheapest entry (on a tie, the one furthest east, then south) until a
/// tile of `reachable` comes up. Returns that tile and the back links.
#[verifier::rlimit(60)]
#[verifier::spinoff_prover]
fn cheapest_search(tiles: &[TileKind; TOTAL_TILES], start: usize, reachable: &[bool; TOTAL_TILES])
    -> (r: (Option<usize>, Vec<Option<usize>>, Ghost<Seq<usize>>, Ghost<Seq<Option<u64>>>))
    requires
        inside(start as int),
    ensures
        r.3@.len() == 121,
        r.3@[start as int] == Some(0u64),
        links_ok(tiles@, r.3@, r.1@),
        r.0 matches Some(g) ==> r.3@[g as int] is Some && forall|w: Seq<int>| #[trigger] inner_walk(start as int, w) && reachable@[w.last()]
            ==> r.3@[g as int].unwrap() <= walk_cost(tiles@, w),
        chain_ok(start as int, r.1@, r.2@),
        r.0 is None ==> forall|p: int| #[trigger] inside(p) ==> !reachable@[p],
        r.0 matches Some(g) ==> inside(g as int) && reachable@[g as int]
            && (g == start || (r.1@[g as int] is Some && r.2@.contains(r.1@[g as int].unwrap()))),
{
    let mut dist: Vec<Option<u64>> = Vec::new();
    let mut prev: Vec<Option<usize>> = Vec::new();
    let mut i: usize = 0;
    while i < TOTAL_TILES
        invariant
            i <= 121,
            dist@.len() == i,
            prev@.len() == i,
            forall|q: int| 0 <= q < i ==> (#[trigger] prev@[q]) is None,
            forall|q: int| 0 <= q < i ==> (#[trigger] dist@[q]) is None,
        decreases 121 - i,
    {
        dist.push(None);
        prev.push(None);
        i = i + 1;
    }
    let ghost d0 = dist@;
    dist.set(start, Some(0));
    let mut heap: Vec<(u64, usize, usize)> = Vec::new();
    heap.push((0, start % CELL_SIZE, start / CELL_SIZE));
    let mut goal: Option<usize> = None;
    let mut fuel: usize = 0;
    let ghost mut closed: Seq<usize> = Seq::empty();
    let ghost mut floor: int = 0;
    proof {
        assert(entry_tile(heap@[0]) == start) by (nonlinear_arith)
            requires entry_tile(heap@[0]) == (start / 11) * 11 + start % 11;
        assert forall|n: int| 0 <= n < 121 && (#[trigger] dist@[n]) is Some implies n == start by {
            if n != start {
                assert(dist@[n] == d0[n]);
            }
        }
    }
    while heap.len() > 0 && fuel < CARVE_FUEL
        invariant_except_break
            goal is None,
        invariant
            inside(start as int),
            heap_ok(dist@, heap@, floor, fuel as int),
            marks_ok(start as int, dist@, prev@, closed),
            settled_ok(reachable@, dist@, heap@, closed, floor),
            spread_ok(dist@, closed),
            closed.len() == 0 ==> forall|q: int| 0 <= q < heap@.len() ==> #[trigger] entry_tile(heap@[q]) == start,
            fuel + heap@.len() <= 1 + 4 * closed.len(),
            closed.len() <= 121,
            fuel <= CARVE_FUEL,
            goal is None ==> search_complete(dist@, heap@, closed),
            goal matches Some(g) ==> inside(g as int) && reachable@[g as int] && dist@[g as int] is Some,
            near_ok(tiles@, dist@, closed),
            links_ok(tiles@, dist@, prev@),
            settled_low(tiles@, start as int, dist@, closed),
            goal matches Some(g) ==> forall|w: Seq<int>| #[trigger] inner_walk(start as int, w) && reachable@[w.last()]
                ==> dist@[g as int].unwrap() <= walk_cost(tiles@, w),
        ensures
            goal is None ==> heap@.len() == 0 || fuel >= CARVE_FUEL,
        decreases CARVE_FUEL - fuel,
    {
        let ghost h0 = heap@;
        let ghost floor0 = floor;
        let ghost fuel0 = fuel as int;
        let (e, Ghost(pick)) = pop_cheapest(&mut heap);
        let (cost, col, row) = e;
        let pos = tile_index(col, row);
        proof {
            lemma_walk_low(tiles@, start as int, dist@, h0, closed, cost as int);
            lemma_pop(reachable@, dist@, h0, pick, heap@, closed, floor, fuel as int);
            lemma_tix(col as int, row as int);
            assert(entry_tile(h0[pick]) == pos);
            floor = cost as int;
            if closed.len() == 0 {
                assert forall|q: int| 0 <= q < heap@.len() implies #[trigger] entry_tile(heap@[q]) == start by {
                    let k0 = choose|k0: int| 0 <= k0 < h0.len() && k0 != pick && #[trigger] heap@[q] == h0[k0];
                    assert(entry_tile(h0[k0]) == start);
                }
            }
        }
        fuel = fuel + 1;
        if reachable[pos] {
            goal = Some(pos);
            proof {
                assert forall|w: Seq<int>| #[trigger] inner_walk(start as int, w) && reachable@[w.last()]
                    implies dist@[pos as int].unwrap() <= walk_cost(tiles@, w) by {
                    if closed.contains(w.last() as usize) {
                        let j = choose|j: int| 0 <= j < closed.len() && closed[j] == w.last() as usize;
                        assert(inside(w[w.len() - 1]));
                        assert(!reachable@[closed[j] as int]);
                    }
                }
            }
            break;
        }
        let stale = match dist[pos] {
            Some(d) => cost > d,
            None => true,
        };
        if stale {
            proof {
                lemma_drop_stale(dist@, h0, pick, heap@, closed);
            }
        } else {
            let ghost closed0 = closed;
            proof {
                lemma_settle(start as int, reachable@, dist@, prev@, h0, pick, heap@, closed, pos, floor0, fuel0);
                lemma_settled_low_push(tiles@, start as int, dist@, closed, pos, cost as int);
                closed = closed.push(pos);
            }
            let ghost dist_s = dist@;
            relax_neighbours(tiles, &mut dist, &mut prev, &mut heap, start, col, row, cost, fuel, Ghost(reachable@), Ghost(closed0));
            proof {
                lemma_settled_low_frame(tiles@, start as int, dist_s, dist@, closed);
            }
        }
    }
    proof {
        if goal is None {
            assert(heap@.len() == 0);
            let mk = Seq::new(121, |n: int| dist@[n] is Some);
            assert forall|p: int, q: int| inside(p) && #[trigger] mk[p] && #[trigger] tile_adj(p, q) && inside(q) implies mk[q] by {
                assert(dist@[p] is Some);
                assert(closed.contains(p as usize));
                let j = choose|j: int| 0 <= j < closed.len() && closed[j] == p as usize;
                assert(tile_adj(closed[j] as int, q));
            }
            assert(mk[start as int]);
            lemma_spread_all(mk, start as int);
            assert forall|p: int| #[trigger] inside(p) implies !reachable@[p] by {
                assert(mk[p]);
                assert(closed.contains(p as usize));
                let j = choose|j: int| 0 <= j < closed.len() && closed[j] == p as usize;
            }
        }
        match goal {
            Some(g) => {
                if g != start {
                    assert(prev@[g as int] is Some);
                }
            },
            None => {},
        }
        assert forall|n: int| 0 <= n < 121 && (#[trigger] prev@[n]) is Some implies {
            &&& inside(n)
            &&& inside(prev@[n].unwrap() as int)
            &&& tile_adj(prev@[n].unwrap() as int, n)
        } by {
            assert(dist@[n] is Some);
            let j = choose|j: int| 0 <= j < closed.len() && closed[j] == prev@[n].unwrap();
        }
    }
    (goal, prev, Ghost(closed), Ghost(dist@))
}

/// Cheapest-first search from `start` over the interior, stepping onto a
/// solid tile at cost one and onto a walkable one at cost zero, until a
/// tile of `reachable` comes up; then every solid tile on the path found
/// becomes floor. When the interior holds a tile of `reachable`, the
/// result has a walk from `start` to such a tile that passes every tile
/// that changed, and that walk crosses no more solid tiles of the input
/// than any other interior walk from `start` to a tile of `reachable`.
fn carve_path_to_reachable(tiles: &mut [TileKind; TOTAL_TILES], start: usize, reachable: &[bool; TOTAL_TILES])
    requires
        tiles_framed(old(tiles)@),
        inside(start as int),
    ensures
        tiles_framed(final(tiles)@),
        same_ring(old(tiles)@, final(tiles)@),
        plain_interior(old(tiles)@) ==> plain_interior(final(tiles)@),
        carved(old(tiles)@, final(tiles)@),
        (exists|p: int| #[trigger] inside(p) && reachable@[p]) ==> exists|g: int, w: Seq<int>|
            #![trigger tile_walk(final(tiles)@, start as int, w), reachable@[g]]
            0 <= g < 121 && reachable@[g] && tile_walk(final(tiles)@, start as int, w) && w.last() == g
            && (forall|p: int| 0 <= p < 121 && final(tiles)@[p] != old(tiles)@[p] ==> #[trigger] w.contains(p))
            && inner_walk(start as int, w)
            && (forall|w2: Seq<int>| #[trigger] inner_walk(start as int, w2) && reachable@[w2.last()]
                ==> walk_cost(old(tiles)@, w) <= walk_cost(old(tiles)@, w2)),
{
    let (goal, prev, Ghost(closed), Ghost(cost_of)) = cheapest_search(tiles, start, reachable);
    match goal {
        Some(g) => {
            let mut cur = g;
            let mut steps: usize = 0;
            let ghost mut r: int = closed.len() as int;
            let ghost mut path: Seq<int> = seq![g as int];
            while cur != start && steps < TOTAL_TILES
                invariant
                    tiles_framed(tiles@),
                    same_ring(old(tiles)@, tiles@),
                    plain_interior(old(tiles)@) ==> plain_interior(tiles@),
                    carved(old(tiles)@, tiles@),
                    chain_ok(start as int, prev@, closed),
                    inside(cur as int),
                    0 <= r <= closed.len(),
                    steps + r <= closed.len(),
                    cur != start ==> prev@[cur as int] is Some
                        && exists|i: int| 0 <= i < r && closed[i] == prev@[cur as int].unwrap(),
                    tile_walk(tiles@, cur as int, path),
                    path.last() == g,
                    forall|p: int| 0 <= p < 121 && tiles@[p] != old(tiles)@[p] ==> #[trigger] path.contains(p),
                    links_ok(old(tiles)@, cost_of, prev@),
                    cost_of.len() == 121,
                    cost_of[start as int] == Some(0u64),
                    cost_of[g as int] is Some,
                    cost_of[cur as int] is Some,
                    walk_cost(old(tiles)@, path) + cost_of[cur as int].unwrap() == cost_of[g as int].unwrap(),
                    forall|j: int| 0 <= j < path.len() ==> inside(#[trigger] path[j]),
                ensures
                    cur == start,
                decreases 121 - steps,
            {
                match prev[cur] {
                    Some(p) => {
                        let ghost t0 = tiles@;
                        if tiles[cur].is_solid() {
                            proof {
                                assert((cur / 11) * 11 + cur % 11 == cur) by (nonlinear_arith)
                                    requires 0 <= cur;
                            }
                            put(tiles, cur % CELL_SIZE, cur / CELL_SIZE, TileKind::Floor);
                        }
                        proof {
                            assert(carved(t0, tiles@)) by {
                                assert forall|q: int| 0 <= q < t0.len() implies #[trigger] tiles@[q] == t0[q] || (!walkable(t0[q]) && tiles@[q] is Floor) by {}
                            }
                            lemma_carved_trans(old(tiles)@, t0, tiles@);
                            lemma_walk_carved(t0, tiles@, cur as int, path);
                            assert(walkable(tiles@[cur as int]));
                            let i = choose|i: int| 0 <= i < r && closed[i] == prev@[cur as int].unwrap();
                            if p != start {
                                assert(i != 0);
                            }
                            r = i;
                            let np = seq![p as int] + path;
                            assert(np[1] == cur as int);
                            assert forall|j: int| 0 < j < np.len() implies #[trigger] walk_step(tiles@, np, j) by {
                                if j > 1 {
                                    assert(np[j] == path[j - 1] && np[j - 1] == path[j - 2]);
                                    assert(walk_step(tiles@, path, j - 1));
                                }
                            }
                            assert forall|q: int| 0 <= q < 121 && tiles@[q] != old(tiles)@[q] implies #[trigger] np.contains(q) by {
                                if tiles@[q] != t0[q] {
                                    assert(q == cur as int);
                                    assert(np[1] == q);
                                } else {
                                    assert(path.contains(q));
                                    let k = choose|k: int| 0 <= k < path.len() && path[k] == q;
                                    assert(np[k + 1] == q);
                                }
                            }
                            assert(np.drop_first() =~= path);
                            assert(walk_cost(old(tiles)@, np) == step_cost(old(tiles)@, cur as int) + walk_cost(old(tiles)@, path));
                            assert(cost_of[cur as int].unwrap() == cost_of[p as int].unwrap() + step_cost(old(tiles)@, cur as int));
                            assert forall|j: int| 0 <= j < np.len() implies inside(#[trigger] np[j]) by {
                                if j > 0 {
                                    assert(np[j] == path[j - 1]);
                                }
                            }
                            path = np;
                        }
                        cur = p;
                    },
                    None => {
                        break;
                    },
                }
                steps = steps + 1;
            }
            proof {
                assert(0 <= g < 121 && reachable@[g as int] && tile_walk(tiles@, start as int, path) && path.last() == g);
                assert(inner_walk(start as int, path)) by {
                    assert forall|j: int| 0 < j < path.len() implies tile_adj(path[j - 1], #[trigger] path[j]) by {
                        assert(walk_step(tiles@, path, j));
                    }
                }
            }
        },
        None => {},
    }
}


/// Door `j` of a room: north, south, east, west.
pub open spec fn door_spot(j: int) -> (int, int) {
    if j == 0 {
        (5, 0)
    } else if j == 1 {
        (5, 10)
    } else if j == 2 {
        (10, 5)
    } else {
        (0, 5)
    }
}

/// The first walkable tile inside door `j`, when that door is open.
pub open spec fn open_entry(t: Seq<TileKind>, j: int) -> Option<int> {
    if t[tix(door_spot(j).0, door_spot(j).1)] is Wall {
        None
    } else {
        first_entry(t, door_spot(j).0, door_spot(j).1, 0)
    }
}

/// The tile just inside door `j`.
pub open spec fn inward(j: int) -> int {
    if j == 0 {
        tix(5, 1)
    } else if j == 1 {
        tix(5, 9)
    } else if j == 2 {
        tix(9, 5)
    } else {
        tix(1, 5)
    }
}

/// Some door of the room is open with a walkable tile just inside it.
pub open spec fn has_entry(t: Seq<TileKind>) -> bool {
    exists|j: int| 0 <= j < 4 && #[trigger] open_entry(t, j) is Some
}

/// Tile `p` can be walked to from the tile just inside some open door.
pub open spec fn door_reached(t: Seq<TileKind>, p: int) -> bool {
    exists|j: int| 0 <= j < 4 && #[trigger] open_entry(t, j) is Some && walk_reaches(t, open_entry(t, j).unwrap(), p)
}

/// Every walkable tile inside the room can be walked to from a door.
pub open spec fn all_reached(t: Seq<TileKind>) -> bool {
    forall|p: int| #[trigger] inside(p) && walkable(t[p]) ==> door_reached(t, p)
}

/// Each door has one tile just inside it: its entry is that tile when it
/// is walkable.
pub proof fn lemma_first_entry_door(t: Seq<TileKind>, j: int)
    requires
        0 <= j < 4,
        t.len() == 121,
    ensures
        first_entry(t, door_spot(j).0, door_spot(j).1, 0)
            == (if walkable(t[inward(j)]) { Some(inward(j)) } else { None::<int> }),
{
    reveal_with_fuel(first_entry, 5);
    let (dc, dr) = door_spot(j);
    assert(entry_candidate(dc, dr, 0) == (dc, dr + 1));
    assert(entry_candidate(dc, dr, 1) == (dc, dr - 1));
    assert(entry_candidate(dc, dr, 2) == (dc + 1, dr));
    assert(entry_candidate(dc, dr, 3) == (dc - 1, dr));
}

/// With the same walkable tiles and the same outer ring, two rooms have
/// the same door entries and the same walks.
pub proof fn lemma_same_walk_reach(a: Seq<TileKind>, b: Seq<TileKind>)
    requires
        a.len() == 121,
        same_walk(a, b),
        same_ring(a, b),
    ensures
        forall|j: int| 0 <= j < 4 ==> #[trigger] open_entry(b, j) == open_entry(a, j),
        has_entry(a) == has_entry(b),
        all_reached(a) ==> all_reached(b),
{
    assert forall|j: int| 0 <= j < 4 implies #[trigger] open_entry(b, j) == open_entry(a, j) by {
        lemma_first_entry_door(a, j);
        lemma_first_entry_door(b, j);
        let (dc, dr) = door_spot(j);
        assert(!interior(dc, dr));
        assert(b[dr * 11 + dc] == a[dr * 11 + dc]);
        assert(walkable(b[inward(j)]) == walkable(a[inward(j)]));
    }
    if has_entry(a) {
        let j = choose|j: int| 0 <= j < 4 && #[trigger] open_entry(a, j) is Some;
        assert(open_entry(b, j) is Some);
    }
    if has_entry(b) {
        let j = choose|j: int| 0 <= j < 4 && #[trigger] open_entry(b, j) is Some;
        assert(open_entry(a, j) is Some);
    }
    if all_reached(a) {
        assert forall|p: int| #[trigger] inside(p) && walkable(b[p]) implies door_reached(b, p) by {
            assert(walkable(a[p]));
            assert(door_reached(a, p));
            let j = choose|j: int| 0 <= j < 4 && #[trigger] open_entry(a, j) is Some && walk_reaches(a, open_entry(a, j).unwrap(), p);
            let e = open_entry(a, j).unwrap();
            let w = choose|w: Seq<int>| #[trigger] tile_walk(a, e, w) && w.last() == p;
            assert forall|k: int| 0 < k < w.len() implies #[trigger] walk_step(b, w, k) by {
                assert(walk_step(a, w, k));
            }
            assert(tile_walk(b, e, w));
            assert(open_entry(b, j) is Some);
        }
    }
}

/// Some door of the room is open.
pub open spec fn has_open_door(t: Seq<TileKind>) -> bool {
    exists|j: int| 0 <= j < 4 && !(#[trigger] t[tix(door_spot(j).0, door_spot(j).1)] is Wall)
}

/// Carving keeps the tiles near the doors clear.
pub proof fn lemma_clear_carved(a: Seq<TileKind>, b: Seq<TileKind>)
    requires
        a.len() == 121,
        carved(a, b),
        near_doors_clear(a),
    ensures
        near_doors_clear(b),
{
    assert forall|col: int, row: int| #[trigger] interior(col, row) && near_door(col, row) implies b[row * 11 + col] is Floor by {
        assert(a[row * 11 + col] is Floor);
        assert(0 <= row * 11 + col < 121);
    }
}

/// With the tiles near the doors clear, an open door has a walkable tile
/// just inside it.
pub proof fn lemma_open_door_entry(t: Seq<TileKind>)
    requires
        t.len() == 121,
        near_doors_clear(t),
        has_open_door(t),
    ensures
        has_entry(t),
{
    let j = choose|j: int| 0 <= j < 4 && !(#[trigger] t[tix(door_spot(j).0, door_spot(j).1)] is Wall);
    lemma_first_entry_door(t, j);
    if j == 0 {
        assert(interior(5, 1) && near_door(5, 1));
    } else if j == 1 {
        assert(interior(5, 9) && near_door(5, 9));
    } else if j == 2 {
        assert(interior(9, 5) && near_door(9, 5));
    } else {
        assert(interior(1, 5) && near_door(1, 5));
    }
    assert(open_entry(t, j) is Some);
}

/// The rest of a walk from one of its tiles is a walk.
proof fn lemma_walk_skip(t: Seq<TileKind>, s: int, w: Seq<int>, i: int)
    requires
        tile_walk(t, s, w),
        0 <= i < w.len(),
    ensures
        tile_walk(t, w[i], w.skip(i)),
        w.skip(i).last() == w.last(),
{
    assert forall|j: int| 0 < j < w.skip(i).len() implies #[trigger] walk_step(t, w.skip(i), j) by {
        assert(walk_step(t, w, i + j));
    }
}

/// A tile reaches itself.
proof fn lemma_reach_self(t: Seq<TileKind>, p: int)
    ensures
        walk_reaches(t, p, p),
{
    assert(tile_walk(t, p, seq![p]));
}

/// Tile `g` of `a` can be walked to from the entry of a door that is open in `t0`.
pub open spec fn entry_reached(t0: Seq<TileKind>, a: Seq<TileKind>, g: int) -> bool {
    exists|jj: int| 0 <= jj < 4 && #[trigger] open_entry(t0, jj) is Some && walk_reaches(a, open_entry(t0, jj).unwrap(), g)
}

/// The walkable interior tiles of `t0` below position `p` that no walk
/// from a door entry reaches, in row-major order.
pub open spec fn unreached_upto(t0: Seq<TileKind>, p: int) -> Seq<usize>
    decreases p,
{
    if p <= 0 {
        Seq::empty()
    } else {
        unreached_upto(t0, p - 1) + if inside(p - 1) && walkable(t0[p - 1]) && !entry_reached(t0, t0, p - 1) {
            seq![(p - 1) as usize]
        } else {
            Seq::<usize>::empty()
        }
    }
}

/// `b` is `a` with the solid tiles of one interior walk from `iso` turned
/// into floor, a walk to a tile reached from the entries of `t0` that
/// crosses no more solid tiles of `a` than any other such walk.
pub open spec fn carve_step(t0: Seq<TileKind>, a: Seq<TileKind>, b: Seq<TileKind>, iso: int) -> bool {
    exists|w: Seq<int>| #[trigger] inner_walk(iso, w) && entry_reached(t0, a, w.last())
        && (forall|w2: Seq<int>| #[trigger] inner_walk(iso, w2) && entry_reached(t0, a, w2.last()) ==> walk_cost(a, w) <= walk_cost(a, w2))
        && b.len() == a.len()
        && (forall|p: int| 0 <= p < a.len() ==> #[trigger] b[p] == (if w.contains(p) && !walkable(a[p]) { TileKind::Floor } else { a[p] }))
}

/// `ts` starts at `t0` and each next entry is a carving step from the
/// corresponding tile of `isos`.
pub open spec fn carve_chain(t0: Seq<TileKind>, ts: Seq<Seq<TileKind>>, isos: Seq<usize>) -> bool {
    &&& ts.len() == isos.len() + 1
    &&& ts[0] == t0
    &&& forall|k: int| 0 <= k < isos.len() ==> #[trigger] carve_step(t0, ts[k], ts[k + 1], isos[k] as int)
}

/// No tile between `a` and `b` lies inside: the list does not grow there.
proof fn lemma_unreached_skip(t0: Seq<TileKind>, a: int, b: int)
    requires
        0 <= a <= b,
        forall|p: int| a <= p < b ==> !inside(p),
    ensures
        unreached_upto(t0, b) == unreached_upto(t0, a),
    decreases b - a,
{
    if a < b {
        lemma_unreached_skip(t0, a, b - 1);
        assert(!inside(b - 1));
        assert(unreached_upto(t0, b) =~= unreached_upto(t0, b - 1));
    }
}

/// Tile `e` is the entry of a door open in `t0`.
pub open spec fn is_entry(t0: Seq<TileKind>, e: int) -> bool {
    exists|jj: int| 0 <= jj < 4 && #[trigger] open_entry(t0, jj) == Some(e)
}

/// Walking from the listed entries is walking from the entries of the
/// doors open in `t0`.
proof fn lemma_entries_reach(t0: Seq<TileKind>, entries: Seq<usize>, a: Seq<TileKind>, p: int)
    requires
        forall|q: int| 0 <= q < entries.len() ==> #[trigger] is_entry(t0, entries[q] as int),
        forall|jj: int| 0 <= jj < 4 && #[trigger] open_entry(t0, jj) is Some ==> entries.contains(open_entry(t0, jj).unwrap() as usize),
        forall|q: int| 0 <= q < entries.len() ==> #[trigger] entries[q] < 121,
        t0.len() == 121,
    ensures
        (exists|q: int| 0 <= q < entries.len() && #[trigger] walk_reaches(a, entries[q] as int, p)) <==> entry_reached(t0, a, p),
{
    if exists|q: int| 0 <= q < entries.len() && #[trigger] walk_reaches(a, entries[q] as int, p) {
        let q = choose|q: int| 0 <= q < entries.len() && #[trigger] walk_reaches(a, entries[q] as int, p);
        assert(is_entry(t0, entries[q] as int));
        let jj = choose|jj: int| 0 <= jj < 4 && #[trigger] open_entry(t0, jj) == Some(entries[q] as int);
        assert(open_entry(t0, jj) is Some && walk_reaches(a, open_entry(t0, jj).unwrap(), p));
    }
    if entry_reached(t0, a, p) {
        let jj = choose|jj: int| 0 <= jj < 4 && #[trigger] open_entry(t0, jj) is Some && walk_reaches(a, open_entry(t0, jj).unwrap(), p);
        lemma_first_entry_door(t0, jj);
        assert(0 <= inward(jj) < 121);
        assert(entries.contains(open_entry(t0, jj).unwrap() as usize));
        let q = choose|q: int| 0 <= q < entries.len() && entries[q] == open_entry(t0, jj).unwrap() as usize;
        assert(entries[q] as int == open_entry(t0, jj).unwrap()) by {
            assert(is_entry(t0, entries[q] as int));
            let jq = choose|jk: int| 0 <= jk < 4 && #[trigger] open_entry(t0, jk) == Some(entries[q] as int);
        }
        assert(walk_reaches(a, entries[q] as int, p));
    }
}

/// With every walkable interior tile reached, nothing is left unreached.
proof fn lemma_unreached_empty(t0: Seq<TileKind>, m: int)
    requires
        forall|p: int| #[trigger] inside(p) && walkable(t0[p]) ==> entry_reached(t0, t0, p),
    ensures
        unreached_upto(t0, m).len() == 0,
    decreases m,
{
    if m > 0 {
        lemma_unreached_empty(t0, m - 1);
        if inside(m - 1) && walkable(t0[m - 1]) {
            assert(entry_reached(t0, t0, m - 1));
        }
    }
}

/// Make every interior walkable tile reachable from the doors: for each
/// tile that no walk from a door entry reaches (in row-major order), carve
/// the cheapest path through obstacles to the reached tiles, then walk
/// again. A room without door entries, or whose walkable tiles are all
/// reached, is left as it is; otherwise the result is a chain of such
/// cheapest carvings, one from each tile that was unreached at the start.
#[verifier::rlimit(40)]
pub(crate) fn repair_connectivity(tiles: &mut [TileKind; TOTAL_TILES])
    requires
        tiles_framed(old(tiles)@),
    ensures
        tiles_framed(final(tiles)@),
        same_ring(old(tiles)@, final(tiles)@),
        plain_interior(old(tiles)@) ==> plain_interior(final(tiles)@),
        carved(old(tiles)@, final(tiles)@),
        has_entry(old(tiles)@) ==> all_reached(final(tiles)@),
        has_entry(old(tiles)@) ==> forall|p: int| #[trigger] inside(p) && walkable(final(tiles)@[p])
            ==> exists|jj: int| 0 <= jj < 4 && #[trigger] open_entry(old(tiles)@, jj) is Some
                && walk_reaches(final(tiles)@, open_entry(old(tiles)@, jj).unwrap(), p),
        !has_entry(old(tiles)@) ==> final(tiles)@ == old(tiles)@,
        all_reached(old(tiles)@) ==> final(tiles)@ == old(tiles)@,
        has_entry(old(tiles)@) ==> exists|ts: Seq<Seq<TileKind>>| #[trigger] carve_chain(old(tiles)@, ts, unreached_upto(old(tiles)@, 121))
            && ts.last() == final(tiles)@,
{
    let ghost t0 = tiles@;
    let mut entries: Vec<usize> = Vec::new();
    let doors: [(usize, usize); 4] = [(5, 0), (5, 10), (10, 5), (0, 5)];
    let mut j: usize = 0;
    while j < 4
        invariant
            tiles@ == t0,
            j <= 4,
            doors@ == seq![(5usize, 0usize), (5usize, 10usize), (10usize, 5usize), (0usize, 5usize)],
            forall|q: int| 0 <= q < entries@.len() ==> #[trigger] inside(entries@[q] as int) && walkable(t0[entries@[q] as int]),
            forall|q: int| 0 <= q < entries@.len() ==> #[trigger] entries@[q] < 121,
            forall|q: int| 0 <= q < entries@.len() ==> exists|jj: int| 0 <= jj < j && #[trigger] open_entry(t0, jj) == Some(#[trigger] entries@[q] as int),
            forall|jj: int| 0 <= jj < j && #[trigger] open_entry(t0, jj) is Some ==> entries@.contains(open_entry(t0, jj).unwrap() as usize),
        decreases 4 - j,
    {
        let (dc, dr) = doors[j];
        assert(door_spot(j as int) == (dc as int, dr as int));
        let ghost en0 = entries@;
        if tiles[tile_index(dc, dr)] != TileKind::Wall {
            match door_entry(tiles, dc, dr) {
                Some(e) => {
                    entries.push(e);
                    proof {
                        assert(open_entry(t0, j as int) == Some(e as int));
                        assert(entries@[entries@.len() - 1] == e);
                    }
                },
                None => {
                    assert(open_entry(t0, j as int) is None);
                },
            }
        } else {
            assert(open_entry(t0, j as int) is None);
        }
        proof {
            assert forall|jj: int| 0 <= jj < j + 1 && #[trigger] open_entry(t0, jj) is Some implies entries@.contains(open_entry(t0, jj).unwrap() as usize) by {
                if jj == j {
                    assert(entries@[entries@.len() - 1] == open_entry(t0, jj).unwrap() as usize);
                } else {
                    let q = choose|q: int| 0 <= q < en0.len() && en0[q] == open_entry(t0, jj).unwrap() as usize;
                    assert(entries@[q] == en0[q]);
                }
            }
            assert forall|q: int| 0 <= q < entries@.len() implies exists|jj: int| 0 <= jj < j + 1 && #[trigger] open_entry(t0, jj) == Some(#[trigger] entries@[q] as int) by {
                if q < en0.len() {
                    assert(entries@[q] == en0[q]);
                    let jj = choose|jj: int| 0 <= jj < j && #[trigger] open_entry(t0, jj) == Some(en0[q] as int);
                    assert(open_entry(t0, jj) == Some(entries@[q] as int));
                } else {
                    assert(open_entry(t0, j as int) == Some(entries@[q] as int));
                }
            }
        }
        j = j + 1;
    }
    proof {
        assert forall|q: int| 0 <= q < entries@.len() implies #[trigger] is_entry(t0, entries@[q] as int) by {
            assert(entries@[q] < 121);
        }
        assert forall|a: Seq<TileKind>, p: int| #[trigger] entry_reached(t0, a, p)
            == (exists|q: int| 0 <= q < entries@.len() && #[trigger] walk_reaches(a, entries@[q] as int, p)) by {
            lemma_entries_reach(t0, entries@, a, p);
        }
    }
    if entries.len() == 0 {
        proof {
            if has_entry(t0) {
                let jj = choose|jj: int| 0 <= jj < 4 && #[trigger] open_entry(t0, jj) is Some;
                assert(entries@.contains(open_entry(t0, jj).unwrap() as usize));
            }
            assert(carved(t0, tiles@)) by {
                assert forall|q: int| 0 <= q < t0.len() implies #[trigger] tiles@[q] == t0[q] || (!walkable(t0[q]) && tiles@[q] is Floor) by {}
            }
        }
        return;
    }
    let mut reachable = flood_from_all(tiles, &entries);
    proof {
        assert forall|p: int| 0 <= p < 121 implies (#[trigger] reachable@[p] <==> entry_reached(t0, t0, p)) by {
            assert(entry_reached(t0, t0, p) == (exists|q: int| 0 <= q < entries@.len() && #[trigger] walk_reaches(t0, entries@[q] as int, p)));
        }
        assert forall|p: int| 0 <= p < 12 implies !inside(p) by {
            assert(p / 11 == 0 || p == 11);
        }
        lemma_unreached_skip(t0, 0, 12);
        assert(unreached_upto(t0, 0) =~= Seq::<usize>::empty());
    }
    let mut isolated: Vec<usize> = Vec::new();
    let mut row: usize = 1;
    while row <= 9
        invariant
            tiles@ == t0,
            tiles_framed(t0),
            1 <= row <= 10,
            forall|q: int| 0 <= q < isolated@.len() ==> inside((#[trigger] isolated@[q]) as int) && walkable(t0[isolated@[q] as int]),
            forall|p: int| #[trigger] inside(p) && p < tix(1, row as int) && walkable(t0[p]) && !reachable@[p] ==> isolated@.contains(p as usize),
            forall|p: int| 0 <= p < 121 ==> (#[trigger] reachable@[p] <==> entry_reached(t0, t0, p)),
            isolated@ == unreached_upto(t0, tix(1, row as int)),
        decreases 10 - row,
    {
        let mut col: usize = 1;
        while col <= 9
            invariant
                tiles@ == t0,
                tiles_framed(t0),
                1 <= row <= 9,
                1 <= col <= 10,
                forall|q: int| 0 <= q < isolated@.len() ==> inside((#[trigger] isolated@[q]) as int) && walkable(t0[isolated@[q] as int]),
                forall|p: int| #[trigger] inside(p) && p < tix(col as int, row as int) && walkable(t0[p]) && !reachable@[p] ==> isolated@.contains(p as usize),
                forall|p: int| 0 <= p < 121 ==> (#[trigger] reachable@[p] <==> entry_reached(t0, t0, p)),
                isolated@ == unreached_upto(t0, tix(col as int, row as int)),
            decreases 10 - col,
        {
            let p = tile_index(col, row);
            let t = tiles[p];
            proof {
                assert(p % 11 == col && p / 11 == row) by (nonlinear_arith)
                    requires p == row * 11 + col, 1 <= col <= 9, 1 <= row <= 9;
                assert(t0[row * 11 + col] == t);
                assert(!door_kind(t));
            }
            let ghost iso0 = isolated@;
            if t.is_walkable() && t != TileKind::Door && t != TileKind::LockedDoor && t != TileKind::SwitchDoor && !reachable[p] {
                isolated.push(p);
                proof {
                    assert(isolated@[isolated@.len() - 1] == p);
                }
            }
            proof {
                assert(inside(p as int));
                assert(tix(col as int + 1, row as int) == p + 1);
                assert(isolated@ =~= unreached_upto(t0, p + 1));
                assert forall|x: int| #[trigger] inside(x) && x < tix(col as int + 1, row as int) && walkable(t0[x]) && !reachable@[x] implies isolated@.contains(x as usize) by {
                    if x == p {
                        assert(isolated@[isolated@.len() - 1] == p);
                    } else {
                        assert(iso0.contains(x as usize));
                        let i = choose|i: int| 0 <= i < iso0.len() && iso0[i] == x as usize;
                        assert(isolated@[i] == iso0[i]);
                    }
                }
            }
            col = col + 1;
        }
        proof {
            assert forall|p: int| tix(10, row as int) <= p < tix(1, row as int + 1) implies !inside(p) by {
                assert(p == row * 11 + 10 || p == (row + 1) * 11);
                assert((row * 11 + 10) % 11 == 10 && ((row + 1) * 11) % 11 == 0) by (nonlinear_arith)
                    requires 1 <= row <= 9;
            }
            lemma_unreached_skip(t0, tix(10, row as int), tix(1, row as int + 1));
            assert forall|p: int| #[trigger] inside(p) && p < tix(1, row as int + 1) && walkable(t0[p]) && !reachable@[p] implies isolated@.contains(p as usize) by {
                if p >= tix(10, row as int) {
                    assert(p == row * 11 + 10 || p == (row + 1) * 11);
                    assert((row * 11 + 10) % 11 == 10 && ((row + 1) * 11) % 11 == 0) by (nonlinear_arith)
                        requires 1 <= row <= 9;
                }
            }
        }
        row = row + 1;
    }
    proof {
        assert forall|p: int| #[trigger] inside(p) && walkable(tiles@[p]) implies reachable@[p]
            || exists|kk: int| 0 <= kk < isolated@.len() && isolated@[kk] == p as usize by {
            assert(p < tix(1, 10)) by (nonlinear_arith)
                requires 0 <= p < 121, 1 <= p / 11 <= 9;
            if !reachable@[p] {
                assert(isolated@.contains(p as usize));
            }
        }
        assert(carved(t0, tiles@)) by {
            assert forall|q: int| 0 <= q < t0.len() implies #[trigger] tiles@[q] == t0[q] || (!walkable(t0[q]) && tiles@[q] is Floor) by {}
        }
    }
    let ghost mut ts: Seq<Seq<TileKind>> = seq![t0];
    proof {
        assert forall|p: int| tix(1, 10) <= p < 121 implies !inside(p) by {
            assert(p / 11 == 10);
        }
        lemma_unreached_skip(t0, tix(1, 10), 121);
    }
    let mut k: usize = 0;
    while k < isolated.len()
        invariant
            k <= isolated@.len(),
            entries@.len() > 0,
            tiles_framed(tiles@),
            same_ring(t0, tiles@),
            plain_interior(t0) ==> plain_interior(tiles@),
            carved(t0, tiles@),
            forall|q: int| 0 <= q < isolated@.len() ==> inside((#[trigger] isolated@[q]) as int) && walkable(t0[isolated@[q] as int]),
            forall|q: int| 0 <= q < entries@.len() ==> #[trigger] inside(entries@[q] as int) && walkable(t0[entries@[q] as int]),
            forall|q: int| 0 <= q < entries@.len() ==> #[trigger] entries@[q] < 121,
            forall|p: int| 0 <= p < 121 ==> (#[trigger] reachable@[p] <==> exists|q: int| 0 <= q < entries@.len() && #[trigger] walk_reaches(tiles@, entries@[q] as int, p)),
            forall|p: int| #[trigger] inside(p) && walkable(tiles@[p]) ==> reachable@[p]
                || exists|kk: int| k <= kk < isolated@.len() && isolated@[kk] == p as usize,
            t0.len() == 121,
            forall|a: Seq<TileKind>, p: int| #[trigger] entry_reached(t0, a, p)
                == (exists|q: int| 0 <= q < entries@.len() && #[trigger] walk_reaches(a, entries@[q] as int, p)),
            isolated@ == unreached_upto(t0, 121),
            isolated@.len() == 0 ==> tiles@ == t0,
            ts.len() == k + 1,
            ts[0] == t0,
            ts[k as int] == tiles@,
            forall|i: int| 0 <= i < k ==> #[trigger] carve_step(t0, ts[i], ts[i + 1], isolated@[i] as int),
        decreases isolated@.len() - k,
    {
        let ghost t1 = tiles@;
        let ghost r1 = reachable@;
        let iso = isolated[k];
        proof {
            let e0 = entries@[0] as int;
            assert(0 <= e0 < 121);
            lemma_reach_self(t1, e0);
            assert(walk_reaches(t1, entries@[0] as int, e0));
            assert(r1[e0]);
            assert(inside(e0) && r1[e0]);
        }
        carve_path_to_reachable(tiles, iso, &reachable);
        let ghost t2 = tiles@;
        proof {
            lemma_carved_trans(t0, t1, t2);
        }
        reachable = flood_from_all(tiles, &entries);
        proof {
            let (g, w) = choose|g: int, w: Seq<int>|
                #![trigger tile_walk(t2, iso as int, w), r1[g]]
                0 <= g < 121 && r1[g] && tile_walk(t2, iso as int, w) && w.last() == g
                && (forall|p: int| 0 <= p < 121 && t2[p] != t1[p] ==> #[trigger] w.contains(p))
                && inner_walk(iso as int, w)
                && (forall|w2: Seq<int>| #[trigger] inner_walk(iso as int, w2) && r1[w2.last()]
                    ==> walk_cost(t1, w) <= walk_cost(t1, w2));
            assert(carve_step(t0, t1, t2, iso as int)) by {
                assert(entry_reached(t0, t1, g));
                assert forall|w2: Seq<int>| #[trigger] inner_walk(iso as int, w2) && entry_reached(t0, t1, w2.last())
                    implies walk_cost(t1, w) <= walk_cost(t1, w2) by {
                    assert(inside(w2[w2.len() - 1]));
                    assert(r1[w2.last()]);
                }
                assert forall|p: int| 0 <= p < t1.len() implies #[trigger] t2[p] == (if w.contains(p) && !walkable(t1[p]) { TileKind::Floor } else { t1[p] }) by {
                    if w.contains(p) && !walkable(t1[p]) {
                        let i = choose|i: int| 0 <= i < w.len() && w[i] == p;
                        if i == 0 {
                            assert(walkable(t0[iso as int]));
                            assert(t1[iso as int] == t0[iso as int] || (!walkable(t0[iso as int]) && t1[iso as int] is Floor));
                        } else {
                            assert(walk_step(t2, w, i));
                        }
                    }
                }
            }
            let ts1 = ts.push(t2);
            assert forall|i: int| 0 <= i < k + 1 implies #[trigger] carve_step(t0, ts1[i], ts1[i + 1], isolated@[i] as int) by {
                if i < k {
                    assert(ts1[i] == ts[i] && ts1[i + 1] == ts[i + 1]);
                } else {
                    assert(ts1[i] == t1 && ts1[i + 1] == t2);
                }
            }
            ts = ts1;
            let q0 = choose|q: int| 0 <= q < entries@.len() && #[trigger] walk_reaches(t1, entries@[q] as int, g);
            let e = entries@[q0] as int;
            let we = choose|we: Seq<int>| #[trigger] tile_walk(t1, e, we) && we.last() == g;
            lemma_walk_carved(t1, t2, e, we);
            assert(walk_reaches(t2, e, g));
            assert forall|p: int| #[trigger] inside(p) && walkable(t2[p]) implies reachable@[p]
                || exists|kk: int| k + 1 <= kk < isolated@.len() && isolated@[kk] == p as usize by {
                if t2[p] != t1[p] {
                    assert(w.contains(p));
                    let i = choose|i: int| 0 <= i < w.len() && w[i] == p;
                    lemma_walk_skip(t2, iso as int, w, i);
                    lemma_walk_reverse(t2, p, w.skip(i));
                    assert(walk_reaches(t2, g, p));
                    lemma_reach_trans(t2, e, g, p);
                    assert(reachable@[p]);
                } else if r1[p] {
                    let q1 = choose|q: int| 0 <= q < entries@.len() && #[trigger] walk_reaches(t1, entries@[q] as int, p);
                    let w1 = choose|w1: Seq<int>| #[trigger] tile_walk(t1, entries@[q1] as int, w1) && w1.last() == p;
                    lemma_walk_carved(t1, t2, entries@[q1] as int, w1);
                    assert(walk_reaches(t2, entries@[q1] as int, p));
                } else {
                    let kk = choose|kk: int| k <= kk < isolated@.len() && isolated@[kk] == p as usize;
                    if kk == k {
                        assert(p == iso as int);
                        lemma_walk_reverse(t2, p, w);
                        assert(walk_reaches(t2, g, p));
                        lemma_reach_trans(t2, e, g, p);
                        assert(reachable@[p]);
                    }
                }
            }
        }
        k = k + 1;
    }
    proof {
        assert(carve_chain(t0, ts, unreached_upto(t0, 121)) && ts.last() == tiles@);
        if all_reached(t0) {
            assert forall|p: int| #[trigger] inside(p) && walkable(t0[p]) implies entry_reached(t0, t0, p) by {
                assert(door_reached(t0, p));
            }
            lemma_unreached_empty(t0, 121);
        }
    }
    proof {
        let tf = tiles@;
        assert(entries@[0] < 121);
        let jj0 = choose|jj: int| 0 <= jj < 4 && #[trigger] open_entry(t0, jj) == Some(entries@[0] as int);
        assert(has_entry(t0));
        assert forall|jj: int| 0 <= jj < 4 && #[trigger] open_entry(t0, jj) is Some implies open_entry(tf, jj) == open_entry(t0, jj) by {
            lemma_first_entry_door(t0, jj);
            lemma_first_entry_door(tf, jj);
            let (dc, dr) = door_spot(jj);
            assert(!interior(dc, dr));
            assert(tf[dr * 11 + dc] == t0[dr * 11 + dc]);
            assert(tf[inward(jj)] == t0[inward(jj)] || tf[inward(jj)] is Floor);
        }
        assert forall|p: int| #[trigger] inside(p) && walkable(tf[p]) implies door_reached(tf, p) by {
            assert(reachable@[p]);
            let q = choose|q: int| 0 <= q < entries@.len() && #[trigger] walk_reaches(tf, entries@[q] as int, p);
            let jj = choose|jj: int| 0 <= jj < 4 && #[trigger] open_entry(t0, jj) == Some(entries@[q] as int);
            assert(open_entry(tf, jj) == open_entry(t0, jj));
        }
        assert forall|p: int| #[trigger] inside(p) && walkable(tf[p]) implies exists|jj: int| 0 <= jj < 4
            && #[trigger] open_entry(t0, jj) is Some && walk_reaches(tf, open_entry(t0, jj).unwrap(), p) by {
            assert(reachable@[p]);
            let q = choose|q: int| 0 <= q < entries@.len() && #[trigger] walk_reaches(tf, entries@[q] as int, p);
            let jj = choose|jj: int| 0 <= jj < 4 && #[trigger] open_entry(t0, jj) == Some(entries@[q] as int);
            assert(open_entry(t0, jj) is Some);
        }
    }
}


} // verus!
