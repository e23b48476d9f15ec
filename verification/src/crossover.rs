//! Constrained crossover: two trees exchange a subtree each.
use vstd::prelude::*;

use crate::room::{Room, RoomKind};
use crate::rng::{Rng, RngState, fisher_yates};
use crate::grid::DungeonGrid;
use crate::tree::{DungeonTree, parent_listed_before, lemma_parent_unique, lemma_ancestor_le, renumbered_kind, same_shape, lemma_same_shape, seen_keys, special_kinds, is_bfs_from, stack_walk};
use crate::pathfinding::{bool_vec, lemma_permutation_members};

verus! {

// ── Specification of a graft ───────────────────────────────────────────────

/// `ord` lists the subtree of `t` rooted at `c`, each room once, the root
/// first and every later room after its parent, and it is closed under
/// taking children.
pub open spec fn subtree_listing(t: DungeonTree, c: int, ord: Seq<usize>) -> bool {
    &&& 0 < ord.len() <= t.n()
    &&& ord[0] == c
    &&& ord.no_duplicates()
    &&& forall|m: int| 0 <= m < ord.len() ==> #[trigger] ord[m] < t.n()
    &&& ord.to_set() == t.subtree_set(c)
    &&& forall|m: int| 0 < m < ord.len() ==> #[trigger] parent_listed_before(t, ord, m)
    &&& forall|j: int, k: int|
        0 <= j < ord.len() && 0 <= k < t.kids(ord[j] as int).len() ==> ord.contains(
            #[trigger] t.kids(ord[j] as int)[k],
        )
}

/// Children of a copied room, renamed to the slots of the copies: the room
/// listed at position `m` of `ord` lands at index `base + m`.
pub open spec fn renamed_kids(kids: Seq<usize>, ord: Seq<usize>, base: int) -> Seq<usize> {
    kids.map_values(|c: usize| (base + ord.index_of(c)) as usize)
}

/// The children room `i` of `x` keeps when the subtree at `cx` is cut out
/// and a new room `n` takes its place: the rooms of the cut subtree lose
/// their children, and `cx`'s parent lists `n` where it listed `cx`.
pub open spec fn kept_kids(x: DungeonTree, cx: int, n: int, i: int) -> Seq<usize> {
    if x.subtree_set(cx).contains(i as usize) {
        Seq::<usize>::empty()
    } else if x.has_parent(cx) && i == x.parent(cx) {
        x.kids(i).map_values(|c: usize| if c == cx as usize { n as usize } else { c })
    } else {
        x.kids(i)
    }
}

/// Room `r` is the copy of the donor room listed at position `j` of `ord`,
/// placed at index `base + j`.
pub open spec fn moved_room(y: DungeonTree, ord: Seq<usize>, base: int, j: int, r: Room) -> bool {
    let src = y.rooms@[ord[j] as int];
    &&& r.id == base + j
    &&& r.kind == src.kind
    &&& r.grid_pos == src.grid_pos
    &&& r.children@ == renamed_kids(src.children@, ord, base)
    &&& j > 0 ==> r.direction == src.direction && r.depth == src.depth
}

/// `s` is `x` with its subtree at `cx` replaced by a copy of the subtree of
/// `y` at `cy`: the copies are appended after the rooms of `x` in the order
/// `ord`, the copy of `cy` takes the place of `cx` among the children of
/// `cx`'s parent (and, when there is such a parent, `cx`'s direction and
/// depth), and the rooms of the cut subtree stay in the arena without
/// children.
pub open spec fn grafted(x: DungeonTree, y: DungeonTree, cx: int, cy: int, ord: Seq<usize>, s: DungeonTree) -> bool {
    let n = x.n();
    &&& subtree_listing(y, cy, ord)
    &&& s.n() == n + ord.len()
    &&& s.root == x.root
    &&& forall|i: int| 0 <= i < n ==> {
        &&& (#[trigger] s.rooms@[i]).id == x.rooms@[i].id
        &&& s.rooms@[i].kind == x.rooms@[i].kind
        &&& s.rooms@[i].direction == x.rooms@[i].direction
        &&& s.rooms@[i].depth == x.rooms@[i].depth
        &&& s.rooms@[i].grid_pos == x.rooms@[i].grid_pos
        &&& s.kids(i) == kept_kids(x, cx, n, i)
    }
    &&& forall|i: int| n <= i < s.n() ==> moved_room(y, ord, n, i - n, #[trigger] s.rooms@[i])
    &&& s.rooms@[n].direction == (if x.has_parent(cx) { x.rooms@[cx].direction } else { y.rooms@[cy].direction })
    &&& s.rooms@[n].depth == (if x.has_parent(cx) { x.rooms@[cx].depth } else { y.rooms@[cy].depth })
}

// ── Lemmas ─────────────────────────────────────────────────────────────────

proof fn lemma_index_of_unique(s: Seq<usize>, p: int)
    requires
        s.no_duplicates(),
        0 <= p < s.len(),
    ensures
        s.index_of(s[p]) == p,
{
    assert(0 <= p < s.len() && s[p] == s[p]);
    let i = s.index_of(s[p]);
    assert(0 <= i < s.len() && s[i] == s[p]);
}

/// A child of a listed room is listed later, never first.
proof fn lemma_listed_child_later(t: DungeonTree, c: int, ord: Seq<usize>, j: int, k: int)
    requires
        t.wf(),
        0 <= c < t.n(),
        subtree_listing(t, c, ord),
        0 <= j < ord.len(),
        0 <= k < t.kids(ord[j] as int).len(),
    ensures
        ord.contains(t.kids(ord[j] as int)[k]),
        j < ord.index_of(t.kids(ord[j] as int)[k]) < ord.len(),
        ord[ord.index_of(t.kids(ord[j] as int)[k])] == t.kids(ord[j] as int)[k],
{
    let v = ord[j];
    let ch = t.kids(v as int)[k];
    assert(ord.contains(ch));
    let m = choose|m: int| 0 <= m < ord.len() && ord[m] == ch;
    lemma_index_of_unique(ord, m);
    assert(t.is_child(v as int, ch as int));
    lemma_parent_unique(t, v as int, ch as int);
    if m == 0 {
        assert(ord.to_set().contains(v));
        assert(t.subtree_set(c).contains(v));
        lemma_ancestor_le(t, c, v as int);
        assert(false);
    }
    assert(parent_listed_before(t, ord, m));
    let q = choose|q: int| 0 <= q < m && ord.take(m)[q] == t.parent(ch as int) as usize;
    assert(ord[q] == ord[j]);
}

/// A graft of well-formed trees is well formed.
proof fn lemma_grafted_wf(x: DungeonTree, y: DungeonTree, cx: int, cy: int, ord: Seq<usize>, s: DungeonTree)
    requires
        x.wf(),
        y.wf(),
        0 <= cx < x.n(),
        0 <= cy < y.n(),
        grafted(x, y, cx, cy, ord, s),
    ensures
        s.wf(),
{
    let n = x.n();
    assert forall|i: int| 0 <= i < s.n() implies (#[trigger] s.rooms@[i]).id == i by {
        if i >= n {
            assert(moved_room(y, ord, n, i - n, s.rooms@[i]));
        }
    }
    // Children of the copied rooms land strictly after their parents.
    assert forall|i: int, k: int| n <= i < s.n() && 0 <= k < s.kids(i).len() implies
        n + 1 <= #[trigger] s.kids(i)[k] < s.n() && i < s.kids(i)[k]
        && s.kids(i)[k] == n + ord.index_of(y.kids(ord[i - n] as int)[k])
        && ord[ord.index_of(y.kids(ord[i - n] as int)[k])] == y.kids(ord[i - n] as int)[k] by {
        assert(moved_room(y, ord, n, i - n, s.rooms@[i]));
        let src = y.rooms@[ord[i - n] as int];
        assert(s.kids(i) == renamed_kids(src.children@, ord, n));
        assert(k < src.children@.len());
        lemma_listed_child_later(y, cy, ord, i - n, k);
        let m = ord.index_of(y.kids(ord[i - n] as int)[k]);
        assert(s.kids(i)[k] == (n + m) as usize);
        assert(n + m < s.n());
        assert(s.rooms@.len() == s.rooms.len());
    }
    // Children of the kept rooms.
    assert forall|i: int, k: int| 0 <= i < n && 0 <= k < s.kids(i).len() implies
        i < #[trigger] s.kids(i)[k] <= n
        && (s.kids(i)[k] == n ==> x.has_parent(cx) && i == x.parent(cx) && x.kids(i)[k] == cx)
        && (s.kids(i)[k] < n ==> s.kids(i)[k] == x.kids(i)[k]) by {
        assert(s.kids(i) == kept_kids(x, cx, n, i));
        if x.has_parent(cx) && i == x.parent(cx) && !x.subtree_set(cx).contains(i as usize) {
            assert(s.kids(i)[k] == (if x.kids(i)[k] == cx as usize { n as usize } else { x.kids(i)[k] }));
        }
    }
    assert forall|i: int, k: int| 0 <= i < s.n() && 0 <= k < s.kids(i).len() implies i < #[trigger] s.kids(i)[k] < s.n() by {
        if i < n {
            assert(s.kids(i)[k] <= n);
        }
    }
    assert forall|i: int, k1: int, j: int, k2: int|
        0 <= i < s.n() && 0 <= j < s.n() && 0 <= k1 < s.kids(i).len() && 0 <= k2 < s.kids(j).len()
            && #[trigger] s.kids(i)[k1] == #[trigger] s.kids(j)[k2] implies i == j && k1 == k2 by {
        let v = s.kids(i)[k1];
        if i < n && j < n {
            if v == n {
                assert(x.kids(i)[k1] == x.kids(j)[k2]);
            } else {
                assert(x.kids(i)[k1] == x.kids(j)[k2]);
            }
        } else if i >= n && j >= n {
            let c1 = y.kids(ord[i - n] as int)[k1];
            let c2 = y.kids(ord[j - n] as int)[k2];
            assert(ord[ord.index_of(c1)] == c1);
            assert(ord[ord.index_of(c2)] == c2);
            assert(c1 == c2);
            assert(ord[i - n] == ord[j - n]);
        }
    }
}

// ── Building a graft ───────────────────────────────────────────────────────

/// Position of `x` in `v`.
fn id_position(v: &Vec<usize>, x: usize) -> (r: Option<usize>)
    ensures
        match r {
            Some(i) => i < v@.len() && v@[i as int] == x,
            None => !v@.contains(x),
        },
{
    let mut i: usize = 0;
    while i < v.len()
        invariant
            i <= v@.len(),
            forall|j: int| 0 <= j < i ==> v@[j] != x,
        decreases v@.len() - i,
    {
        if v[i] == x {
            return Some(i);
        }
        i = i + 1;
    }
    None
}

/// `kids` with each entry renamed to `base` plus its position in `ord`.
fn renamed_children(kids: &Vec<usize>, ord: &Vec<usize>, base: usize) -> (r: Vec<usize>)
    requires
        ord@.no_duplicates(),
        base + ord@.len() <= usize::MAX,
        forall|k: int| 0 <= k < kids@.len() ==> ord@.contains(#[trigger] kids@[k]),
    ensures
        r@ == renamed_kids(kids@, ord@, base as int),
{
    let mut r: Vec<usize> = Vec::new();
    let mut k: usize = 0;
    while k < kids.len()
        invariant
            ord@.no_duplicates(),
            base + ord@.len() <= usize::MAX,
            forall|k: int| 0 <= k < kids@.len() ==> ord@.contains(#[trigger] kids@[k]),
            k <= kids@.len(),
            r@ == renamed_kids(kids@.take(k as int), ord@, base as int),
        decreases kids@.len() - k,
    {
        let c = kids[k];
        assert(ord@.contains(kids@[k as int]));
        let p = match id_position(ord, c) {
            Some(p) => p,
            None => 0,
        };
        proof {
            lemma_index_of_unique(ord@, p as int);
            assert(kids@.take(k as int + 1) =~= kids@.take(k as int).push(c));
        }
        r.push(base + p);
        k = k + 1;
    }
    proof {
        assert(kids@.take(kids@.len() as int) =~= kids@);
    }
    r
}

/// `kids` with `old` replaced by `new`.
fn replaced_children(kids: &Vec<usize>, old: usize, new: usize) -> (r: Vec<usize>)
    ensures
        r@ == kids@.map_values(|c: usize| if c == old { new } else { c }),
{
    let mut r: Vec<usize> = Vec::new();
    let mut k: usize = 0;
    while k < kids.len()
        invariant
            k <= kids@.len(),
            r@ == kids@.take(k as int).map_values(|c: usize| if c == old { new } else { c }),
        decreases kids@.len() - k,
    {
        let c = kids[k];
        proof {
            assert(kids@.take(k as int + 1) =~= kids@.take(k as int).push(c));
        }
        if c == old {
            r.push(new);
        } else {
            r.push(c);
        }
        k = k + 1;
    }
    proof {
        assert(kids@.take(kids@.len() as int) =~= kids@);
    }
    r
}

/// A new tree: `x` with its subtree at `cx` replaced by a copy of the
/// subtree of `y` at `cy` (see [`grafted`]).
fn grafted_tree(x: &DungeonTree, cx: usize, y: &DungeonTree, cy: usize) -> (s: DungeonTree)
    requires
        x.wf(),
        y.wf(),
        cx < x.n(),
        cy < y.n(),
        x.n() + y.n() <= usize::MAX,
    ensures
        s.wf(),
        exists|ord: Seq<usize>| grafted(*x, *y, cx as int, cy as int, ord, s),
        grafted(*x, *y, cx as int, cy as int, stack_walk(*y, seq![cy], y.n() as nat).0, s),
{
    let n = x.rooms.len();
    let ord = y.subtree_ids(cy);
    let cut = x.subtree_ids(cx);
    let mut in_cut = bool_vec(n);
    let mut m: usize = 0;
    while m < cut.len()
        invariant
            n == x.n(),
            in_cut@.len() == n,
            m <= cut@.len(),
            forall|q: int| 0 <= q < cut@.len() ==> #[trigger] cut@[q] < x.n(),
            forall|i: int| 0 <= i < n ==> (#[trigger] in_cut@[i] <==> cut@.take(m as int).contains(i as usize)),
        decreases cut@.len() - m,
    {
        let v = cut[m];
        in_cut.set(v, true);
        proof {
            let pre = cut@.take(m as int);
            assert(cut@.take(m as int + 1) =~= pre.push(v));
            assert forall|i: int| 0 <= i < n implies (#[trigger] in_cut@[i] <==> pre.push(v).contains(i as usize)) by {
                if pre.contains(i as usize) {
                    let q = choose|q: int| 0 <= q < pre.len() && pre[q] == i as usize;
                    assert(pre.push(v)[q] == i as usize);
                }
                if pre.push(v).contains(i as usize) && i as usize != v {
                    let q = choose|q: int| 0 <= q < pre.len() + 1 && pre.push(v)[q] == i as usize;
                    assert(pre[q] == i as usize);
                }
                if i as usize == v {
                    assert(pre.push(v)[pre.len() as int] == v);
                }
            }
        }
        m = m + 1;
    }
    proof {
        assert(cut@.take(cut@.len() as int) =~= cut@);
        assert(forall|i: int| 0 <= i < n ==> (#[trigger] in_cut@[i] <==> x.subtree_set(cx as int).contains(i as usize)));
    }
    let parent = x.parent_of(cx);
    let mut rooms: Vec<Room> = Vec::new();
    let mut i: usize = 0;
    while i < n
        invariant
            x.wf(),
            n == x.n(),
            cx < n,
            in_cut@.len() == n,
            forall|i: int| 0 <= i < n ==> (#[trigger] in_cut@[i] <==> x.subtree_set(cx as int).contains(i as usize)),
            parent == (if cx == x.root || !x.has_parent(cx as int) { None::<usize> } else { Some(x.parent(cx as int) as usize) }),
            i <= n,
            rooms@.len() == i,
            forall|k: int| 0 <= k < i ==> {
                &&& (#[trigger] rooms@[k]).id == x.rooms@[k].id
                &&& rooms@[k].kind == x.rooms@[k].kind
                &&& rooms@[k].direction == x.rooms@[k].direction
                &&& rooms@[k].depth == x.rooms@[k].depth
                &&& rooms@[k].grid_pos == x.rooms@[k].grid_pos
                &&& rooms@[k].children@ == kept_kids(*x, cx as int, n as int, k)
            },
        decreases n - i,
    {
        let mut room = x.rooms[i].duplicate();
        if in_cut[i] {
            room.children = Vec::new();
        } else if parent == Some(i) {
            room.children = replaced_children(&x.rooms[i].children, cx, n);
        }
        proof {
            if !in_cut@[i as int] && parent != Some(i) {
                if x.has_parent(cx as int) && i == x.parent(cx as int) {
                    // cx is not the root here: the root has no parent in a well-formed arena.
                    assert(x.is_child(x.parent(cx as int), cx as int));
                    lemma_parent_unique(*x, x.parent(cx as int), cx as int);
                }
            }
        }
        rooms.push(room);
        i = i + 1;
    }
    let mut j: usize = 0;
    while j < ord.len()
        invariant
            x.wf(),
            y.wf(),
            n == x.n(),
            cx < n,
            cy < y.n(),
            x.n() + y.n() <= usize::MAX,
            ord@.len() <= y.n(),
            subtree_listing(*y, cy as int, ord@),
            parent == (if cx == x.root || !x.has_parent(cx as int) { None::<usize> } else { Some(x.parent(cx as int) as usize) }),
            j <= ord@.len(),
            rooms@.len() == n + j,
            forall|k: int| 0 <= k < n ==> {
                &&& (#[trigger] rooms@[k]).id == x.rooms@[k].id
                &&& rooms@[k].kind == x.rooms@[k].kind
                &&& rooms@[k].direction == x.rooms@[k].direction
                &&& rooms@[k].depth == x.rooms@[k].depth
                &&& rooms@[k].grid_pos == x.rooms@[k].grid_pos
                &&& rooms@[k].children@ == kept_kids(*x, cx as int, n as int, k)
            },
            forall|k: int| n <= k < n + j ==> moved_room(*y, ord@, n as int, k - n, #[trigger] rooms@[k]),
            j > 0 ==> rooms@[n as int].direction == (if x.has_parent(cx as int) { x.rooms@[cx as int].direction } else { y.rooms@[cy as int].direction }),
            j > 0 ==> rooms@[n as int].depth == (if x.has_parent(cx as int) { x.rooms@[cx as int].depth } else { y.rooms@[cy as int].depth }),
        decreases ord@.len() - j,
    {
        let v = ord[j];
        let mut room = y.rooms[v].duplicate();
        room.id = n + j;
        proof {
            assert forall|k: int| 0 <= k < y.kids(v as int).len() implies ord@.contains(#[trigger] y.rooms@[v as int].children@[k]) by {
                assert(y.kids(ord@[j as int] as int)[k] == y.rooms@[v as int].children@[k]);
            }
        }
        room.children = renamed_children(&y.rooms[v].children, &ord, n);
        if j == 0 {
            if parent.is_some() {
                room.direction = x.rooms[cx].direction;
                room.depth = x.rooms[cx].depth;
            }
            proof {
                if x.has_parent(cx as int) && cx == x.root {
                    assert(x.is_child(x.parent(cx as int), cx as int));
                    lemma_parent_unique(*x, x.parent(cx as int), cx as int);
                }
            }
        }
        rooms.push(room);
        j = j + 1;
    }
    let s = DungeonTree { rooms, root: x.root };
    proof {
        assert forall|i: int| 0 <= i < n implies s.kids(i) == kept_kids(*x, cx as int, n as int, i) by {
            assert(s.rooms@[i].children@ == kept_kids(*x, cx as int, n as int, i));
        }
        assert(grafted(*x, *y, cx as int, cy as int, ord@, s));
        lemma_grafted_wf(*x, *y, cx as int, cy as int, ord@, s);
    }
    s
}

// ── Crossover ──────────────────────────────────────────────────────────────

/// The subtree of `t` at `c` holds no key room and no locked room (no
/// special room, as [`DungeonTree::special_count_in_subtree`] counts).
pub open spec fn keyless_subtree(t: DungeonTree, c: int) -> bool {
    forall|i: usize| t.subtree_set(c).contains(i) ==> !((#[trigger] t.rooms@[i as int]).kind is Key || t.rooms@[i as int].kind is Locked)
}

/// `r` is `s` with the children the grid `g` did not place removed and the
/// key ids renumbered (see [`renumbered_kind`]), except that the cut room
/// `c` is refilled: it is normal or takes the kind of a non-normal room of
/// the subtree of `y` at `cy`.
pub open spec fn pruned_and_renumbered(s: DungeonTree, g: DungeonGrid, r: DungeonTree, c: int, y: DungeonTree, cy: int) -> bool {
    &&& r.n() == s.n()
    &&& r.root == s.root
    &&& forall|i: int| 0 <= i < s.n() ==> {
        &&& (#[trigger] r.rooms@[i]).id == s.rooms@[i].id
        &&& r.rooms@[i].direction == s.rooms@[i].direction
        &&& r.rooms@[i].depth == s.rooms@[i].depth
        &&& r.rooms@[i].grid_pos == s.rooms@[i].grid_pos
        &&& r.kids(i) == s.kids(i).filter(|c: usize| g.placed(c))
        &&& i != c ==> r.rooms@[i].kind == renumbered_kind(s.rooms@, i)
    }
    &&& r.rooms@[c].kind is Normal || exists|j: usize| #[trigger] y.subtree_set(cy).contains(j)
        && !(y.rooms@[j as int].kind is Normal) && y.rooms@[j as int].kind == r.rooms@[c].kind
}

/// `r` is what a successful crossover leaves in place of `x` when `x` is
/// cut at `cx` and `y` at `cy`: the graft of `y`'s subtree into `x`, pruned
/// by a decoding grid of the graft, with key ids renumbered and the
/// detached cut room refilled.
pub open spec fn crossed(x: DungeonTree, y: DungeonTree, cx: int, cy: int, r: DungeonTree) -> bool {
    exists|ord: Seq<usize>, s: DungeonTree, g: DungeonGrid|
        #![trigger grafted(x, y, cx, cy, ord, s), pruned_and_renumbered(s, g, r, cx, y, cy)]
        grafted(x, y, cx, cy, ord, s) && g.wf() && g.decodes(s) && pruned_and_renumbered(s, g, r, cx, y, cy)
}

/// A room without children is alone in its subtree.
proof fn lemma_leaf_subtree(t: DungeonTree, a: int, b: int)
    requires
        t.kids(a).len() == 0,
        t.is_ancestor(a, b),
    ensures
        b == a,
    decreases b,
{
    if a != b {
        let p = t.parent(b);
        lemma_leaf_subtree(t, a, p);
        assert(t.is_child(p, b));
    }
}

/// In a graft, the cut room (not the root) is listed by no room, so a
/// decoding grid does not place it, and its subtree is itself alone.
proof fn lemma_cut_unplaced(x: DungeonTree, y: DungeonTree, cx: int, cy: int, ord: Seq<usize>, s: DungeonTree, g: DungeonGrid)
    requires
        x.wf(),
        y.wf(),
        1 <= cx < x.n(),
        0 <= cy < y.n(),
        grafted(x, y, cx, cy, ord, s),
        s.wf(),
        g.decodes(s),
    ensures
        !g.placed(cx as usize),
        s.subtree_set(cx).filter(|c: usize| g.placed(c)) =~= Set::<usize>::empty(),
{
    let n = x.n();
    assert(x.is_ancestor(cx, cx));
    assert(x.subtree_set(cx).contains(cx as usize));
    assert(s.kids(cx) == kept_kids(x, cx, n, cx));
    assert(s.kids(cx).len() == 0);
    assert(!s.has_parent(cx)) by {
        if s.has_parent(cx) {
            let p = choose|p: int| #[trigger] s.is_child(p, cx);
            let k = choose|k: int| 0 <= k < s.kids(p).len() && #[trigger] s.kids(p)[k] == cx;
            if p >= n {
                assert(moved_room(y, ord, n, p - n, s.rooms@[p]));
                assert(s.kids(p)[k] > p);
            } else {
                assert(s.kids(p) == kept_kids(x, cx, n, p));
                if x.subtree_set(cx).contains(p as usize) {
                } else if x.has_parent(cx) && p == x.parent(cx) {
                    assert(s.kids(p)[k] == (if x.kids(p)[k] == cx as usize { n as usize } else { x.kids(p)[k] }));
                } else {
                    assert(x.kids(p)[k] == cx);
                    assert(x.is_child(p, cx));
                    lemma_parent_unique(x, p, cx);
                }
            }
        }
    }
    assert(!g.placed(cx as usize)) by {
        if g.placed(cx as usize) {
            let k = choose|k: int| 0 <= k < g.ncells() && #[trigger] g.id_at(k) == cx as usize;
            if k > 0 {
                assert(g.has_source(s, k));
                let q = choose|q: int| 0 <= q < k && #[trigger] g.laid_out_from(s, k, q);
                assert(s.is_child(g.id_at(q) as int, cx));
            }
        }
    }
    assert forall|c: usize| s.subtree_set(cx).contains(c) implies !g.placed(c) by {
        lemma_leaf_subtree(s, cx, c as int);
    }
}

/// Renumbering looks only at the kinds of the rooms.
proof fn lemma_seen_keys_kinds(a: Seq<Room>, b: Seq<Room>)
    requires
        a.len() == b.len(),
        forall|i: int| 0 <= i < a.len() ==> (#[trigger] a[i]).kind == b[i].kind,
    ensures
        seen_keys(a) == seen_keys(b),
    decreases a.len(),
{
    if a.len() > 0 {
        lemma_seen_keys_kinds(a.drop_last(), b.drop_last());
        assert(a.last().kind == b.last().kind);
    }
}

proof fn lemma_renumbered_kinds(a: Seq<Room>, b: Seq<Room>, i: int)
    requires
        a.len() == b.len(),
        forall|j: int| 0 <= j < a.len() ==> (#[trigger] a[j]).kind == b[j].kind,
        0 <= i < a.len(),
    ensures
        renumbered_kind(a, i) == renumbered_kind(b, i),
{
    lemma_seen_keys_kinds(a, b);
    assert(a[i].kind == b[i].kind);
}


/// A subtree without special rooms, as counted, is keyless.
proof fn lemma_plain_from_count(t: DungeonTree, c: int)
    requires
        t.special_set(c).finite(),
        t.special_set(c).len() == 0,
    ensures
        keyless_subtree(t, c),
{
    t.special_set(c).lemma_len0_is_empty();
    assert forall|i: usize| t.subtree_set(c).contains(i) implies !((#[trigger] t.rooms@[i as int]).kind is Key || t.rooms@[i as int].kind is Locked) by {
        if t.rooms@[i as int].kind is Key || t.rooms@[i as int].kind is Locked {
            assert(t.special_set(c).contains(i));
        }
    }
}

/// The cut rooms `1..n` of a tree of `n` rooms in the order that the
/// shuffle from state `s` leaves them, and the state after it.
pub open spec fn cut_order(n: int, s: RngState) -> (Seq<usize>, RngState) {
    fisher_yates(Seq::new((n - 1) as nat, |k: int| (k + 1) as usize), s, n - 2)
}

/// The number of cut pairs crossover tries: at most 20, and no more than
/// either list holds.
pub open spec fn tries_of(la: int, lb: int) -> int {
    let m = if la < lb { la } else { lb };
    if 20 < m { 20 } else { m }
}

/// Pair `i` of the two cut lists can be exchanged: neither subtree holds
/// a key or a locked room.
pub open spec fn pair_fits(a: DungeonTree, b: DungeonTree, sa: Seq<usize>, sb: Seq<usize>, i: int) -> bool {
    keyless_subtree(a, sa[i] as int) && keyless_subtree(b, sb[i] as int)
}

/// The rooms `1..n`, in order.
fn cut_candidates(n: usize) -> (r: Vec<usize>)
    requires
        n >= 1,
    ensures
        r@.len() == n - 1,
        forall|k: int| 0 <= k < r@.len() ==> #[trigger] r@[k] == k + 1,
{
    let mut r: Vec<usize> = Vec::new();
    let mut i: usize = 1;
    while i < n
        invariant
            1 <= i <= n,
            r@.len() == i - 1,
            forall|k: int| 0 <= k < r@.len() ==> #[trigger] r@[k] == k + 1,
        decreases n - i,
    {
        r.push(i);
        i = i + 1;
    }
    r
}

/// Two new trees in which the subtree of `src` at `src_root` and the
/// subtree of `dst` at `dst_root` have traded places: each is copied,
/// re-indexed, after the rooms of the other tree and hung where the other
/// subtree was; the rooms of the cut subtrees stay behind without children.
fn move_subtree(src: &DungeonTree, src_root: usize, dst: &DungeonTree, dst_root: usize) -> (r: (DungeonTree, DungeonTree))
    requires
        src.wf(),
        dst.wf(),
        src_root < src.n(),
        dst_root < dst.n(),
        src.n() + dst.n() <= usize::MAX,
    ensures
        r.0.wf(),
        r.1.wf(),
        exists|ord: Seq<usize>| grafted(*src, *dst, src_root as int, dst_root as int, ord, r.0),
        exists|ord: Seq<usize>| grafted(*dst, *src, dst_root as int, src_root as int, ord, r.1),
        grafted(*src, *dst, src_root as int, dst_root as int, stack_walk(*dst, seq![dst_root], dst.n() as nat).0, r.0),
        grafted(*dst, *src, dst_root as int, src_root as int, stack_walk(*src, seq![src_root], src.n() as nat).0, r.1),
{
    let new_src = grafted_tree(src, src_root, dst, dst_root);
    let new_dst = grafted_tree(dst, dst_root, src, src_root);
    (new_src, new_dst)
}

/// The result of one successful trial of a crossover: `a` and `b` exchange
/// their subtrees at `cut_a` and `cut_b`; with the grids of the results,
/// children left unplaced are removed, the cut rooms are refilled with the
/// special rooms the other subtree had, and key ids are renumbered.
fn crossover_trial(a: &DungeonTree, cut_a: usize, b: &DungeonTree, cut_b: usize, rng: &mut Rng) -> (r: Option<(DungeonTree, DungeonTree)>)
    requires
        a.wf(),
        b.wf(),
        1 <= cut_a < a.n(),
        1 <= cut_b < b.n(),
        a.n() + b.n() <= 0x7fff_ffff,
    ensures
        match r {
            Some(pair) => {
                &&& pair.0.wf()
                &&& pair.1.wf()
                &&& keyless_subtree(*a, cut_a as int)
                &&& keyless_subtree(*b, cut_b as int)
                &&& crossed(*a, *b, cut_a as int, cut_b as int, pair.0)
                &&& crossed(*b, *a, cut_b as int, cut_a as int, pair.1)
            },
            None => !(keyless_subtree(*a, cut_a as int) && keyless_subtree(*b, cut_b as int)),
        },
{
    let spc_a = a.special_count_in_subtree(cut_a);
    let spc_b = b.special_count_in_subtree(cut_b);
    let saved_a = a.save_special_rooms(cut_a);
    let saved_b = b.save_special_rooms(cut_b);
    let (mut clone_a, mut clone_b) = move_subtree(a, cut_a, b, cut_b);
    let ghost sa = clone_a;
    let ghost sb = clone_b;
    let ghost oa = choose|ord: Seq<usize>| grafted(*a, *b, cut_a as int, cut_b as int, ord, sa);
    let ghost ob = choose|ord: Seq<usize>| grafted(*b, *a, cut_b as int, cut_a as int, ord, sb);
    let grid_a = DungeonGrid::from_tree(&clone_a);
    let grid_b = DungeonGrid::from_tree(&clone_b);
    let rooms_in_branch_a = grid_a.rooms_in_subtree(cut_a, &clone_a);
    let rooms_in_branch_b = grid_b.rooms_in_subtree(cut_b, &clone_b);
    proof {
        lemma_cut_unplaced(*a, *b, cut_a as int, cut_b as int, oa, sa, grid_a);
        lemma_cut_unplaced(*b, *a, cut_b as int, cut_a as int, ob, sb, grid_b);
        assert(rooms_in_branch_a == 0);
        assert(rooms_in_branch_b == 0);
        if keyless_subtree(*a, cut_a as int) {
            assert(a.special_set(cut_a as int) =~= Set::<usize>::empty());
        }
        if keyless_subtree(*b, cut_b as int) {
            assert(b.special_set(cut_b as int) =~= Set::<usize>::empty());
        }
    }
    if rooms_in_branch_a >= spc_b && rooms_in_branch_b >= spc_a {
        proof {
            lemma_plain_from_count(*a, cut_a as int);
            lemma_plain_from_count(*b, cut_b as int);
        }
        clone_a.remove_overlapping(&grid_a);
        clone_b.remove_overlapping(&grid_b);
        let ghost pa = clone_a;
        let ghost pb = clone_b;
        proof {
            let order = choose|order: Seq<usize>|
                is_bfs_from(b.rooms@, cut_b, order) && order.to_set() == b.subtree_set(cut_b as int)
                    && saved_b@ == special_kinds(b.rooms@, order);
            assert forall|k: RoomKind| #[trigger] saved_b@.contains(k) implies exists|j: usize| #[trigger] b.subtree_set(cut_b as int).contains(j)
                && !(b.rooms@[j as int].kind is Normal) && b.rooms@[j as int].kind == k by {
                lemma_special_kinds_from(b.rooms@, order, k);
                let m = choose|m: int| 0 <= m < order.len() && #[trigger] b.rooms@[order[m] as int].kind == k && !(k is Normal);
                assert(order.to_set().contains(order[m]));
            }
            let order2 = choose|order: Seq<usize>|
                is_bfs_from(a.rooms@, cut_a, order) && order.to_set() == a.subtree_set(cut_a as int)
                    && saved_a@ == special_kinds(a.rooms@, order);
            assert forall|k: RoomKind| #[trigger] saved_a@.contains(k) implies exists|j: usize| #[trigger] a.subtree_set(cut_a as int).contains(j)
                && !(a.rooms@[j as int].kind is Normal) && a.rooms@[j as int].kind == k by {
                lemma_special_kinds_from(a.rooms@, order2, k);
                let m = choose|m: int| 0 <= m < order2.len() && #[trigger] a.rooms@[order2[m] as int].kind == k && !(k is Normal);
                assert(order2.to_set().contains(order2[m]));
            }
        }
        clone_a.fix_branch(cut_a, saved_b.as_slice(), rng);
        clone_b.fix_branch(cut_b, saved_a.as_slice(), rng);
        let ghost fa = clone_a;
        let ghost fb = clone_b;
        clone_a.renumber_keys();
        clone_b.renumber_keys();
        proof {
            lemma_trial_result(*a, *b, cut_a as int, cut_b as int, oa, sa, grid_a, pa, fa, clone_a);
            lemma_trial_result(*b, *a, cut_b as int, cut_a as int, ob, sb, grid_b, pb, fb, clone_b);
        }
        Some((clone_a, clone_b))
    } else {
        None
    }
}

/// What the steps after a successful graft leave: pruning by the grid,
/// refilling the cut room, and renumbering.
proof fn lemma_trial_result(
    x: DungeonTree,
    y: DungeonTree,
    cx: int,
    cy: int,
    ord: Seq<usize>,
    s: DungeonTree,
    g: DungeonGrid,
    p: DungeonTree,
    f: DungeonTree,
    r: DungeonTree,
)
    requires
        x.wf(),
        y.wf(),
        1 <= cx < x.n(),
        0 <= cy < y.n(),
        grafted(x, y, cx, cy, ord, s),
        s.wf(),
        g.wf(),
        g.decodes(s),
        keyless_subtree(x, cx),
        p.wf(),
        p.n() == s.n(),
        p.root == s.root,
        forall|i: int| 0 <= i < s.n() ==> {
            &&& (#[trigger] p.rooms@[i]).id == s.rooms@[i].id
            &&& p.rooms@[i].kind == s.rooms@[i].kind
            &&& p.rooms@[i].direction == s.rooms@[i].direction
            &&& p.rooms@[i].depth == s.rooms@[i].depth
            &&& p.rooms@[i].grid_pos == s.rooms@[i].grid_pos
            &&& p.kids(i) == s.kids(i).filter(|c: usize| g.placed(c))
        },
        same_shape(p, f),
        forall|i: int| 0 <= i < p.n() && !p.subtree_set(cx).contains(i as usize)
            ==> (#[trigger] f.rooms@[i]).kind == p.rooms@[i].kind,
        forall|i: int| 0 <= i < p.n() && p.subtree_set(cx).contains(i as usize)
            ==> (#[trigger] f.rooms@[i]).kind is Normal || exists|j: usize| #[trigger] y.subtree_set(cy).contains(j)
                && !(y.rooms@[j as int].kind is Normal) && y.rooms@[j as int].kind == f.rooms@[i].kind,
        keyless_subtree(y, cy),
        same_shape(f, r),
        forall|i: int| 0 <= i < f.n() ==> (#[trigger] r.rooms@[i]).kind == renumbered_kind(f.rooms@, i),
    ensures
        r.wf(),
        crossed(x, y, cx, cy, r),
{
    let n = x.n();
    lemma_same_shape(p, f);
    lemma_same_shape(f, r);
    assert(x.is_ancestor(cx, cx));
    assert(x.subtree_set(cx).contains(cx as usize));
    assert(s.kids(cx) == kept_kids(x, cx, n, cx));
    assert(p.kids(cx) =~= Seq::<usize>::empty());
    assert(p.subtree_set(cx).contains(cx as usize)) by {
        assert(p.is_ancestor(cx, cx));
    }
    assert forall|j: int| 0 <= j < f.rooms@.len() && j != cx implies (#[trigger] f.rooms@[j]).kind == s.rooms@[j].kind by {
        if p.subtree_set(cx).contains(j as usize) {
            lemma_leaf_subtree(p, cx, j);
        }
    }
    assert(!(s.rooms@[cx].kind is Key || s.rooms@[cx].kind is Locked)) by {
        assert(s.rooms@[cx].kind == x.rooms@[cx].kind);
    }
    assert(!(f.rooms@[cx].kind is Key || f.rooms@[cx].kind is Locked)) by {
        if !(f.rooms@[cx].kind is Normal) {
            let j = choose|j: usize| #[trigger] y.subtree_set(cy).contains(j)
                && !(y.rooms@[j as int].kind is Normal) && y.rooms@[j as int].kind == f.rooms@[cx].kind;
        }
    }
    lemma_seen_keys_nonkey(f.rooms@, s.rooms@);
    assert forall|i: int| 0 <= i < s.n() implies {
        &&& (#[trigger] r.rooms@[i]).id == s.rooms@[i].id
        &&& r.rooms@[i].direction == s.rooms@[i].direction
        &&& r.rooms@[i].depth == s.rooms@[i].depth
        &&& r.rooms@[i].grid_pos == s.rooms@[i].grid_pos
        &&& r.kids(i) == s.kids(i).filter(|c: usize| g.placed(c))
        &&& i != cx ==> r.rooms@[i].kind == renumbered_kind(s.rooms@, i)
    } by {
        assert(f.rooms@[i].children@ == p.rooms@[i].children@);
        assert(r.rooms@[i].children@ == f.rooms@[i].children@);
        if i != cx {
            assert(f.rooms@[i].kind == s.rooms@[i].kind);
        }
    }
    assert(r.rooms@[cx].kind == f.rooms@[cx].kind);
    assert(pruned_and_renumbered(s, g, r, cx, y, cy));
}

/// Key ids seen in arenas that agree wherever either holds a key room.
proof fn lemma_seen_keys_nonkey(a: Seq<Room>, b: Seq<Room>)
    requires
        a.len() == b.len(),
        forall|i: int| 0 <= i < a.len() && ((#[trigger] a[i]).kind is Key || b[i].kind is Key) ==> a[i].kind == b[i].kind,
    ensures
        seen_keys(a) == seen_keys(b),
    decreases a.len(),
{
    if a.len() > 0 {
        assert forall|i: int| 0 <= i < a.drop_last().len() && ((#[trigger] a.drop_last()[i]).kind is Key || b.drop_last()[i].kind is Key)
            implies a.drop_last()[i].kind == b.drop_last()[i].kind by {
            assert(a.drop_last()[i] == a[i]);
            assert(b.drop_last()[i] == b[i]);
        }
        lemma_seen_keys_nonkey(a.drop_last(), b.drop_last());
        assert(a.last() == a[a.len() - 1]);
        assert(b.last() == b[b.len() - 1]);
    }
}

/// Every kind listed by [`special_kinds`] is the non-normal kind of a room
/// along the walk.
proof fn lemma_special_kinds_from(rooms: Seq<Room>, order: Seq<usize>, k: RoomKind)
    requires
        special_kinds(rooms, order).contains(k),
    ensures
        exists|m: int| 0 <= m < order.len() && #[trigger] rooms[order[m] as int].kind == k && !(k is Normal),
    decreases order.len(),
{
    let d = order.drop_last();
    let pre = special_kinds(rooms, d);
    let last = rooms[order.last() as int].kind;
    if pre.contains(k) {
        lemma_special_kinds_from(rooms, d, k);
        let m = choose|m: int| 0 <= m < d.len() && #[trigger] rooms[d[m] as int].kind == k && !(k is Normal);
        assert(order[m] == d[m]);
    } else {
        let w = choose|w: int| 0 <= w < special_kinds(rooms, order).len() && special_kinds(rooms, order)[w] == k;
        if last is Normal {
            assert(special_kinds(rooms, order) == pre);
        } else {
            assert(special_kinds(rooms, order) == pre.push(last));
            if w < pre.len() {
                assert(pre[w] == k);
            }
            assert(rooms[order[order.len() - 1] as int].kind == k);
        }
    }
}

impl DungeonTree {
    /// **Constrained crossover** of two trees. Non-root cut points are drawn
    /// without replacement (both candidate lists shuffled, at most 20
    /// pairs); for each pair the subtrees are exchanged, the results are
    /// decoded, and the pair is feasible when the rooms placed in each
    /// receiving branch are at least as many as the special rooms the
    /// other side gave. The first feasible pair is kept (overlaps removed,
    /// special rooms redistributed, keys renumbered) and `true` returned;
    /// otherwise the trees are left as they were and `false` returned.
    ///
    /// The receiving branch counted is the one hanging at the cut index,
    /// which after the exchange holds only the detached cut room; so a pair
    /// is feasible exactly when neither cut subtree holds a special (key or
    /// locked) room, and the cut room is then refilled by the fix step.
    pub fn crossover(a: &mut DungeonTree, b: &mut DungeonTree, rng: &mut Rng) -> (r: bool)
        requires
            old(a).wf(),
            old(b).wf(),
            old(a).n() + old(b).n() <= 0x7fff_ffff,
        ensures
            final(a).wf(),
            final(b).wf(),
            !r ==> *final(a) == *old(a) && *final(b) == *old(b),
            r ==> exists|ca: int, cb: int|
                #![trigger crossed(*old(a), *old(b), ca, cb, *final(a))]
                1 <= ca < old(a).n() && 1 <= cb < old(b).n()
                && keyless_subtree(*old(a), ca) && keyless_subtree(*old(b), cb)
                && crossed(*old(a), *old(b), ca, cb, *final(a))
                && crossed(*old(b), *old(a), cb, ca, *final(b)),
            old(a).n() >= 2 && old(b).n() >= 2
                && (forall|i: int| 1 <= i < old(a).n() ==> !((#[trigger] old(a).rooms@[i]).kind is Key || old(a).rooms@[i].kind is Locked))
                && (forall|i: int| 1 <= i < old(b).n() ==> !((#[trigger] old(b).rooms@[i]).kind is Key || old(b).rooms@[i].kind is Locked))
                ==> r,
            ({
                let sa = cut_order(old(a).n(), old(rng)@);
                let sb = cut_order(old(b).n(), sa.1);
                let tries = tries_of(sa.0.len() as int, sb.0.len() as int);
                &&& r == exists|i: int| 0 <= i < tries && #[trigger] pair_fits(*old(a), *old(b), sa.0, sb.0, i)
                &&& r ==> exists|i: int| 0 <= i < tries && #[trigger] pair_fits(*old(a), *old(b), sa.0, sb.0, i)
                    && (forall|k: int| 0 <= k < i ==> !pair_fits(*old(a), *old(b), sa.0, sb.0, k))
                    && crossed(*old(a), *old(b), sa.0[i] as int, sb.0[i] as int, *final(a))
                    && crossed(*old(b), *old(a), sb.0[i] as int, sa.0[i] as int, *final(b))
            }),
    {
        let ghost s0 = rng@;
        let ghost a0 = *a;
        let ghost b0 = *b;
        let ghost all_plain = a0.n() >= 2 && b0.n() >= 2
            && (forall|i: int| 1 <= i < a0.n() ==> !((#[trigger] a0.rooms@[i]).kind is Key || a0.rooms@[i].kind is Locked))
            && (forall|i: int| 1 <= i < b0.n() ==> !((#[trigger] b0.rooms@[i]).kind is Key || b0.rooms@[i].kind is Locked));
        let mut candidates_a = cut_candidates(a.rooms.len());
        let mut candidates_b = cut_candidates(b.rooms.len());
        let ghost ca0 = candidates_a@;
        let ghost cb0 = candidates_b@;
        rng.shuffle(&mut candidates_a);
        rng.shuffle(&mut candidates_b);
        let ghost sa = cut_order(a0.n(), s0);
        let ghost sb = cut_order(b0.n(), sa.1);
        proof {
            assert(ca0 =~= Seq::new((a0.n() - 1) as nat, |k: int| (k + 1) as usize));
            assert(cb0 =~= Seq::new((b0.n() - 1) as nat, |k: int| (k + 1) as usize));
            assert(candidates_a@ == sa.0);
            assert(candidates_b@ == sb.0);
            lemma_permutation_members(candidates_a@, ca0);
            lemma_permutation_members(candidates_b@, cb0);
            assert forall|k: int| 0 <= k < candidates_a@.len() implies 1 <= #[trigger] candidates_a@[k] < a0.n() by {
                assert(candidates_a@.contains(candidates_a@[k]));
                let q = choose|q: int| 0 <= q < ca0.len() && ca0[q] == candidates_a@[k];
            }
            assert forall|k: int| 0 <= k < candidates_b@.len() implies 1 <= #[trigger] candidates_b@[k] < b0.n() by {
                assert(candidates_b@.contains(candidates_b@[k]));
                let q = choose|q: int| 0 <= q < cb0.len() && cb0[q] == candidates_b@[k];
            }
        }
        let mut max_tries = candidates_a.len();
        if candidates_b.len() < max_tries {
            max_tries = candidates_b.len();
        }
        if 20 < max_tries {
            max_tries = 20;
        }
        let mut i: usize = 0;
        while i < max_tries
            invariant
                *a == a0,
                *b == b0,
                a0 == *old(a),
                b0 == *old(b),
                a0.wf(),
                b0.wf(),
                a0.n() + b0.n() <= 0x7fff_ffff,
                max_tries <= candidates_a@.len(),
                max_tries <= candidates_b@.len(),
                all_plain ==> max_tries >= 1,
                forall|k: int| 0 <= k < candidates_a@.len() ==> 1 <= #[trigger] candidates_a@[k] < a0.n(),
                forall|k: int| 0 <= k < candidates_b@.len() ==> 1 <= #[trigger] candidates_b@[k] < b0.n(),
                i <= max_tries,
                all_plain == (a0.n() >= 2 && b0.n() >= 2
                    && (forall|i: int| 1 <= i < a0.n() ==> !((#[trigger] a0.rooms@[i]).kind is Key || a0.rooms@[i].kind is Locked))
                    && (forall|i: int| 1 <= i < b0.n() ==> !((#[trigger] b0.rooms@[i]).kind is Key || b0.rooms@[i].kind is Locked))),
                i > 0 ==> !all_plain,
                candidates_a@ == sa.0,
                candidates_b@ == sb.0,
                s0 == old(rng)@,
                sa == cut_order(a0.n(), s0),
                sb == cut_order(b0.n(), sa.1),
                max_tries == tries_of(sa.0.len() as int, sb.0.len() as int),
                forall|k: int| 0 <= k < i ==> !#[trigger] pair_fits(a0, b0, sa.0, sb.0, k),
            decreases max_tries - i,
        {
            let cut_a = candidates_a[i];
            let cut_b = candidates_b[i];
            match crossover_trial(a, cut_a, b, cut_b, rng) {
                Some((new_a, new_b)) => {
                    *a = new_a;
                    *b = new_b;
                    assert(crossed(a0, b0, cut_a as int, cut_b as int, *a));
                    assert(pair_fits(a0, b0, sa.0, sb.0, i as int));
                    assert(crossed(b0, a0, cut_b as int, cut_a as int, *b));
                    assert(cut_a == sa.0[i as int] && cut_b == sb.0[i as int]);
                    assert(i < tries_of(sa.0.len() as int, sb.0.len() as int));
                    assert(exists|j: int| 0 <= j < tries_of(sa.0.len() as int, sb.0.len() as int) && #[trigger] pair_fits(a0, b0, sa.0, sb.0, j)
                        && (forall|k: int| 0 <= k < j ==> !pair_fits(a0, b0, sa.0, sb.0, k))
                        && crossed(a0, b0, sa.0[j] as int, sb.0[j] as int, *a)
                        && crossed(b0, a0, sb.0[j] as int, sa.0[j] as int, *b));
                    return true;
                },
                None => {
                    proof {
                        assert(!pair_fits(a0, b0, sa.0, sb.0, i as int));
                        if all_plain {
                            assert forall|x: usize| a0.subtree_set(cut_a as int).contains(x)
                                implies !((#[trigger] a0.rooms@[x as int]).kind is Key || a0.rooms@[x as int].kind is Locked) by {
                                lemma_ancestor_le(a0, cut_a as int, x as int);
                            }
                            assert forall|x: usize| b0.subtree_set(cut_b as int).contains(x)
                                implies !((#[trigger] b0.rooms@[x as int]).kind is Key || b0.rooms@[x as int].kind is Locked) by {
                                lemma_ancestor_le(b0, cut_b as int, x as int);
                            }
                        }
                    }
                },
            }
            i = i + 1;
        }
        proof {
            assert forall|k: int| 0 <= k < tries_of(sa.0.len() as int, sb.0.len() as int) implies !#[trigger] pair_fits(a0, b0, sa.0, sb.0, k) by {}
        }
        false
    }
}

} // verus!

