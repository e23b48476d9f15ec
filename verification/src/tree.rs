//! The **genotype**: a tree of [`Room`] nodes kept in a flat arena.
use vstd::prelude::*;

use crate::room::{Direction, Room, RoomKind, kind_key_id};
use crate::rng::Rng;
use crate::grid::DungeonGrid;

verus! {

/// Concatenation of the child lists of the rooms named by `s`, in order.
pub open spec fn kids_concat(rooms: Seq<Room>, s: Seq<usize>) -> Seq<usize>
    decreases s.len(),
{
    if s.len() == 0 {
        Seq::<usize>::empty()
    } else {
        kids_concat(rooms, s.drop_last()) + rooms[s.last() as int].children@
    }
}

/// `s` is the breadth-first order of the tree below `start`: it begins with
/// `start` and continues with the children of its own entries, in order.
pub open spec fn is_bfs_from(rooms: Seq<Room>, start: usize, s: Seq<usize>) -> bool {
    &&& s.len() > 0
    &&& s[0] == start
    &&& s.drop_first() == kids_concat(rooms, s)
}

/// Complete genotype: a flat arena of rooms addressed by index, plus a root.
#[derive(Debug)]
pub struct DungeonTree {
    pub rooms: Vec<Room>,
    pub root: usize,
}

impl DungeonTree {
    /// Number of rooms in the arena.
    pub open spec fn n(self) -> int {
        self.rooms@.len() as int
    }

    /// Children of room `i`.
    pub open spec fn kids(self, i: int) -> Seq<usize> {
        self.rooms@[i].children@
    }

    /// Room `p` lists `c` among its children.
    pub open spec fn is_child(self, p: int, c: int) -> bool {
        0 <= p < self.n() && exists|k: int| 0 <= k < self.kids(p).len() && #[trigger] self.kids(p)[k] == c
    }

    /// Some room lists `c` as a child.
    pub open spec fn has_parent(self, c: int) -> bool {
        exists|p: int| #[trigger] self.is_child(p, c)
    }

    /// The room that lists `c` as a child (meaningful when `has_parent(c)`).
    pub open spec fn parent(self, c: int) -> int {
        choose|p: int| #[trigger] self.is_child(p, c)
    }

    /// `b` lies in the subtree rooted at `a` (inclusive).
    pub open spec fn is_ancestor(self, a: int, b: int) -> bool
        decreases b,
    {
        if a == b {
            true
        } else if b > 0 && self.has_parent(b) && 0 <= self.parent(b) < b {
            self.is_ancestor(a, self.parent(b))
        } else {
            false
        }
    }

    /// Well-formedness of the arena: room `i` has id `i`, children have
    /// larger indices than their parent, and every room has at most one
    /// parent and appears at most once in it.
    pub open spec fn wf(self) -> bool {
        let n = self.n();
        &&& n > 0
        &&& self.root == 0
        &&& forall|i: int| 0 <= i < n ==> (#[trigger] self.rooms@[i]).id == i
        &&& forall|i: int, k: int|
            0 <= i < n && 0 <= k < self.kids(i).len() ==> i < #[trigger] self.kids(i)[k] < n
        &&& forall|i: int, k1: int, j: int, k2: int|
            0 <= i < n && 0 <= j < n && 0 <= k1 < self.kids(i).len() && 0 <= k2 < self.kids(j).len()
                && #[trigger] self.kids(i)[k1] == #[trigger] self.kids(j)[k2] ==> i == j && k1 == k2
    }

    /// The set of rooms in the subtree rooted at `a`.
    pub open spec fn subtree_set(self, a: int) -> Set<usize> {
        Set::new(|x: usize| x < self.n() && self.is_ancestor(a, x as int))
    }
}

// ── Lemmas on the arena ─────────────────────────────────────────────────────

/// The parent of a child is the unique room that lists it.
pub proof fn lemma_parent_unique(t: DungeonTree, p: int, c: int)
    requires
        t.wf(),
        t.is_child(p, c),
    ensures
        t.has_parent(c),
        t.parent(c) == p,
        p < c < t.n(),
{
    let q = t.parent(c);
    assert(t.is_child(q, c));
    let k1 = choose|k: int| 0 <= k < t.kids(p).len() && #[trigger] t.kids(p)[k] == c;
    let k2 = choose|k: int| 0 <= k < t.kids(q).len() && #[trigger] t.kids(q)[k] == c;
    assert(t.kids(p)[k1] == t.kids(q)[k2]);
}

/// A child of a room of the subtree at `a` is in that subtree.
pub proof fn lemma_child_in_subtree(t: DungeonTree, a: int, p: int, c: int)
    requires
        t.wf(),
        t.is_ancestor(a, p),
        t.is_child(p, c),
    ensures
        t.is_ancestor(a, c),
{
    lemma_parent_unique(t, p, c);
    if a != c {
        assert(c > 0);
    }
}

/// Members of a subtree are at least its root.
pub proof fn lemma_ancestor_le(t: DungeonTree, a: int, b: int)
    requires
        t.is_ancestor(a, b),
    ensures
        a <= b,
    decreases b,
{
    if a != b {
        lemma_ancestor_le(t, a, t.parent(b));
    }
}

/// An element of the concatenated child lists is a child of one of the rooms.
pub proof fn lemma_kids_concat_member(rooms: Seq<Room>, s: Seq<usize>, x: usize)
    requires
        kids_concat(rooms, s).contains(x),
    ensures
        exists|m: int, k: int|
            0 <= m < s.len() && 0 <= k < rooms[s[m] as int].children@.len()
                && #[trigger] rooms[s[m] as int].children@[k] == x,
    decreases s.len(),
{
    let pre = kids_concat(rooms, s.drop_last());
    let last = rooms[s.last() as int].children@;
    assert(kids_concat(rooms, s) == pre + last);
    let idx = choose|i: int| 0 <= i < kids_concat(rooms, s).len() && kids_concat(rooms, s)[i] == x;
    if idx < pre.len() {
        assert(pre[idx] == x);
        lemma_kids_concat_member(rooms, s.drop_last(), x);
        let (m, k) = choose|m: int, k: int|
            0 <= m < s.drop_last().len() && 0 <= k < rooms[s.drop_last()[m] as int].children@.len()
                && #[trigger] rooms[s.drop_last()[m] as int].children@[k] == x;
        assert(s[m] == s.drop_last()[m]);
        assert(rooms[s[m] as int].children@[k] == x);
    } else {
        let k = idx - pre.len();
        assert(last[k] == x);
        assert(rooms[s[s.len() - 1] as int].children@[k] == x);
    }
}

/// Each child of each listed room occurs in the concatenation.
pub proof fn lemma_kids_concat_has(rooms: Seq<Room>, s: Seq<usize>, j: int, k: int)
    requires
        0 <= j < s.len(),
        0 <= k < rooms[s[j] as int].children@.len(),
    ensures
        kids_concat(rooms, s).contains(rooms[s[j] as int].children@[k]),
    decreases s.len(),
{
    let pre = kids_concat(rooms, s.drop_last());
    let last = rooms[s.last() as int].children@;
    assert(kids_concat(rooms, s) == pre + last);
    if j == s.len() - 1 {
        assert((pre + last)[pre.len() + k] == last[k]);
    } else {
        assert(s.drop_last()[j] == s[j]);
        lemma_kids_concat_has(rooms, s.drop_last(), j, k);
        let q = choose|q: int| 0 <= q < pre.len() && pre[q] == rooms[s[j] as int].children@[k];
        assert((pre + last)[q] == pre[q]);
    }
}

/// A duplicate-free sequence of indices below `n` has at most `n` entries.
pub proof fn lemma_distinct_below(s: Seq<usize>, n: nat)
    requires
        s.no_duplicates(),
        forall|i: int| 0 <= i < s.len() ==> (#[trigger] s[i]) < n,
    ensures
        s.len() <= n,
    decreases n,
{
    if n == 0 {
        if s.len() > 0 {
            assert(s[0] < 0);
        }
    } else {
        let top = (n - 1) as usize;
        if s.contains(top) {
            let j = choose|j: int| 0 <= j < s.len() && s[j] == top;
            let t = s.remove(j);
            assert forall|a: int, b: int| 0 <= a < t.len() && 0 <= b < t.len() && a != b implies t[a]
                != t[b] by {
                let a2 = if a < j { a } else { a + 1 };
                let b2 = if b < j { b } else { b + 1 };
                assert(t[a] == s[a2]);
                assert(t[b] == s[b2]);
            }
            assert forall|i: int| 0 <= i < t.len() implies (#[trigger] t[i]) < (n - 1) as nat by {
                let i2 = if i < j { i } else { i + 1 };
                assert(t[i] == s[i2]);
                assert(i2 != j);
            }
            lemma_distinct_below(t, (n - 1) as nat);
        } else {
            assert forall|i: int| 0 <= i < s.len() implies (#[trigger] s[i]) < (n - 1) as nat by {
                assert(s[i] != top);
            }
            lemma_distinct_below(s, (n - 1) as nat);
        }
    }
}

impl DungeonTree {
    // ── Traversals ───────────────────────────────────────────────────────

    /// Breadth-first order of the rooms below `start` (inclusive).
    pub fn bfs_from(&self, start: usize) -> (order: Vec<usize>)
        requires
            self.wf(),
            start < self.n(),
        ensures
            is_bfs_from(self.rooms@, start, order@),
            order@.no_duplicates(),
            forall|m: int| 0 <= m < order@.len() ==> start <= #[trigger] order@[m] < self.n(),
            order@.len() <= self.n(),
            order@.to_set() == self.subtree_set(start as int),
    {
        let mut order: Vec<usize> = Vec::new();
        order.push(start);
        let mut i: usize = 0;
        proof {
            assert(order@.take(0) =~= Seq::<usize>::empty());
            assert(order@.drop_first() =~= Seq::<usize>::empty());
        }
        while i < order.len()
            invariant
                self.wf(),
                start < self.n(),
                i <= order@.len(),
                order@.len() > 0,
                order@[0] == start,
                order@.drop_first() == kids_concat(self.rooms@, order@.take(i as int)),
                order@.no_duplicates(),
                forall|m: int| 0 <= m < order@.len() ==> start <= #[trigger] order@[m] < self.n(),
                forall|m: int| 0 <= m < order@.len() ==> self.is_ancestor(start as int, #[trigger] order@[m] as int),
            decreases self.n() - i,
        {
            proof {
                lemma_distinct_below(order@, self.n() as nat);
            }
            let id = order[i];
            let ghost before = order@;
            let ghost pre = kids_concat(self.rooms@, order@.take(i as int));
            let nk = self.rooms[id].children.len();
            let mut k: usize = 0;
            while k < nk
                invariant
                    self.wf(),
                    start < self.n(),
                    i < before.len(),
                    id == before[i as int],
                    nk == self.kids(id as int).len(),
                    k <= nk,
                    before.len() > 0,
                    before[0] == start,
                    before.drop_first() == pre,
                    pre == kids_concat(self.rooms@, before.take(i as int)),
                    before.no_duplicates(),
                    forall|m: int| 0 <= m < before.len() ==> start <= #[trigger] before[m] < self.n(),
                    order@ == before + self.kids(id as int).take(k as int),
                    order@.no_duplicates(),
                    forall|m: int| 0 <= m < order@.len() ==> start <= #[trigger] order@[m] < self.n(),
                    forall|m: int| 0 <= m < order@.len() ==> self.is_ancestor(start as int, #[trigger] order@[m] as int),
                    self.is_ancestor(start as int, id as int),
                decreases nk - k,
            {
                let c = self.rooms[id].children[k];
                proof {
                    assert(self.kids(id as int)[k as int] == c);
                    assert(id < c);
                    assert(!order@.contains(c)) by {
                        if order@.contains(c) {
                            let j = choose|j: int| 0 <= j < order@.len() && order@[j] == c;
                            if j < before.len() {
                                if j == 0 {
                                    assert(before[0] == start);
                                } else {
                                    assert(pre[j - 1] == c);
                                    assert(pre.contains(c));
                                    lemma_kids_concat_member(self.rooms@, before.take(i as int), c);
                                    let (m, kk) = choose|m: int, kk: int|
                                        0 <= m < before.take(i as int).len() && 0 <= kk
                                            < self.rooms@[before.take(i as int)[m] as int].children@.len()
                                            && #[trigger] self.rooms@[before.take(i as int)[m] as int].children@[kk]
                                            == c;
                                    let q = before[m] as int;
                                    assert(self.kids(q)[kk] == self.kids(id as int)[k as int]);
                                    assert(q == id as int);
                                    assert(before[m] == before[i as int]);
                                }
                            } else {
                                let kk = j - before.len();
                                assert(self.kids(id as int).take(k as int)[kk] == c);
                                assert(self.kids(id as int)[kk] == self.kids(id as int)[k as int]);
                            }
                        }
                    }
                }
                proof {
                    assert(self.is_child(id as int, c as int));
                    lemma_child_in_subtree(*self, start as int, id as int, c as int);
                }
                order.push(c);
                proof {
                    assert(self.kids(id as int).take(k as int).push(c) =~= self.kids(id as int).take(
                        k as int + 1,
                    ));
                    assert(order@ =~= before + self.kids(id as int).take(k as int + 1));
                }
                k = k + 1;
            }
            proof {
                assert(self.kids(id as int).take(nk as int) =~= self.kids(id as int));
                assert(order@.take(i as int + 1).drop_last() =~= order@.take(i as int));
                assert(before.take(i as int) =~= order@.take(i as int));
                assert(order@.take(i as int + 1).last() == id);
                assert(order@.drop_first() =~= before.drop_first() + self.kids(id as int));
            }
            i = i + 1;
        }
        proof {
            assert(order@.take(order@.len() as int) =~= order@);
            lemma_distinct_below(order@, self.n() as nat);
            assert forall|j: int, k: int|
                0 <= j < order@.len() && 0 <= k < self.kids(order@[j] as int).len() implies order@.contains(
                #[trigger] self.kids(order@[j] as int)[k]) by {
                lemma_kids_concat_has(self.rooms@, order@, j, k);
                let q = choose|q: int| 0 <= q < kids_concat(self.rooms@, order@).len()
                    && kids_concat(self.rooms@, order@)[q] == self.kids(order@[j] as int)[k];
                assert(order@[q + 1] == order@.drop_first()[q]);
            }
            assert(order@.contains(start)) by {
                assert(order@[0] == start);
            }
            assert forall|x: usize| #[trigger] self.subtree_set(start as int).contains(x) implies order@.to_set().contains(x) by {
                lemma_closed_covers(*self, start as int, order@, x as int);
            }
            assert forall|x: usize| order@.to_set().contains(x) implies #[trigger] self.subtree_set(start as int).contains(x) by {
                let j = choose|j: int| 0 <= j < order@.len() && order@[j] == x;
                assert(self.is_ancestor(start as int, order@[j] as int));
            }
            assert(order@.to_set() =~= self.subtree_set(start as int));
        }
        order
    }

    /// BFS traversal order of the whole tree, starting at the root.
    pub fn bfs_order(&self) -> (order: Vec<usize>)
        requires
            self.wf(),
        ensures
            is_bfs_from(self.rooms@, self.root, order@),
            order@.no_duplicates(),
            forall|m: int| 0 <= m < order@.len() ==> #[trigger] order@[m] < self.n(),
            order@.len() <= self.n(),
            order@.to_set() == self.subtree_set(self.root as int),
    {
        self.bfs_from(self.root)
    }
}


/// Number of rooms of `s` whose kind satisfies `f`.
pub open spec fn count_kind(s: Seq<Room>, f: spec_fn(RoomKind) -> bool) -> nat
    decreases s.len(),
{
    if s.len() == 0 {
        0
    } else {
        count_kind(s.drop_last(), f) + if f(s.last().kind) {
            1nat
        } else {
            0nat
        }
    }
}

/// Number of entries of `s` that satisfy `f`.
pub open spec fn count_ids(s: Seq<usize>, f: spec_fn(usize) -> bool) -> nat
    decreases s.len(),
{
    if s.len() == 0 {
        0
    } else {
        count_ids(s.drop_last(), f) + if f(s.last()) {
            1nat
        } else {
            0nat
        }
    }
}

/// Counting over a duplicate-free sequence is counting over its set.
pub proof fn lemma_count_ids_set(s: Seq<usize>, f: spec_fn(usize) -> bool)
    requires
        s.no_duplicates(),
    ensures
        count_ids(s, f) == s.to_set().filter(f).len(),
        s.to_set().filter(f).finite(),
    decreases s.len(),
{
    if s.len() == 0 {
        assert(s.to_set().filter(f) =~= Set::<usize>::empty());
    } else {
        let d = s.drop_last();
        let x = s.last();
        assert(d.no_duplicates());
        lemma_count_ids_set(d, f);
        assert(s =~= d.push(x));
        assert(s.to_set() =~= d.to_set().insert(x));
        assert(!d.to_set().contains(x)) by {
            if d.contains(x) {
                let j = choose|j: int| 0 <= j < d.len() && d[j] == x;
                assert(s[j] == s[s.len() - 1]);
            }
        }
        if f(x) {
            assert(s.to_set().filter(f) =~= d.to_set().filter(f).insert(x));
        } else {
            assert(s.to_set().filter(f) =~= d.to_set().filter(f));
        }
    }
}

/// A sequence that contains `a` and every child of its own entries contains
/// the whole subtree of `a`.
pub proof fn lemma_closed_covers(t: DungeonTree, a: int, s: Seq<usize>, b: int)
    requires
        t.wf(),
        0 <= a,
        s.contains(a as usize),
        forall|j: int, k: int|
            0 <= j < s.len() && 0 <= k < t.kids(s[j] as int).len() ==> s.contains(
                #[trigger] t.kids(s[j] as int)[k],
            ),
        forall|j: int| 0 <= j < s.len() ==> (#[trigger] s[j]) < t.n(),
        t.is_ancestor(a, b),
        b < t.n(),
    ensures
        s.contains(b as usize),
    decreases b,
{
    if a != b {
        let p = t.parent(b);
        assert(t.is_child(p, b));
        lemma_closed_covers(t, a, s, p);
        let j = choose|j: int| 0 <= j < s.len() && s[j] == p as usize;
        let k = choose|k: int| 0 <= k < t.kids(p).len() && #[trigger] t.kids(p)[k] == b;
        assert(t.kids(s[j] as int)[k] == b);
    }
}

/// Membership test on a vector of indices.
pub fn vec_contains(v: &Vec<usize>, x: usize) -> (r: bool)
    ensures
        r == v@.contains(x),
{
    let mut i: usize = 0;
    while i < v.len()
        invariant
            i <= v@.len(),
            forall|j: int| 0 <= j < i ==> v@[j] != x,
        decreases v@.len() - i,
    {
        if v[i] == x {
            return true;
        }
        i = i + 1;
    }
    false
}

impl DungeonTree {
    /// Find the parent of `node_id` by walking the arena.
    pub fn parent_of(&self, node_id: usize) -> (r: Option<usize>)
        requires
            self.wf(),
        ensures
            r == (if node_id == self.root || !self.has_parent(node_id as int) {
                None::<usize>
            } else {
                Some(self.parent(node_id as int) as usize)
            }),
    {
        if node_id == self.root {
            return None;
        }
        let mut i: usize = 0;
        while i < self.rooms.len()
            invariant
                self.wf(),
                i <= self.n(),
                forall|p: int| 0 <= p < i ==> !self.is_child(p, node_id as int),
            decreases self.n() - i,
        {
            if vec_contains(&self.rooms[i].children, node_id) {
                proof {
                    let k = choose|k: int|
                        0 <= k < self.kids(i as int).len() && self.kids(i as int)[k] == node_id;
                    assert(self.is_child(i as int, node_id as int));
                    lemma_parent_unique(*self, i as int, node_id as int);
                }
                return Some(self.rooms[i].id);
            }
            proof {
                assert forall|k: int| 0 <= k < self.kids(i as int).len() implies #[trigger] self.kids(
                    i as int,
                )[k] != node_id by {
                    assert(self.rooms@[i as int].children@[k] == self.kids(i as int)[k]);
                }
            }
            i = i + 1;
        }
        proof {
            assert(!self.has_parent(node_id as int)) by {
                if self.has_parent(node_id as int) {
                    let p = choose|p: int| #[trigger] self.is_child(p, node_id as int);
                    assert(self.is_child(p, node_id as int));
                }
            }
        }
        None
    }

    /// All node IDs in the subtree rooted at `node_id` (inclusive), in
    /// depth-first order: every entry after the first has its parent earlier.
    pub fn subtree_ids(&self, node_id: usize) -> (ids: Vec<usize>)
        requires
            self.wf(),
            node_id < self.n(),
        ensures
            ids@.len() > 0,
            ids@[0] == node_id,
            ids@.no_duplicates(),
            ids@.len() <= self.n(),
            forall|m: int| 0 <= m < ids@.len() ==> #[trigger] ids@[m] < self.n(),
            ids@.to_set() == self.subtree_set(node_id as int),
            forall|m: int| 0 < m < ids@.len() ==> #[trigger] parent_listed_before(*self, ids@, m),
            forall|j: int, k: int|
                0 <= j < ids@.len() && 0 <= k < self.kids(ids@[j] as int).len() ==> ids@.contains(
                    #[trigger] self.kids(ids@[j] as int)[k],
                ),
            ids@ == stack_walk(*self, seq![node_id], self.n() as nat).0,
    {
        let mut ids: Vec<usize> = Vec::new();
        let mut stack: Vec<usize> = Vec::new();
        stack.push(node_id);
        proof {
            assert(stack@ =~= seq![node_id]);
            lemma_ancestor_refl(*self, node_id as int);
            assert(ids@ + stack_walk(*self, stack@, self.n() as nat).0 =~= stack_walk(*self, seq![node_id], self.n() as nat).0);
        }
        while stack.len() > 0
            invariant
                self.wf(),
                node_id < self.n(),
                dfs_inv(*self, node_id, ids@, stack@),
                ids@.len() <= self.n(),
                ids@ + stack_walk(*self, stack@, (self.n() - ids@.len()) as nat).0 == stack_walk(*self, seq![node_id], self.n() as nat).0,
            decreases self.n() - ids@.len(),
        {
            proof {
                lemma_dfs_step(*self, node_id, ids@, stack@);
            }
            let ghost old_ids = ids@;
            let ghost old_stack = stack@;
            let ghost walk0 = stack_walk(*self, stack@, (self.n() - ids@.len()) as nat);
            let id = stack.pop().unwrap();
            ids.push(id);
            let ghost base = stack@;
            let nk = self.rooms[id].children.len();
            let mut k: usize = 0;
            while k < nk
                invariant
                    self.wf(),
                    id < self.n(),
                    nk == self.kids(id as int).len(),
                    k <= nk,
                    stack@ == base + self.kids(id as int).take(k as int),
                decreases nk - k,
            {
                stack.push(self.rooms[id].children[k]);
                proof {
                    assert(stack@ =~= base + self.kids(id as int).take(k as int + 1));
                }
                k = k + 1;
            }
            proof {
                assert(self.kids(id as int).take(nk as int) =~= self.kids(id as int));
                assert(old_stack.drop_last() == base);
                assert(ids@.len() <= self.n());
                let walk1 = stack_walk(*self, stack@, (self.n() - ids@.len()) as nat);
                assert(walk0.0 == seq![id] + walk1.0);
                assert(ids@ + walk1.0 =~= old_ids + walk0.0);
            }
        }
        proof {
            lemma_dfs_done(*self, node_id, ids@, stack@);
            assert(ids@ + stack_walk(*self, stack@, (self.n() - ids@.len()) as nat).0 =~= ids@);
        }
        ids
    }

}


/// The kinds of the special (non-normal) rooms named by `s`, in order.
pub open spec fn special_kinds(rooms: Seq<Room>, s: Seq<usize>) -> Seq<RoomKind>
    decreases s.len(),
{
    if s.len() == 0 {
        Seq::<RoomKind>::empty()
    } else {
        let pre = special_kinds(rooms, s.drop_last());
        let k = rooms[s.last() as int].kind;
        if k is Normal {
            pre
        } else {
            pre.push(k)
        }
    }
}

pub open spec fn is_key_kind(k: RoomKind) -> bool {
    k is Key
}

pub open spec fn is_locked_kind(k: RoomKind) -> bool {
    k is Locked
}

pub open spec fn is_switch_kind(k: RoomKind) -> bool {
    k is Switch
}

pub open spec fn is_switch_door_kind(k: RoomKind) -> bool {
    k is SwitchDoor
}

impl DungeonTree {
    /// The key and locked rooms of the subtree at `node`.
    pub open spec fn special_set(self, node: int) -> Set<usize> {
        self.subtree_set(node).filter(|x: usize| self.rooms@[x as int].kind is Key || self.rooms@[x as int].kind is Locked)
    }

    pub fn room_count(&self) -> (r: usize)
        ensures
            r == self.n(),
    {
        self.rooms.len()
    }

    /// Number of rooms whose kind satisfies `pred`, walking the arena.
    fn count_matching(&self, which: u8) -> (r: usize)
        requires
            which < 4,
        ensures
            r == count_kind(
                self.rooms@,
                if which == 0 {
                    |k: RoomKind| is_key_kind(k)
                } else if which == 1 {
                    |k: RoomKind| is_locked_kind(k)
                } else if which == 2 {
                    |k: RoomKind| is_switch_kind(k)
                } else {
                    |k: RoomKind| is_switch_door_kind(k)
                },
            ),
    {
        let ghost f = if which == 0 {
            |k: RoomKind| is_key_kind(k)
        } else if which == 1 {
            |k: RoomKind| is_locked_kind(k)
        } else if which == 2 {
            |k: RoomKind| is_switch_kind(k)
        } else {
            |k: RoomKind| is_switch_door_kind(k)
        };
        let mut count: usize = 0;
        let mut i: usize = 0;
        while i < self.rooms.len()
            invariant
                i <= self.n(),
                which < 4,
                f == (if which == 0 {
                    |k: RoomKind| is_key_kind(k)
                } else if which == 1 {
                    |k: RoomKind| is_locked_kind(k)
                } else if which == 2 {
                    |k: RoomKind| is_switch_kind(k)
                } else {
                    |k: RoomKind| is_switch_door_kind(k)
                }),
                count == count_kind(self.rooms@.take(i as int), f),
                count <= i,
            decreases self.n() - i,
        {
            let kind = self.rooms[i].kind;
            let hit = if which == 0 {
                kind.is_key()
            } else if which == 1 {
                kind.is_locked()
            } else if which == 2 {
                kind.is_switch()
            } else {
                kind.is_switch_door()
            };
            proof {
                assert(self.rooms@.take(i as int + 1).drop_last() =~= self.rooms@.take(i as int));
                assert(hit == f(kind));
            }
            if hit {
                count = count + 1;
            }
            i = i + 1;
        }
        proof {
            assert(self.rooms@.take(self.n()) =~= self.rooms@);
        }
        count
    }

    pub fn key_count(&self) -> (r: usize)
        ensures
            r == count_kind(self.rooms@, |k: RoomKind| is_key_kind(k)),
    {
        self.count_matching(0)
    }

    pub fn lock_count(&self) -> (r: usize)
        ensures
            r == count_kind(self.rooms@, |k: RoomKind| is_locked_kind(k)),
    {
        self.count_matching(1)
    }

    pub fn switch_count(&self) -> (r: usize)
        ensures
            r == count_kind(self.rooms@, |k: RoomKind| is_switch_kind(k)),
    {
        self.count_matching(2)
    }

    pub fn switch_door_count(&self) -> (r: usize)
        ensures
            r == count_kind(self.rooms@, |k: RoomKind| is_switch_door_kind(k)),
    {
        self.count_matching(3)
    }

    /// Count of special rooms (key and locked rooms) in the subtree at `node_id`.
    pub fn special_count_in_subtree(&self, node_id: usize) -> (r: usize)
        requires
            self.wf(),
            node_id < self.n(),
        ensures
            r == self.special_set(node_id as int).len(),
            self.special_set(node_id as int).finite(),
    {
        let ids = self.subtree_ids(node_id);
        let ghost f = |x: usize| self.rooms@[x as int].kind is Key || self.rooms@[x as int].kind is Locked;
        let mut count: usize = 0;
        let mut i: usize = 0;
        while i < ids.len()
            invariant
                self.wf(),
                i <= ids@.len(),
                forall|m: int| 0 <= m < ids@.len() ==> #[trigger] ids@[m] < self.n(),
                f == (|x: usize| self.rooms@[x as int].kind is Key || self.rooms@[x as int].kind is Locked),
                count == count_ids(ids@.take(i as int), f),
                count <= i,
            decreases ids@.len() - i,
        {
            let id = ids[i];
            proof {
                assert(ids@.take(i as int + 1).drop_last() =~= ids@.take(i as int));
            }
            if self.rooms[id].kind.is_key() || self.rooms[id].kind.is_locked() {
                count = count + 1;
            }
            i = i + 1;
        }
        proof {
            assert(ids@.take(ids@.len() as int) =~= ids@);
            lemma_count_ids_set(ids@, f);
            assert(self.special_set(node_id as int) =~= ids@.to_set().filter(f));
        }
        count
    }

    /// The ordered BFS sequence of special rooms' kinds in a subtree.
    pub fn save_special_rooms(&self, node_id: usize) -> (r: Vec<RoomKind>)
        requires
            self.wf(),
            node_id < self.n(),
        ensures
            exists|order: Seq<usize>|
                is_bfs_from(self.rooms@, node_id, order) && order.to_set() == self.subtree_set(node_id as int)
                    && r@ == special_kinds(self.rooms@, order),
    {
        let order = self.bfs_from(node_id);
        let mut specials: Vec<RoomKind> = Vec::new();
        let mut i: usize = 0;
        while i < order.len()
            invariant
                i <= order@.len(),
                forall|m: int| 0 <= m < order@.len() ==> #[trigger] order@[m] < self.n(),
                specials@ == special_kinds(self.rooms@, order@.take(i as int)),
            decreases order@.len() - i,
        {
            let id = order[i];
            proof {
                assert(order@.take(i as int + 1).drop_last() =~= order@.take(i as int));
            }
            if self.rooms[id].kind.is_special() {
                specials.push(self.rooms[id].kind);
            }
            i = i + 1;
        }
        proof {
            assert(order@.take(order@.len() as int) =~= order@);
        }
        specials
    }
}

/// Entry `m` of `s` has a parent, listed earlier in `s`.
pub open spec fn parent_listed_before(t: DungeonTree, s: Seq<usize>, m: int) -> bool {
    t.has_parent(s[m] as int) && s.take(m).contains(t.parent(s[m] as int) as usize)
}

/// `x` has a parent, listed in `s`.
pub open spec fn parent_listed_in(t: DungeonTree, s: Seq<usize>, x: usize) -> bool {
    t.has_parent(x as int) && s.contains(t.parent(x as int) as usize)
}

/// The walk [`DungeonTree::subtree_ids`] makes, for at most `k` steps from
/// stack `st`: it takes the room on top of the stack, lists it, and pushes
/// its children in order. The rooms listed.
pub open spec fn stack_walk(t: DungeonTree, st: Seq<usize>, k: nat) -> (Seq<usize>, Seq<usize>)
    decreases k,
{
    if k == 0 || st.len() == 0 {
        (Seq::empty(), st)
    } else {
        let rest = stack_walk(t, st.drop_last() + t.kids(st.last() as int), (k - 1) as nat);
        (seq![st.last()] + rest.0, rest.1)
    }
}

/// Invariant of the depth-first walk: `ids` lists visited rooms, `stack`
/// the rooms still to visit.
pub open spec fn dfs_inv(t: DungeonTree, node: usize, ids: Seq<usize>, stack: Seq<usize>) -> bool {
    &&& ids.no_duplicates()
    &&& stack.no_duplicates()
    &&& forall|x: usize| ids.contains(x) ==> !stack.contains(x)
    &&& forall|m: int| 0 <= m < ids.len() ==> (#[trigger] ids[m]) < t.n() && t.is_ancestor(node as int, ids[m] as int)
    &&& forall|m: int| 0 <= m < stack.len() ==> (#[trigger] stack[m]) < t.n() && t.is_ancestor(node as int, stack[m] as int)
    &&& ids.len() == 0 ==> stack == seq![node]
    &&& ids.len() > 0 ==> ids[0] == node
    &&& forall|m: int| 0 < m < ids.len() ==> #[trigger] parent_listed_before(t, ids, m)
    &&& ids.len() > 0 ==> forall|m: int| 0 <= m < stack.len() ==> #[trigger] parent_listed_in(t, ids, stack[m])
    &&& forall|j: int, k: int|
        0 <= j < ids.len() && 0 <= k < t.kids(ids[j] as int).len() ==> ids.contains(
            #[trigger] t.kids(ids[j] as int)[k],
        ) || stack.contains(t.kids(ids[j] as int)[k])
}

pub proof fn lemma_ancestor_refl(t: DungeonTree, a: int)
    ensures
        t.is_ancestor(a, a),
{
}

/// A room listed as a child in a visited room's list is not on the walk yet,
/// unless it is that room's own child.
proof fn lemma_dfs_fresh_child(t: DungeonTree, node: usize, ids: Seq<usize>, stack: Seq<usize>, l: usize, c: usize)
    requires
        t.wf(),
        node < t.n(),
        dfs_inv(t, node, ids, stack),
        stack.len() > 0,
        l == stack.last(),
        t.is_child(l as int, c as int),
    ensures
        !ids.contains(c),
        !stack.contains(c),
{
    lemma_parent_unique(t, l as int, c as int);
    assert(t.is_ancestor(node as int, stack[stack.len() - 1] as int));
    lemma_ancestor_le(t, node as int, l as int);
    if ids.contains(c) {
        let m = choose|m: int| 0 <= m < ids.len() && ids[m] == c;
        if m == 0 {
        } else {
            assert(parent_listed_before(t, ids, m));
            let m2 = choose|m2: int| 0 <= m2 < m && ids.take(m)[m2] == t.parent(c as int) as usize;
            assert(ids[m2] == l);
            assert(ids.contains(l));
            assert(stack.contains(l));
        }
    }
    if stack.contains(c) {
        let m = choose|m: int| 0 <= m < stack.len() && stack[m] == c;
        if ids.len() == 0 {
            assert(stack[m] == node);
        } else {
            assert(parent_listed_in(t, ids, stack[m]));
            assert(ids.contains(l));
            assert(stack.contains(l));
        }
    }
}

/// The children of the room on top of the stack are not on the walk yet.
proof fn lemma_dfs_kids_fresh(t: DungeonTree, node: usize, ids: Seq<usize>, stack: Seq<usize>)
    requires
        t.wf(),
        node < t.n(),
        dfs_inv(t, node, ids, stack),
        stack.len() > 0,
    ensures
        forall|c: usize| #[trigger] t.kids(stack.last() as int).contains(c) ==> !ids.contains(c) && !stack.contains(c)
            && t.is_child(stack.last() as int, c as int),
{
    let l = stack.last();
    let kk = t.kids(l as int);
    assert forall|c: usize| #[trigger] t.kids(l as int).contains(c) implies !ids.contains(c) && !stack.contains(c) && t.is_child(l as int, c as int) by {
        let k = choose|k: int| 0 <= k < kk.len() && kk[k] == c;
        assert(t.kids(l as int)[k] == c);
        lemma_dfs_fresh_child(t, node, ids, stack, l, c);
    }
}

#[verifier::spinoff_prover]
proof fn lemma_dfs_step_dups(t: DungeonTree, node: usize, ids: Seq<usize>, stack: Seq<usize>)
    requires
        t.wf(),
        node < t.n(),
        dfs_inv(t, node, ids, stack),
        stack.len() > 0,
        forall|c: usize| #[trigger] t.kids(stack.last() as int).contains(c) ==> !ids.contains(c) && !stack.contains(c),
    ensures
        ({
            let ids2 = ids.push(stack.last());
            let stack2 = stack.drop_last() + t.kids(stack.last() as int);
            &&& ids2.no_duplicates()
            &&& stack2.no_duplicates()
            &&& forall|x: usize| ids2.contains(x) ==> !stack2.contains(x)
        }),
{
    let l = stack.last();
    let s = stack.drop_last();
    let kk = t.kids(l as int);
    let ids2 = ids.push(l);
    let stack2 = s + kk;
    assert(stack[stack.len() - 1] == l);
    assert(!ids.contains(l));
    assert forall|a: int, b: int| 0 <= a < ids2.len() && 0 <= b < ids2.len() && a != b implies ids2[a] != ids2[b] by {
        if a == ids.len() {
            assert(ids.contains(ids2[b]));
        } else if b == ids.len() {
            assert(ids.contains(ids2[a]));
        }
    }
    assert forall|a: int, b: int| 0 <= a < stack2.len() && 0 <= b < stack2.len() && a != b implies stack2[a] != stack2[b] by {
        if a < s.len() && b < s.len() {
            assert(stack[a] == s[a] && stack[b] == s[b]);
        } else if a >= s.len() && b >= s.len() {
            assert(t.kids(l as int)[a - s.len()] == stack2[a]);
            assert(t.kids(l as int)[b - s.len()] == stack2[b]);
        } else if a < s.len() {
            assert(kk[b - s.len()] == stack2[b]);
            assert(kk.contains(stack2[b]));
            assert(stack[a] == s[a]);
        } else {
            assert(kk[a - s.len()] == stack2[a]);
            assert(kk.contains(stack2[a]));
            assert(stack[b] == s[b]);
        }
    }
    assert forall|x: usize| ids2.contains(x) implies !stack2.contains(x) by {
        let a = choose|a: int| 0 <= a < ids2.len() && ids2[a] == x;
        if stack2.contains(x) {
            let b = choose|b: int| 0 <= b < stack2.len() && stack2[b] == x;
            if b < s.len() {
                assert(stack[b] == x);
                if a == ids.len() {
                    assert(stack[stack.len() - 1] == x);
                } else {
                    assert(ids[a] == x);
                    assert(ids.contains(x));
                }
            } else {
                assert(kk[b - s.len()] == x);
                assert(kk.contains(x));
                if a == ids.len() {
                    assert(stack.contains(l));
                } else {
                    assert(ids[a] == x);
                    assert(ids.contains(x));
                }
            }
        }
    }
}

#[verifier::spinoff_prover]
proof fn lemma_dfs_step_members(t: DungeonTree, node: usize, ids: Seq<usize>, stack: Seq<usize>)
    requires
        t.wf(),
        node < t.n(),
        dfs_inv(t, node, ids, stack),
        stack.len() > 0,
        forall|c: usize| #[trigger] t.kids(stack.last() as int).contains(c) ==> t.is_child(stack.last() as int, c as int),
    ensures
        ({
            let ids2 = ids.push(stack.last());
            let stack2 = stack.drop_last() + t.kids(stack.last() as int);
            &&& forall|m: int| 0 <= m < ids2.len() ==> (#[trigger] ids2[m]) < t.n() && t.is_ancestor(node as int, ids2[m] as int)
            &&& forall|m: int| 0 <= m < stack2.len() ==> (#[trigger] stack2[m]) < t.n() && t.is_ancestor(node as int, stack2[m] as int)
            &&& ids2.len() > 0 && ids2[0] == node
        }),
{
    let l = stack.last();
    let s = stack.drop_last();
    let kk = t.kids(l as int);
    let ids2 = ids.push(l);
    let stack2 = s + kk;
    assert(stack[stack.len() - 1] == l);
    assert forall|m: int| 0 <= m < ids2.len() implies (#[trigger] ids2[m]) < t.n() && t.is_ancestor(node as int, ids2[m] as int) by {
        if m == ids.len() {
            assert(stack[stack.len() - 1] == l);
            assert(ids2[m] == l);
        } else {
            assert(ids2[m] == ids[m]);
        }
    }
    assert forall|m: int| 0 <= m < stack2.len() implies (#[trigger] stack2[m]) < t.n() && t.is_ancestor(node as int, stack2[m] as int) by {
        if m < s.len() {
            assert(stack[m] == stack2[m]);
        } else {
            assert(kk[m - s.len()] == stack2[m]);
            assert(kk.contains(stack2[m]));
            assert(t.is_ancestor(node as int, stack[stack.len() - 1] as int));
            lemma_child_in_subtree(t, node as int, l as int, stack2[m] as int);
            lemma_parent_unique(t, l as int, stack2[m] as int);
        }
    }
    if ids.len() == 0 {
        assert(stack.len() == 1);
        assert(stack[0] == node);
        assert(l == stack[0]);
        assert(ids2[0] == l);
    } else {
        assert(ids2[0] == ids[0]);
    }
}

#[verifier::spinoff_prover]
proof fn lemma_dfs_step_links(t: DungeonTree, node: usize, ids: Seq<usize>, stack: Seq<usize>)
    requires
        t.wf(),
        node < t.n(),
        dfs_inv(t, node, ids, stack),
        stack.len() > 0,
        forall|c: usize| #[trigger] t.kids(stack.last() as int).contains(c) ==> t.is_child(stack.last() as int, c as int),
    ensures
        ({
            let ids2 = ids.push(stack.last());
            let stack2 = stack.drop_last() + t.kids(stack.last() as int);
            &&& forall|m: int| 0 < m < ids2.len() ==> #[trigger] parent_listed_before(t, ids2, m)
            &&& forall|m: int| 0 <= m < stack2.len() ==> #[trigger] parent_listed_in(t, ids2, stack2[m])
        }),
{
    let l = stack.last();
    let s = stack.drop_last();
    let kk = t.kids(l as int);
    let ids2 = ids.push(l);
    let stack2 = s + kk;
    assert forall|m: int| 0 < m < ids2.len() implies #[trigger] parent_listed_before(t, ids2, m) by {
        if m < ids.len() {
            assert(parent_listed_before(t, ids, m));
            assert(ids2.take(m) =~= ids.take(m));
        } else {
            assert(parent_listed_in(t, ids, stack[stack.len() - 1]));
            assert(ids2.take(m) =~= ids);
        }
    }
    assert forall|m: int| 0 <= m < stack2.len() implies #[trigger] parent_listed_in(t, ids2, stack2[m]) by {
        if m < s.len() {
            assert(stack[m] == stack2[m]);
            if ids.len() == 0 {
                assert(stack.len() == 1);
            }
            assert(parent_listed_in(t, ids, stack[m]));
            let q = choose|q: int| 0 <= q < ids.len() && ids[q] == t.parent(stack[m] as int) as usize;
            assert(ids2[q] == ids[q]);
        } else {
            assert(kk[m - s.len()] == stack2[m]);
            assert(kk.contains(stack2[m]));
            lemma_parent_unique(t, l as int, stack2[m] as int);
            assert(ids2[ids.len() as int] == l);
        }
    }
}

#[verifier::spinoff_prover]
proof fn lemma_dfs_step_closed(t: DungeonTree, node: usize, ids: Seq<usize>, stack: Seq<usize>)
    requires
        t.wf(),
        node < t.n(),
        dfs_inv(t, node, ids, stack),
        stack.len() > 0,
    ensures
        ({
            let ids2 = ids.push(stack.last());
            let stack2 = stack.drop_last() + t.kids(stack.last() as int);
            forall|j: int, k: int|
                0 <= j < ids2.len() && 0 <= k < t.kids(ids2[j] as int).len() ==> ids2.contains(
                    #[trigger] t.kids(ids2[j] as int)[k],
                ) || stack2.contains(t.kids(ids2[j] as int)[k])
        }),
{
    let l = stack.last();
    let s = stack.drop_last();
    let kk = t.kids(l as int);
    let ids2 = ids.push(l);
    let stack2 = s + kk;
    assert forall|j: int, k: int| 0 <= j < ids2.len() && 0 <= k < t.kids(ids2[j] as int).len() implies ids2.contains(
        #[trigger] t.kids(ids2[j] as int)[k]) || stack2.contains(t.kids(ids2[j] as int)[k]) by {
        let x = t.kids(ids2[j] as int)[k];
        if j == ids.len() {
            assert(kk[k] == x);
            assert(stack2[s.len() + k] == x);
        } else {
            assert(ids2[j] == ids[j]);
            assert(ids.contains(x) || stack.contains(x));
            if ids.contains(x) {
                let a = choose|a: int| 0 <= a < ids.len() && ids[a] == x;
                assert(ids2[a] == x);
            } else {
                let b = choose|b: int| 0 <= b < stack.len() && stack[b] == x;
                if b == stack.len() - 1 {
                    assert(ids2[ids.len() as int] == x);
                } else {
                    assert(stack2[b] == x);
                }
            }
        }
    }
}

/// One step of the depth-first walk keeps its invariant.
proof fn lemma_dfs_step(t: DungeonTree, node: usize, ids: Seq<usize>, stack: Seq<usize>)
    requires
        t.wf(),
        node < t.n(),
        dfs_inv(t, node, ids, stack),
        stack.len() > 0,
    ensures
        dfs_inv(t, node, ids.push(stack.last()), stack.drop_last() + t.kids(stack.last() as int)),
        ids.len() < t.n(),
{
    lemma_dfs_kids_fresh(t, node, ids, stack);
    lemma_dfs_step_dups(t, node, ids, stack);
    lemma_dfs_step_members(t, node, ids, stack);
    lemma_dfs_step_links(t, node, ids, stack);
    lemma_dfs_step_closed(t, node, ids, stack);
    let ids2 = ids.push(stack.last());
    assert forall|m: int| 0 <= m < ids2.len() implies (#[trigger] ids2[m]) < t.n() by {}
    lemma_distinct_below(ids2, t.n() as nat);
}

/// When the walk's stack is empty, `ids` is exactly the subtree.
proof fn lemma_dfs_done(t: DungeonTree, node: usize, ids: Seq<usize>, stack: Seq<usize>)
    requires
        t.wf(),
        node < t.n(),
        dfs_inv(t, node, ids, stack),
        stack.len() == 0,
    ensures
        ids.len() > 0,
        ids[0] == node,
        ids.no_duplicates(),
        ids.len() <= t.n(),
        forall|m: int| 0 <= m < ids.len() ==> #[trigger] ids[m] < t.n(),
        ids.to_set() == t.subtree_set(node as int),
        forall|j: int, k: int|
            0 <= j < ids.len() && 0 <= k < t.kids(ids[j] as int).len() ==> ids.contains(
                #[trigger] t.kids(ids[j] as int)[k],
            ),
        forall|m: int| 0 < m < ids.len() ==> #[trigger] parent_listed_before(t, ids, m),
{
    assert(ids.len() > 0);
    assert forall|m: int| 0 <= m < ids.len() implies #[trigger] ids[m] < t.n() by {}
    lemma_distinct_below(ids, t.n() as nat);
    assert forall|j: int, k: int|
        0 <= j < ids.len() && 0 <= k < t.kids(ids[j] as int).len() implies ids.contains(
            #[trigger] t.kids(ids[j] as int)[k]) by {
        assert(!stack.contains(t.kids(ids[j] as int)[k]));
    }
    assert(ids.contains(node)) by {
        assert(ids[0] == node);
    }
    assert forall|x: usize| #[trigger] t.subtree_set(node as int).contains(x) implies ids.to_set().contains(x) by {
        lemma_closed_covers(t, node as int, ids, x as int);
    }
    assert forall|x: usize| ids.to_set().contains(x) implies #[trigger] t.subtree_set(node as int).contains(x) by {
        let j = choose|j: int| 0 <= j < ids.len() && ids[j] == x;
        assert(ids[j] < t.n());
    }
    assert(ids.to_set() =~= t.subtree_set(node as int));
}


/// `b` has the same arena shape as `a`: only room kinds may differ.
pub open spec fn same_shape(a: DungeonTree, b: DungeonTree) -> bool {
    &&& a.n() == b.n()
    &&& a.root == b.root
    &&& forall|i: int| 0 <= i < a.n() ==> {
        &&& (#[trigger] b.rooms@[i]).id == a.rooms@[i].id
        &&& b.rooms@[i].children@ == a.rooms@[i].children@
        &&& b.rooms@[i].direction == a.rooms@[i].direction
        &&& b.rooms@[i].depth == a.rooms@[i].depth
        &&& b.rooms@[i].grid_pos == a.rooms@[i].grid_pos
    }
}

/// Trees of the same shape have the same structure.
pub proof fn lemma_same_shape(a: DungeonTree, b: DungeonTree)
    requires
        same_shape(a, b),
        a.wf(),
    ensures
        b.wf(),
        forall|i: int| 0 <= i < a.n() ==> #[trigger] b.kids(i) == a.kids(i),
        forall|p: int, c: int| #[trigger] b.is_child(p, c) == a.is_child(p, c),
        forall|x: int, y: int| #[trigger] b.is_ancestor(x, y) == a.is_ancestor(x, y),
        forall|x: int| #[trigger] b.subtree_set(x) == a.subtree_set(x),
{
    assert forall|i: int| 0 <= i < a.n() implies #[trigger] b.kids(i) == a.kids(i) by {
        assert(b.rooms@[i].children@ == a.rooms@[i].children@);
    }
    assert forall|p: int, c: int| #[trigger] b.is_child(p, c) == a.is_child(p, c) by {
        if 0 <= p < a.n() {
            assert(b.kids(p) == a.kids(p));
        }
    }
    assert(b.wf()) by {
        assert forall|i: int| 0 <= i < b.n() implies (#[trigger] b.rooms@[i]).id == i by {
            assert(a.rooms@[i].id == i);
        }
        assert forall|i: int, k: int| 0 <= i < b.n() && 0 <= k < b.kids(i).len() implies i < #[trigger] b.kids(i)[k] < b.n() by {
            assert(b.kids(i) == a.kids(i));
        }
        assert forall|i: int, k1: int, j: int, k2: int|
            0 <= i < b.n() && 0 <= j < b.n() && 0 <= k1 < b.kids(i).len() && 0 <= k2 < b.kids(j).len()
                && #[trigger] b.kids(i)[k1] == #[trigger] b.kids(j)[k2] implies i == j && k1 == k2 by {
            assert(b.kids(i) == a.kids(i));
            assert(b.kids(j) == a.kids(j));
        }
    }
    assert forall|x: int, y: int| #[trigger] b.is_ancestor(x, y) == a.is_ancestor(x, y) by {
        lemma_same_ancestor(a, b, x, y);
    }
    assert forall|x: int| #[trigger] b.subtree_set(x) == a.subtree_set(x) by {
        assert forall|y: usize| b.subtree_set(x).contains(y) == a.subtree_set(x).contains(y) by {
            lemma_same_ancestor(a, b, x, y as int);
        }
        assert(b.subtree_set(x) =~= a.subtree_set(x));
    }
}

proof fn lemma_same_ancestor(a: DungeonTree, b: DungeonTree, x: int, y: int)
    requires
        same_shape(a, b),
        a.wf(),
        b.wf(),
        forall|p: int, c: int| #[trigger] b.is_child(p, c) == a.is_child(p, c),
    ensures
        b.is_ancestor(x, y) == a.is_ancestor(x, y),
    decreases y,
{
    if x != y && y > 0 {
        if a.has_parent(y) {
            let p = a.parent(y);
            assert(a.is_child(p, y));
            assert(b.is_child(p, y));
            lemma_parent_unique(a, p, y);
            lemma_parent_unique(b, p, y);
            lemma_same_ancestor(a, b, x, p);
        } else {
            assert(!b.has_parent(y)) by {
                if b.has_parent(y) {
                    let q = b.parent(y);
                    assert(b.is_child(q, y));
                    assert(a.is_child(q, y));
                }
            }
        }
    }
}

/// Number of rooms of `s` satisfying `f`.
pub open spec fn count_rooms(s: Seq<Room>, f: spec_fn(Room) -> bool) -> nat
    decreases s.len(),
{
    if s.len() == 0 {
        0
    } else {
        count_rooms(s.drop_last(), f) + if f(s.last()) {
            1nat
        } else {
            0nat
        }
    }
}

/// Membership test on a vector of key ids.
fn keys_contain(v: &Vec<u32>, x: u32) -> (r: bool)
    ensures
        r == v@.contains(x),
{
    let mut i: usize = 0;
    while i < v.len()
        invariant
            i <= v@.len(),
            forall|j: int| 0 <= j < i ==> v@[j] != x,
        decreases v@.len() - i,
    {
        if v[i] == x {
            return true;
        }
        i = i + 1;
    }
    false
}

/// Position of `x` in `v`.
fn key_position(v: &Vec<u32>, x: u32) -> (r: Option<usize>)
    ensures
        match r {
            Some(i) => i < v@.len() && v@[i as int] == x && forall|j: int| 0 <= j < i ==> v@[j] != x,
            None => !v@.contains(x),
        },
{
    let mut i: usize = 0;
    while i < v.len()
        invariant
            i <= v@.len(),
            forall|j: int| 0 <= j < i ==> v@[j] != x,
        decreases v@.len() - i,
    {
        if v[i] == x {
            return Some(i);
        }
        i = i + 1;
    }
    None
}

/// Distinct key ids of the key rooms of `s`, in order of first appearance.
pub open spec fn seen_keys(s: Seq<Room>) -> Seq<u32>
    decreases s.len(),
{
    if s.len() == 0 {
        Seq::<u32>::empty()
    } else {
        let pre = seen_keys(s.drop_last());
        match s.last().kind {
            RoomKind::Key { key_id } => if pre.contains(key_id) {
                pre
            } else {
                pre.push(key_id)
            },
            _ => pre,
        }
    }
}

/// The kind room `i` gets when key ids are renumbered `0..` in order of
/// first appearance of their key rooms in the arena: a locked room follows
/// its key wherever that key room stands, and becomes normal when no key
/// room carries its id.
pub open spec fn renumbered_kind(s: Seq<Room>, i: int) -> RoomKind {
    match s[i].kind {
        RoomKind::Key { key_id } => RoomKind::Key {
            key_id: seen_keys(s).index_of(key_id) as u32,
        },
        RoomKind::Locked { key_id } => if seen_keys(s).contains(key_id) {
            RoomKind::Locked { key_id: seen_keys(s).index_of(key_id) as u32 }
        } else {
            RoomKind::Normal
        },
        k => k,
    }
}

/// Every key room's id is among the seen key ids.
pub proof fn lemma_seen_keys_has(s: Seq<Room>, i: int, kid: u32)
    requires
        0 <= i < s.len(),
        s[i].kind == (RoomKind::Key { key_id: kid }),
    ensures
        seen_keys(s).contains(kid),
    decreases s.len(),
{
    let pre = seen_keys(s.drop_last());
    if i < s.len() - 1 {
        assert(s.drop_last()[i] == s[i]);
        lemma_seen_keys_has(s.drop_last(), i, kid);
        let w = choose|w: int| 0 <= w < pre.len() && pre[w] == kid;
        match s.last().kind {
            RoomKind::Key { key_id } => {
                if !pre.contains(key_id) {
                    assert(pre.push(key_id)[w] == kid);
                }
            },
            _ => {},
        }
    } else {
        assert(s.last() == s[i]);
        if !pre.contains(kid) {
            assert(pre.push(kid)[pre.len() as int] == kid);
        }
    }
}

impl DungeonTree {
    /// Set the kind of room `i`.
    fn set_kind(&mut self, i: usize, k: RoomKind)
        requires
            i < old(self).n(),
        ensures
            final(self).rooms@[i as int].kind == k,
            final(self).rooms@[i as int].id == old(self).rooms@[i as int].id,
            final(self).rooms@[i as int].children@ == old(self).rooms@[i as int].children@,
            final(self).rooms@[i as int].direction == old(self).rooms@[i as int].direction,
            final(self).rooms@[i as int].depth == old(self).rooms@[i as int].depth,
            final(self).rooms@[i as int].grid_pos == old(self).rooms@[i as int].grid_pos,
            forall|j: int| 0 <= j < old(self).n() && j != i ==> final(self).rooms@[j] == old(self).rooms@[j],
            final(self).n() == old(self).n(),
            final(self).root == old(self).root,
    {
        self.rooms[i].kind = k;
    }

    /// Re-assign sequential key IDs `0..n` (in order of first appearance of
    /// the key rooms) while preserving the key/lock pairing; a locked room
    /// whose key id no key room carries is demoted to `Normal`.
    pub fn renumber_keys(&mut self)
        ensures
            same_shape(*old(self), *final(self)),
            forall|i: int| 0 <= i < old(self).n() ==> (#[trigger] final(self).rooms@[i]).kind == renumbered_kind(old(self).rooms@, i),
    {
        let ghost orig = self.rooms@;
        let mut seen: Vec<u32> = Vec::new();
        let mut i: usize = 0;
        while i < self.rooms.len()
            invariant
                *self == *old(self),
                orig == old(self).rooms@,
                i <= self.n(),
                seen@ == seen_keys(orig.take(i as int)),
                seen@.no_duplicates(),
            decreases self.n() - i,
        {
            proof {
                assert(orig.take(i as int + 1).drop_last() =~= orig.take(i as int));
                assert(orig.take(i as int + 1).last() == orig[i as int]);
            }
            match self.rooms[i].kind {
                RoomKind::Key { key_id } => {
                    if !keys_contain(&seen, key_id) {
                        let ghost prev = seen@;
                        seen.push(key_id);
                        proof {
                            assert(seen@.no_duplicates()) by {
                                assert forall|a: int, b: int| 0 <= a < seen@.len() && 0 <= b < seen@.len() && a != b
                                    implies seen@[a] != seen@[b] by {
                                    if a < prev.len() && b < prev.len() {
                                        assert(seen@[a] == prev[a] && seen@[b] == prev[b]);
                                    } else if a == prev.len() {
                                        assert(seen@[b] == prev[b]);
                                    } else {
                                        assert(seen@[a] == prev[a]);
                                    }
                                }
                            }
                        }
                    }
                },
                _ => {},
            }
            proof {
                assert(seen@ == seen_keys(orig.take(i as int + 1)));
            }
            i = i + 1;
        }
        proof {
            assert(orig.take(orig.len() as int) =~= orig);
            lemma_u32_distinct_len(seen@);
        }
        let mut i: usize = 0;
        while i < self.rooms.len()
            invariant
                self.n() == orig.len(),
                i <= self.n(),
                seen@ == seen_keys(orig),
                seen@.no_duplicates(),
                seen@.len() <= 0x1_0000_0000,
                forall|j: int| 0 <= j < orig.len() ==> {
                    &&& (#[trigger] self.rooms@[j]).id == orig[j].id
                    &&& self.rooms@[j].children@ == orig[j].children@
                    &&& self.rooms@[j].direction == orig[j].direction
                    &&& self.rooms@[j].depth == orig[j].depth
                    &&& self.rooms@[j].grid_pos == orig[j].grid_pos
                },
                forall|j: int| 0 <= j < i ==> (#[trigger] self.rooms@[j]).kind == renumbered_kind(orig, j),
                forall|j: int| i <= j < orig.len() ==> (#[trigger] self.rooms@[j]).kind == orig[j].kind,
                self.root == old(self).root,
                orig == old(self).rooms@,
            decreases self.n() - i,
        {
            match self.rooms[i].kind {
                RoomKind::Key { key_id } => {
                    proof {
                        lemma_seen_keys_has(orig, i as int, key_id);
                    }
                    match key_position(&seen, key_id) {
                        Some(pos) => {
                            proof {
                                lemma_index_of_unique(seen@, key_id, pos as int);
                            }
                            self.set_kind(i, RoomKind::Key { key_id: pos as u32 });
                        },
                        None => {},
                    }
                },
                RoomKind::Locked { key_id } => {
                    match key_position(&seen, key_id) {
                        Some(pos) => {
                            proof {
                                lemma_index_of_unique(seen@, key_id, pos as int);
                            }
                            self.set_kind(i, RoomKind::Locked { key_id: pos as u32 });
                        },
                        None => {
                            self.set_kind(i, RoomKind::Normal);
                        },
                    }
                },
                RoomKind::Normal | RoomKind::Switch | RoomKind::SwitchDoor => {},
            }
            i = i + 1;
        }
    }
}

/// In a duplicate-free sequence the index of an element is its position.
proof fn lemma_index_of_unique(s: Seq<u32>, x: u32, pos: int)
    requires
        s.no_duplicates(),
        0 <= pos < s.len(),
        s[pos] == x,
    ensures
        s.index_of(x) == pos,
{
    s.index_of_first_ensures(x);
    assert(s.contains(x));
    let i = s.index_of(x);
    assert(s[i] == x);
}

/// A duplicate-free sequence of `u32` has at most 2^32 entries, and fewer
/// when some value is missing.
proof fn lemma_u32_distinct_len(s: Seq<u32>)
    requires
        s.no_duplicates(),
    ensures
        s.len() <= 0x1_0000_0000,
{
    let m = s.map_values(|x: u32| x as usize);
    assert forall|a: int, b: int| 0 <= a < m.len() && 0 <= b < m.len() && a != b implies m[a] != m[b] by {
        assert(s[a] != s[b]);
    }
    assert forall|a: int| 0 <= a < m.len() implies (#[trigger] m[a]) < 0x1_0000_0000nat by {
        assert(s[a] < 0x1_0000_0000);
    }
    lemma_distinct_below(m, 0x1_0000_0000nat);
}


// ── Placed-room-aware accessors ─────────────────────────────────────────────

/// Some placed key room of `s` carries key id `kid`.
pub open spec fn key_live(s: Seq<Room>, g: DungeonGrid, kid: u32) -> bool {
    exists|j: int| 0 <= j < s.len() && g.placed(s[j].id) && #[trigger] s[j].kind == (RoomKind::Key { key_id: kid })
}

/// The kind room `i` has after orphaned locks are repaired against `g`.
pub open spec fn repaired_kind(s: Seq<Room>, g: DungeonGrid, i: int) -> RoomKind {
    match s[i].kind {
        RoomKind::Locked { key_id } => if g.placed(s[i].id) && !key_live(s, g, key_id) {
            RoomKind::Normal
        } else {
            s[i].kind
        },
        k => k,
    }
}

/// A room whose children lists only keep entries of the old lists, without
/// repeats, leaves the arena well formed.
proof fn lemma_wf_sublists(a: DungeonTree, b: DungeonTree)
    requires
        a.wf(),
        a.n() == b.n(),
        a.root == b.root,
        forall|i: int| 0 <= i < a.n() ==> (#[trigger] b.rooms@[i]).id == a.rooms@[i].id,
        forall|i: int| 0 <= i < a.n() ==> (#[trigger] b.kids(i)).no_duplicates(),
        forall|i: int, x: usize| 0 <= i < a.n() && #[trigger] b.kids(i).contains(x) ==> a.kids(i).contains(x),
    ensures
        b.wf(),
{
    assert forall|i: int| 0 <= i < b.n() implies (#[trigger] b.rooms@[i]).id == i by {
        assert(a.rooms@[i].id == i);
    }
    assert forall|i: int, k: int| 0 <= i < b.n() && 0 <= k < b.kids(i).len() implies i < #[trigger] b.kids(i)[k] < b.n() by {
        assert(b.kids(i).contains(b.kids(i)[k]));
        let k2 = choose|k2: int| 0 <= k2 < a.kids(i).len() && a.kids(i)[k2] == b.kids(i)[k];
        assert(a.kids(i)[k2] == b.kids(i)[k]);
    }
    assert forall|i: int, k1: int, j: int, k2: int|
        0 <= i < b.n() && 0 <= j < b.n() && 0 <= k1 < b.kids(i).len() && 0 <= k2 < b.kids(j).len()
            && #[trigger] b.kids(i)[k1] == #[trigger] b.kids(j)[k2] implies i == j && k1 == k2 by {
        let x = b.kids(i)[k1];
        assert(b.kids(i).contains(x));
        assert(b.kids(j).contains(x));
        let m1 = choose|m: int| 0 <= m < a.kids(i).len() && a.kids(i)[m] == x;
        let m2 = choose|m: int| 0 <= m < a.kids(j).len() && a.kids(j)[m] == x;
        assert(a.kids(i)[m1] == a.kids(j)[m2]);
    }
}

/// The children lists of a well-formed arena hold no repeats.
proof fn lemma_kids_distinct(t: DungeonTree, i: int)
    requires
        t.wf(),
        0 <= i < t.n(),
    ensures
        t.kids(i).no_duplicates(),
{
    assert forall|a: int, b: int| 0 <= a < t.kids(i).len() && 0 <= b < t.kids(i).len() && a != b
        implies t.kids(i)[a] != t.kids(i)[b] by {
        if t.kids(i)[a] == t.kids(i)[b] {
            assert(t.kids(i)[a] == t.kids(i)[b]);
        }
    }
}

impl DungeonTree {
    /// Number of placed (non-detached) rooms according to the given grid.
    pub fn placed_room_count(&self, grid: &DungeonGrid) -> (r: usize)
        ensures
            r == grid.ncells(),
    {
        grid.placed_room_ids().len()
    }

    /// Number of rooms that are placed in `grid` and whose kind is picked by `which`.
    fn count_placed(&self, grid: &DungeonGrid, which: u8) -> (r: usize)
        requires
            which < 4,
        ensures
            r == count_rooms(
                self.rooms@,
                if which == 0 {
                    |x: Room| grid.placed(x.id) && is_key_kind(x.kind)
                } else if which == 1 {
                    |x: Room| grid.placed(x.id) && is_locked_kind(x.kind)
                } else if which == 2 {
                    |x: Room| grid.placed(x.id) && is_switch_kind(x.kind)
                } else {
                    |x: Room| grid.placed(x.id) && is_switch_door_kind(x.kind)
                },
            ),
    {
        let ghost f = if which == 0 {
            |x: Room| grid.placed(x.id) && is_key_kind(x.kind)
        } else if which == 1 {
            |x: Room| grid.placed(x.id) && is_locked_kind(x.kind)
        } else if which == 2 {
            |x: Room| grid.placed(x.id) && is_switch_kind(x.kind)
        } else {
            |x: Room| grid.placed(x.id) && is_switch_door_kind(x.kind)
        };
        let mut count: usize = 0;
        let mut i: usize = 0;
        while i < self.rooms.len()
            invariant
                i <= self.n(),
                which < 4,
                f == (if which == 0 {
                    |x: Room| grid.placed(x.id) && is_key_kind(x.kind)
                } else if which == 1 {
                    |x: Room| grid.placed(x.id) && is_locked_kind(x.kind)
                } else if which == 2 {
                    |x: Room| grid.placed(x.id) && is_switch_kind(x.kind)
                } else {
                    |x: Room| grid.placed(x.id) && is_switch_door_kind(x.kind)
                }),
                count == count_rooms(self.rooms@.take(i as int), f),
                count <= i,
            decreases self.n() - i,
        {
            let kind = self.rooms[i].kind;
            let hit_kind = if which == 0 {
                kind.is_key()
            } else if which == 1 {
                kind.is_locked()
            } else if which == 2 {
                kind.is_switch()
            } else {
                kind.is_switch_door()
            };
            let hit = hit_kind && grid.is_placed(self.rooms[i].id);
            proof {
                assert(self.rooms@.take(i as int + 1).drop_last() =~= self.rooms@.take(i as int));
                assert(self.rooms@.take(i as int + 1).last() == self.rooms@[i as int]);
                assert(hit == f(self.rooms@[i as int]));
            }
            if hit {
                count = count + 1;
            }
            i = i + 1;
        }
        proof {
            assert(self.rooms@.take(self.n()) =~= self.rooms@);
        }
        count
    }

    /// Number of Key rooms among placed rooms.
    pub fn placed_key_count(&self, grid: &DungeonGrid) -> (r: usize)
        ensures
            r == count_rooms(self.rooms@, |x: Room| grid.placed(x.id) && is_key_kind(x.kind)),
    {
        self.count_placed(grid, 0)
    }

    /// Number of Locked rooms among placed rooms.
    pub fn placed_lock_count(&self, grid: &DungeonGrid) -> (r: usize)
        ensures
            r == count_rooms(self.rooms@, |x: Room| grid.placed(x.id) && is_locked_kind(x.kind)),
    {
        self.count_placed(grid, 1)
    }

    /// Number of Switch rooms among placed rooms.
    pub fn placed_switch_count(&self, grid: &DungeonGrid) -> (r: usize)
        ensures
            r == count_rooms(self.rooms@, |x: Room| grid.placed(x.id) && is_switch_kind(x.kind)),
    {
        self.count_placed(grid, 2)
    }

    /// Number of SwitchDoor rooms among placed rooms.
    pub fn placed_switch_door_count(&self, grid: &DungeonGrid) -> (r: usize)
        ensures
            r == count_rooms(self.rooms@, |x: Room| grid.placed(x.id) && is_switch_door_kind(x.kind)),
    {
        self.count_placed(grid, 3)
    }

    /// Remove from every child list the rooms that the grid did not place.
    pub fn remove_overlapping(&mut self, grid: &DungeonGrid)
        requires
            old(self).wf(),
        ensures
            final(self).wf(),
            final(self).n() == old(self).n(),
            final(self).root == old(self).root,
            forall|i: int| 0 <= i < old(self).n() ==> {
                &&& (#[trigger] final(self).rooms@[i]).id == old(self).rooms@[i].id
                &&& final(self).rooms@[i].kind == old(self).rooms@[i].kind
                &&& final(self).rooms@[i].direction == old(self).rooms@[i].direction
                &&& final(self).rooms@[i].depth == old(self).rooms@[i].depth
                &&& final(self).rooms@[i].grid_pos == old(self).rooms@[i].grid_pos
                &&& final(self).kids(i) == old(self).kids(i).filter(|c: usize| grid.placed(c))
            },
    {
        let ghost orig = *self;
        let mut i: usize = 0;
        while i < self.rooms.len()
            invariant
                orig.wf(),
                orig == *old(self),
                self.n() == orig.n(),
                self.root == orig.root,
                i <= self.n(),
                forall|j: int| 0 <= j < orig.n() ==> {
                    &&& (#[trigger] self.rooms@[j]).id == orig.rooms@[j].id
                    &&& self.rooms@[j].kind == orig.rooms@[j].kind
                    &&& self.rooms@[j].direction == orig.rooms@[j].direction
                    &&& self.rooms@[j].depth == orig.rooms@[j].depth
                    &&& self.rooms@[j].grid_pos == orig.rooms@[j].grid_pos
                },
                forall|j: int| 0 <= j < i ==> #[trigger] self.kids(j) == orig.kids(j).filter(|c: usize| grid.placed(c)),
                forall|j: int| 0 <= j < i ==> (#[trigger] self.kids(j)).no_duplicates(),
                forall|j: int, x: usize| 0 <= j < i && #[trigger] self.kids(j).contains(x) ==> orig.kids(j).contains(x),
                forall|j: int| i <= j < orig.n() ==> #[trigger] self.kids(j) == orig.kids(j),
            decreases self.n() - i,
        {
            let ghost olds = orig.kids(i as int);
            let ghost pred = |c: usize| grid.placed(c);
            let ghost before = *self;
            proof {
                lemma_kids_distinct(orig, i as int);
            }
            let mut kept: Vec<usize> = Vec::new();
            let mut m: usize = 0;
            while m < self.rooms[i].children.len()
                invariant
                    i < self.n(),
                    self.kids(i as int) == olds,
                    olds.no_duplicates(),
                    pred == (|c: usize| grid.placed(c)),
                    m <= olds.len(),
                    kept@ == olds.take(m as int).filter(pred),
                    kept@.no_duplicates(),
                    forall|x: usize| kept@.contains(x) ==> olds.take(m as int).contains(x),
                decreases olds.len() - m,
            {
                let c = self.rooms[i].children[m];
                proof {
                    assert(olds.take(m as int + 1) =~= olds.take(m as int).push(c));
                    olds.take(m as int).lemma_filter_push(c, pred);
                    assert(!olds.take(m as int).contains(c)) by {
                        if olds.take(m as int).contains(c) {
                            let q = choose|q: int| 0 <= q < m && olds.take(m as int)[q] == c;
                            assert(olds[q] == olds[m as int]);
                        }
                    }
                }
                let ghost prev = kept@;
                if grid.is_placed(c) {
                    kept.push(c);
                    proof {
                        assert(kept@ == prev.push(c));
                        assert(!prev.contains(c));
                        assert forall|a: int, b: int| 0 <= a < kept@.len() && 0 <= b < kept@.len() && a != b
                            implies kept@[a] != kept@[b] by {
                            if a < prev.len() && b < prev.len() {
                                assert(kept@[a] == prev[a] && kept@[b] == prev[b]);
                            } else if a == prev.len() {
                                assert(prev[b] == kept@[b]);
                            } else {
                                assert(prev[a] == kept@[a]);
                            }
                        }
                    }
                }
                proof {
                    assert forall|x: usize| kept@.contains(x) implies olds.take(m as int + 1).contains(x) by {
                        if x != c {
                            let q0 = choose|q: int| 0 <= q < kept@.len() && kept@[q] == x;
                            assert(prev[q0] == x);
                            assert(prev.contains(x));
                            assert(olds.take(m as int).contains(x));
                            let q = choose|q: int| 0 <= q < m && olds.take(m as int)[q] == x;
                            assert(olds.take(m as int + 1)[q] == x);
                        } else {
                            assert(olds.take(m as int + 1)[m as int] == c);
                        }
                    }
                }
                m = m + 1;
            }
            proof {
                assert(olds.take(olds.len() as int) =~= olds);
            }
            self.rooms[i].children = kept;
            proof {
                assert(self.kids(i as int) == kept@);
                assert(self.kids(i as int) == orig.kids(i as int).filter(|c: usize| grid.placed(c)));
                assert forall|j: int| 0 <= j < self.n() && j != i implies #[trigger] self.kids(j) == before.kids(j) by {
                    assert(self.rooms@[j] == before.rooms@[j]);
                }
            }
            i = i + 1;
        }
        proof {
            lemma_wf_sublists(orig, *self);
        }
    }

    /// Demote every placed `Locked` room whose key is not held by a placed
    /// `Key` room to `Normal`.
    pub fn repair_orphaned_locks(&mut self, grid: &DungeonGrid)
        ensures
            same_shape(*old(self), *final(self)),
            forall|i: int| 0 <= i < old(self).n() ==> (#[trigger] final(self).rooms@[i]).kind == repaired_kind(old(self).rooms@, *grid, i),
    {
        let ghost orig = self.rooms@;
        let mut live: Vec<u32> = Vec::new();
        let mut i: usize = 0;
        while i < self.rooms.len()
            invariant
                self.rooms@ == orig,
                i <= orig.len(),
                forall|kid: u32| live@.contains(kid) <==> exists|j: int| 0 <= j < i && grid.placed(orig[j].id) && #[trigger] orig[j].kind == (RoomKind::Key { key_id: kid }),
            decreases orig.len() - i,
        {
            if let RoomKind::Key { key_id } = self.rooms[i].kind {
                if grid.is_placed(self.rooms[i].id) {
                    let ghost prev = live@;
                    live.push(key_id);
                    proof {
                        assert(orig[i as int].kind == (RoomKind::Key { key_id: key_id }));
                        assert(live@ == prev.push(key_id));
                        assert forall|kid: u32| live@.contains(kid) <==> exists|j: int| 0 <= j < i + 1 && grid.placed(orig[j].id) && #[trigger] orig[j].kind == (RoomKind::Key { key_id: kid }) by {
                            if live@.contains(kid) && kid != key_id {
                                let q = choose|q: int| 0 <= q < live@.len() && live@[q] == kid;
                                assert(prev[q] == kid);
                                assert(prev.contains(kid));
                            }
                            if exists|j: int| 0 <= j < i + 1 && grid.placed(orig[j].id) && #[trigger] orig[j].kind == (RoomKind::Key { key_id: kid }) {
                                if kid != key_id {
                                    let j = choose|j: int| 0 <= j < i + 1 && grid.placed(orig[j].id) && #[trigger] orig[j].kind == (RoomKind::Key { key_id: kid });
                                    assert(j < i);
                                    assert(prev.contains(kid));
                                    let q = choose|q: int| 0 <= q < prev.len() && prev[q] == kid;
                                    assert(live@[q] == kid);
                                } else {
                                    assert(live@[live@.len() - 1] == kid);
                                }
                            }
                        }
                    }
                }
            }
            i = i + 1;
        }
        let mut i: usize = 0;
        while i < self.rooms.len()
            invariant
                self.n() == orig.len(),
                i <= self.n(),
                forall|kid: u32| live@.contains(kid) <==> key_live(orig, *grid, kid),
                forall|j: int| 0 <= j < orig.len() ==> {
                    &&& (#[trigger] self.rooms@[j]).id == orig[j].id
                    &&& self.rooms@[j].children@ == orig[j].children@
                    &&& self.rooms@[j].direction == orig[j].direction
                    &&& self.rooms@[j].depth == orig[j].depth
                    &&& self.rooms@[j].grid_pos == orig[j].grid_pos
                },
                forall|j: int| 0 <= j < i ==> (#[trigger] self.rooms@[j]).kind == repaired_kind(orig, *grid, j),
                forall|j: int| i <= j < orig.len() ==> (#[trigger] self.rooms@[j]).kind == orig[j].kind,
                self.root == old(self).root,
                orig == old(self).rooms@,
            decreases self.n() - i,
        {
            if let RoomKind::Locked { key_id } = self.rooms[i].kind {
                if grid.is_placed(self.rooms[i].id) && !keys_contain(&live, key_id) {
                    self.set_kind(i, RoomKind::Normal);
                }
            }
            i = i + 1;
        }
    }
}


// ── Key ids for locked rooms ────────────────────────────────────────────────

/// Number of key rooms (in `before`) among the first `m` entries of `order`.
pub open spec fn keys_before(before: Seq<Room>, order: Seq<usize>, m: int) -> nat {
    count_ids(order.take(m), |x: usize| before[x as int].kind is Key)
}

/// A room among the first `m` of `order` is the key room of `kid` in `after`.
pub open spec fn key_at_before(after: Seq<Room>, order: Seq<usize>, m: int, kid: u32) -> bool {
    exists|m2: int| 0 <= m2 < m && #[trigger] after[order[m2] as int].kind == (RoomKind::Key { key_id: kid })
}

/// A room among the first `m` of `order` is locked by `kid` in `after`.
pub open spec fn lock_at_before(after: Seq<Room>, order: Seq<usize>, m: int, kid: u32) -> bool {
    exists|m2: int| 0 <= m2 < m && #[trigger] after[order[m2] as int].kind == (RoomKind::Locked { key_id: kid })
}

/// What assigning key ids did to the room at position `m` of `order`: key
/// rooms are numbered by their rank among key rooms, a locked room takes
/// a key id of an earlier key room that no earlier locked room took, and
/// becomes `Normal` exactly when every earlier key is taken; other rooms
/// keep their kind.
pub open spec fn lock_assigned_at(before: Seq<Room>, after: Seq<Room>, order: Seq<usize>, m: int) -> bool {
    let i = order[m] as int;
    let kb = keys_before(before, order, m);
    match before[i].kind {
        RoomKind::Key { .. } => after[i].kind == (RoomKind::Key { key_id: kb as u32 }),
        RoomKind::Locked { .. } => match after[i].kind {
            RoomKind::Locked { key_id } => key_id < kb && !lock_at_before(after, order, m, key_id),
            RoomKind::Normal => forall|kid: u32| kid < kb ==> #[trigger] lock_at_before(after, order, m, kid),
            _ => false,
        },
        k => after[i].kind == k,
    }
}

/// The relation between a tree before and after key ids are assigned along
/// the breadth-first order `order`.
pub open spec fn locks_assigned(before: DungeonTree, after: DungeonTree, order: Seq<usize>) -> bool {
    &&& is_bfs_from(before.rooms@, before.root, order)
    &&& order.no_duplicates()
    &&& forall|m: int| 0 <= m < order.len() ==> #[trigger] order[m] < before.n()
    &&& forall|m: int| 0 <= m < order.len() ==> #[trigger] lock_assigned_at(before.rooms@, after.rooms@, order, m)
    &&& forall|i: int| 0 <= i < before.n() && !order.contains(i as usize) ==> (#[trigger] after.rooms@[i]).kind == before.rooms@[i].kind
}

/// Every locked room along `order` opens with the key of a key room that
/// comes earlier in `order`, and no two locked rooms share a key id.
pub open spec fn locks_follow_keys(rooms: Seq<Room>, order: Seq<usize>) -> bool {
    &&& forall|m: int| 0 <= m < order.len() && (#[trigger] rooms[order[m] as int]).kind is Locked
        ==> key_at_before(rooms, order, m, rooms[order[m] as int].kind->Locked_key_id)
    &&& forall|m1: int, m2: int| 0 <= m1 < order.len() && 0 <= m2 < order.len() && m1 != m2
        && (#[trigger] rooms[order[m1] as int]).kind is Locked && (#[trigger] rooms[order[m2] as int]).kind is Locked
        ==> rooms[order[m1] as int].kind != rooms[order[m2] as int].kind
}

/// A count over a prefix is at most the prefix length.
pub proof fn lemma_count_ids_le(s: Seq<usize>, f: spec_fn(usize) -> bool)
    ensures
        count_ids(s, f) <= s.len(),
    decreases s.len(),
{
    if s.len() > 0 {
        lemma_count_ids_le(s.drop_last(), f);
    }
}

/// Counting one more entry of a prefix.
proof fn lemma_count_ids_step(s: Seq<usize>, f: spec_fn(usize) -> bool, m: int)
    requires
        0 <= m < s.len(),
    ensures
        count_ids(s.take(m + 1), f) == count_ids(s.take(m), f) + if f(s[m]) { 1nat } else { 0nat },
{
    assert(s.take(m + 1).drop_last() =~= s.take(m));
    assert(s.take(m + 1).last() == s[m]);
}

/// Key rooms are numbered by rank: every id below the number of key rooms
/// before position `m` belongs to a key room before `m`.
proof fn lemma_key_rank(before: Seq<Room>, after: Seq<Room>, order: Seq<usize>, m: int, kid: u32)
    requires
        0 <= m <= order.len(),
        forall|m2: int| 0 <= m2 < order.len() ==> #[trigger] order[m2] < before.len(),
        forall|m2: int| 0 <= m2 < m ==> #[trigger] lock_assigned_at(before, after, order, m2),
        kid < keys_before(before, order, m),
    ensures
        key_at_before(after, order, m, kid),
    decreases m,
{
    if m > 0 {
        lemma_count_ids_step(order, |x: usize| before[x as int].kind is Key, m - 1);
        if kid < keys_before(before, order, m - 1) {
            lemma_key_rank(before, after, order, m - 1, kid);
            let w = choose|m2: int| 0 <= m2 < m - 1 && #[trigger] after[order[m2] as int].kind == (RoomKind::Key { key_id: kid });
            assert(after[order[w] as int].kind == (RoomKind::Key { key_id: kid }));
        } else {
            assert(lock_assigned_at(before, after, order, m - 1));
            assert(before[order[m - 1] as int].kind is Key);
            assert(after[order[m - 1] as int].kind == (RoomKind::Key { key_id: kid }));
        }
    }
}

/// After key ids are assigned, locked rooms follow their keys in
/// breadth-first order and no two locked rooms share a key.
pub proof fn lemma_locks_follow_keys(before: DungeonTree, after: DungeonTree, order: Seq<usize>)
    requires
        locks_assigned(before, after, order),
    ensures
        locks_follow_keys(after.rooms@, order),
{
    let b = before.rooms@;
    let a = after.rooms@;
    assert forall|m: int| 0 <= m < order.len() && (#[trigger] a[order[m] as int]).kind is Locked
        implies key_at_before(a, order, m, a[order[m] as int].kind->Locked_key_id) by {
        assert(lock_assigned_at(b, a, order, m));
        lemma_key_rank(b, a, order, m, a[order[m] as int].kind->Locked_key_id);
    }
    assert forall|m1: int, m2: int| 0 <= m1 < order.len() && 0 <= m2 < order.len() && m1 != m2
        && (#[trigger] a[order[m1] as int]).kind is Locked && (#[trigger] a[order[m2] as int]).kind is Locked
        implies a[order[m1] as int].kind != a[order[m2] as int].kind by {
        assert(lock_assigned_at(b, a, order, m1));
        assert(lock_assigned_at(b, a, order, m2));
        if a[order[m1] as int].kind == a[order[m2] as int].kind {
            let kid = a[order[m1] as int].kind->Locked_key_id;
            if m1 < m2 {
                assert(lock_at_before(a, order, m2, kid));
            } else {
                assert(lock_at_before(a, order, m1, kid));
            }
        }
    }
}

/// Changing rooms outside the first `m` entries of `order` changes nothing
/// that is said of those entries.
proof fn lemma_prefix_frame(before: Seq<Room>, a: Seq<Room>, b: Seq<Room>, order: Seq<usize>, m: int)
    requires
        0 <= m <= order.len(),
        forall|j: int| 0 <= j < m ==> #[trigger] b[order[j] as int] == a[order[j] as int],
    ensures
        forall|m2: int, kid: u32| 0 <= m2 <= m ==> #[trigger] lock_at_before(b, order, m2, kid) == lock_at_before(a, order, m2, kid),
        forall|m2: int, kid: u32| 0 <= m2 <= m ==> #[trigger] key_at_before(b, order, m2, kid) == key_at_before(a, order, m2, kid),
        forall|m2: int| 0 <= m2 < m ==> #[trigger] lock_assigned_at(before, b, order, m2) == lock_assigned_at(before, a, order, m2),
{
    assert forall|m2: int, kid: u32| 0 <= m2 <= m implies #[trigger] lock_at_before(b, order, m2, kid) == lock_at_before(a, order, m2, kid) by {
        if lock_at_before(b, order, m2, kid) {
            let w = choose|w: int| 0 <= w < m2 && #[trigger] b[order[w] as int].kind == (RoomKind::Locked { key_id: kid });
            assert(a[order[w] as int] == b[order[w] as int]);
        }
        if lock_at_before(a, order, m2, kid) {
            let w = choose|w: int| 0 <= w < m2 && #[trigger] a[order[w] as int].kind == (RoomKind::Locked { key_id: kid });
            assert(a[order[w] as int] == b[order[w] as int]);
        }
    }
    assert forall|m2: int, kid: u32| 0 <= m2 <= m implies #[trigger] key_at_before(b, order, m2, kid) == key_at_before(a, order, m2, kid) by {
        if key_at_before(b, order, m2, kid) {
            let w = choose|w: int| 0 <= w < m2 && #[trigger] b[order[w] as int].kind == (RoomKind::Key { key_id: kid });
            assert(a[order[w] as int] == b[order[w] as int]);
        }
        if key_at_before(a, order, m2, kid) {
            let w = choose|w: int| 0 <= w < m2 && #[trigger] a[order[w] as int].kind == (RoomKind::Key { key_id: kid });
            assert(a[order[w] as int] == b[order[w] as int]);
        }
    }
    assert forall|m2: int| 0 <= m2 < m implies #[trigger] lock_assigned_at(before, b, order, m2) == lock_assigned_at(before, a, order, m2) by {
        assert(b[order[m2] as int] == a[order[m2] as int]);
        assert forall|kid: u32| #[trigger] lock_at_before(b, order, m2, kid) == lock_at_before(a, order, m2, kid) by {
            assert(lock_at_before(b, order, m2, kid) == lock_at_before(a, order, m2, kid));
        }
        let kb = keys_before(before, order, m2);
        if forall|kid: u32| kid < kb ==> #[trigger] lock_at_before(b, order, m2, kid) {
            assert forall|kid: u32| kid < kb implies #[trigger] lock_at_before(a, order, m2, kid) by {
                assert(lock_at_before(b, order, m2, kid));
            }
        }
        if forall|kid: u32| kid < kb ==> #[trigger] lock_at_before(a, order, m2, kid) {
            assert forall|kid: u32| kid < kb implies #[trigger] lock_at_before(b, order, m2, kid) by {
                assert(lock_at_before(a, order, m2, kid));
            }
        }
    }
}

/// One more position of `order` adds that position's room to what is
/// said of the positions before it.
proof fn lemma_at_before_step(after: Seq<Room>, order: Seq<usize>, m: int)
    requires
        0 <= m < order.len(),
    ensures
        forall|kid: u32| #[trigger] lock_at_before(after, order, m + 1, kid)
            == (lock_at_before(after, order, m, kid) || after[order[m] as int].kind == (RoomKind::Locked { key_id: kid })),
{
    assert forall|kid: u32| #[trigger] lock_at_before(after, order, m + 1, kid)
        == (lock_at_before(after, order, m, kid) || after[order[m] as int].kind == (RoomKind::Locked { key_id: kid })) by {
        if lock_at_before(after, order, m + 1, kid) {
            let w = choose|w: int| 0 <= w < m + 1 && #[trigger] after[order[w] as int].kind == (RoomKind::Locked { key_id: kid });
            if w < m {
                assert(lock_at_before(after, order, m, kid));
            }
        }
        if lock_at_before(after, order, m, kid) {
            let w = choose|w: int| 0 <= w < m && #[trigger] after[order[w] as int].kind == (RoomKind::Locked { key_id: kid });
            assert(after[order[w] as int].kind == (RoomKind::Locked { key_id: kid }));
        }
        if after[order[m] as int].kind == (RoomKind::Locked { key_id: kid }) {
            assert(after[order[m] as int].kind == (RoomKind::Locked { key_id: kid }));
        }
    }
}

/// Removing one entry of a duplicate-free sequence removes exactly that value.
proof fn lemma_remove_distinct(s: Seq<u32>, i: int)
    requires
        s.no_duplicates(),
        0 <= i < s.len(),
    ensures
        s.remove(i).no_duplicates(),
        forall|x: u32| #[trigger] s.remove(i).contains(x) <==> (s.contains(x) && x != s[i]),
{
    let r = s.remove(i);
    assert forall|a: int| 0 <= a < r.len() implies #[trigger] r[a] == (if a < i { s[a] } else { s[a + 1] }) by {}
    assert forall|a: int, b: int| 0 <= a < r.len() && 0 <= b < r.len() && a != b implies r[a] != r[b] by {
        let sa = if a < i { a } else { a + 1 };
        let sb = if b < i { b } else { b + 1 };
        assert(r[a] == s[sa] && r[b] == s[sb]);
    }
    assert forall|x: u32| #[trigger] r.contains(x) <==> (s.contains(x) && x != s[i]) by {
        if r.contains(x) {
            let a = choose|a: int| 0 <= a < r.len() && r[a] == x;
            let sa = if a < i { a } else { a + 1 };
            assert(s[sa] == x);
        }
        if s.contains(x) && x != s[i] {
            let a = choose|a: int| 0 <= a < s.len() && s[a] == x;
            if a < i {
                assert(r[a] == x);
            } else {
                assert(a != i);
                assert(r[a - 1] == x);
            }
        }
    }
}

/// The kinds of the rooms of `r`.
pub open spec fn kinds_of(r: Seq<Room>) -> Seq<RoomKind> {
    Seq::new(r.len(), |i: int| r[i].kind)
}

/// The kinds and generator state [`DungeonTree::assign_lock_ids`] leaves,
/// walking `order` from entry `m` with the key ids `avail` not yet taken by
/// a lock and `next_id` the next key id: a key room takes `next_id`; a
/// locked room takes the available id at a uniform draw (which is then
/// gone), or becomes normal when none is left.
pub open spec fn assign_run(kinds: Seq<RoomKind>, order: Seq<usize>, m: int, avail: Seq<u32>, next_id: u32, s: crate::rng::RngState)
    -> (Seq<RoomKind>, crate::rng::RngState)
    decreases order.len() - m,
{
    if 0 <= m < order.len() {
        let id = order[m] as int;
        match kinds[id] {
            RoomKind::Key { .. } => assign_run(kinds.update(id, RoomKind::Key { key_id: next_id }), order, m + 1, avail.push(next_id),
                (next_id + 1) as u32, s),
            RoomKind::Locked { .. } => if avail.len() == 0 {
                assign_run(kinds.update(id, RoomKind::Normal), order, m + 1, avail, next_id, s)
            } else {
                let dr = crate::rng::usize_draw(s, avail.len() as usize);
                assign_run(kinds.update(id, RoomKind::Locked { key_id: avail[dr.0 as int] }), order, m + 1, avail.remove(dr.0 as int),
                    next_id, dr.1)
            },
            _ => assign_run(kinds, order, m + 1, avail, next_id, s),
        }
    } else {
        (kinds, s)
    }
}

impl DungeonTree {
    /// Assign valid key ids to all rooms along the breadth-first order:
    /// key rooms are numbered `0..` in that order, and each locked room
    /// takes, at random, one of the key ids collected before it that no
    /// locked room took yet; with none left it becomes `Normal`.
    pub fn assign_lock_ids(&mut self, rng: &mut Rng)
        requires
            old(self).wf(),
            old(self).n() <= u32::MAX,
        ensures
            same_shape(*old(self), *final(self)),
            exists|order: Seq<usize>| #[trigger] locks_assigned(*old(self), *final(self), order),
            exists|order: Seq<usize>| #[trigger] is_bfs_from(old(self).rooms@, old(self).root, order)
                && (forall|m: int| 0 <= m < order.len() ==> #[trigger] order[m] < old(self).n())
                && (kinds_of(final(self).rooms@), final(rng)@) == assign_run(kinds_of(old(self).rooms@), order, 0, Seq::empty(), 0, old(rng)@),
    {
        let ghost orig = *self;
        let ghost s0 = rng@;
        let order = self.bfs_order();
        let mut available: Vec<u32> = Vec::new();
        let mut next_id: u32 = 0;
        let mut m: usize = 0;
        proof {
            assert(order@.take(0) =~= Seq::<usize>::empty());
        }
        while m < order.len()
            invariant
                orig == *old(self),
                orig.wf(),
                orig.n() <= u32::MAX,
                is_bfs_from(orig.rooms@, orig.root, order@),
                order@.no_duplicates(),
                forall|j: int| 0 <= j < order@.len() ==> #[trigger] order@[j] < orig.n(),
                order@.len() <= orig.n(),
                m <= order@.len(),
                same_shape(orig, *self),
                forall|i: int| 0 <= i < orig.n() && !order@.take(m as int).contains(i as usize) ==> (#[trigger] self.rooms@[i]).kind == orig.rooms@[i].kind,
                next_id == keys_before(orig.rooms@, order@, m as int),
                forall|j: int| 0 <= j < m ==> #[trigger] lock_assigned_at(orig.rooms@, self.rooms@, order@, j),
                forall|kid: u32| lock_at_before(self.rooms@, order@, m as int, kid) ==> kid < next_id,
                forall|kid: u32| #[trigger] available@.contains(kid) <==> (kid < next_id && !lock_at_before(self.rooms@, order@, m as int, kid)),
                available@.no_duplicates(),
                assign_run(kinds_of(self.rooms@), order@, m as int, available@, next_id, rng@)
                    == assign_run(kinds_of(orig.rooms@), order@, 0, Seq::empty(), 0, s0),
            decreases order@.len() - m,
        {
            let id = order[m];
            let ghost before = self.rooms@;
            let ghost kf = |x: usize| orig.rooms@[x as int].kind is Key;
            proof {
                lemma_count_ids_step(order@, kf, m as int);
                lemma_count_ids_le(order@.take(m as int), kf);
                assert(!order@.take(m as int).contains(id)) by {
                    if order@.take(m as int).contains(id) {
                        let q = choose|q: int| 0 <= q < m && order@.take(m as int)[q] == id;
                        assert(order@[q] == order@[m as int]);
                    }
                }
                assert(self.rooms@[id as int].kind == orig.rooms@[id as int].kind);
                assert forall|j: int| 0 <= j < m implies order@[j] != id by {
                    assert(order@.take(m as int)[j] == order@[j]);
                }
            }
            let ghost avail0 = available@;
            let ghost rng0 = rng@;
            let ghost nid0 = next_id;
            let ghost k0 = kinds_of(self.rooms@);
            match self.rooms[id].kind {
                RoomKind::Key { .. } => {
                    self.set_kind(id, RoomKind::Key { key_id: next_id });
                    available.push(next_id);
                    proof {
                        assert(!avail0.contains(next_id));
                        assert forall|a: int, b: int| 0 <= a < available@.len() && 0 <= b < available@.len() && a != b
                            implies available@[a] != available@[b] by {
                            if a < avail0.len() && b < avail0.len() {
                                assert(available@[a] == avail0[a] && available@[b] == avail0[b]);
                            } else if a == avail0.len() {
                                assert(avail0[b] == available@[b]);
                            } else {
                                assert(avail0[a] == available@[a]);
                            }
                        }
                        assert forall|k: u32| #[trigger] available@.contains(k) <==> (avail0.contains(k) || k == next_id) by {
                            if available@.contains(k) && k != next_id {
                                let q = choose|q: int| 0 <= q < available@.len() && available@[q] == k;
                                assert(avail0[q] == k);
                            }
                            if avail0.contains(k) {
                                let q = choose|q: int| 0 <= q < avail0.len() && avail0[q] == k;
                                assert(available@[q] == k);
                            }
                            if k == next_id {
                                assert(available@[avail0.len() as int] == k);
                            }
                        }
                    }
                    next_id = next_id + 1;
                },
                RoomKind::Locked { .. } => {
                    if available.len() == 0 {
                        self.set_kind(id, RoomKind::Normal);
                        proof {
                            assert forall|kid: u32| kid < keys_before(orig.rooms@, order@, m as int) implies #[trigger] lock_at_before(before, order@, m as int, kid) by {
                                if !lock_at_before(before, order@, m as int, kid) {
                                    assert(avail0.contains(kid));
                                }
                            }
                        }
                    } else {
                        let idx = rng.next_usize(available.len());
                        let kid = available.remove(idx);
                        self.set_kind(id, RoomKind::Locked { key_id: kid });
                        proof {
                            assert(avail0.contains(kid)) by {
                                assert(avail0[idx as int] == kid);
                            }
                            lemma_remove_distinct(avail0, idx as int);
                        }
                    }
                },
                RoomKind::Normal | RoomKind::Switch | RoomKind::SwitchDoor => {},
            }
            proof {
                assert(kinds_of(self.rooms@) =~= k0.update(id as int, self.rooms@[id as int].kind));
                assert(assign_run(k0, order@, m as int, avail0, nid0, rng0)
                    == assign_run(kinds_of(self.rooms@), order@, m + 1, available@, next_id, rng@));
                let after = self.rooms@;
                assert forall|j: int| 0 <= j < m implies #[trigger] after[order@[j] as int] == before[order@[j] as int] by {
                    assert(order@[j] != id);
                }
                lemma_prefix_frame(orig.rooms@, before, after, order@, m as int);
                lemma_at_before_step(after, order@, m as int);
                assert(lock_assigned_at(orig.rooms@, after, order@, m as int));
                assert forall|i: int| 0 <= i < orig.n() && !order@.take(m as int + 1).contains(i as usize)
                    implies (#[trigger] self.rooms@[i]).kind == orig.rooms@[i].kind by {
                    assert(order@.take(m as int + 1)[m as int] == id);
                    if order@.take(m as int).contains(i as usize) {
                        let q = choose|q: int| 0 <= q < m && order@.take(m as int)[q] == i as usize;
                        assert(order@.take(m as int + 1)[q] == i as usize);
                    }
                }
            }
            m = m + 1;
        }
        proof {
            assert(order@.take(order@.len() as int) =~= order@);
            assert(locks_assigned(orig, *self, order@));
            assert(is_bfs_from(orig.rooms@, orig.root, order@));
        }
    }
}


// ── Generation ──────────────────────────────────────────────────────────────
//
// Probabilities are compared on the 53-bit unit fractions of `Rng::next_unit`:
// "a uniform fraction is below p" is `next_unit() < ceil(p · 2^53)`, and "it
// is above p" is `next_unit() > floor(p · 2^53)`.

/// Rooms deeper than this get no children.
pub const MAX_DEPTH: u32 = 9;
/// A room gets between one and this many children.
pub const MAX_CHILDREN: usize = 3;
/// A new room is a key room below 0.15.
pub const KEY_BELOW: u64 = 1351079888211149;
/// A new room is a normal room below 0.15 + 0.62 (and not a key room).
pub const NORMAL_BELOW: u64 = 6935543426150564;
/// A new room is a switch room below 0.15 + 0.62 + 0.04, and locked otherwise.
pub const SWITCH_BELOW: u64 = 7295831396340204;
/// The switch mutation turns a normal room into a switch below 2 · 0.04.
pub const SWITCH_MUTATION_BELOW: u64 = 720575940379280;
/// One half: the coin of the mutation operators.
pub const HALF_BELOW: u64 = 4503599627370496;
/// Most rooms a generated tree can have: a full ternary tree of depth 10.
pub const MAX_GENERATED_ROOMS: usize = 88573;

/// Above this unit fraction a room of depth `d` gets no children: the floor
/// of `0.7 · (1 − d/10) · 2^53`, the chance of children shrinking with depth.
pub open spec fn child_ceiling_spec(d: u32) -> u64 {
    if d == 0 {
        6305039478318694
    } else if d == 1 {
        5674535530486825
    } else if d == 2 {
        5044031582654955
    } else if d == 3 {
        4413527634823085
    } else if d == 4 {
        3783023686991216
    } else if d == 5 {
        3152519739159347
    } else if d == 6 {
        2522015791327477
    } else if d == 7 {
        1891511843495608
    } else if d == 8 {
        1261007895663738
    } else {
        630503947831869
    }
}

/// See [`child_ceiling_spec`].
pub fn child_ceiling(d: u32) -> (r: u64)
    requires
        d <= MAX_DEPTH,
    ensures
        r == child_ceiling_spec(d),
{
    if d == 0 {
        6305039478318694
    } else if d == 1 {
        5674535530486825
    } else if d == 2 {
        5044031582654955
    } else if d == 3 {
        4413527634823085
    } else if d == 4 {
        3783023686991216
    } else if d == 5 {
        3152519739159347
    } else if d == 6 {
        2522015791327477
    } else if d == 7 {
        1891511843495608
    } else if d == 8 {
        1261007895663738
    } else {
        630503947831869
    }
}

/// The most rooms a room of depth `d` and its descendants can number.
pub open spec fn budget(d: int) -> nat
    decreases 10 - d,
{
    if d >= 10 {
        1
    } else {
        1 + 3 * budget(d + 1)
    }
}

/// Total budget of the rooms from `head` on.
pub open spec fn pending_weight(rooms: Seq<Room>, head: int) -> nat
    decreases rooms.len(),
{
    if rooms.len() == 0 || rooms.len() <= head {
        0
    } else {
        pending_weight(rooms.drop_last(), head) + budget(rooms.last().depth as int)
    }
}

proof fn lemma_budget_pos(d: int)
    ensures
        budget(d) >= 1,
{
}

proof fn lemma_pending_split(rooms: Seq<Room>, head: int)
    requires
        0 <= head < rooms.len(),
    ensures
        pending_weight(rooms, head) == budget(rooms[head].depth as int) + pending_weight(rooms, head + 1),
    decreases rooms.len(),
{
    let dl = rooms.drop_last();
    if rooms.len() == head + 1 {
        assert(pending_weight(dl, head) == 0);
    } else {
        lemma_pending_split(dl, head);
        assert(dl[head] == rooms[head]);
    }
}

proof fn lemma_pending_push(rooms: Seq<Room>, head: int, x: Room)
    requires
        0 <= head <= rooms.len(),
    ensures
        pending_weight(rooms.push(x), head) == pending_weight(rooms, head) + budget(x.depth as int),
{
    assert(rooms.push(x).drop_last() =~= rooms);
}

proof fn lemma_pending_frame(a: Seq<Room>, b: Seq<Room>, head: int)
    requires
        0 <= head,
        a.len() == b.len(),
        forall|j: int| head <= j < a.len() ==> (#[trigger] a[j]).depth == b[j].depth,
    ensures
        pending_weight(a, head) == pending_weight(b, head),
    decreases a.len(),
{
    if a.len() > 0 && a.len() > head {
        assert forall|j: int| head <= j < a.drop_last().len() implies (#[trigger] a.drop_last()[j]).depth == b.drop_last()[j].depth by {
            assert(a.drop_last()[j] == a[j]);
            assert(b.drop_last()[j] == b[j]);
            assert(a[j].depth == b[j].depth);
        }
        lemma_pending_frame(a.drop_last(), b.drop_last(), head);
        assert(a.last().depth == b.last().depth);
    }
}

proof fn lemma_pending_count(rooms: Seq<Room>, head: int)
    requires
        0 <= head <= rooms.len(),
    ensures
        pending_weight(rooms, head) >= rooms.len() - head,
    decreases rooms.len(),
{
    if rooms.len() > head {
        lemma_pending_count(rooms.drop_last(), head);
        lemma_budget_pos(rooms.last().depth as int);
    }
}

/// The state of generation: `r` holds the rooms made so far, `par` the
/// parent index of every room but the root, and the rooms before `head`
/// have received their children.
pub open spec fn gen_inv(r: Seq<Room>, par: Seq<int>, head: int) -> bool {
    let n = r.len();
    &&& n >= 1
    &&& 0 <= head <= n
    &&& par.len() >= n
    &&& r[0].kind is Normal
    &&& r[0].direction is None
    &&& r[0].depth == 0
    &&& forall|i: int| 0 <= i < n ==> (#[trigger] r[i]).id == i && r[i].depth <= 10 && !(r[i].kind is SwitchDoor)
    &&& forall|i: int| 0 < i < n ==> 0 <= #[trigger] par[i] < i && par[i] < head && r[i].direction is Some
        && r[i].depth == r[par[i]].depth + 1
    &&& forall|i: int| 0 < i < n ==> (#[trigger] r[par[i]]).children@.contains(i as usize)
    &&& forall|i: int, k: int| 0 <= i < n && 0 <= k < r[i].children@.len() ==> #[trigger] par[r[i].children@[k] as int] == i
    &&& forall|i: int, k: int| 0 <= i < n && 0 <= k < r[i].children@.len() ==> i < #[trigger] r[i].children@[k] < n
    &&& forall|i: int| 0 <= i < n ==> (#[trigger] r[i]).children@.no_duplicates() && r[i].children@.len() <= 3
    &&& forall|i: int, k1: int, k2: int| 0 <= i < n && 0 <= k1 < r[i].children@.len() && 0 <= k2 < r[i].children@.len() && k1 != k2
        ==> r[#[trigger] r[i].children@[k1] as int].direction != r[#[trigger] r[i].children@[k2] as int].direction
    &&& forall|i: int| head <= i < n ==> (#[trigger] r[i]).children@.len() == 0
}

/// What generation promises of the tree before key ids are assigned.
pub open spec fn generated_shape(t: DungeonTree) -> bool {
    &&& t.wf()
    &&& t.n() <= MAX_GENERATED_ROOMS
    &&& t.rooms@[0].kind is Normal
    &&& t.rooms@[0].direction is None
    &&& t.rooms@[0].depth == 0
    &&& forall|i: int| 0 <= i < t.n() ==> (#[trigger] t.rooms@[i]).depth <= 10 && t.kids(i).len() <= 3
        && !(t.rooms@[i].kind is SwitchDoor)
    &&& forall|i: int| 0 < i < t.n() ==> #[trigger] t.has_parent(i) && t.rooms@[i].direction is Some
        && t.rooms@[i].depth == t.rooms@[t.parent(i)].depth + 1
    &&& forall|i: int, k1: int, k2: int| 0 <= i < t.n() && 0 <= k1 < t.kids(i).len() && 0 <= k2 < t.kids(i).len() && k1 != k2
        ==> t.rooms@[#[trigger] t.kids(i)[k1] as int].direction != t.rooms@[#[trigger] t.kids(i)[k2] as int].direction
}

proof fn lemma_gen_done(t: DungeonTree, par: Seq<int>)
    requires
        gen_inv(t.rooms@, par, t.n()),
        t.root == 0,
        t.n() <= MAX_GENERATED_ROOMS,
    ensures
        generated_shape(t),
{
    let r = t.rooms@;
    let n = t.n();
    assert forall|i: int, k1: int, j: int, k2: int|
        0 <= i < n && 0 <= j < n && 0 <= k1 < t.kids(i).len() && 0 <= k2 < t.kids(j).len()
            && #[trigger] t.kids(i)[k1] == #[trigger] t.kids(j)[k2] implies i == j && k1 == k2 by {
        assert(par[r[i].children@[k1] as int] == i);
        assert(par[r[j].children@[k2] as int] == j);
    }
    assert forall|i: int, k: int| 0 <= i < n && 0 <= k < t.kids(i).len() implies i < #[trigger] t.kids(i)[k] < n by {
        assert(par[r[i].children@[k] as int] == i);
    }
    assert(t.wf());
    assert forall|i: int| 0 < i < n implies #[trigger] t.has_parent(i) && t.rooms@[i].direction is Some
        && t.rooms@[i].depth == t.rooms@[t.parent(i)].depth + 1 by {
        let p = par[i];
        assert(r[p].children@.contains(i as usize));
        let k = choose|k: int| 0 <= k < r[p].children@.len() && r[p].children@[k] == i as usize;
        assert(t.kids(p)[k] == i);
        assert(t.is_child(p, i));
        lemma_parent_unique(t, p, i);
    }
}

/// Giving room `p` its `c` new children keeps the generation state.
proof fn lemma_gen_step(r0: Seq<Room>, r2: Seq<Room>, par: Seq<int>, p: int, c: int, dirs: Seq<Direction>)
    requires
        gen_inv(r0, par, p),
        0 <= p < r0.len(),
        r0[p].depth <= 9,
        1 <= c <= 3,
        dirs.len() == 3,
        dirs.no_duplicates(),
        r2.len() == r0.len() + c,
        par.len() >= r2.len(),
        forall|i: int| 0 <= i < r0.len() && i != p ==> #[trigger] r2[i] == r0[i],
        r2[p].id == r0[p].id,
        r2[p].kind == r0[p].kind,
        r2[p].direction == r0[p].direction,
        r2[p].depth == r0[p].depth,
        r2[p].children@.len() == c,
        forall|k: int| 0 <= k < c ==> #[trigger] r2[p].children@[k] == r0.len() + k,
        forall|i: int| r0.len() <= i < r2.len() ==> {
            &&& (#[trigger] r2[i]).id == i
            &&& r2[i].depth == r0[p].depth + 1
            &&& r2[i].direction == Some(dirs[i - r0.len()])
            &&& r2[i].children@.len() == 0
            &&& !(r2[i].kind is SwitchDoor)
            &&& par[i] == p
        },
    ensures
        gen_inv(r2, par, p + 1),
{
    let n0 = r0.len();
    let n = r2.len();
    assert forall|i: int| 0 <= i < n implies (#[trigger] r2[i]).id == i && r2[i].depth <= 10 && !(r2[i].kind is SwitchDoor) by {
        if i >= n0 {
            assert(r2[i].id == i);
        } else if i != p {
            assert(r2[i] == r0[i]);
        }
    }
    assert forall|i: int| 0 < i < n implies 0 <= #[trigger] par[i] < i && par[i] < p + 1 && r2[i].direction is Some
        && r2[i].depth == r2[par[i]].depth + 1 by {
        if i >= n0 {
            assert(r2[i].id == i);
        } else {
            assert(r2[i] == r0[i] || i == p);
            if par[i] != p {
                assert(r2[par[i]] == r0[par[i]]);
            }
        }
    }
    assert forall|i: int| 0 < i < n implies (#[trigger] r2[par[i]]).children@.contains(i as usize) by {
        if i >= n0 {
            assert(r2[i].id == i);
            assert(r2[p].children@[i - n0] == i);
        } else {
            assert(r0[par[i]].children@.contains(i as usize));
            if par[i] == p {
                assert(r0[p].children@.len() == 0);
            } else {
                assert(r2[par[i]] == r0[par[i]]);
            }
        }
    }
    assert forall|i: int, k: int| 0 <= i < n && 0 <= k < r2[i].children@.len() implies #[trigger] par[r2[i].children@[k] as int] == i
        && i < r2[i].children@[k] < n by {
        if i == p {
            assert(r2[p].children@[k] == n0 + k);
            assert(r2[n0 + k].id == n0 + k);
            assert(par[n0 + k] == p);
        } else if i >= n0 {
            assert(r2[i].id == i);
        } else {
            assert(r2[i] == r0[i]);
            lemma_gen_kid(r0, par, p, i, k);
        }
    }
    assert forall|i: int| 0 <= i < n implies (#[trigger] r2[i]).children@.no_duplicates() && r2[i].children@.len() <= 3 by {
        if i == p {
            assert forall|a: int, b: int| 0 <= a < c && 0 <= b < c && a != b implies r2[p].children@[a] != r2[p].children@[b] by {
                assert(r2[p].children@[a] == n0 + a);
                assert(r2[p].children@[b] == n0 + b);
            }
        } else if i >= n0 {
            assert(r2[i].id == i);
        } else {
            assert(r2[i] == r0[i]);
        }
    }
    assert forall|i: int, k1: int, k2: int| 0 <= i < n && 0 <= k1 < r2[i].children@.len() && 0 <= k2 < r2[i].children@.len() && k1 != k2
        implies r2[#[trigger] r2[i].children@[k1] as int].direction != r2[#[trigger] r2[i].children@[k2] as int].direction by {
        if i == p {
            assert(r2[p].children@[k1] == n0 + k1);
            assert(r2[p].children@[k2] == n0 + k2);
            assert(r2[n0 + k1].direction == Some(dirs[k1]));
            assert(r2[n0 + k2].direction == Some(dirs[k2]));
        } else if i >= n0 {
            assert(r2[i].id == i);
        } else {
            assert(r2[i] == r0[i]);
            lemma_gen_kid(r0, par, p, i, k1);
            lemma_gen_kid(r0, par, p, i, k2);
            let c1 = r0[i].children@[k1] as int;
            let c2 = r0[i].children@[k2] as int;
            assert(r2[c1].direction == r0[c1].direction);
            assert(r2[c2].direction == r0[c2].direction);
        }
    }
    assert forall|i: int| p + 1 <= i < n implies (#[trigger] r2[i]).children@.len() == 0 by {
        if i >= n0 {
            assert(r2[i].id == i);
        } else {
            assert(r2[i] == r0[i]);
        }
    }
}

/// The parent recorded for a child is the room that lists it.
proof fn lemma_gen_kid(r: Seq<Room>, par: Seq<int>, head: int, i: int, k: int)
    requires
        gen_inv(r, par, head),
        0 <= i < r.len(),
        0 <= k < r[i].children@.len(),
    ensures
        par[r[i].children@[k] as int] == i,
        i < r[i].children@[k] < r.len(),
{
}

/// Recording one more parent keeps the generation state.
proof fn lemma_gen_par_push(r: Seq<Room>, par: Seq<int>, head: int, x: int)
    requires
        gen_inv(r, par, head),
    ensures
        gen_inv(r, par.push(x), head),
{
    let q = par.push(x);
    assert forall|i: int| 0 <= i < r.len() implies #[trigger] q[i] == par[i] by {}
    assert forall|i: int, k: int| 0 <= i < r.len() && 0 <= k < r[i].children@.len() implies #[trigger] q[r[i].children@[k] as int] == i by {
        assert(par[r[i].children@[k] as int] == i);
        assert(i < r[i].children@[k] < r.len());
    }
}

/// A room that gets no children keeps the generation state.
proof fn lemma_gen_skip(r: Seq<Room>, par: Seq<int>, p: int)
    requires
        gen_inv(r, par, p),
        p < r.len(),
    ensures
        gen_inv(r, par, p + 1),
{
}

/// Once a room too deep for children comes up, no later room gets any.
proof fn lemma_gen_finish(r: Seq<Room>, par: Seq<int>, head: int)
    requires
        gen_inv(r, par, head),
    ensures
        gen_inv(r, par, r.len() as int),
{
}

/// Equal child lists give equal breadth-first concatenations.
proof fn lemma_kids_concat_same(a: Seq<Room>, b: Seq<Room>, s: Seq<usize>)
    requires
        a.len() == b.len(),
        forall|i: int| 0 <= i < a.len() ==> (#[trigger] b[i]).children@ == a[i].children@,
        forall|j: int| 0 <= j < s.len() ==> (#[trigger] s[j]) < a.len(),
    ensures
        kids_concat(a, s) == kids_concat(b, s),
    decreases s.len(),
{
    if s.len() > 0 {
        lemma_kids_concat_same(a, b, s.drop_last());
        assert(s[s.len() - 1] < a.len());
    }
}

/// The children of a prefix of `s` start the children of a longer prefix.
proof fn lemma_kc_prefix(rooms: Seq<Room>, s: Seq<usize>, a: int, b: int)
    requires
        0 <= a <= b <= s.len(),
    ensures
        kids_concat(rooms, s.take(a)).len() <= kids_concat(rooms, s.take(b)).len(),
        kids_concat(rooms, s.take(b)).take(kids_concat(rooms, s.take(a)).len() as int) == kids_concat(rooms, s.take(a)),
    decreases b - a,
{
    if a < b {
        lemma_kc_prefix(rooms, s, a, b - 1);
        assert(s.take(b).drop_last() =~= s.take(b - 1));
        let p = kids_concat(rooms, s.take(b - 1));
        let q = kids_concat(rooms, s.take(a));
        assert((p + rooms[s[b - 1] as int].children@).take(q.len() as int) =~= p.take(q.len() as int));
    } else {
        let q = kids_concat(rooms, s.take(a));
        assert(q.take(q.len() as int) =~= q);
    }
}

/// Entry `k` of the concatenated children comes from the entry `j` of `s`
/// whose children cover position `k`.
proof fn lemma_kc_locate(rooms: Seq<Room>, s: Seq<usize>, k: int) -> (j: int)
    requires
        0 <= k < kids_concat(rooms, s).len(),
    ensures
        0 <= j < s.len(),
        kids_concat(rooms, s.take(j)).len() <= k < kids_concat(rooms, s.take(j + 1)).len(),
        kids_concat(rooms, s)[k] == rooms[s[j] as int].children@[k - kids_concat(rooms, s.take(j)).len()],
    decreases s.len(),
{
    let p = kids_concat(rooms, s.drop_last());
    if k < p.len() {
        let j = lemma_kc_locate(rooms, s.drop_last(), k);
        assert(s.drop_last().take(j) =~= s.take(j));
        assert(s.drop_last().take(j + 1) =~= s.take(j + 1));
        j
    } else {
        let j = s.len() - 1;
        assert(s.take(j) =~= s.drop_last());
        assert(s.take(j + 1) =~= s);
        j
    }
}

/// In a breadth-first order, the first `m` entries have at least `m`
/// children between them, for every `m` short of the whole order.
proof fn lemma_bfs_feeds(t: DungeonTree, st: usize, s: Seq<usize>, m: int)
    requires
        t.wf(),
        is_bfs_from(t.rooms@, st, s),
        forall|i: int| 0 <= i < s.len() ==> #[trigger] s[i] < t.n(),
        1 <= m < s.len(),
    ensures
        kids_concat(t.rooms@, s.take(m)).len() >= m,
    decreases s.len() - m,
{
    let r = t.rooms@;
    if kids_concat(r, s.take(m)).len() < m {
        assert(s.drop_first()[m - 1] == s[m]);
        let j = lemma_kc_locate(r, s, m - 1);
        if j + 1 <= m {
            lemma_kc_prefix(r, s, j + 1, m);
        }
        let idx = m - 1 - kids_concat(r, s.take(j)).len();
        assert(s.take(j + 1).drop_last() =~= s.take(j));
        assert(s.take(j + 1).last() == s[j]);
        assert(0 <= idx < t.kids(s[j] as int).len());
        assert(s[m] == t.kids(s[j] as int)[idx]);
        assert(s[j] < s[m]);
        if j > m {
            lemma_bfs_feeds(t, st, s, j);
        }
    }
}

/// Two breadth-first orders from one room agree on their first `k` entries.
proof fn lemma_bfs_prefix(t: DungeonTree, st: usize, s1: Seq<usize>, s2: Seq<usize>, k: int)
    requires
        t.wf(),
        is_bfs_from(t.rooms@, st, s1),
        is_bfs_from(t.rooms@, st, s2),
        forall|i: int| 0 <= i < s1.len() ==> #[trigger] s1[i] < t.n(),
        forall|i: int| 0 <= i < s2.len() ==> #[trigger] s2[i] < t.n(),
        1 <= k <= s1.len(),
        k <= s2.len(),
    ensures
        s1.take(k) == s2.take(k),
    decreases k,
{
    let r = t.rooms@;
    if k == 1 {
        assert(s1.take(1) =~= s2.take(1));
    } else {
        lemma_bfs_prefix(t, st, s1, s2, k - 1);
        lemma_bfs_feeds(t, st, s1, k - 1);
        lemma_bfs_feeds(t, st, s2, k - 1);
        lemma_kc_prefix(r, s1, k - 1, s1.len() as int);
        lemma_kc_prefix(r, s2, k - 1, s2.len() as int);
        assert(s1.take(s1.len() as int) =~= s1);
        assert(s2.take(s2.len() as int) =~= s2);
        assert(s1.drop_first()[k - 2] == s1[k - 1]);
        assert(s2.drop_first()[k - 2] == s2[k - 1]);
        let c = kids_concat(r, s1.take(k - 1));
        assert(c.len() > k - 2);
        assert(kids_concat(r, s1)[k - 2] == c[k - 2]) by {
            assert(kids_concat(r, s1).take(c.len() as int)[k - 2] == c[k - 2]);
        }
        assert(kids_concat(r, s2)[k - 2] == c[k - 2]) by {
            assert(kids_concat(r, s2).take(c.len() as int)[k - 2] == c[k - 2]);
        }
        assert(s1.take(k) =~= s2.take(k)) by {
            assert forall|i: int| 0 <= i < k implies s1.take(k)[i] == s2.take(k)[i] by {
                if i < k - 1 {
                    assert(s1.take(k - 1)[i] == s2.take(k - 1)[i]);
                }
            }
        }
    }
}

/// A room has one breadth-first order.
pub proof fn lemma_bfs_unique(t: DungeonTree, st: usize, s1: Seq<usize>, s2: Seq<usize>)
    requires
        t.wf(),
        is_bfs_from(t.rooms@, st, s1),
        is_bfs_from(t.rooms@, st, s2),
        forall|i: int| 0 <= i < s1.len() ==> #[trigger] s1[i] < t.n(),
        forall|i: int| 0 <= i < s2.len() ==> #[trigger] s2[i] < t.n(),
    ensures
        s1 == s2,
{
    let r = t.rooms@;
    if s1.len() < s2.len() {
        lemma_bfs_prefix(t, st, s1, s2, s1.len() as int);
        assert(s1.take(s1.len() as int) =~= s1);
        lemma_bfs_feeds(t, st, s2, s1.len() as int);
        assert(s1.drop_first().len() == s1.len() - 1);
    } else if s2.len() < s1.len() {
        lemma_bfs_prefix(t, st, s2, s1, s2.len() as int);
        assert(s2.take(s2.len() as int) =~= s2);
        lemma_bfs_feeds(t, st, s1, s2.len() as int);
        assert(s2.drop_first().len() == s2.len() - 1);
    } else {
        lemma_bfs_prefix(t, st, s1, s2, s1.len() as int);
        assert(s1.take(s1.len() as int) =~= s1);
        assert(s2.take(s2.len() as int) =~= s2);
    }
}

/// The room ids `0..n` in increasing order.
pub open spec fn ids_upto(n: int) -> Seq<usize> {
    Seq::new(n as nat, |i: int| i as usize)
}

/// Child lists that agree on the rooms of `s` give one concatenation.
proof fn lemma_kc_frame(a: Seq<Room>, b: Seq<Room>, s: Seq<usize>)
    requires
        forall|j: int| 0 <= j < s.len() ==> (#[trigger] b[s[j] as int]).children@ == a[s[j] as int].children@,
    ensures
        kids_concat(a, s) == kids_concat(b, s),
    decreases s.len(),
{
    if s.len() > 0 {
        lemma_kc_frame(a, b, s.drop_last());
        assert(b[s[s.len() - 1] as int].children@ == a[s[s.len() - 1] as int].children@);
    }
}

/// Generation hands out ids in breadth-first order: after room `p` gets
/// the fresh ids `first_new..` as children, the children of rooms `0..=p`
/// are the ids `1..` of the grown arena.
proof fn lemma_gen_order_step(r0: Seq<Room>, r2: Seq<Room>, p: int, c: int)
    requires
        0 <= p < r0.len(),
        0 <= c,
        r2.len() == r0.len() + c,
        r2.len() <= usize::MAX,
        kids_concat(r0, ids_upto(p)) == ids_upto(r0.len() as int).drop_first(),
        forall|i: int| 0 <= i < p ==> (#[trigger] r2[i]).children@ == r0[i].children@,
        r2[p].children@ == Seq::new(c as nat, |k: int| (r0.len() + k) as usize),
    ensures
        kids_concat(r2, ids_upto(p + 1)) == ids_upto(r2.len() as int).drop_first(),
{
    assert(ids_upto(p + 1).drop_last() =~= ids_upto(p));
    lemma_kc_frame(r0, r2, ids_upto(p));
    assert(ids_upto(p + 1).last() == p as usize);
    assert(kids_concat(r2, ids_upto(p + 1)) == kids_concat(r2, ids_upto(p)) + r2[p].children@);
    assert(kids_concat(r2, ids_upto(p + 1)) =~= ids_upto(r2.len() as int).drop_first());
}

/// Rooms without children add nothing to the concatenation.
proof fn lemma_gen_order_tail(r: Seq<Room>, h: int, n: int)
    requires
        0 <= h <= n <= r.len(),
        r.len() <= usize::MAX,
        forall|i: int| h <= i < n ==> (#[trigger] r[i]).children@.len() == 0,
    ensures
        kids_concat(r, ids_upto(n)) == kids_concat(r, ids_upto(h)),
    decreases n - h,
{
    if h < n {
        lemma_gen_order_tail(r, h, n - 1);
        assert(ids_upto(n).drop_last() =~= ids_upto(n - 1));
        assert(r[n - 1].children@ =~= Seq::<usize>::empty());
        assert(ids_upto(n).last() == (n - 1) as usize);
        assert(kids_concat(r, ids_upto(n)) == kids_concat(r, ids_upto(n - 1)) + r[n - 1].children@);
        assert(kids_concat(r, ids_upto(n)) =~= kids_concat(r, ids_upto(n - 1)));
    }
}

/// Assigning key ids keeps what generation promised, and makes every
/// locked room follow its key in breadth-first order.
proof fn lemma_generated_after_locks(before: DungeonTree, after: DungeonTree)
    requires
        generated_shape(before),
        same_shape(before, after),
        exists|order: Seq<usize>| #[trigger] locks_assigned(before, after, order),
    ensures
        generated_shape(after),
        exists|order: Seq<usize>| #[trigger] is_bfs_from(after.rooms@, after.root, order) && locks_follow_keys(after.rooms@, order)
            && (forall|m: int| 0 <= m < order.len() ==> #[trigger] order[m] < after.n()),
{
    lemma_same_shape(before, after);
    let order = choose|order: Seq<usize>| #[trigger] locks_assigned(before, after, order);
    lemma_locks_follow_keys(before, after, order);
    lemma_kids_concat_same(before.rooms@, after.rooms@, order);
    assert(is_bfs_from(after.rooms@, after.root, order));
    let n = before.n();
    assert forall|i: int| 0 <= i < n implies (#[trigger] after.rooms@[i]).depth <= 10 && after.kids(i).len() <= 3
        && !(after.rooms@[i].kind is SwitchDoor) by {
        assert(before.rooms@[i].depth <= 10);
        assert(after.kids(i) == before.kids(i));
        if order.contains(i as usize) {
            let m = choose|m: int| 0 <= m < order.len() && order[m] == i as usize;
            assert(lock_assigned_at(before.rooms@, after.rooms@, order, m));
            assert(!(before.rooms@[i].kind is SwitchDoor));
        }
    }
    assert(lock_assigned_at(before.rooms@, after.rooms@, order, 0));
    assert forall|i: int| 0 < i < n implies #[trigger] after.has_parent(i) && after.rooms@[i].direction is Some
        && after.rooms@[i].depth == after.rooms@[after.parent(i)].depth + 1 by {
        assert(before.has_parent(i));
        let p = before.parent(i);
        assert(before.is_child(p, i));
        assert(after.is_child(p, i));
        lemma_parent_unique(before, p, i);
        lemma_parent_unique(after, p, i);
        assert(after.rooms@[p].depth == before.rooms@[p].depth);
    }
    assert forall|i: int, k1: int, k2: int| 0 <= i < n && 0 <= k1 < after.kids(i).len() && 0 <= k2 < after.kids(i).len() && k1 != k2
        implies after.rooms@[#[trigger] after.kids(i)[k1] as int].direction != after.rooms@[#[trigger] after.kids(i)[k2] as int].direction by {
        assert(after.kids(i) == before.kids(i));
        assert(before.rooms@[before.kids(i)[k1] as int].direction != before.rooms@[before.kids(i)[k2] as int].direction);
    }
}

/// The kind, direction, depth and children of each room of `r`.
pub open spec fn gen_view(r: Seq<Room>) -> Seq<(RoomKind, Option<Direction>, u32, Seq<usize>)> {
    Seq::new(r.len(), |i: int| (r[i].kind, r[i].direction, r[i].depth, r[i].children@))
}

/// The kind of a new room drawn as unit fraction `p`: a key room (with id
/// `next_key`) below `KEY_BELOW`, normal below `NORMAL_BELOW`, a switch
/// below `SWITCH_BELOW`, locked otherwise.
pub open spec fn gen_kind(p: u64, next_key: u32) -> RoomKind {
    if p < KEY_BELOW {
        RoomKind::Key { key_id: next_key }
    } else if p < NORMAL_BELOW {
        RoomKind::Normal
    } else if p < SWITCH_BELOW {
        RoomKind::Switch
    } else {
        RoomKind::Locked { key_id: 0 }
    }
}

/// Rooms `c..n` of the children appended for a room of depth `d`, the
/// `c`-th in direction `dirs[c]`, each drawing its kind; also the next key
/// id and the generator state left.
pub open spec fn gen_children(rs: Seq<(RoomKind, Option<Direction>, u32, Seq<usize>)>, d: u32, dirs: Seq<Direction>, c: int, n: int,
    next_key: u32, s: crate::rng::RngState) -> (Seq<(RoomKind, Option<Direction>, u32, Seq<usize>)>, u32, crate::rng::RngState)
    decreases n - c,
{
    if c < n {
        let p = crate::rng::xoshiro_output(s) >> 11u64;
        let nk = if p < KEY_BELOW { (next_key + 1) as u32 } else { next_key };
        gen_children(rs.push((gen_kind(p, next_key), Some(dirs[c]), (d + 1) as u32, Seq::empty())), d, dirs, c + 1, n, nk,
            crate::rng::xoshiro_next(s))
    } else {
        (rs, next_key, s)
    }
}

/// The rooms and generator state [`DungeonTree::generate`] reaches before
/// assigning lock ids, working the rooms breadth first from `head`: a room
/// no deeper than `MAX_DEPTH` whose draw is at most its child ceiling gets
/// one to three new children in shuffled directions.
pub open spec fn gen_run(rs: Seq<(RoomKind, Option<Direction>, u32, Seq<usize>)>, head: int, next_key: u32, s: crate::rng::RngState)
    -> (Seq<(RoomKind, Option<Direction>, u32, Seq<usize>)>, crate::rng::RngState)
    decreases MAX_GENERATED_ROOMS - head,
{
    if 0 <= head < rs.len() && rs.len() <= MAX_GENERATED_ROOMS && rs[head].2 <= MAX_DEPTH {
        let d = rs[head].2;
        let p = crate::rng::xoshiro_output(s) >> 11u64;
        let s1 = crate::rng::xoshiro_next(s);
        if p <= child_ceiling_spec(d) {
            let nc = crate::rng::usize_draw(s1, 3);
            let n = 1 + nc.0;
            let sh = crate::rng::fisher_yates(seq![Direction::Right, Direction::Left, Direction::Down], nc.1, 2);
            let first = rs.len();
            let ch = gen_children(rs, d, sh.0, 0, n, next_key, sh.1);
            let rs2 = ch.0.update(head, (rs[head].0, rs[head].1, rs[head].2, Seq::new(n as nat, |k: int| (first + k) as usize)));
            gen_run(rs2, head + 1, ch.1, ch.2)
        } else {
            gen_run(rs, head + 1, next_key, s1)
        }
    } else {
        (rs, s)
    }
}

/// What the breadth-first growth of [`DungeonTree::generate`] gives from
/// generator state `s`, starting from a lone normal root.
pub open spec fn gen_result(s: crate::rng::RngState) -> (Seq<(RoomKind, Option<Direction>, u32, Seq<usize>)>, crate::rng::RngState) {
    gen_run(seq![(RoomKind::Normal, None::<Direction>, 0u32, Seq::<usize>::empty())], 0, 0, s)
}

impl DungeonTree {
    /// Generate a random dungeon tree breadth first: each room, from the
    /// root on, gets between one and three children (in distinct
    /// directions) with a chance that shrinks with its depth, each child a
    /// key, normal, switch or locked room at random; then the locked rooms
    /// get their key ids (see [`DungeonTree::assign_lock_ids`]).
    pub fn generate(rng: &mut Rng) -> (t: Self)
        ensures
            generated_shape(t),
            is_bfs_from(t.rooms@, 0, ids_upto(t.n())),
            locks_follow_keys(t.rooms@, ids_upto(t.n())),
            ({
                let g = gen_result(old(rng)@);
                &&& t.root == 0
                &&& t.n() == g.0.len()
                &&& forall|i: int| 0 <= i < t.n() ==> (#[trigger] t.rooms@[i]).id == i && t.rooms@[i].direction == g.0[i].1
                    && t.rooms@[i].depth == g.0[i].2 && t.rooms@[i].children@ == g.0[i].3 && t.rooms@[i].grid_pos == (0i32, 0i32)
                &&& (kinds_of(t.rooms@), final(rng)@) == assign_run(Seq::new(g.0.len(), |i: int| g.0[i].0), ids_upto(t.n()), 0, Seq::empty(), 0, g.1)
            }),
    {
        let ghost s0 = rng@;
        let mut rooms: Vec<Room> = Vec::new();
        let mut next_key_id: u32 = 0;
        rooms.push(Room::new(0, RoomKind::Normal, None, 0));
        proof {
            assert(gen_view(rooms@) =~= seq![(RoomKind::Normal, None::<Direction>, 0u32, Seq::<usize>::empty())]);
        }
        let ghost mut par: Seq<int> = seq![0int];
        let mut head: usize = 0;
        proof {
            assert(rooms@.drop_last() =~= Seq::<Room>::empty());
            reveal_with_fuel(budget, 11);
            assert(budget(0) == 88573);
            assert(pending_weight(rooms@.drop_last(), 0) == 0);
            assert(pending_weight(rooms@, 0) == budget(0));
            assert(kids_concat(rooms@, ids_upto(0)) =~= ids_upto(rooms@.len() as int).drop_first());
        }
        while head < rooms.len() && rooms[head].depth <= MAX_DEPTH
            invariant
                gen_run(gen_view(rooms@), head as int, next_key_id, rng@) == gen_result(s0),
                forall|i: int| 0 <= i < rooms@.len() ==> (#[trigger] rooms@[i]).grid_pos == (0i32, 0i32),
                gen_inv(rooms@, par, head as int),
                kids_concat(rooms@, ids_upto(head as int)) == ids_upto(rooms@.len() as int).drop_first(),
                par.len() == rooms@.len(),
                head + pending_weight(rooms@, head as int) <= MAX_GENERATED_ROOMS,
                next_key_id <= rooms@.len(),
            decreases pending_weight(rooms@, head as int),
        {
            let parent_id = head;
            let actual_depth = rooms[parent_id].depth;
            let ghost v0 = gen_view(rooms@);
            let ghost sg0 = rng@;
            let ghost nk0 = next_key_id;
            proof {
                lemma_pending_split(rooms@, parent_id as int);
                lemma_pending_count(rooms@, head as int + 1);
            }
            head = head + 1;
            let prob = rng.next_unit();
            if prob <= child_ceiling(actual_depth) {
                let n_children = 1 + rng.next_usize(MAX_CHILDREN);
                let ghost s_nc = rng@;
                let mut dirs: Vec<Direction> = vec![Direction::Right, Direction::Left, Direction::Down];
                proof {
                    assert(dirs@ == seq![Direction::Right, Direction::Left, Direction::Down]);
                    assert(dirs@.no_duplicates());
                    dirs@.lemma_multiset_has_no_duplicates();
                }
                rng.shuffle(&mut dirs);
                proof {
                    dirs@.lemma_multiset_has_no_duplicates_conv();
                }
                let first_new = rooms.len();
                let ghost r0 = rooms@;
                let ghost s_sh = rng@;
                let ghost nk1 = next_key_id;
                proof {
                    lemma_pending_count(r0, head as int);
                    reveal_with_fuel(budget, 2);
                    lemma_budget_pos(actual_depth + 1);
                }
                let mut kids: Vec<usize> = Vec::new();
                let mut c: usize = 0;
                while c < n_children
                    invariant
                        gen_children(gen_view(rooms@), actual_depth, dirs@, c as int, n_children as int, next_key_id, rng@)
                            == gen_children(gen_view(r0), actual_depth, dirs@, 0, n_children as int, nk1, s_sh),
                        forall|i: int| 0 <= i < rooms@.len() ==> (#[trigger] rooms@[i]).grid_pos == (0i32, 0i32),
                        1 <= n_children <= 3,
                        dirs@.len() == 3,
                        dirs@.no_duplicates(),
                        parent_id + 1 == head,
                        head <= first_new,
                        actual_depth == r0[parent_id as int].depth,
                        actual_depth <= MAX_DEPTH,
                        gen_inv(r0, par, parent_id as int),
                        kids_concat(r0, ids_upto(parent_id as int)) == ids_upto(r0.len() as int).drop_first(),
                        r0.len() == first_new,
                        c <= n_children,
                        rooms@.len() == first_new + c,
                        par.len() == rooms@.len(),
                        rooms@.len() <= MAX_GENERATED_ROOMS,
                        forall|i: int| 0 <= i < first_new ==> #[trigger] rooms@[i] == r0[i],
                        forall|i: int| first_new <= i < rooms@.len() ==> {
                            &&& (#[trigger] rooms@[i]).id == i
                            &&& rooms@[i].depth == actual_depth + 1
                            &&& rooms@[i].direction == Some(dirs@[i - first_new])
                            &&& rooms@[i].children@.len() == 0
                            &&& !(rooms@[i].kind is SwitchDoor)
                            &&& par[i] == parent_id
                        },
                        kids@.len() == c,
                        forall|k: int| 0 <= k < c ==> #[trigger] kids@[k] == first_new + k,
                        next_key_id <= rooms@.len(),
                        pending_weight(rooms@, head as int) == pending_weight(r0, head as int) + c * budget(actual_depth + 1),
                        parent_id + pending_weight(r0, head as int) + budget(actual_depth as int) <= MAX_GENERATED_ROOMS,
                        pending_weight(r0, head as int) >= first_new - head,
                    decreases n_children - c,
                {
                    let dir = dirs[c];
                    let p = rng.next_unit();
                    let kind = if p < KEY_BELOW {
                        let id = next_key_id;
                        next_key_id = next_key_id + 1;
                        RoomKind::Key { key_id: id }
                    } else if p < NORMAL_BELOW {
                        RoomKind::Normal
                    } else if p < SWITCH_BELOW {
                        RoomKind::Switch
                    } else {
                        RoomKind::Locked { key_id: 0 }
                    };
                    let child_id = rooms.len();
                    let child = Room::new(child_id, kind, Some(dir), actual_depth + 1);
                    proof {
                        assert(gen_view(rooms@.push(child)) =~= gen_view(rooms@).push((kind, Some(dir), (actual_depth + 1) as u32, Seq::<usize>::empty())));
                    }
                    proof {
                        lemma_pending_push(rooms@, head as int, child);
                        reveal_with_fuel(budget, 2);
                        assert(budget(actual_depth as int) == 1 + 3 * budget(actual_depth + 1));
                        assert(c * budget(actual_depth + 1) + budget(actual_depth + 1) <= 3 * budget(actual_depth + 1)) by (nonlinear_arith)
                            requires c < 3;
                        assert((c + 1) * budget(actual_depth + 1) == c * budget(actual_depth + 1) + budget(actual_depth + 1)) by (nonlinear_arith);
                        lemma_gen_par_push(r0, par, parent_id as int, parent_id as int);
                        par = par.push(parent_id as int);
                    }
                    rooms.push(child);
                    kids.push(child_id);
                    c = c + 1;
                }
                let ghost r1 = rooms@;
                rooms[parent_id].children = kids;
                proof {
                    assert(kids@ =~= Seq::new(n_children as nat, |k: int| (first_new + k) as usize));
                    assert(gen_view(rooms@) =~= gen_view(r1).update(parent_id as int, (v0[parent_id as int].0, v0[parent_id as int].1,
                        v0[parent_id as int].2, Seq::new(n_children as nat, |k: int| (first_new + k) as usize))));
                    assert(gen_view(r0) == v0);
                    assert(forall|i: int| 0 <= i < rooms@.len() ==> (#[trigger] rooms@[i]).grid_pos == (0i32, 0i32));
                    lemma_pending_frame(rooms@, r1, head as int);
                    lemma_gen_step(r0, rooms@, par, parent_id as int, c as int, dirs@);
                    lemma_gen_order_step(r0, rooms@, parent_id as int, c as int);
                    reveal_with_fuel(budget, 2);
                    assert(c * budget(actual_depth + 1) < budget(actual_depth as int)) by (nonlinear_arith)
                        requires c <= 3, budget(actual_depth as int) == 1 + 3 * budget(actual_depth + 1);
                }
            } else {
                proof {
                    assert(rooms@[parent_id as int].children@ =~= Seq::new(0 as nat, |k: int| (rooms@.len() + k) as usize));
                    lemma_gen_order_step(rooms@, rooms@, parent_id as int, 0);
                    lemma_gen_skip(rooms@, par, parent_id as int);
                }
            }
        }
        proof {
            lemma_pending_count(rooms@, head as int);
            if head < rooms@.len() {
                lemma_gen_finish(rooms@, par, head as int);
            }
            lemma_gen_order_tail(rooms@, head as int, rooms@.len() as int);
            assert(is_bfs_from(rooms@, 0, ids_upto(rooms@.len() as int)));
        }
        let mut tree = DungeonTree { rooms, root: 0 };
        proof {
            lemma_gen_done(tree, par);
            assert(gen_view(tree.rooms@) == gen_result(s0).0);
            assert(rng@ == gen_result(s0).1);
            assert(kinds_of(tree.rooms@) =~= Seq::new(gen_result(s0).0.len(), |i: int| gen_result(s0).0[i].0));
        }
        let ghost before = tree;
        let ghost s_mid = rng@;
        tree.assign_lock_ids(rng);
        proof {
            lemma_generated_after_locks(before, tree);
            let g = gen_result(s0);
            let order = choose|order: Seq<usize>| #[trigger] is_bfs_from(before.rooms@, before.root, order)
                && (forall|m: int| 0 <= m < order.len() ==> #[trigger] order[m] < before.n())
                && (kinds_of(tree.rooms@), rng@) == assign_run(kinds_of(before.rooms@), order, 0, Seq::empty(), 0, s_mid);
            assert(is_bfs_from(tree.rooms@, 0, order)) by {
                lemma_kids_concat_same(before.rooms@, tree.rooms@, order);
            }
            lemma_bfs_unique(before, 0, order, ids_upto(before.n()));
            let o2 = choose|order: Seq<usize>| #[trigger] is_bfs_from(tree.rooms@, tree.root, order) && locks_follow_keys(tree.rooms@, order)
                && (forall|m: int| 0 <= m < order.len() ==> #[trigger] order[m] < tree.n());
            assert(is_bfs_from(tree.rooms@, 0, ids_upto(tree.n()))) by {
                lemma_kids_concat_same(before.rooms@, tree.rooms@, ids_upto(tree.n()));
            }
            lemma_bfs_unique(tree, 0, o2, ids_upto(tree.n()));
            assert forall|i: int| 0 <= i < tree.n() implies (#[trigger] tree.rooms@[i]).id == i && tree.rooms@[i].direction == g.0[i].1
                && tree.rooms@[i].depth == g.0[i].2 && tree.rooms@[i].children@ == g.0[i].3 && tree.rooms@[i].grid_pos == (0i32, 0i32) by {
                assert(gen_view(before.rooms@)[i] == g.0[i]);
            }
        }
        tree
    }
}


// ── Mutation operators ──────────────────────────────────────────────────────

/// The kinds of `after` are those of `before` except at the positions
/// `p1` and `p2` of `order` (`-1` for none), where normal rooms became
/// `k1` and `k2`; the second change needs the first and comes after it,
/// and neither touches the root.
pub open spec fn pair_placed(before: Seq<Room>, after: Seq<Room>, order: Seq<usize>, p1: int, p2: int, k1: RoomKind, k2: RoomKind) -> bool {
    &&& (p1 < 0 ==> p2 < 0)
    &&& (p1 >= 0 ==> 0 < p1 < order.len() && before[order[p1] as int].kind is Normal && after[order[p1] as int].kind == k1)
    &&& (p2 >= 0 ==> p1 < p2 < order.len() && before[order[p2] as int].kind is Normal && after[order[p2] as int].kind == k2)
    &&& forall|i: int| 0 <= i < before.len() && (p1 < 0 || i != order[p1] as int) && (p2 < 0 || i != order[p2] as int)
        ==> (#[trigger] after[i]).kind == before[i].kind
}

/// Number of key rooms of the arena.
pub open spec fn key_total(rooms: Seq<Room>) -> nat {
    count_kind(rooms, |k: RoomKind| is_key_kind(k))
}

/// `after` is `before` with a key room for a fresh key id (the number of
/// key rooms) and maybe, later in breadth-first order `order`, a room
/// locked by it, as [`pair_placed`] says.
pub open spec fn key_pair_placed(before: DungeonTree, after: DungeonTree, order: Seq<usize>, p1: int, p2: int) -> bool {
    &&& is_bfs_from(before.rooms@, before.root, order)
    &&& pair_placed(before.rooms@, after.rooms@, order, p1, p2,
        RoomKind::Key { key_id: key_total(before.rooms@) as u32 },
        RoomKind::Locked { key_id: key_total(before.rooms@) as u32 })
}

/// `after` is `before` with a switch room and maybe, later in
/// breadth-first order `order`, a switch-door room, as [`pair_placed`] says.
pub open spec fn switch_pair_placed(before: DungeonTree, after: DungeonTree, order: Seq<usize>, p1: int, p2: int) -> bool {
    &&& is_bfs_from(before.rooms@, before.root, order)
    &&& pair_placed(before.rooms@, after.rooms@, order, p1, p2, RoomKind::Switch, RoomKind::SwitchDoor)
}

/// `after` is `before` with every room carrying key id `kid` (key or
/// locked) turned `Normal`.
pub open spec fn pair_removed(before: Seq<Room>, after: Seq<Room>, kid: u32) -> bool {
    forall|i: int| 0 <= i < before.len() ==> (#[trigger] after[i]).kind == (if kind_key_id(before[i].kind) == Some(kid) {
        RoomKind::Normal
    } else {
        before[i].kind
    })
}

/// `after` is `before` with the rooms `v` and `d` (`-1` for none) turned `Normal`.
pub open spec fn rooms_cleared(before: Seq<Room>, after: Seq<Room>, v: int, d: int) -> bool {
    &&& forall|i: int| 0 <= i < before.len() && i != v && i != d ==> (#[trigger] after[i]).kind == before[i].kind
    &&& (v >= 0 ==> v < before.len() && after[v].kind is Normal)
    &&& (d >= 0 ==> d < before.len() && after[d].kind is Normal)
}

/// The indices of the rooms whose kind satisfies `which` (0: key, 1:
/// switch, 2: switch door), in arena order.
pub open spec fn ids_of_kind_spec(rooms: Seq<Room>, which: u8, i: int) -> bool {
    if which == 0 {
        rooms[i].kind is Key
    } else if which == 1 {
        rooms[i].kind is Switch
    } else {
        rooms[i].kind is SwitchDoor
    }
}

/// The indices below `i` of the rooms picked by `which`, in arena order.
pub open spec fn kind_ids(rooms: Seq<Room>, which: u8, i: int) -> Seq<usize>
    decreases i,
{
    if i <= 0 {
        Seq::empty()
    } else if ids_of_kind_spec(rooms, which, i - 1) {
        kind_ids(rooms, which, i - 1).push((i - 1) as usize)
    } else {
        kind_ids(rooms, which, i - 1)
    }
}

/// The position along `order`, from `m` on, of the first normal room whose
/// draw falls below `thr` (`-1` when there is none), and the generator
/// state after the draws.
pub open spec fn first_pick(rooms: Seq<Room>, order: Seq<usize>, m: int, s: crate::rng::RngState, thr: u64) -> (int, crate::rng::RngState)
    decreases order.len() - m,
{
    if 0 <= m < order.len() {
        if rooms[order[m] as int].kind is Normal {
            if crate::rng::chance_hit(s, thr) {
                (m, crate::rng::xoshiro_next(s))
            } else {
                first_pick(rooms, order, m + 1, crate::rng::xoshiro_next(s), thr)
            }
        } else {
            first_pick(rooms, order, m + 1, s, thr)
        }
    } else {
        (-1, s)
    }
}

/// The position along `order`, from `j` on, of the first normal room whose
/// draw does not fall below `thr`; `-1` when there is none.
pub open spec fn second_pick(rooms: Seq<Room>, order: Seq<usize>, j: int, s: crate::rng::RngState, thr: u64) -> int
    decreases order.len() - j,
{
    if 0 <= j < order.len() {
        if rooms[order[j] as int].kind is Normal {
            if !crate::rng::chance_hit(s, thr) {
                j
            } else {
                second_pick(rooms, order, j + 1, crate::rng::xoshiro_next(s), thr)
            }
        } else {
            second_pick(rooms, order, j + 1, s, thr)
        }
    } else {
        -1
    }
}

/// `p1` and `p2` are where [`DungeonTree::place_pair`] puts its rooms
/// along `order`, drawing from state `s`.
pub open spec fn pair_drawn(rooms: Seq<Room>, order: Seq<usize>, s: crate::rng::RngState, first_below: u64, second_at_least: u64, p1: int, p2: int) -> bool {
    let f = first_pick(rooms, order, 1, s, first_below);
    &&& p1 == f.0
    &&& p1 >= 0 ==> p2 == second_pick(rooms, order, p1 + 1, f.1, second_at_least)
}

impl DungeonTree {
    /// Indices of the rooms picked by `which` (0: key, 1: switch, 2: switch door).
    fn ids_of_kind(&self, which: u8) -> (r: Vec<usize>)
        ensures
            r@ == kind_ids(self.rooms@, which, self.n() as int),
            forall|m: int| 0 <= m < r@.len() ==> #[trigger] r@[m] < self.n() && ids_of_kind_spec(self.rooms@, which, r@[m] as int),
            forall|i: int| 0 <= i < self.n() && ids_of_kind_spec(self.rooms@, which, i) ==> r@.contains(i as usize),
    {
        let mut r: Vec<usize> = Vec::new();
        let mut i: usize = 0;
        while i < self.rooms.len()
            invariant
                i <= self.n(),
                r@ == kind_ids(self.rooms@, which, i as int),
                forall|m: int| 0 <= m < r@.len() ==> #[trigger] r@[m] < i && ids_of_kind_spec(self.rooms@, which, r@[m] as int),
                forall|j: int| 0 <= j < i && ids_of_kind_spec(self.rooms@, which, j) ==> r@.contains(j as usize),
            decreases self.n() - i,
        {
            let k = self.rooms[i].kind;
            let hit = if which == 0 {
                k.is_key()
            } else if which == 1 {
                k.is_switch()
            } else {
                k.is_switch_door()
            };
            if hit {
                let ghost prev = r@;
                r.push(i);
                proof {
                    assert forall|j: int| 0 <= j < i + 1 && ids_of_kind_spec(self.rooms@, which, j) implies r@.contains(j as usize) by {
                        if j < i {
                            let q = choose|q: int| 0 <= q < prev.len() && prev[q] == j as usize;
                            assert(r@[q] == j as usize);
                        } else {
                            assert(r@[prev.len() as int] == i);
                        }
                    }
                }
            }
            i = i + 1;
        }
        r
    }

    /// Place a normal room `k1` and, after it in breadth-first order, a
    /// normal room `k2`: each room along the order (after the root) is
    /// taken when `draw` says so.
    fn place_pair(&mut self, rng: &mut Rng, k1: RoomKind, first_below: u64, k2: RoomKind, second_at_least: u64) -> (r: (Ghost<Seq<usize>>, Ghost<int>, Ghost<int>))
        requires
            old(self).wf(),
        ensures
            same_shape(*old(self), *final(self)),
            is_bfs_from(old(self).rooms@, old(self).root, r.0@),
            r.0@.no_duplicates(),
            forall|m: int| 0 <= m < r.0@.len() ==> #[trigger] r.0@[m] < old(self).n(),
            pair_placed(old(self).rooms@, final(self).rooms@, r.0@, r.1@, r.2@, k1, k2),
            pair_drawn(old(self).rooms@, r.0@, old(rng)@, first_below, second_at_least, r.1@, r.2@),
    {
        let order = self.bfs_order();
        let ghost orig = self.rooms@;
        let ghost s0 = rng@;
        let ghost mut p1: int = -1;
        let ghost mut p2: int = -1;
        let mut m: usize = 1;
        let mut placed_first: bool = false;
        let mut after: usize = 0;
        proof {
            lemma_kids_distinct(*self, 0);
        }
        while m < order.len() && !placed_first
            invariant
                same_shape(*old(self), *self),
                self.rooms@ == orig || placed_first,
                orig == old(self).rooms@,
                self.root == 0,
                is_bfs_from(orig, self.root, order@),
                order@.no_duplicates(),
                forall|j: int| 0 <= j < order@.len() ==> #[trigger] order@[j] < self.n(),
                1 <= m <= order@.len(),
                placed_first ==> (p1 == after && 0 < after < order@.len() && m == after + 1),
                !placed_first ==> p1 == -1 && self.rooms@ == orig,
                p2 == -1,
                pair_placed(orig, self.rooms@, order@, p1, p2, k1, k2),
                !placed_first ==> first_pick(orig, order@, m as int, rng@, first_below) == first_pick(orig, order@, 1, s0, first_below),
                placed_first ==> (p1, rng@) == first_pick(orig, order@, 1, s0, first_below),
            decreases order@.len() - m + (if placed_first { 0int } else { 1int }),
        {
            let id = order[m];
            if self.rooms[id].kind.is_normal() && rng.chance_below(first_below) {
                proof {
                    assert(order@[0] == self.root);
                    assert(id != 0) by {
                        assert(order@[m as int] != order@[0]);
                    }
                }
                self.set_kind(id, k1);
                placed_first = true;
                after = m;
                proof {
                    p1 = m as int;
                }
            }
            m = m + 1;
        }
        if placed_first {
            let mut j: usize = after + 1;
            let mut done: bool = false;
            let ghost s1 = rng@;
            while j < order.len() && !done
                invariant
                    !done ==> second_pick(orig, order@, j as int, rng@, second_at_least)
                        == second_pick(orig, order@, after + 1, s1, second_at_least),
                    done ==> p2 == second_pick(orig, order@, after + 1, s1, second_at_least),
                    same_shape(*old(self), *self),
                    orig == old(self).rooms@,
                    is_bfs_from(orig, self.root, order@),
                    order@.no_duplicates(),
                    forall|q: int| 0 <= q < order@.len() ==> #[trigger] order@[q] < self.n(),
                    0 < after < order@.len(),
                    p1 == after,
                    after + 1 <= j <= order@.len(),
                    done ==> p2 >= 0,
                    !done ==> p2 == -1,
                    pair_placed(orig, self.rooms@, order@, p1, p2, k1, k2),
                decreases order@.len() - j + (if done { 0int } else { 1int }),
            {
                let id = order[j];
                proof {
                    assert(order@[j as int] != order@[after as int]);
                    assert(self.rooms@[id as int].kind == orig[id as int].kind);
                }
                if self.rooms[id].kind.is_normal() && !rng.chance_below(second_at_least) {
                    self.set_kind(id, k2);
                    done = true;
                    proof {
                        p2 = j as int;
                    }
                }
                j = j + 1;
            }
        }
        (Ghost(order@), Ghost(p1), Ghost(p2))
    }

    /// **Mission mutation**: with even odds, add a key/lock pair (see
    /// `add_key_lock_pair`) or remove one (see `remove_key_lock_pair`).
    pub fn mutate_mission(&mut self, rng: &mut Rng)
        requires
            old(self).wf(),
            old(self).n() <= u32::MAX,
        ensures
            same_shape(*old(self), *final(self)),
            crate::rng::chance_hit(old(rng)@, HALF_BELOW)
                ==> exists|order: Seq<usize>, p1: int, p2: int| #[trigger] key_pair_placed(*old(self), *final(self), order, p1, p2)
                && pair_drawn(old(self).rooms@, order, crate::rng::xoshiro_next(old(rng)@), KEY_BELOW, NORMAL_BELOW, p1, p2),
            !crate::rng::chance_hit(old(rng)@, HALF_BELOW) ==> {
                let s1 = crate::rng::xoshiro_next(old(rng)@);
                let keys = kind_ids(old(self).rooms@, 0, old(self).n() as int);
                let draw = crate::rng::usize_draw(s1, keys.len() as usize);
                &&& keys.len() == 0 ==> final(self).rooms@ == old(self).rooms@
                &&& keys.len() > 0 ==> pair_removed(old(self).rooms@, final(self).rooms@,
                    kind_key_id(old(self).rooms@[keys[draw.0 as int] as int].kind).unwrap())
            },
            (exists|order: Seq<usize>, p1: int, p2: int| #[trigger] key_pair_placed(*old(self), *final(self), order, p1, p2))
            || (exists|kid: u32| #[trigger] pair_removed(old(self).rooms@, final(self).rooms@, kid)
                && exists|j: int| 0 <= j < old(self).n() && #[trigger] old(self).rooms@[j].kind == (RoomKind::Key { key_id: kid }))
            || final(self).rooms@ == old(self).rooms@,
    {
        if rng.chance_below(HALF_BELOW) {
            self.add_key_lock_pair(rng);
        } else {
            self.remove_key_lock_pair(rng);
        }
    }

    /// Turn a normal room (not the root) into a key room with a fresh key
    /// id, and a normal room after it in breadth-first order into a room
    /// locked by that key; each candidate is taken with chance 0.15 and
    /// 0.19 respectively, so either may be missing.
    fn add_key_lock_pair(&mut self, rng: &mut Rng)
        requires
            old(self).wf(),
            old(self).n() <= u32::MAX,
        ensures
            same_shape(*old(self), *final(self)),
            exists|order: Seq<usize>, p1: int, p2: int| #[trigger] key_pair_placed(*old(self), *final(self), order, p1, p2)
                && pair_drawn(old(self).rooms@, order, old(rng)@, KEY_BELOW, NORMAL_BELOW, p1, p2),
    {
        let kc = self.key_count();
        proof {
            lemma_count_kind_le(self.rooms@, |k: RoomKind| is_key_kind(k));
        }
        let new_key_id = kc as u32;
        let r = self.place_pair(rng, RoomKind::Key { key_id: new_key_id }, KEY_BELOW, RoomKind::Locked { key_id: new_key_id }, NORMAL_BELOW);
        proof {
            let order = r.0@;
            let p1 = r.1@;
            let p2 = r.2@;
            assert(key_pair_placed(*old(self), *self, order, p1, p2));
        }
    }

    /// Pick a key room at random (a uniform draw over the key rooms in
    /// arena order) and turn it, and every room locked by its key, into a
    /// normal room. Nothing changes without key rooms.
    fn remove_key_lock_pair(&mut self, rng: &mut Rng)
        ensures
            same_shape(*old(self), *final(self)),
            kind_ids(old(self).rooms@, 0, old(self).n() as int).len() == 0
                ==> final(self).rooms@ == old(self).rooms@ && final(rng)@ == old(rng)@,
            kind_ids(old(self).rooms@, 0, old(self).n() as int).len() > 0 ==> {
                let keys = kind_ids(old(self).rooms@, 0, old(self).n() as int);
                let draw = crate::rng::usize_draw(old(rng)@, keys.len() as usize);
                &&& pair_removed(old(self).rooms@, final(self).rooms@,
                    kind_key_id(old(self).rooms@[keys[draw.0 as int] as int].kind).unwrap())
                &&& final(rng)@ == draw.1
            },
            (exists|kid: u32| #[trigger] pair_removed(old(self).rooms@, final(self).rooms@, kid)
                && exists|j: int| 0 <= j < old(self).n() && #[trigger] old(self).rooms@[j].kind == (RoomKind::Key { key_id: kid }))
            || final(self).rooms@ == old(self).rooms@,
    {
        let keys = self.ids_of_kind(0);
        if keys.len() == 0 {
            return;
        }
        let pick = keys[rng.next_usize(keys.len())];
        let chosen = match self.rooms[pick].kind {
            RoomKind::Key { key_id } => key_id,
            _ => 0,
        };
        proof {
            assert(ids_of_kind_spec(self.rooms@, 0, pick as int));
        }
        let ghost orig = self.rooms@;
        let mut i: usize = 0;
        while i < self.rooms.len()
            invariant
                self.n() == orig.len(),
                i <= self.n(),
                orig == old(self).rooms@,
                pick < orig.len(),
                orig[pick as int].kind == (RoomKind::Key { key_id: chosen }),
                forall|j: int| 0 <= j < orig.len() ==> {
                    &&& (#[trigger] self.rooms@[j]).id == orig[j].id
                    &&& self.rooms@[j].children@ == orig[j].children@
                    &&& self.rooms@[j].direction == orig[j].direction
                    &&& self.rooms@[j].depth == orig[j].depth
                    &&& self.rooms@[j].grid_pos == orig[j].grid_pos
                },
                forall|j: int| 0 <= j < i ==> (#[trigger] self.rooms@[j]).kind == (if kind_key_id(orig[j].kind) == Some(chosen) {
                    RoomKind::Normal
                } else {
                    orig[j].kind
                }),
                forall|j: int| i <= j < orig.len() ==> (#[trigger] self.rooms@[j]).kind == orig[j].kind,
                self.root == old(self).root,
            decreases self.n() - i,
        {
            if self.rooms[i].kind.key_id() == Some(chosen) {
                self.set_kind(i, RoomKind::Normal);
            }
            i = i + 1;
        }
        proof {
            assert(pair_removed(orig, self.rooms@, chosen));
        }
    }

    /// **Switch mutation**: with even odds, add a switch / switch-door pair
    /// (a normal room after the root turns into a switch with chance 0.08,
    /// then a later normal room into a switch door with chance 0.19), or
    /// turn a random switch room and a random switch-door room back to normal.
    pub fn mutate_switches(&mut self, rng: &mut Rng)
        requires
            old(self).wf(),
        ensures
            same_shape(*old(self), *final(self)),
            (exists|order: Seq<usize>, p1: int, p2: int| #[trigger] switch_pair_placed(*old(self), *final(self), order, p1, p2))
            || (exists|v: int, d: int| #[trigger] rooms_cleared(old(self).rooms@, final(self).rooms@, v, d)
                && 0 <= v < old(self).n() && old(self).rooms@[v].kind is Switch
                && (d >= 0 ==> old(self).rooms@[d].kind is SwitchDoor)
                && (d < 0 ==> forall|j: int| 0 <= j < old(self).n() ==> !(#[trigger] old(self).rooms@[j].kind is SwitchDoor)))
            || (final(self).rooms@ == old(self).rooms@
                && forall|j: int| 0 <= j < old(self).n() ==> !(#[trigger] old(self).rooms@[j].kind is Switch)),
            crate::rng::chance_hit(old(rng)@, HALF_BELOW)
                ==> exists|order: Seq<usize>, p1: int, p2: int| #[trigger] switch_pair_placed(*old(self), *final(self), order, p1, p2)
                && pair_drawn(old(self).rooms@, order, crate::rng::xoshiro_next(old(rng)@), SWITCH_MUTATION_BELOW, NORMAL_BELOW, p1, p2),
            !crate::rng::chance_hit(old(rng)@, HALF_BELOW) ==> {
                let sws = kind_ids(old(self).rooms@, 1, old(self).n() as int);
                let dvs = kind_ids(old(self).rooms@, 2, old(self).n() as int);
                let dv = crate::rng::usize_draw(crate::rng::xoshiro_next(old(rng)@), sws.len() as usize);
                let dd = crate::rng::usize_draw(dv.1, dvs.len() as usize);
                &&& sws.len() == 0 ==> final(self).rooms@ == old(self).rooms@
                &&& sws.len() > 0 ==> rooms_cleared(old(self).rooms@, final(self).rooms@, sws[dv.0 as int] as int,
                    if dvs.len() > 0 { dvs[dd.0 as int] as int } else { -1 })
            },
    {
        let ghost s0 = rng@;
        if rng.chance_below(HALF_BELOW) {
            let r = self.place_pair(rng, RoomKind::Switch, SWITCH_MUTATION_BELOW, RoomKind::SwitchDoor, NORMAL_BELOW);
            proof {
                let order = r.0@;
                let p1 = r.1@;
                let p2 = r.2@;
                assert(switch_pair_placed(*old(self), *self, order, p1, p2));
            }
        } else {
            let switches = self.ids_of_kind(1);
            if switches.len() == 0 {
                proof {
                    assert forall|j: int| 0 <= j < old(self).n() implies !(#[trigger] old(self).rooms@[j].kind is Switch) by {
                        if old(self).rooms@[j].kind is Switch {
                            assert(ids_of_kind_spec(self.rooms@, 1, j));
                            assert(switches@.contains(j as usize));
                        }
                    }
                }
                return;
            }
            let victim = switches[rng.next_usize(switches.len())];
            proof {
                assert(ids_of_kind_spec(self.rooms@, 1, victim as int));
            }
            let ghost orig = self.rooms@;
            self.set_kind(victim, RoomKind::Normal);
            let doors = self.ids_of_kind(2);
            proof {
                lemma_kind_ids_same(orig, self.rooms@, 2, self.n() as int);
            }
            let ghost mut d: int = -1;
            if doors.len() > 0 {
                let door = doors[rng.next_usize(doors.len())];
                proof {
                    assert(ids_of_kind_spec(self.rooms@, 2, door as int));
                    d = door as int;
                }
                self.set_kind(door, RoomKind::Normal);
            } else {
                proof {
                    assert forall|j: int| 0 <= j < old(self).n() implies !(#[trigger] old(self).rooms@[j].kind is SwitchDoor) by {
                        if old(self).rooms@[j].kind is SwitchDoor {
                            assert(j != victim);
                            assert(ids_of_kind_spec(self.rooms@, 2, j));
                            assert(doors@.contains(j as usize));
                        }
                    }
                }
            }
            proof {
                assert(rooms_cleared(orig, self.rooms@, victim as int, d));
            }
        }
    }
}

/// Arenas that agree on which rooms `which` picks give the same id lists.
pub proof fn lemma_kind_ids_same(a: Seq<Room>, b: Seq<Room>, which: u8, i: int)
    requires
        0 <= i <= a.len(),
        a.len() == b.len(),
        forall|j: int| 0 <= j < a.len() ==> ids_of_kind_spec(a, which, j) == ids_of_kind_spec(b, which, j),
    ensures
        kind_ids(a, which, i) == kind_ids(b, which, i),
    decreases i,
{
    if i > 0 {
        lemma_kind_ids_same(a, b, which, i - 1);
        assert(ids_of_kind_spec(a, which, i - 1) == ids_of_kind_spec(b, which, i - 1));
    }
}

/// A count of rooms never exceeds their number.
pub proof fn lemma_count_kind_le(s: Seq<Room>, f: spec_fn(RoomKind) -> bool)
    ensures
        count_kind(s, f) <= s.len(),
    decreases s.len(),
{
    if s.len() > 0 {
        lemma_count_kind_le(s.drop_last(), f);
    }
}


/// `after` is `before` with a new normal room, child of the leaf `p`.
pub open spec fn leaf_added(before: DungeonTree, after: DungeonTree, p: int) -> bool {
    let n = before.n();
    &&& after.n() == n + 1
    &&& after.root == before.root
    &&& 0 <= p < n
    &&& before.kids(p).len() == 0
    &&& before.rooms@[p].depth < MAX_DEPTH
    &&& forall|i: int| 0 <= i < n && i != p ==> {
        &&& (#[trigger] after.rooms@[i]).id == before.rooms@[i].id
        &&& after.rooms@[i].kind == before.rooms@[i].kind
        &&& after.rooms@[i].children@ == before.rooms@[i].children@
        &&& after.rooms@[i].direction == before.rooms@[i].direction
        &&& after.rooms@[i].depth == before.rooms@[i].depth
        &&& after.rooms@[i].grid_pos == before.rooms@[i].grid_pos
    }
    &&& after.rooms@[p].id == before.rooms@[p].id
    &&& after.rooms@[p].kind == before.rooms@[p].kind
    &&& after.rooms@[p].direction == before.rooms@[p].direction
    &&& after.rooms@[p].depth == before.rooms@[p].depth
    &&& after.rooms@[p].grid_pos == before.rooms@[p].grid_pos
    &&& after.kids(p) == seq![n as usize]
    &&& after.rooms@[n].id == n
    &&& after.rooms@[n].kind is Normal
    &&& after.rooms@[n].direction is Some
    &&& after.rooms@[n].depth == before.rooms@[p].depth + 1
    &&& after.rooms@[n].grid_pos == (0i32, 0i32)
    &&& after.kids(n).len() == 0
}

/// `after` is `before` with the normal leaf `v` cut off from its parent.
pub open spec fn leaf_removed(before: DungeonTree, after: DungeonTree, v: int) -> bool {
    let n = before.n();
    &&& after.n() == n
    &&& after.root == before.root
    &&& 0 < v < n
    &&& before.kids(v).len() == 0
    &&& before.rooms@[v].kind is Normal
    &&& before.has_parent(v)
    &&& forall|i: int| 0 <= i < n ==> {
        &&& (#[trigger] after.rooms@[i]).id == before.rooms@[i].id
        &&& after.rooms@[i].kind == before.rooms@[i].kind
        &&& after.rooms@[i].direction == before.rooms@[i].direction
        &&& after.rooms@[i].depth == before.rooms@[i].depth
        &&& after.rooms@[i].grid_pos == before.rooms@[i].grid_pos
        &&& after.kids(i) == (if i == before.parent(v) {
            before.kids(i).filter(|c: usize| c != v as usize)
        } else {
            before.kids(i)
        })
    }
}

/// The indices below `i` of the rooms without children, in arena order.
pub open spec fn leaves_below(t: DungeonTree, i: int) -> Seq<usize>
    decreases i,
{
    if i <= 0 {
        Seq::empty()
    } else if t.kids(i - 1).len() == 0 {
        leaves_below(t, i - 1).push((i - 1) as usize)
    } else {
        leaves_below(t, i - 1)
    }
}

/// The entries of `s` that name normal rooms, in order.
pub open spec fn normal_only(rooms: Seq<Room>, s: Seq<usize>) -> Seq<usize>
    decreases s.len(),
{
    if s.len() == 0 {
        Seq::empty()
    } else if rooms[s.last() as int].kind is Normal {
        normal_only(rooms, s.drop_last()).push(s.last())
    } else {
        normal_only(rooms, s.drop_last())
    }
}

impl DungeonTree {
    /// Indices of the rooms without children, in arena order.
    fn leaf_ids(&self) -> (r: Vec<usize>)
        ensures
            r@ == leaves_below(*self, self.n() as int),
            forall|m: int| 0 <= m < r@.len() ==> #[trigger] r@[m] < self.n() && self.kids(r@[m] as int).len() == 0,
    {
        let mut r: Vec<usize> = Vec::new();
        let mut i: usize = 0;
        while i < self.rooms.len()
            invariant
                i <= self.n(),
                r@ == leaves_below(*self, i as int),
                forall|m: int| 0 <= m < r@.len() ==> #[trigger] r@[m] < i && self.kids(r@[m] as int).len() == 0,
            decreases self.n() - i,
        {
            if self.rooms[i].children.len() == 0 {
                r.push(i);
            }
            i = i + 1;
        }
        r
    }

    /// **Play-space mutation**: with even odds, give a random leaf a new
    /// normal child (when the leaf is shallower than `MAX_DEPTH`), or cut a
    /// random normal leaf off its parent (the room stays in the arena,
    /// detached).
    pub fn mutate_play_space(&mut self, rng: &mut Rng)
        requires
            old(self).wf(),
            old(self).n() < usize::MAX,
        ensures
            final(self).wf(),
            leaves_below(*old(self), old(self).n() as int).len() == 0 ==> final(self).rooms@ == old(self).rooms@,
            ({
                let leaves = leaves_below(*old(self), old(self).n() as int);
                let draw = crate::rng::usize_draw(crate::rng::xoshiro_next(old(rng)@), leaves.len() as usize);
                let p = leaves[draw.0 as int] as int;
                let dirs = seq![Direction::Right, Direction::Left, Direction::Down];
                leaves.len() > 0 && crate::rng::chance_hit(old(rng)@, HALF_BELOW) ==> if old(self).rooms@[p].depth < MAX_DEPTH {
                    &&& leaf_added(*old(self), *final(self), p)
                    &&& final(self).rooms@[old(self).n() as int].direction == Some(dirs[crate::rng::usize_draw(draw.1, 3).0 as int])
                } else {
                    final(self).rooms@ == old(self).rooms@
                }
            }),
            ({
                let leaves = leaves_below(*old(self), old(self).n() as int);
                let normals = normal_only(old(self).rooms@, leaves);
                let v = normals[crate::rng::usize_draw(crate::rng::xoshiro_next(old(rng)@), normals.len() as usize).0 as int] as int;
                leaves.len() > 0 && !crate::rng::chance_hit(old(rng)@, HALF_BELOW) ==> if normals.len() > 0 && v != old(self).root
                    && old(self).has_parent(v) {
                    leaf_removed(*old(self), *final(self), v)
                } else {
                    final(self).rooms@ == old(self).rooms@
                }
            }),
            (exists|p: int| #[trigger] leaf_added(*old(self), *final(self), p))
            || (exists|v: int| #[trigger] leaf_removed(*old(self), *final(self), v))
            || same_shape(*old(self), *final(self)) && final(self).rooms@ == old(self).rooms@,
    {
        let leaves = self.leaf_ids();
        if leaves.len() == 0 {
            return;
        }
        let ghost s0 = rng@;
        if rng.chance_below(HALF_BELOW) {
            let parent_id = leaves[rng.next_usize(leaves.len())];
            let parent_depth = self.rooms[parent_id].depth;
            if parent_depth < MAX_DEPTH {
                // A leaf has no children yet, so every direction is free.
                let free_dirs = Direction::all();
                let dir = free_dirs[rng.next_usize(3)];
                let new_id = self.rooms.len();
                let ghost before = *self;
                let child = Room::new(new_id, RoomKind::Normal, Some(dir), parent_depth + 1);
                self.rooms.push(child);
                let mut kids: Vec<usize> = Vec::new();
                kids.push(new_id);
                self.rooms[parent_id].children = kids;
                proof {
                    let n = before.n();
                    assert(self.kids(parent_id as int) == seq![n as usize]);
                    assert forall|i: int| 0 <= i < n && i != parent_id implies #[trigger] self.kids(i) == before.kids(i) by {
                        assert(self.rooms@[i] == before.rooms@[i]);
                    }
                    assert forall|i: int, k: int| 0 <= i < self.n() && 0 <= k < self.kids(i).len() implies i < #[trigger] self.kids(i)[k] < self.n() by {
                        if i != parent_id && i < n {
                            assert(self.kids(i) == before.kids(i));
                        }
                    }
                    assert forall|i: int, k1: int, j: int, k2: int|
                        0 <= i < self.n() && 0 <= j < self.n() && 0 <= k1 < self.kids(i).len() && 0 <= k2 < self.kids(j).len()
                            && #[trigger] self.kids(i)[k1] == #[trigger] self.kids(j)[k2] implies i == j && k1 == k2 by {
                        if i != parent_id && i < n {
                            assert(self.kids(i) == before.kids(i));
                            assert(before.kids(i)[k1] < n);
                        }
                        if j != parent_id && j < n {
                            assert(self.kids(j) == before.kids(j));
                            assert(before.kids(j)[k2] < n);
                        }
                    }
                    assert forall|i: int| 0 <= i < self.n() implies (#[trigger] self.rooms@[i]).id == i by {
                        if i < n && i != parent_id {
                            assert(self.rooms@[i] == before.rooms@[i]);
                        }
                    }
                    assert(self.wf());
                    assert(leaf_added(before, *self, parent_id as int));
                }
            }
        } else {
            let mut normal_leaves: Vec<usize> = Vec::new();
            let mut m: usize = 0;
            while m < leaves.len()
                invariant
                    m <= leaves@.len(),
                    normal_leaves@ == normal_only(self.rooms@, leaves@.take(m as int)),
                    forall|q: int| 0 <= q < leaves@.len() ==> #[trigger] leaves@[q] < self.n() && self.kids(leaves@[q] as int).len() == 0,
                    forall|q: int| 0 <= q < normal_leaves@.len() ==> #[trigger] normal_leaves@[q] < self.n()
                        && self.kids(normal_leaves@[q] as int).len() == 0 && self.rooms@[normal_leaves@[q] as int].kind is Normal,
                decreases leaves@.len() - m,
            {
                let id = leaves[m];
                proof {
                    assert(leaves@.take(m as int + 1).drop_last() =~= leaves@.take(m as int));
                }
                if self.rooms[id].kind.is_normal() {
                    normal_leaves.push(id);
                }
                m = m + 1;
            }
            proof {
                assert(leaves@.take(leaves@.len() as int) =~= leaves@);
            }
            if normal_leaves.len() > 0 {
                let victim = normal_leaves[rng.next_usize(normal_leaves.len())];
                if let Some(parent) = self.parent_of(victim) {
                    let ghost before = *self;
                    let ghost olds = before.kids(parent as int);
                    let ghost pred = |c: usize| c != victim;
                    proof {
                        lemma_kids_distinct(before, parent as int);
                    }
                    let mut kept: Vec<usize> = Vec::new();
                    let mut q: usize = 0;
                    while q < self.rooms[parent].children.len()
                        invariant
                            *self == before,
                            parent < self.n(),
                            self.kids(parent as int) == olds,
                            olds.no_duplicates(),
                            pred == (|c: usize| c != victim),
                            q <= olds.len(),
                            kept@ == olds.take(q as int).filter(pred),
                            kept@.no_duplicates(),
                            forall|x: usize| kept@.contains(x) ==> olds.take(q as int).contains(x),
                        decreases olds.len() - q,
                    {
                        let c = self.rooms[parent].children[q];
                        proof {
                            assert(olds.take(q as int + 1) =~= olds.take(q as int).push(c));
                            olds.take(q as int).lemma_filter_push(c, pred);
                            assert(!olds.take(q as int).contains(c)) by {
                                if olds.take(q as int).contains(c) {
                                    let w = choose|w: int| 0 <= w < q && olds.take(q as int)[w] == c;
                                    assert(olds[w] == olds[q as int]);
                                }
                            }
                        }
                        let ghost prev = kept@;
                        if c != victim {
                            kept.push(c);
                            proof {
                                assert(kept@ == prev.push(c));
                                assert(!prev.contains(c));
                                assert forall|a: int, b: int| 0 <= a < kept@.len() && 0 <= b < kept@.len() && a != b
                                    implies kept@[a] != kept@[b] by {
                                    if a < prev.len() && b < prev.len() {
                                        assert(kept@[a] == prev[a] && kept@[b] == prev[b]);
                                    } else if a == prev.len() {
                                        assert(prev[b] == kept@[b]);
                                    } else {
                                        assert(prev[a] == kept@[a]);
                                    }
                                }
                            }
                        }
                        proof {
                            assert forall|x: usize| kept@.contains(x) implies olds.take(q as int + 1).contains(x) by {
                                if x != c {
                                    let q0 = choose|w: int| 0 <= w < kept@.len() && kept@[w] == x;
                                    assert(prev[q0] == x);
                                    assert(prev.contains(x));
                                    assert(olds.take(q as int).contains(x));
                                    let w = choose|w: int| 0 <= w < q && olds.take(q as int)[w] == x;
                                    assert(olds.take(q as int + 1)[w] == x);
                                } else {
                                    assert(olds.take(q as int + 1)[q as int] == c);
                                }
                            }
                        }
                        q = q + 1;
                    }
                    proof {
                        assert(olds.take(olds.len() as int) =~= olds);
                    }
                    self.rooms[parent].children = kept;
                    proof {
                        assert forall|i: int| 0 <= i < self.n() && i != parent implies #[trigger] self.kids(i) == before.kids(i) by {
                            assert(self.rooms@[i] == before.rooms@[i]);
                        }
                        assert forall|i: int| 0 <= i < self.n() implies (#[trigger] self.kids(i)).no_duplicates() by {
                            if i != parent {
                                lemma_kids_distinct(before, i);
                            }
                        }
                        assert forall|i: int, x: usize| 0 <= i < self.n() && #[trigger] self.kids(i).contains(x) implies before.kids(i).contains(x) by {
                        }
                        lemma_wf_sublists(before, *self);
                        assert(before.is_child(parent as int, victim as int));
                        lemma_parent_unique(before, parent as int, victim as int);
                        assert(leaf_removed(before, *self, victim as int));
                    }
                }
            }
        }
    }
}


// ── Fix procedure ───────────────────────────────────────────────────────────

/// The kinds the breadth-first walk of [`DungeonTree::fix_branch`] gives
/// the rooms `order[i..]`, with `placed` saved kinds already used and the
/// generator in state `s`; also the saved kinds used in all and the state
/// left. The tree's root stays normal; with no saved kind left a room is
/// normal; with as many rooms left as kinds, a room takes the next kind;
/// otherwise it takes the next kind when the draw falls below `KEY_BELOW`.
pub open spec fn fix_walk(order: Seq<usize>, root: usize, saved: Seq<RoomKind>, i: int, placed: int, s: crate::rng::RngState)
    -> (Seq<RoomKind>, int, crate::rng::RngState)
    decreases order.len() - i,
{
    if 0 <= i < order.len() {
        if order[i] == root || saved.len() - placed <= 0 {
            let r = fix_walk(order, root, saved, i + 1, placed, s);
            (seq![RoomKind::Normal] + r.0, r.1, r.2)
        } else if order.len() - i == saved.len() - placed {
            let r = fix_walk(order, root, saved, i + 1, placed + 1, s);
            (seq![saved[placed]] + r.0, r.1, r.2)
        } else if crate::rng::chance_hit(s, KEY_BELOW) {
            let r = fix_walk(order, root, saved, i + 1, placed + 1, crate::rng::xoshiro_next(s));
            (seq![saved[placed]] + r.0, r.1, r.2)
        } else {
            let r = fix_walk(order, root, saved, i + 1, placed, crate::rng::xoshiro_next(s));
            (seq![RoomKind::Normal] + r.0, r.1, r.2)
        }
    } else {
        (Seq::empty(), placed, s)
    }
}

/// The kind [`DungeonTree::fix_branch`] leaves on `order[m]`: what the walk
/// gave it, unless saved kinds were left over, which go in order to the
/// last rooms of the walk.
pub open spec fn fix_kind(order: Seq<usize>, root: usize, saved: Seq<RoomKind>, s: crate::rng::RngState, m: int) -> RoomKind {
    let w = fix_walk(order, root, saved, 0, 0, s);
    let left = saved.len() - w.1;
    let start = if order.len() >= left { order.len() - left } else { 0 };
    if left > 0 && start <= m && m - start < left {
        saved[w.1 + (m - start)]
    } else {
        w.0[m]
    }
}

/// The special kinds along `s` depend only on the kinds of its rooms.
proof fn lemma_special_kinds_frame(a: Seq<Room>, b: Seq<Room>, s: Seq<usize>)
    requires
        forall|m: int| 0 <= m < s.len() ==> (#[trigger] a[s[m] as int]).kind == b[s[m] as int].kind,
    ensures
        special_kinds(a, s) == special_kinds(b, s),
    decreases s.len(),
{
    if s.len() > 0 {
        let d = s.drop_last();
        assert forall|m: int| 0 <= m < d.len() implies (#[trigger] a[d[m] as int]).kind == b[d[m] as int].kind by {
            assert(d[m] == s[m]);
        }
        lemma_special_kinds_frame(a, b, d);
        assert(a[s[s.len() - 1] as int].kind == b[s[s.len() - 1] as int].kind);
    }
}

impl DungeonTree {
    /// Redistribute the `saved` special kinds over the subtree rooted at
    /// `branch_root`, walking it breadth first: the root of the tree stays
    /// normal; once every saved kind is placed the rest become normal; when
    /// the rooms left are as many as the kinds left, each takes the next
    /// kind; otherwise a room takes the next kind with chance 0.15. Kinds
    /// still left at the end go, in order, to the last rooms of the walk.
    /// With nothing saved the whole subtree becomes normal.
    pub fn fix_branch(&mut self, branch_root: usize, saved: &[RoomKind], rng: &mut Rng)
        requires
            old(self).wf(),
            branch_root < old(self).n(),
        ensures
            same_shape(*old(self), *final(self)),
            forall|i: int| 0 <= i < old(self).n() && !old(self).subtree_set(branch_root as int).contains(i as usize)
                ==> (#[trigger] final(self).rooms@[i]).kind == old(self).rooms@[i].kind,
            forall|i: int| 0 <= i < old(self).n() && old(self).subtree_set(branch_root as int).contains(i as usize)
                ==> (#[trigger] final(self).rooms@[i]).kind is Normal || saved@.contains(final(self).rooms@[i].kind),
            saved@.len() == 0 ==> forall|i: int| 0 <= i < old(self).n() && old(self).subtree_set(branch_root as int).contains(i as usize)
                ==> (#[trigger] final(self).rooms@[i]).kind is Normal,
            saved@.len() > 0 ==> exists|order: Seq<usize>|
                #![trigger is_bfs_from(old(self).rooms@, branch_root, order)]
                is_bfs_from(old(self).rooms@, branch_root, order) && order.no_duplicates()
                && order.to_set() == old(self).subtree_set(branch_root as int)
                && (forall|m: int| 0 <= m < order.len() ==> (#[trigger] final(self).rooms@[order[m] as int]).kind
                    == fix_kind(order, old(self).root, saved@, old(rng)@, m))
                && (!order.contains(old(self).root) && saved@.len() <= order.len()
                    && (forall|k: int| 0 <= k < saved@.len() ==> !(#[trigger] saved@[k] is Normal))
                    ==> special_kinds(final(self).rooms@, order) == saved@),
    {
        let ghost orig = *self;
        let total = self.rooms.len();
        let subtree = self.subtree_ids(branch_root);
        let n_rooms = subtree.len();
        let n_specials = saved.len();
        let ghost sub = orig.subtree_set(branch_root as int);
        if n_specials == 0 {
            let mut q: usize = 0;
            while q < subtree.len()
                invariant
                    same_shape(orig, *self),
                    orig == *old(self),
                    total == orig.n(),
                    subtree@.no_duplicates(),
                    subtree@.to_set() == sub,
                    forall|m: int| 0 <= m < subtree@.len() ==> #[trigger] subtree@[m] < orig.n(),
                    q <= subtree@.len(),
                    forall|i: int| 0 <= i < orig.n() && !subtree@.take(q as int).contains(i as usize)
                        ==> (#[trigger] self.rooms@[i]).kind == orig.rooms@[i].kind,
                    forall|i: int| 0 <= i < orig.n() && subtree@.take(q as int).contains(i as usize)
                        ==> (#[trigger] self.rooms@[i]).kind is Normal,
                decreases subtree@.len() - q,
            {
                let id = subtree[q];
                let ghost before = self.rooms@;
                assert(forall|i: int| 0 <= i < orig.n() && subtree@.take(q as int).contains(i as usize) ==> (#[trigger] before[i]).kind is Normal);
                self.set_kind(id, RoomKind::Normal);
                proof {
                    lemma_take_step_contains(subtree@, q as int);
                    assert forall|i: int| 0 <= i < orig.n() && subtree@.take(q as int + 1).contains(i as usize)
                        implies (#[trigger] self.rooms@[i]).kind is Normal by {
                        if i != id {
                            assert(self.rooms@[i] == before[i]);
                            assert(subtree@.take(q as int).contains(i as usize));
                        }
                    }
                }
                q = q + 1;
            }
            proof {
                assert(subtree@.take(subtree@.len() as int) =~= subtree@);
                assert forall|i: int| 0 <= i < orig.n() implies #[trigger] sub.contains(i as usize) == subtree@.contains(i as usize) by {
                    assert(subtree@.to_set().contains(i as usize) == subtree@.contains(i as usize));
                }
            }
            return;
        }
        let bfs_ids = self.bfs_from(branch_root);
        proof {
            subtree@.unique_seq_to_set();
            bfs_ids@.unique_seq_to_set();
        }
        let ghost s0 = rng@;
        let ghost full = fix_walk(bfs_ids@, orig.root, saved@, 0, 0, s0);
        let ghost mut done_kinds: Seq<RoomKind> = Seq::empty();
        let ghost nice = !bfs_ids@.contains(orig.root) && saved@.len() <= bfs_ids@.len()
            && (forall|k: int| 0 <= k < saved@.len() ==> !(#[trigger] saved@[k] is Normal));
        proof {
            assert(full == (done_kinds + full.0, full.1, full.2)) by {
                assert(done_kinds + full.0 =~= full.0);
            }
        }
        let mut placed: usize = 0;
        let mut i: usize = 0;
        while i < bfs_ids.len()
            invariant
                ({
                    let w = fix_walk(bfs_ids@, orig.root, saved@, i as int, placed as int, rng@);
                    full == (done_kinds + w.0, w.1, w.2)
                }),
                full == fix_walk(bfs_ids@, orig.root, saved@, 0, 0, s0),
                done_kinds.len() == i,
                forall|m: int| 0 <= m < i ==> (#[trigger] self.rooms@[bfs_ids@[m] as int]).kind == done_kinds[m],
                nice == (!bfs_ids@.contains(orig.root) && saved@.len() <= bfs_ids@.len()
                    && (forall|k: int| 0 <= k < saved@.len() ==> !(#[trigger] saved@[k] is Normal))),
                nice ==> placed + (bfs_ids@.len() - i) >= saved@.len(),
                nice ==> special_kinds(self.rooms@, bfs_ids@.take(i as int)) == saved@.take(placed as int),
                same_shape(orig, *self),
                orig == *old(self),
                orig.wf(),
                self.root == 0,
                bfs_ids@.no_duplicates(),
                bfs_ids@.to_set() == sub,
                bfs_ids@.len() == n_rooms,
                n_specials == saved@.len(),
                n_specials > 0,
                forall|m: int| 0 <= m < bfs_ids@.len() ==> #[trigger] bfs_ids@[m] < orig.n(),
                i <= bfs_ids@.len(),
                placed <= n_specials,
                forall|x: int| 0 <= x < orig.n() && !bfs_ids@.take(i as int).contains(x as usize)
                    ==> (#[trigger] self.rooms@[x]).kind == orig.rooms@[x].kind,
                forall|x: int| 0 <= x < orig.n() && bfs_ids@.take(i as int).contains(x as usize)
                    ==> (#[trigger] self.rooms@[x]).kind is Normal || saved@.contains(self.rooms@[x].kind),
            decreases bfs_ids@.len() - i,
        {
            let id = bfs_ids[i];
            let remaining_rooms = n_rooms - i;
            let remaining_specials = n_specials - placed;
            let ghost r0 = self.rooms@;
            let ghost p0 = placed as int;
            let ghost w = fix_walk(bfs_ids@, orig.root, saved@, i as int, placed as int, rng@);
            if id == self.root {
                self.set_kind(id, RoomKind::Normal);
            } else if remaining_specials == 0 {
                self.set_kind(id, RoomKind::Normal);
            } else if remaining_rooms == remaining_specials {
                self.set_kind(id, saved[placed]);
                placed = placed + 1;
            } else {
                if rng.chance_below(KEY_BELOW) && placed < n_specials {
                    self.set_kind(id, saved[placed]);
                    placed = placed + 1;
                } else {
                    self.set_kind(id, RoomKind::Normal);
                }
            }
            proof {
                lemma_take_step_contains(bfs_ids@, i as int);
                let k = self.rooms@[id as int].kind;
                let w2 = fix_walk(bfs_ids@, orig.root, saved@, i + 1, placed as int, rng@);
                assert(w == (seq![k] + w2.0, w2.1, w2.2));
                assert(done_kinds + w.0 =~= done_kinds.push(k) + w2.0);
                assert forall|m: int| 0 <= m < i implies bfs_ids@[m] != id by {
                    assert(bfs_ids@[m] != bfs_ids@[i as int]);
                }
                if nice {
                    assert(bfs_ids@.take(i + 1).drop_last() =~= bfs_ids@.take(i as int));
                    assert forall|m: int| 0 <= m < bfs_ids@.take(i as int).len()
                        implies (#[trigger] self.rooms@[bfs_ids@.take(i as int)[m] as int]).kind == r0[bfs_ids@.take(i as int)[m] as int].kind by {
                        assert(bfs_ids@[m] != id);
                    }
                    lemma_special_kinds_frame(self.rooms@, r0, bfs_ids@.take(i as int));
                    assert(id != orig.root) by {
                        assert(bfs_ids@.contains(id));
                    }
                    if placed as int == p0 + 1 {
                        assert(saved@.take(placed as int) =~= saved@.take(p0).push(saved@[p0]));
                    }
                }
            }
            proof {
                done_kinds = done_kinds.push(self.rooms@[id as int].kind);
            }
            i = i + 1;
        }
        proof {
            assert(bfs_ids@.take(bfs_ids@.len() as int) =~= bfs_ids@);
            assert(done_kinds + Seq::<RoomKind>::empty() =~= done_kinds);
            assert(full.0 == done_kinds && full.1 == placed);
            if nice {
                assert(saved@.take(placed as int) =~= saved@);
            }
        }
        let ghost walked = self.rooms@;
        if placed < n_specials {
            let left = n_specials - placed;
            let start = if bfs_ids.len() >= left { bfs_ids.len() - left } else { 0 };
            let mut j: usize = start;
            while j < bfs_ids.len()
                invariant
                    bfs_ids@.no_duplicates(),
                    full == fix_walk(bfs_ids@, orig.root, saved@, 0, 0, s0),
                    full.1 == placed,
                    full.0 == done_kinds,
                    done_kinds.len() == bfs_ids@.len(),
                    left == n_specials - placed,
                    start == (if bfs_ids@.len() >= left { bfs_ids@.len() - left } else { 0 }),
                    forall|m: int| 0 <= m < j ==> (#[trigger] self.rooms@[bfs_ids@[m] as int]).kind
                        == fix_kind(bfs_ids@, orig.root, saved@, s0, m),
                    forall|m: int| j <= m < bfs_ids@.len() ==> (#[trigger] self.rooms@[bfs_ids@[m] as int]).kind == done_kinds[m],
                    same_shape(orig, *self),
                    orig == *old(self),
                    bfs_ids@.to_set() == sub,
                    bfs_ids@.len() == n_rooms,
                    n_specials == saved@.len(),
                    forall|m: int| 0 <= m < bfs_ids@.len() ==> #[trigger] bfs_ids@[m] < orig.n(),
                    start <= j <= bfs_ids@.len(),
                    placed <= n_specials,
                    forall|x: int| 0 <= x < orig.n() && !bfs_ids@.contains(x as usize)
                        ==> (#[trigger] self.rooms@[x]).kind == orig.rooms@[x].kind,
                    forall|x: int| 0 <= x < orig.n() && bfs_ids@.contains(x as usize)
                        ==> (#[trigger] self.rooms@[x]).kind is Normal || saved@.contains(self.rooms@[x].kind),
                decreases bfs_ids@.len() - j,
            {
                let id = bfs_ids[j];
                let ghost r0 = self.rooms@;
                if j - start < n_specials - placed {
                    self.set_kind(id, saved[placed + (j - start)]);
                    proof {
                        assert(bfs_ids@.contains(id));
                    }
                }
                proof {
                    assert forall|m: int| 0 <= m < bfs_ids@.len() && m != j implies bfs_ids@[m] != id by {
                        assert(bfs_ids@[m] != bfs_ids@[j as int]);
                    }
                    assert forall|m: int| 0 <= m < j + 1 implies (#[trigger] self.rooms@[bfs_ids@[m] as int]).kind
                        == fix_kind(bfs_ids@, orig.root, saved@, s0, m) by {
                        if m < j {
                            assert(self.rooms@[bfs_ids@[m] as int] == r0[bfs_ids@[m] as int]);
                        } else {
                            if !(j - start < n_specials - placed) {
                                assert(self.rooms@ == r0);
                            }
                        }
                    }
                    assert forall|m: int| j + 1 <= m < bfs_ids@.len() implies (#[trigger] self.rooms@[bfs_ids@[m] as int]).kind == done_kinds[m] by {
                        assert(self.rooms@[bfs_ids@[m] as int] == r0[bfs_ids@[m] as int]);
                    }
                }
                j = j + 1;
            }
        }
        proof {
            assert forall|m: int| 0 <= m < bfs_ids@.len() implies (#[trigger] self.rooms@[bfs_ids@[m] as int]).kind
                == fix_kind(bfs_ids@, orig.root, saved@, s0, m) by {
                if placed >= n_specials {
                    assert(self.rooms@ == walked);
                } else {
                    assert(m < bfs_ids@.len());
                }
            }
            assert(is_bfs_from(old(self).rooms@, branch_root, bfs_ids@));
        }
    }
}

/// One more entry of a prefix.
proof fn lemma_take_step_contains(s: Seq<usize>, q: int)
    requires
        0 <= q < s.len(),
    ensures
        forall|x: usize| #[trigger] s.take(q + 1).contains(x) <==> (s.take(q).contains(x) || x == s[q]),
{
    assert forall|x: usize| #[trigger] s.take(q + 1).contains(x) <==> (s.take(q).contains(x) || x == s[q]) by {
        if s.take(q + 1).contains(x) {
            let w = choose|w: int| 0 <= w < q + 1 && #[trigger] s.take(q + 1)[w] == x;
            if w < q {
                assert(s.take(q)[w] == x);
            }
        }
        if s.take(q).contains(x) {
            let w = choose|w: int| 0 <= w < q && #[trigger] s.take(q)[w] == x;
            assert(s.take(q + 1)[w] == x);
        }
        if x == s[q] {
            assert(s.take(q + 1)[q] == x);
        }
    }
}


// ── Appending rooms ─────────────────────────────────────────────────────────

/// `after` is `before` with a new room `n` (no children) appended as the
/// last child of `p`; nothing else changes.
pub open spec fn child_appended(before: DungeonTree, after: DungeonTree, p: int) -> bool {
    let n = before.n();
    &&& after.n() == n + 1
    &&& after.root == before.root
    &&& 0 <= p < n
    &&& forall|i: int| 0 <= i < n && i != p ==> {
        &&& (#[trigger] after.rooms@[i]).id == before.rooms@[i].id
        &&& after.rooms@[i].kind == before.rooms@[i].kind
        &&& after.rooms@[i].children@ == before.rooms@[i].children@
        &&& after.rooms@[i].direction == before.rooms@[i].direction
        &&& after.rooms@[i].depth == before.rooms@[i].depth
        &&& after.rooms@[i].grid_pos == before.rooms@[i].grid_pos
    }
    &&& after.rooms@[p].id == before.rooms@[p].id
    &&& after.rooms@[p].kind == before.rooms@[p].kind
    &&& after.rooms@[p].direction == before.rooms@[p].direction
    &&& after.rooms@[p].depth == before.rooms@[p].depth
    &&& after.rooms@[p].grid_pos == before.rooms@[p].grid_pos
    &&& after.kids(p) == before.kids(p).push(n as usize)
    &&& after.rooms@[n].id == n
    &&& after.kids(n).len() == 0
}

impl DungeonTree {
    /// Append a new room without children as the last child of `parent`;
    /// returns its id (the old number of rooms).
    pub fn push_child(&mut self, parent: usize, kind: RoomKind, direction: Option<Direction>, depth: u32, grid_pos: (i32, i32)) -> (id: usize)
        requires
            old(self).wf(),
            parent < old(self).n(),
            old(self).n() < usize::MAX,
        ensures
            id == old(self).n(),
            final(self).wf(),
            child_appended(*old(self), *final(self), parent as int),
            final(self).rooms@[id as int].kind == kind,
            final(self).rooms@[id as int].direction == direction,
            final(self).rooms@[id as int].depth == depth,
            final(self).rooms@[id as int].grid_pos == grid_pos,
            final(self).is_child(parent as int, id as int),
    {
        let ghost before = *self;
        let id = self.rooms.len();
        let mut kids: Vec<usize> = Vec::new();
        let mut k: usize = 0;
        while k < self.rooms[parent].children.len()
            invariant
                *self == before,
                parent < before.n(),
                k <= before.kids(parent as int).len(),
                kids@ == before.kids(parent as int).take(k as int),
            decreases before.kids(parent as int).len() - k,
        {
            kids.push(self.rooms[parent].children[k]);
            proof {
                assert(before.kids(parent as int).take(k as int + 1) =~= before.kids(parent as int).take(k as int).push(before.kids(parent as int)[k as int]));
            }
            k = k + 1;
        }
        proof {
            assert(before.kids(parent as int).take(before.kids(parent as int).len() as int) =~= before.kids(parent as int));
        }
        kids.push(id);
        let mut room = Room::new(id, kind, direction, depth);
        room.grid_pos = grid_pos;
        self.rooms.push(room);
        self.rooms[parent].children = kids;
        proof {
            let n = before.n();
            assert(self.kids(parent as int) == before.kids(parent as int).push(n as usize));
            assert forall|i: int| 0 <= i < n && i != parent implies #[trigger] self.rooms@[i] == before.rooms@[i] by {}
            assert forall|i: int, k: int| 0 <= i < self.n() && 0 <= k < self.kids(i).len() implies i < #[trigger] self.kids(i)[k] < self.n() by {
                if i < n && i != parent {
                    assert(self.kids(i) == before.kids(i));
                } else if i == parent && k < before.kids(parent as int).len() {
                    assert(self.kids(i)[k] == before.kids(i)[k]);
                }
            }
            assert forall|i: int, k1: int, j: int, k2: int|
                0 <= i < self.n() && 0 <= j < self.n() && 0 <= k1 < self.kids(i).len() && 0 <= k2 < self.kids(j).len()
                    && #[trigger] self.kids(i)[k1] == #[trigger] self.kids(j)[k2] implies i == j && k1 == k2 by {
                let lp = before.kids(parent as int).len();
                if i < n && !(i == parent && k1 == lp) {
                    assert(self.kids(i)[k1] == before.kids(i)[k1]);
                    assert(before.kids(i)[k1] < n);
                }
                if j < n && !(j == parent && k2 == lp) {
                    assert(self.kids(j)[k2] == before.kids(j)[k2]);
                    assert(before.kids(j)[k2] < n);
                }
                if i < n && j < n && !(i == parent && k1 == lp) && !(j == parent && k2 == lp) {
                    assert(before.kids(i)[k1] == before.kids(j)[k2]);
                }
            }
            assert forall|i: int| 0 <= i < self.n() implies (#[trigger] self.rooms@[i]).id == i by {
                if i < n && i != parent {
                    assert(self.rooms@[i] == before.rooms@[i]);
                }
            }
            assert(self.wf());
            assert(self.kids(parent as int)[before.kids(parent as int).len() as int] == id);
            assert(self.is_child(parent as int, id as int));
        }
        id
    }
}

impl DungeonTree {
    /// A copy of this tree: the same rooms, room by room.
    pub fn duplicate(&self) -> (r: Self)
        ensures
            same_shape(*self, r),
            forall|i: int| 0 <= i < self.n() ==> (#[trigger] r.rooms@[i]).kind == self.rooms@[i].kind,
    {
        let mut rooms: Vec<Room> = Vec::new();
        let mut i: usize = 0;
        while i < self.rooms.len()
            invariant
                i <= self.n(),
                rooms@.len() == i,
                forall|j: int| 0 <= j < i ==> {
                    &&& (#[trigger] rooms@[j]).id == self.rooms@[j].id
                    &&& rooms@[j].kind == self.rooms@[j].kind
                    &&& rooms@[j].children@ == self.rooms@[j].children@
                    &&& rooms@[j].direction == self.rooms@[j].direction
                    &&& rooms@[j].depth == self.rooms@[j].depth
                    &&& rooms@[j].grid_pos == self.rooms@[j].grid_pos
                },
            decreases self.n() - i,
        {
            rooms.push(self.rooms[i].duplicate());
            i = i + 1;
        }
        DungeonTree { rooms, root: self.root }
    }
}

} // verus!
