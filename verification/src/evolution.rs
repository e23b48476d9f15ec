//! The mutation step of the evolutionary search (the search itself ranks
//! trees by a floating-point fitness and is not part of this library).
use vstd::prelude::*;

use crate::room::RoomKind;
use crate::rng::Rng;
use crate::tree::{
    DungeonTree, leaf_added, leaf_removed, same_shape, key_pair_placed, pair_removed,
    switch_pair_placed, rooms_cleared, renumbered_kind,
};

verus! {

/// `after` is `before` after a play-space mutation: a leaf gained a normal
/// child, a normal leaf was cut off, or nothing changed.
pub open spec fn play_space_mutated(before: DungeonTree, after: DungeonTree) -> bool {
    &&& after.wf()
    &&& (exists|p: int| #[trigger] leaf_added(before, after, p))
        || (exists|v: int| #[trigger] leaf_removed(before, after, v))
        || same_shape(before, after) && after.rooms@ == before.rooms@
}

/// `after` is `before` after a mission mutation: a key/lock pair was
/// placed, the pair of an existing key was removed, or nothing changed.
pub open spec fn mission_mutated(before: DungeonTree, after: DungeonTree) -> bool {
    &&& same_shape(before, after)
    &&& (exists|order: Seq<usize>, p1: int, p2: int| #[trigger] key_pair_placed(before, after, order, p1, p2))
        || (exists|kid: u32| #[trigger] pair_removed(before.rooms@, after.rooms@, kid)
            && exists|j: int| 0 <= j < before.n() && #[trigger] before.rooms@[j].kind == (RoomKind::Key { key_id: kid }))
        || after.rooms@ == before.rooms@
}

/// `after` is `before` after a switch mutation: a switch / switch-door pair
/// was placed, a switch (and a switch door, if any) turned normal, or
/// nothing changed because there was no switch to remove.
pub open spec fn switches_mutated(before: DungeonTree, after: DungeonTree) -> bool {
    &&& same_shape(before, after)
    &&& (exists|order: Seq<usize>, p1: int, p2: int| #[trigger] switch_pair_placed(before, after, order, p1, p2))
        || (exists|v: int, d: int| #[trigger] rooms_cleared(before.rooms@, after.rooms@, v, d)
            && 0 <= v < before.n() && before.rooms@[v].kind is Switch
            && (d >= 0 ==> before.rooms@[d].kind is SwitchDoor)
            && (d < 0 ==> forall|j: int| 0 <= j < before.n() ==> !(#[trigger] before.rooms@[j].kind is SwitchDoor)))
        || (after.rooms@ == before.rooms@
            && forall|j: int| 0 <= j < before.n() ==> !(#[trigger] before.rooms@[j].kind is Switch))
}

/// `after` is `before` with its key ids renumbered.
pub open spec fn keys_renumbered(before: DungeonTree, after: DungeonTree) -> bool {
    &&& same_shape(before, after)
    &&& forall|i: int| 0 <= i < before.n() ==> (#[trigger] after.rooms@[i]).kind == renumbered_kind(before.rooms@, i)
}

/// Apply one of the three mutation operators (play space, mission,
/// switches), chosen with equal odds, then renumber the key ids.
pub fn mutate(tree: &mut DungeonTree, rng: &mut Rng)
    requires
        old(tree).wf(),
        old(tree).n() < u32::MAX,
    ensures
        final(tree).wf(),
        exists|mid: DungeonTree|
            #![trigger keys_renumbered(mid, *final(tree))]
            (play_space_mutated(*old(tree), mid) || mission_mutated(*old(tree), mid)
                || switches_mutated(*old(tree), mid)) && keys_renumbered(mid, *final(tree))
            && (crate::rng::usize_draw(old(rng)@, 3).0 == 0 ==> play_space_mutated(*old(tree), mid))
            && (crate::rng::usize_draw(old(rng)@, 3).0 == 1 ==> mission_mutated(*old(tree), mid))
            && (crate::rng::usize_draw(old(rng)@, 3).0 == 2 ==> switches_mutated(*old(tree), mid)),
{
    let choice = rng.next_usize(3);
    if choice == 0 {
        tree.mutate_play_space(rng);
    } else if choice == 1 {
        tree.mutate_mission(rng);
    } else {
        tree.mutate_switches(rng);
    }
    let ghost mid = *tree;
    proof {
        if choice != 0 {
            crate::tree::lemma_same_shape(*old(tree), mid);
        }
    }
    tree.renumber_keys();
    proof {
        crate::tree::lemma_same_shape(mid, *tree);
        assert(keys_renumbered(mid, *tree));
    }
}

} // verus!
