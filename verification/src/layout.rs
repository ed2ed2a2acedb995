//! The placed copies of a layout, as far as the orientation logic looks at them.
use crate::grouped::ItemType;
use crate::grouped::OrientationGroup;
use crate::grouped::PlacedCopy;
use crate::grouped::Turn;
use vstd::prelude::*;

verus! {

/// Every copy is a copy of one of the `n_items` items.
pub open spec fn copies_of_items(copies: Seq<PlacedCopy>, n_items: nat) -> bool {
    forall|p: int| 0 <= p < copies.len() ==> (#[trigger] copies[p]).item_id < n_items
}

/// Whether `c` is a copy of item `id`, facing `dir` where one is given.
pub open spec fn selected(c: PlacedCopy, id: usize, dir: Option<bool>) -> bool {
    c.item_id == id && (dir matches Some(d) ==> c.dir180 == d)
}

/// The positions of the copies of item `id` that face `dir` (in either direction for `None`),
/// rising.
pub open spec fn positions(copies: Seq<PlacedCopy>, id: usize, dir: Option<bool>) -> Seq<usize>
    decreases copies.len(),
{
    if copies.len() == 0 {
        Seq::empty()
    } else {
        let before = positions(copies.drop_last(), id, dir);
        if selected(copies.last(), id, dir) {
            before.push((copies.len() - 1) as usize)
        } else {
            before
        }
    }
}

/// Number of copies of item `id` that face `dir`.
pub open spec fn facing(copies: Seq<PlacedCopy>, id: usize, dir: bool) -> nat {
    positions(copies, id, Some(dir)).len()
}

/// Whole garments face each direction: with some number of garments of the group turned to
/// 180 degrees and the others at 0, every piece type has its copies per garment for each.
pub open spec fn group_consistent(copies: Seq<PlacedCopy>, group: OrientationGroup) -> bool {
    exists|turned: int| #[trigger] garments_turned(copies, group, turned)
}

/// Exactly `turned` garments of the group face 180 degrees, the others 0.
pub open spec fn garments_turned(
    copies: Seq<PlacedCopy>,
    group: OrientationGroup,
    turned: int,
) -> bool {
    &&& 0 <= turned <= group.quantity
    &&& forall|m: int|
        #![trigger group.members@[m]]
        0 <= m < group.members@.len() ==> {
            let (id, per_garment) = group.members@[m];
            &&& facing(copies, id, true) == turned * per_garment
            &&& facing(copies, id, false) == (group.quantity - turned) * per_garment
        }
}

/// The group counting invariant: every group is consistent.
pub open spec fn consistent(copies: Seq<PlacedCopy>, groups: Seq<OrientationGroup>) -> bool {
    forall|g: int| 0 <= g < groups.len() ==> group_consistent(copies, #[trigger] groups[g])
}

/// The direction class that a turn gives to its copy.
pub open spec fn turn_class(copies: Seq<PlacedCopy>, items: Seq<ItemType>, t: Turn) -> bool {
    items[copies[t.copy as int].item_id as int].rotations->0@[t.rotation as int]
}

/// The turn names a copy of the layout and one of its item's allowed rotations.
pub open spec fn turn_allowed(copies: Seq<PlacedCopy>, items: Seq<ItemType>, t: Turn) -> bool {
    &&& t.copy < copies.len()
    &&& copies[t.copy as int].item_id < items.len()
    &&& items[copies[t.copy as int].item_id as int].rotations is Some
    &&& t.rotation < items[copies[t.copy as int].item_id as int].rotations->0@.len()
}

/// The layout after one turn.
pub open spec fn turned(copies: Seq<PlacedCopy>, items: Seq<ItemType>, t: Turn) -> Seq<PlacedCopy> {
    copies.update(
        t.copy as int,
        PlacedCopy { dir180: turn_class(copies, items, t), ..copies[t.copy as int] },
    )
}

/// The layout after a list of turns, made one after the other.
pub open spec fn after_turns(
    copies: Seq<PlacedCopy>,
    items: Seq<ItemType>,
    turns: Seq<Turn>,
) -> Seq<PlacedCopy>
    decreases turns.len(),
{
    if turns.len() == 0 {
        copies
    } else {
        turned(after_turns(copies, items, turns.drop_last()), items, turns.last())
    }
}

/// Membership and order of the positions.
pub proof fn lemma_positions(copies: Seq<PlacedCopy>, id: usize, dir: Option<bool>)
    requires
        copies.len() <= usize::MAX,
    ensures
        forall|p: usize|
            #![trigger positions(copies, id, dir).contains(p)]
            positions(copies, id, dir).contains(p) <==> p < copies.len() && selected(
                copies[p as int],
                id,
                dir,
            ),
        forall|p: usize|
            #![trigger positions(copies, id, dir).contains(p)]
            positions(copies, id, dir).contains(p) <==> p < copies.len()
                && copies[p as int].item_id == id && (dir is None || dir
                == Some(copies[p as int].dir180)),
        forall|i: int|
            0 <= i < positions(copies, id, dir).len() ==> (#[trigger] positions(copies, id, dir)[i])
                < copies.len() && selected(copies[positions(copies, id, dir)[i] as int], id, dir),
        forall|i: int, j: int|
            0 <= i < j < positions(copies, id, dir).len() ==> positions(copies, id, dir)[i]
                < positions(copies, id, dir)[j],
        positions(copies, id, dir).no_duplicates(),
        positions(copies, id, dir).len() <= copies.len(),
    decreases copies.len(),
{
    let all = positions(copies, id, dir);
    if copies.len() > 0 {
        let short = copies.drop_last();
        lemma_positions(short, id, dir);
        let before = positions(short, id, dir);
        let last = (copies.len() - 1) as usize;
        assert forall|p: usize| all.contains(p) <==> p < copies.len() && selected(
            copies[p as int],
            id,
            dir,
        ) by {
            if p < short.len() {
                assert(copies[p as int] == short[p as int]);
            }
            if selected(copies.last(), id, dir) {
                assert(all =~= before.push(last));
                if p == last {
                    assert(all[before.len() as int] == p);
                } else if before.contains(p) {
                    let i = choose|i: int| 0 <= i < before.len() && before[i] == p;
                    assert(all[i] == p);
                } else if all.contains(p) {
                    let i = choose|i: int| 0 <= i < all.len() && all[i] == p;
                    assert(i < before.len() ==> before[i] == p);
                }
            }
        }
        assert forall|i: int| 0 <= i < all.len() implies (#[trigger] all[i]) < copies.len()
            && selected(copies[all[i] as int], id, dir) by {
            assert(all.contains(all[i]));
        }
        assert forall|i: int, j: int| 0 <= i < j < all.len() implies all[i] < all[j] by {
            assert(i < before.len() && all[i] == before[i]);
            if j < before.len() {
                assert(all[j] == before[j]);
            }
        }
    }
}

/// The count of an item's copies in one direction is the number of positions that hold one.
pub proof fn lemma_facing(copies: Seq<PlacedCopy>, id: usize, dir: bool)
    requires
        copies.len() <= usize::MAX,
    ensures
        facing(copies, id, dir) == Set::new(
            |p: usize|
                p < copies.len() && copies[p as int].item_id == id && copies[p as int].dir180
                    == dir,
        ).len(),
{
    lemma_positions(copies, id, Some(dir));
    let found = positions(copies, id, Some(dir));
    found.unique_seq_to_set();
    assert(found.to_set() =~= Set::new(
        |p: usize|
            p < copies.len() && copies[p as int].item_id == id && copies[p as int].dir180 == dir,
    ));
}

/// What consistency of a group comes to: there is a number of garments such that, of every piece
/// type, its copies per garment for that many garments face 180 degrees, and its copies for all
/// the others face 0.
pub proof fn lemma_consistent_counts(copies: Seq<PlacedCopy>, group: OrientationGroup) -> (k: int)
    requires
        copies.len() <= usize::MAX,
        group_consistent(copies, group),
    ensures
        0 <= k <= group.quantity,
        forall|m: int|
            0 <= m < group.members@.len() ==> Set::new(
                |p: usize|
                    p < copies.len() && copies[p as int].item_id
                        == (#[trigger] group.members@[m]).0 && copies[p as int].dir180,
            ).len() == k * group.members@[m].1,
        forall|m: int|
            0 <= m < group.members@.len() ==> Set::new(
                |p: usize|
                    p < copies.len() && copies[p as int].item_id
                        == (#[trigger] group.members@[m]).0 && !copies[p as int].dir180,
            ).len() == (group.quantity - k) * group.members@[m].1,
{
    let k = choose|k: int| #[trigger] garments_turned(copies, group, k);
    assert forall|m: int| 0 <= m < group.members@.len() implies Set::new(
        |p: usize|
            p < copies.len() && copies[p as int].item_id == (#[trigger] group.members@[m]).0
                && copies[p as int].dir180,
    ).len() == k * group.members@[m].1 && Set::new(
        |p: usize|
            p < copies.len() && copies[p as int].item_id == (#[trigger] group.members@[m]).0
                && !copies[p as int].dir180,
    ).len() == (group.quantity - k) * group.members@[m].1 by {
        let id = group.members@[m].0;
        lemma_facing(copies, id, true);
        lemma_facing(copies, id, false);
        assert(Set::new(
            |p: usize|
                p < copies.len() && copies[p as int].item_id == id && copies[p as int].dir180
                    == true,
        ) =~= Set::new(
            |p: usize|
                p < copies.len() && copies[p as int].item_id == group.members@[m].0
                    && copies[p as int].dir180,
        ));
        assert(Set::new(
            |p: usize|
                p < copies.len() && copies[p as int].item_id == id && copies[p as int].dir180
                    == false,
        ) =~= Set::new(
            |p: usize|
                p < copies.len() && copies[p as int].item_id == group.members@[m].0
                    && !copies[p as int].dir180,
        ));
    }
    k
}

/// Counts that are those of whole garments make a group consistent.
pub proof fn lemma_counts_consistent(copies: Seq<PlacedCopy>, group: OrientationGroup, k: int)
    requires
        copies.len() <= usize::MAX,
        0 <= k <= group.quantity,
        forall|m: int|
            0 <= m < group.members@.len() ==> Set::new(
                |p: usize|
                    p < copies.len() && copies[p as int].item_id == group.members@[m].0
                        && copies[p as int].dir180,
            ).len() == k * (#[trigger] group.members@[m]).1,
        forall|m: int|
            0 <= m < group.members@.len() ==> Set::new(
                |p: usize|
                    p < copies.len() && copies[p as int].item_id == group.members@[m].0
                        && !copies[p as int].dir180,
            ).len() == (group.quantity - k) * (#[trigger] group.members@[m]).1,
    ensures
        group_consistent(copies, group),
{
    assert forall|m: int|
        #![trigger group.members@[m]]
        0 <= m < group.members@.len() implies {
        let (id, per_garment) = group.members@[m];
        &&& facing(copies, id, true) == k * per_garment
        &&& facing(copies, id, false) == (group.quantity - k) * per_garment
    } by {
        lemma_facing(copies, group.members@[m].0, true);
        lemma_facing(copies, group.members@[m].0, false);
        let id = group.members@[m].0;
        assert(Set::new(
            |p: usize|
                p < copies.len() && copies[p as int].item_id == id && copies[p as int].dir180
                    == true,
        ) =~= Set::new(
            |p: usize|
                p < copies.len() && copies[p as int].item_id == group.members@[m].0
                    && copies[p as int].dir180,
        ));
        assert(Set::new(
            |p: usize|
                p < copies.len() && copies[p as int].item_id == id && copies[p as int].dir180
                    == false,
        ) =~= Set::new(
            |p: usize|
                p < copies.len() && copies[p as int].item_id == group.members@[m].0
                    && !copies[p as int].dir180,
        ));
    }
    assert(garments_turned(copies, group, k));
}

/// Lists, for every item, the positions of its copies that face `dir`.
pub fn census(copies: &Vec<PlacedCopy>, n_items: usize, dir: Option<bool>) -> (r: Vec<Vec<usize>>)
    requires
        copies_of_items(copies@, n_items as nat),
    ensures
        r.len() == n_items,
        forall|id: int|
            0 <= id < n_items ==> (#[trigger] r[id])@ == positions(copies@, id as usize, dir),
{
    let mut r: Vec<Vec<usize>> = Vec::new();
    while r.len() < n_items
        invariant
            r.len() <= n_items,
            forall|id: int| 0 <= id < r.len() ==> (#[trigger] r[id])@ == Seq::<usize>::empty(),
        decreases n_items - r.len(),
    {
        r.push(Vec::new());
    }
    let mut p: usize = 0;
    while p < copies.len()
        invariant
            p <= copies.len(),
            r.len() == n_items,
            copies_of_items(copies@, n_items as nat),
            forall|id: int|
                0 <= id < n_items ==> (#[trigger] r[id])@ == positions(
                    copies@.take(p as int),
                    id as usize,
                    dir,
                ),
        decreases copies.len() - p,
    {
        let c: PlacedCopy = copies[p];
        let wanted: bool = match dir {
            Some(d) => c.dir180 == d,
            None => true,
        };
        proof {
            assert(copies@.take(p + 1).drop_last() =~= copies@.take(p as int));
            assert(copies@.take(p + 1).last() == c);
        }
        if wanted {
            let ghost was = r@;
            let list = &mut r[c.item_id];
            list.push(p);
            assert forall|id: int| 0 <= id < n_items implies (#[trigger] r[id])@ == positions(
                copies@.take(p + 1),
                id as usize,
                dir,
            ) by {
                assert(was[id]@ == positions(copies@.take(p as int), id as usize, dir));
            }
        }
        p = p + 1;
    }
    assert(copies@.take(p as int) =~= copies@);
    r
}

/// No copy is turned twice.
pub open spec fn turns_distinct(turns: Seq<Turn>) -> bool {
    forall|i: int, j: int|
        0 <= i < turns.len() && 0 <= j < turns.len() && i != j ==> (#[trigger] turns[i]).copy != (
        #[trigger] turns[j]).copy
}

/// Every turn is allowed.
pub open spec fn turns_allowed(
    copies: Seq<PlacedCopy>,
    items: Seq<ItemType>,
    turns: Seq<Turn>,
) -> bool {
    forall|i: int| 0 <= i < turns.len() ==> turn_allowed(copies, items, #[trigger] turns[i])
}

/// Turning copies changes the direction of those copies and nothing else.
pub proof fn lemma_after_turns(copies: Seq<PlacedCopy>, items: Seq<ItemType>, turns: Seq<Turn>)
    requires
        turns_allowed(copies, items, turns),
        turns_distinct(turns),
    ensures
        after_turns(copies, items, turns).len() == copies.len(),
        forall|p: int|
            #![trigger after_turns(copies, items, turns)[p]]
            0 <= p < copies.len() && (forall|k: int|
                0 <= k < turns.len() ==> (#[trigger] turns[k]).copy != p) ==> after_turns(
                copies,
                items,
                turns,
            )[p] == copies[p],
        forall|k: int|
            0 <= k < turns.len() ==> after_turns(
                copies,
                items,
                turns,
            )[(#[trigger] turns[k]).copy as int] == (PlacedCopy {
                dir180: turn_class(copies, items, turns[k]),
                ..copies[turns[k].copy as int]
            }),
        forall|p: int|
            #![trigger after_turns(copies, items, turns)[p]]
            0 <= p < copies.len() ==> after_turns(copies, items, turns)[p].item_id
                == copies[p].item_id,
    decreases turns.len(),
{
    let out = after_turns(copies, items, turns);
    if turns.len() > 0 {
        let shorter = turns.drop_last();
        let t = turns.last();
        assert(forall|k: int| 0 <= k < shorter.len() ==> shorter[k] == turns[k]);
        assert(turns[turns.len() - 1] == t);
        lemma_after_turns(copies, items, shorter);
        let before = after_turns(copies, items, shorter);
        assert(turn_allowed(copies, items, t));
        assert(before[t.copy as int].item_id == copies[t.copy as int].item_id);
        assert forall|p: int|
            #![trigger out[p]]
            0 <= p < copies.len() && (forall|k: int|
                0 <= k < turns.len() ==> (#[trigger] turns[k]).copy != p) implies out[p]
            == copies[p] by {
            assert(t.copy != p);
            assert(forall|k: int|
                0 <= k < shorter.len() ==> (#[trigger] shorter[k]).copy == turns[k].copy);
            assert(before[p] == copies[p]);
        }
        assert forall|k: int| 0 <= k < turns.len() implies out[(#[trigger] turns[k]).copy as int]
            == (PlacedCopy {
            dir180: turn_class(copies, items, turns[k]),
            ..copies[turns[k].copy as int]
        }) by {
            if k < shorter.len() {
                assert(turns[k].copy != turns[turns.len() - 1].copy);
                assert(before[shorter[k].copy as int].item_id == copies[turns[k].copy as int].item_id);
            } else {
                assert(forall|j: int| 0 <= j < shorter.len() ==> (#[trigger] shorter[j]).copy != turns[k].copy);
                assert(before[t.copy as int] == copies[t.copy as int]);
            }
        }
        assert forall|p: int|
            #![trigger out[p]]
            0 <= p < copies.len() implies out[p].item_id == copies[p].item_id by {
            assert(before[p].item_id == copies[p].item_id);
        }
    }
}

/// Rotation `i` is the first of class `want`.
pub open spec fn first_of_class(rotations: Seq<bool>, want: bool, i: int) -> bool {
    &&& 0 <= i < rotations.len()
    &&& rotations[i] == want
    &&& forall|j: int| 0 <= j < i ==> rotations[j] != want
}

/// The first allowed rotation of class `want`, if the item's rotations are discrete and one of
/// them is of that class.
pub open spec fn rotation_to(item: ItemType, want: bool) -> Option<usize> {
    if item.rotations is Some && exists|i: int| first_of_class(item.rotations->0@, want, i) {
        Some((choose|i: int| first_of_class(item.rotations->0@, want, i)) as usize)
    } else {
        None
    }
}

/// Finds the first allowed rotation of class `want`.
pub fn find_rotation(item: &ItemType, want: bool) -> (r: Option<usize>)
    ensures
        r == rotation_to(*item, want),
{
    match &item.rotations {
        None => None,
        Some(rotations) => {
            let mut i: usize = 0;
            while i < rotations.len()
                invariant
                    i <= rotations.len(),
                    item.rotations == Some(*rotations),
                    forall|j: int| 0 <= j < i ==> rotations[j] != want,
                decreases rotations.len() - i,
            {
                if rotations[i] == want {
                    proof {
                        assert(first_of_class(item.rotations->0@, want, i as int));
                        let c = choose|c: int| first_of_class(item.rotations->0@, want, c);
                        assert(first_of_class(item.rotations->0@, want, c));
                        assert(c == i);
                    }
                    return Some(i);
                }
                i = i + 1;
            }
            None
        },
    }
}

/// The rotation found is one of the item's, and of the wanted class; there is one if and only
/// if the item's rotations are discrete and some one of them is of that class.
pub proof fn lemma_rotation_to(item: ItemType, want: bool)
    ensures
        rotation_to(item, want) matches Some(i) ==> item.rotations is Some && i
            < item.rotations->0@.len() && item.rotations->0@[i as int] == want && forall|j: int|
            0 <= j < i ==> item.rotations->0@[j] != want,
        rotation_to(item, want) is Some <==> item.rotations is Some
            && item.rotations->0@.contains(want),
{
    if item.rotations is Some {
        let v = item.rotations->0;
        assert(v.len() <= usize::MAX);
        let rotations = v@;
        if exists|i: int| first_of_class(rotations, want, i) {
            let i = choose|i: int| first_of_class(rotations, want, i);
            assert(rotations[i] == want);
        }
        if rotations.contains(want) {
            lemma_first_of_class(rotations, want);
        }
    }
}

proof fn lemma_first_of_class(rotations: Seq<bool>, want: bool)
    requires
        rotations.contains(want),
    ensures
        exists|i: int| first_of_class(rotations, want, i),
    decreases rotations.len(),
{
    let shorter = rotations.drop_last();
    let last = rotations.len() - 1;
    assert(forall|j: int| 0 <= j < last ==> shorter[j] == rotations[j]);
    if shorter.contains(want) {
        lemma_first_of_class(shorter, want);
        let i = choose|i: int| first_of_class(shorter, want, i);
        assert(first_of_class(rotations, want, i));
    } else {
        assert forall|j: int| 0 <= j < last implies rotations[j] != want by {
            assert(shorter[j] == rotations[j]);
        }
        assert(first_of_class(rotations, want, last));
    }
}

} // verus!
