//! Flipping one garment.
//!
//! A flip picks a group and a direction that at least one of its garments faces, an anchor copy
//! of the group's largest piece, and then, for every piece type, the copies nearest the anchor:
//! together they are one garment, which is turned over in place.
use crate::cluster::groups_usable;
use crate::cluster::members_usable;
use crate::cluster::pool_of;
use crate::garments::is_member;
use crate::garments::members_distinct;
use crate::grouped::group_fits;
use crate::grouped::GroupFlipConfig;
use crate::grouped::GroupedOrientationSpec;
use crate::grouped::ItemType;
use crate::grouped::OrientationGroup;
use crate::grouped::PlacedCopy;
use crate::grouped::Turn;
use crate::layout::after_turns;
use crate::layout::census;
use crate::layout::consistent;
use crate::layout::copies_of_items;
use crate::layout::facing;
use crate::layout::find_rotation;
use crate::layout::garments_turned;
use crate::layout::group_consistent;
use crate::layout::lemma_after_turns;
use crate::layout::lemma_facing;
use crate::layout::lemma_positions;
use crate::layout::lemma_rotation_to;
use crate::layout::positions;
use crate::layout::rotation_to;
use crate::layout::selected;
use crate::layout::turn_allowed;
use crate::layout::turn_class;
use crate::layout::turns_allowed;
use crate::layout::turns_distinct;
use crate::order::by_rank;
use crate::order::lemma_by_rank;
use crate::order::lemma_by_rank_members;
use crate::order::lemma_ranks_rise;
use crate::order::sort_by_rank;
use crate::partition::lemma_fits_disjoint;
use crate::partition::members_turnable;
use crate::scalar::F32;
use crate::util::listener::Flipped;
use rand::prelude::IndexedRandom;
use rand::prelude::IteratorRandom;
use rand::rngs::SmallRng;
use vstd::prelude::*;
use vstd::set_lib::lemma_set_disjoint_lens;

verus! {

/// `rand::rngs::SmallRng`, handed through to random choices.
#[verifier::external_type_specification]
#[verifier::external_body]
pub struct ExSmallRng(SmallRng);

/// How many garments of a group face 0 degrees, read off its first piece type.
pub open spec fn garments_at0(copies: Seq<PlacedCopy>, group: OrientationGroup) -> nat {
    (facing(copies, group.members@[0].0, false) / group.members@[0].1 as nat) as nat
}

/// The directions that at least one whole garment of the group faces, each with the group.
pub open spec fn group_candidates(
    copies: Seq<PlacedCopy>,
    group: OrientationGroup,
    g: usize,
) -> Seq<(usize, bool)> {
    let n0 = garments_at0(copies, group);
    (if n0 >= 1 {
        seq![(g, false)]
    } else {
        Seq::empty()
    }) + (if group.quantity > n0 {
        seq![(g, true)]
    } else {
        Seq::empty()
    })
}

/// The candidates of the first `n` groups.
pub open spec fn candidates(
    copies: Seq<PlacedCopy>,
    groups: Seq<OrientationGroup>,
    n: nat,
) -> Seq<(usize, bool)>
    decreases n,
{
    if n == 0 {
        Seq::empty()
    } else {
        candidates(copies, groups, (n - 1) as nat) + group_candidates(
            copies,
            groups[n - 1],
            (n - 1) as usize,
        )
    }
}

/// Lists the groups and directions of which a garment can be flipped.
pub fn flip_candidates(
    copies: &Vec<PlacedCopy>,
    n_items: usize,
    spec: &GroupedOrientationSpec,
) -> (r: Vec<(usize, bool)>)
    requires
        copies_of_items(copies@, n_items as nat),
        groups_usable(spec.groups@, n_items as nat),
    ensures
        r@ == candidates(copies@, spec.groups@, spec.groups@.len()),
{
    let ghost groups = spec.groups@;
    let pool: Vec<Vec<usize>> = census(copies, n_items, Some(false));
    let mut r: Vec<(usize, bool)> = Vec::new();
    let mut g: usize = 0;
    while g < spec.groups.len()
        invariant
            g <= spec.groups.len(),
            groups == spec.groups@,
            groups_usable(groups, n_items as nat),
            pool_of(pool@, copies@, n_items as nat, Some(false)),
            r@ == candidates(copies@, groups, g as nat),
        decreases spec.groups.len() - g,
    {
        let group = &spec.groups[g];
        assert(members_usable(groups[g as int].members@, n_items as nat));
        let (id, per_garment) = group.members[0];
        assert(group.members@[0] == (id, per_garment));
        assert(pool@[id as int]@ == positions(copies@, id, Some(false)));
        let n0: usize = pool[id].len() / per_garment;
        let ghost before = r@;
        assert(n0 == garments_at0(copies@, groups[g as int]));
        if n0 >= 1 {
            r.push((g, false));
        }
        if group.quantity > n0 {
            r.push((g, true));
        }
        assert(r@ =~= before + group_candidates(copies@, groups[g as int], g));
        g = g + 1;
    }
    r
}

/// Member `i` is the largest piece type: no member is larger, and none after it as large.
pub open spec fn is_largest(items: Seq<ItemType>, members: Seq<(usize, usize)>, i: int) -> bool {
    &&& 0 <= i < members.len()
    &&& forall|j: int|
        0 <= j < members.len() ==> items[(#[trigger] members[j]).0 as int].area.total()
            <= items[members[i].0 as int].area.total()
    &&& forall|j: int|
        i < j < members.len() ==> items[(#[trigger] members[j]).0 as int].area.total()
            < items[members[i].0 as int].area.total()
}

/// The item of the largest piece type.
pub open spec fn largest(items: Seq<ItemType>, members: Seq<(usize, usize)>) -> usize {
    members[choose|i: int| is_largest(items, members, i)].0
}

fn find_largest(items: &Vec<ItemType>, members: &Vec<(usize, usize)>) -> (r: usize)
    requires
        members_usable(members@, items@.len()),
    ensures
        r == largest(items@, members@),
        r < items.len(),
        exists|i: int| is_largest(items@, members@, i) && members[i].0 == r,
{
    let mut best: usize = 0;
    let mut m: usize = 1;
    while m < members.len()
        invariant
            best < m <= members.len(),
            members_usable(members@, items@.len()),
            forall|j: int|
                0 <= j < m ==> items[(#[trigger] members[j]).0 as int].area.total()
                    <= items[members[best as int].0 as int].area.total(),
            forall|j: int|
                best < j < m ==> items[(#[trigger] members[j]).0 as int].area.total()
                    < items[members[best as int].0 as int].area.total(),
        decreases members.len() - m,
    {
        if items[members[best].0].area.total_rank() <= items[members[m].0].area.total_rank() {
            best = m;
        }
        m = m + 1;
    }
    proof {
        assert(is_largest(items@, members@, best as int));
        let i = choose|i: int| is_largest(items@, members@, i);
        assert(is_largest(items@, members@, i));
        if i < best {
            assert(items[members@[best as int].0 as int].area.total() < items[members@[i].0 as int].area.total());
        } else if best < i {
            assert(items[members@[i].0 as int].area.total() < items[members@[best as int].0 as int].area.total());
        }
    }
    members[best].0
}

/// The copies around which a garment may be gathered: those of the largest piece type that
/// face the source direction.
pub open spec fn anchors(
    copies: Seq<PlacedCopy>,
    items: Seq<ItemType>,
    group: OrientationGroup,
    src180: bool,
) -> Seq<usize> {
    positions(copies, largest(items, group.members@), Some(src180))
}

/// `rand::prelude::IndexedRandom::choose` on a slice: one of the elements, and none only of an
/// empty slice. Which one is left to chance.
#[verifier::external_body]
fn choose_candidate(candidates: &Vec<(usize, bool)>, rng: &mut SmallRng) -> (r: Option<
    (usize, bool),
>)
    ensures
        r is None <==> candidates@.len() == 0,
        r matches Some(c) ==> candidates@.contains(c),
{
    candidates.choose(rng).copied()
}

/// `rand::prelude::IteratorRandom::choose` on the items of a list: one of them, and none only of
/// an empty list. Which one is left to chance.
#[verifier::external_body]
pub(crate) fn choose_copy(ids: &Vec<usize>, rng: &mut SmallRng) -> (r: Option<usize>)
    ensures
        r is None <==> ids@.len() == 0,
        r matches Some(p) ==> ids@.contains(p),
{
    ids.iter().copied().choose(rng)
}

/// Where a garment is to be flipped.
#[derive(Debug, Clone, Copy, PartialEq, Eq, Structural)]
pub struct FlipStart {
    pub group: usize,
    /// The direction that the garment faces now.
    pub src180: bool,
    /// The copy around which the garment is gathered.
    pub anchor: usize,
}

/// Picks a garment to flip: a group and direction among the candidates, then an anchor copy.
/// There is none if there are no candidates, or if the one picked has no anchor copy.
pub fn flip_one_garment(
    copies: &Vec<PlacedCopy>,
    items: &Vec<ItemType>,
    spec: &GroupedOrientationSpec,
    rng: &mut SmallRng,
) -> (r: Option<FlipStart>)
    requires
        copies_of_items(copies@, items@.len()),
        groups_usable(spec.groups@, items@.len()),
    ensures
        ({
            let all = candidates(copies@, spec.groups@, spec.groups@.len());
            &&& r matches Some(f) ==> all.contains((f.group, f.src180)) && f.group
                < spec.groups.len() && anchors(
                copies@,
                items@,
                spec.groups@[f.group as int],
                f.src180,
            ).contains(f.anchor) && f.anchor < copies.len()
            &&& r is None ==> all.len() == 0 || exists|i: int|
                0 <= i < all.len() && anchors(
                    copies@,
                    items@,
                    spec.groups@[(#[trigger] all[i]).0 as int],
                    all[i].1,
                ).len() == 0
        }),
{
    let all: Vec<(usize, bool)> = flip_candidates(copies, items.len(), spec);
    let (group, src180) = match choose_candidate(&all, rng) {
        Some(c) => c,
        None => {
            return None;
        },
    };
    proof {
        assert(spec.groups.len() <= usize::MAX);
        lemma_candidate_groups(copies@, spec.groups@, spec.groups@.len());
        assert(all@.contains((group, src180)));
        assert(members_usable(spec.groups@[group as int].members@, items@.len()));
    }
    let id: usize = find_largest(items, &spec.groups[group].members);
    let pool: Vec<Vec<usize>> = census(copies, items.len(), Some(src180));
    assert(pool@[id as int]@ == positions(copies@, id, Some(src180)));
    match choose_copy(&pool[id], rng) {
        Some(anchor) => {
            proof {
                assert(copies.len() <= usize::MAX);
                lemma_positions(copies@, id, Some(src180));
            }
            Some(FlipStart { group, src180, anchor })
        },
        None => {
            proof {
                let i = choose|i: int| 0 <= i < all.len() && all@[i] == (group, src180);
                assert(all@[i].0 == group);
            }
            None
        },
    }
}

/// Candidates name groups of the spec.
pub proof fn lemma_candidate_groups(
    copies: Seq<PlacedCopy>,
    groups: Seq<OrientationGroup>,
    n: nat,
)
    requires
        n <= groups.len() <= usize::MAX,
    ensures
        forall|c: (usize, bool)| #[trigger]
            candidates(copies, groups, n).contains(c) ==> c.0 < n && group_candidates(
                copies,
                groups[c.0 as int],
                c.0,
            ).contains(c),
    decreases n,
{
    if n > 0 {
        let k = (n - 1) as nat;
        lemma_candidate_groups(copies, groups, k);
        let before = candidates(copies, groups, k);
        let more = group_candidates(copies, groups[k as int], k as usize);
        let all = candidates(copies, groups, n);
        assert forall|c: (usize, bool)| #[trigger] all.contains(c) implies c.0 < n
            && group_candidates(copies, groups[c.0 as int], c.0).contains(c) by {
            let i = choose|i: int| 0 <= i < all.len() && all[i] == c;
            if i < before.len() {
                assert(before[i] == c);
                assert(before.contains(c));
            } else {
                assert(more[i - before.len()] == c);
                assert(more.contains(c));
            }
        }
    }
}

/// The distances as ranks.
pub open spec fn distance_ranks(dist: Seq<F32>) -> Seq<i64> {
    Seq::new(dist.len(), |p: int| dist[p].total() as i64)
}

/// The copies of one piece type that a garment is made of: the nearest ones that face the
/// source direction, as many as a garment needs.
pub open spec fn nearest_copies(
    copies: Seq<PlacedCopy>,
    member: (usize, usize),
    src180: bool,
    dist: Seq<F32>,
) -> Seq<usize> {
    by_rank(positions(copies, member.0, Some(src180)), distance_ranks(dist)).take(member.1 as int)
}

/// A piece type can take part in a flip: it has an allowed rotation of the other class, and
/// enough copies that face the source direction.
pub open spec fn member_flips(
    copies: Seq<PlacedCopy>,
    items: Seq<ItemType>,
    member: (usize, usize),
    src180: bool,
) -> bool {
    rotation_to(items[member.0 as int], !src180) is Some && facing(copies, member.0, src180)
        >= member.1
}

/// Every piece type can take part.
pub open spec fn garment_flips(
    copies: Seq<PlacedCopy>,
    items: Seq<ItemType>,
    members: Seq<(usize, usize)>,
    src180: bool,
) -> bool {
    forall|m: int|
        0 <= m < members.len() ==> member_flips(copies, items, #[trigger] members[m], src180)
}

/// The turns of one piece type.
pub open spec fn member_turns(
    copies: Seq<PlacedCopy>,
    items: Seq<ItemType>,
    member: (usize, usize),
    src180: bool,
    dist: Seq<F32>,
) -> Seq<Turn> {
    nearest_copies(copies, member, src180, dist).map_values(
        |p: usize| Turn { copy: p, rotation: rotation_to(items[member.0 as int], !src180)->0 },
    )
}

/// The turns of a garment, piece type by piece type.
pub open spec fn garment_turns(
    copies: Seq<PlacedCopy>,
    items: Seq<ItemType>,
    members: Seq<(usize, usize)>,
    src180: bool,
    dist: Seq<F32>,
) -> Seq<Turn>
    decreases members.len(),
{
    if members.len() == 0 {
        Seq::empty()
    } else {
        garment_turns(copies, items, members.drop_last(), src180, dist) + member_turns(
            copies,
            items,
            members.last(),
            src180,
            dist,
        )
    }
}

/// Gathers one garment of group `gi` that faces `src180` from the copies nearest the anchor
/// (`dist` holds the distance of every copy to it), and lists the turns that flip it. There is
/// none if some piece type cannot take part.
pub fn flip_garment_at(
    copies: &Vec<PlacedCopy>,
    items: &Vec<ItemType>,
    spec: &GroupedOrientationSpec,
    gi: usize,
    src180: bool,
    dist: &Vec<F32>,
) -> (r: Option<Vec<Turn>>)
    requires
        copies_of_items(copies@, items@.len()),
        gi < spec.groups.len(),
        groups_usable(spec.groups@, items@.len()),
        dist.len() == copies.len(),
    ensures
        r is Some <==> garment_flips(
            copies@,
            items@,
            spec.groups@[gi as int].members@,
            src180,
        ),
        r matches Some(turns) ==> turns@ == garment_turns(
            copies@,
            items@,
            spec.groups@[gi as int].members@,
            src180,
            dist@,
        ),
        r matches Some(turns) ==> members_distinct(spec.groups@[gi as int].members@) ==> forall|
            i: int,
            q: usize,
        |
            0 <= i < turns.len() && q < copies.len() && copies[q as int].item_id
                == copies[(#[trigger] turns[i]).copy as int].item_id && copies[q as int].dir180
                == src180 && !(#[trigger] is_turned(turns@, q))
                ==> dist[turns[i].copy as int].total() <= dist[q as int].total(),
{
    let members = &spec.groups[gi].members;
    assert(members_usable(spec.groups@[gi as int].members@, items@.len()));
    let pool: Vec<Vec<usize>> = census(copies, items.len(), Some(src180));
    let mut ranks: Vec<i64> = Vec::new();
    while ranks.len() < dist.len()
        invariant
            ranks.len() <= dist.len(),
            forall|i: int| 0 <= i < ranks.len() ==> ranks[i] == dist[i].total(),
        decreases dist.len() - ranks.len(),
    {
        let next: usize = ranks.len();
        ranks.push(dist[next].total_rank());
    }
    assert(ranks@ =~= distance_ranks(dist@));
    let mut turns: Vec<Turn> = Vec::new();
    let mut m: usize = 0;
    assert(members@.take(0) =~= Seq::<(usize, usize)>::empty());
    while m < members.len()
        invariant
            m <= members.len(),
            members@ == spec.groups@[gi as int].members@,
            members_usable(members@, items@.len()),
            pool_of(pool@, copies@, items@.len(), Some(src180)),
            ranks@ == distance_ranks(dist@),
            dist.len() == copies.len(),
            forall|i: int|
                0 <= i < m ==> member_flips(copies@, items@, #[trigger] members@[i], src180),
            turns@ == garment_turns(copies@, items@, members@.take(m as int), src180, dist@),
        decreases members.len() - m,
    {
        let (id, per_garment) = members[m];
        assert(members@[m as int] == (id, per_garment));
        assert(pool@[id as int]@ == positions(copies@, id, Some(src180)));
        let rotation: usize = match find_rotation(&items[id], !src180) {
            Some(rotation) => rotation,
            None => {
                assert(!member_flips(copies@, items@, members@[m as int], src180));
                return None;
            },
        };
        if pool[id].len() < per_garment {
            assert(!member_flips(copies@, items@, members@[m as int], src180));
            return None;
        }
        proof {
            assert(copies.len() <= usize::MAX);
            lemma_positions(copies@, id, Some(src180));
            lemma_by_rank(positions(copies@, id, Some(src180)), ranks@);
            assert(members@.take(m + 1).drop_last() =~= members@.take(m as int));
            assert(members@.take(m + 1).last() == members@[m as int]);
        }
        let sorted: Vec<usize> = sort_by_rank(&pool[id], &ranks);
        let ghost before = turns@;
        let ghost whole = member_turns(copies@, items@, (id, per_garment), src180, dist@);
        assert(whole.len() == per_garment);
        let mut k: usize = 0;
        assert(turns@ =~= before + whole.take(0));
        while k < per_garment
            invariant
                k <= per_garment <= sorted.len(),
                whole.len() == per_garment,
                whole == member_turns(copies@, items@, (id, per_garment), src180, dist@),
                sorted@ == by_rank(
                    positions(copies@, id, Some(src180)),
                    distance_ranks(dist@),
                ),
                rotation_to(items[id as int], !src180) == Some(rotation),
                turns@ == before + whole.take(k as int),
            decreases per_garment - k,
        {
            let turn = Turn { copy: sorted[k], rotation };
            assert(whole[k as int] == turn);
            assert(whole.take(k + 1) =~= whole.take(k as int).push(turn));
            turns.push(turn);
            assert(turns@ =~= before + whole.take(k + 1));
            k = k + 1;
        }
        assert(whole.take(k as int) =~= whole);
        m = m + 1;
    }
    proof {
        assert(members@.take(m as int) =~= members@);
        if members_distinct(members@) {
            assert forall|i: int, q: usize|
                0 <= i < turns.len() && q < copies.len() && copies[q as int].item_id
                    == copies[(#[trigger] turns[i]).copy as int].item_id && copies[q as int].dir180
                    == src180 && !(#[trigger] is_turned(turns@, q)) implies dist[turns[i].copy as int].total()
                <= dist[q as int].total() by {
                assert(copies.len() <= usize::MAX);
                assert(is_turned(turns@, turns@[i].copy));
                lemma_flip_takes_nearest(
                    copies@,
                    items@,
                    members@,
                    src180,
                    dist@,
                    turns@[i].copy,
                    q,
                );
            }
        }
    }
    Some(turns)
}

/// Some turn turns copy `p`.
pub open spec fn is_turned(turns: Seq<Turn>, p: usize) -> bool {
    exists|i: int| 0 <= i < turns.len() && (#[trigger] turns[i]).copy == p
}

proof fn lemma_nearest_copies(
    copies: Seq<PlacedCopy>,
    member: (usize, usize),
    src180: bool,
    dist: Seq<F32>,
)
    requires
        copies.len() <= usize::MAX,
        facing(copies, member.0, src180) >= member.1,
    ensures
        ({
            let near = nearest_copies(copies, member, src180, dist);
            &&& near.len() == member.1
            &&& near.no_duplicates()
            &&& forall|p: usize| #[trigger]
                near.contains(p) ==> p < copies.len() && copies[p as int].item_id == member.0
                    && copies[p as int].dir180 == src180
        }),
{
    let ids = positions(copies, member.0, Some(src180));
    let ranks = distance_ranks(dist);
    lemma_positions(copies, member.0, Some(src180));
    lemma_by_rank(ids, ranks);
    lemma_by_rank_members(ids, ranks);
    let sorted = by_rank(ids, ranks);
    let near = nearest_copies(copies, member, src180, dist);
    assert forall|p: usize| #[trigger] near.contains(p) implies p < copies.len()
        && copies[p as int].item_id == member.0 && copies[p as int].dir180 == src180 by {
        let k = choose|k: int| 0 <= k < near.len() && near[k] == p;
        assert(sorted[k] == p);
        assert(sorted.contains(p));
        assert(ids.contains(p));
    }
}

/// Every turn turns a copy of a member from the source direction to the other.
spec fn turns_over(
    copies: Seq<PlacedCopy>,
    items: Seq<ItemType>,
    members: Seq<(usize, usize)>,
    src180: bool,
    turns: Seq<Turn>,
) -> bool {
    forall|i: int|
        0 <= i < turns.len() ==> {
            let p = (#[trigger] turns[i]).copy as int;
            &&& copies[p].dir180 == src180
            &&& turn_class(copies, items, turns[i]) == !src180
            &&& is_member(members, copies[p].item_id)
            &&& rotation_to(items[copies[p].item_id as int], !src180) == Some(turns[i].rotation)
        }
}

/// The copies of each member that are turned are its nearest ones.
spec fn turns_nearest(
    copies: Seq<PlacedCopy>,
    members: Seq<(usize, usize)>,
    src180: bool,
    dist: Seq<F32>,
    turns: Seq<Turn>,
) -> bool {
    forall|m: int, p: usize|
        0 <= m < members.len() ==> ((#[trigger] is_turned(turns, p) && copies[p as int].item_id == (
        #[trigger] members[m]).0) <==> nearest_copies(copies, members[m], src180, dist).contains(p))
}

/// What the turns of a garment turn: of every piece type its nearest copies, and nothing else.
proof fn lemma_garment_turns(
    copies: Seq<PlacedCopy>,
    items: Seq<ItemType>,
    members: Seq<(usize, usize)>,
    src180: bool,
    dist: Seq<F32>,
)
    requires
        copies.len() <= usize::MAX,
        copies_of_items(copies, items.len()),
        members_distinct(members),
        garment_flips(copies, items, members, src180),
    ensures
        turns_allowed(copies, items, garment_turns(copies, items, members, src180, dist)),
        turns_distinct(garment_turns(copies, items, members, src180, dist)),
        turns_over(
            copies,
            items,
            members,
            src180,
            garment_turns(copies, items, members, src180, dist),
        ),
        turns_nearest(
            copies,
            members,
            src180,
            dist,
            garment_turns(copies, items, members, src180, dist),
        ),
    decreases members.len(),
{
    let turns = garment_turns(copies, items, members, src180, dist);
    if members.len() > 0 {
        let shorter = members.drop_last();
        let last = members.len() - 1;
        let member = members[last];
        assert(forall|m: int| 0 <= m < last ==> shorter[m] == members[m]);
        assert(members_distinct(shorter));
        assert forall|m: int| 0 <= m < shorter.len() implies member_flips(
            copies,
            items,
            #[trigger] shorter[m],
            src180,
        ) by {
            assert(member_flips(copies, items, members[m], src180));
        }
        lemma_garment_turns(copies, items, shorter, src180, dist);
        assert(member_flips(copies, items, member, src180));
        lemma_nearest_copies(copies, member, src180, dist);
        lemma_rotation_to(items[member.0 as int], !src180);
        let before = garment_turns(copies, items, shorter, src180, dist);
        let near = nearest_copies(copies, member, src180, dist);
        let more = member_turns(copies, items, member, src180, dist);
        let n = before.len();
        assert(turns =~= before + more);
        assert(more.len() == near.len());
        assert(forall|i: int| 0 <= i < n ==> turns[i] == before[i]);
        assert(forall|i: int| n <= i < turns.len() ==> turns[i] == more[i - n]);
        assert(forall|k: int| 0 <= k < more.len() ==> (#[trigger] more[k]).copy == near[k]);
        assert(!is_member(shorter, member.0)) by {
            if is_member(shorter, member.0) {
                let m = choose|m: int|
                    0 <= m < shorter.len() && (#[trigger] shorter[m]).0 == member.0;
                assert(members[m].0 != members[last].0);
            }
        }
        assert forall|k: int| 0 <= k < more.len() implies {
            let p = (#[trigger] more[k]).copy as int;
            &&& p < copies.len()
            &&& copies[p].item_id == member.0
            &&& copies[p].dir180 == src180
            &&& turn_allowed(copies, items, more[k])
            &&& turn_class(copies, items, more[k]) == !src180
        } by {
            assert(near.contains(near[k]));
        }
        assert forall|i: int| 0 <= i < turns.len() implies {
            let p = (#[trigger] turns[i]).copy as int;
            &&& copies[p].dir180 == src180
            &&& turn_class(copies, items, turns[i]) == !src180
            &&& is_member(members, copies[p].item_id)
            &&& turn_allowed(copies, items, turns[i])
            &&& rotation_to(items[copies[p].item_id as int], !src180) == Some(turns[i].rotation)
        } by {
            if i < n {
                let t = before[i];
                assert(turn_allowed(copies, items, t));
                let id = copies[t.copy as int].item_id;
                let m = choose|m: int| 0 <= m < shorter.len() && (#[trigger] shorter[m]).0 == id;
                assert(members[m].0 == id);
            } else {
                assert(more[i - n] == turns[i]);
                assert(members[last].0 == member.0);
            }
        }
        assert forall|i: int, j: int|
            0 <= i < turns.len() && 0 <= j < turns.len() && i != j implies (#[trigger] turns[i]).copy
            != (#[trigger] turns[j]).copy by {
            if i < n && j < n {
                assert(before[i].copy != before[j].copy);
            } else if i >= n && j >= n {
                assert(more[i - n].copy == near[i - n]);
                assert(more[j - n].copy == near[j - n]);
            } else if i < n {
                assert(is_member(shorter, copies[before[i].copy as int].item_id));
                assert(copies[more[j - n].copy as int].item_id == member.0);
            } else {
                assert(is_member(shorter, copies[before[j].copy as int].item_id));
                assert(copies[more[i - n].copy as int].item_id == member.0);
            }
        }
        assert forall|p: usize| #[trigger] is_turned(turns, p) <==> is_turned(before, p)
            || near.contains(p) by {
            if is_turned(turns, p) {
                let i = choose|i: int| 0 <= i < turns.len() && (#[trigger] turns[i]).copy == p;
                if i < n {
                    assert(before[i].copy == p);
                } else {
                    assert(more[i - n].copy == near[i - n]);
                }
            }
            if is_turned(before, p) {
                let i = choose|i: int| 0 <= i < before.len() && (#[trigger] before[i]).copy == p;
                assert(turns[i].copy == p);
            }
            if near.contains(p) {
                let k = choose|k: int| 0 <= k < near.len() && near[k] == p;
                assert(more[k].copy == p);
                assert(turns[n + k].copy == p);
            }
        }
        assert forall|p: usize| #[trigger] is_turned(before, p) implies is_member(
            shorter,
            copies[p as int].item_id,
        ) by {
            let i = choose|i: int| 0 <= i < before.len() && (#[trigger] before[i]).copy == p;
            assert(is_member(shorter, copies[before[i].copy as int].item_id));
        }
        lemma_one_more_member(copies, members, src180, dist, before, turns);
    }
}

/// What holds of the turns of the earlier members holds with those of the last one added.
proof fn lemma_one_more_member(
    copies: Seq<PlacedCopy>,
    members: Seq<(usize, usize)>,
    src180: bool,
    dist: Seq<F32>,
    before: Seq<Turn>,
    turns: Seq<Turn>,
)
    requires
        copies.len() <= usize::MAX,
        members.len() > 0,
        members_distinct(members),
        facing(copies, members.last().0, src180) >= members.last().1,
        turns_nearest(copies, members.drop_last(), src180, dist, before),
        forall|p: usize| #[trigger]
            is_turned(before, p) ==> is_member(members.drop_last(), copies[p as int].item_id),
        forall|p: usize| #[trigger]
            is_turned(turns, p) <==> is_turned(before, p) || nearest_copies(
                copies,
                members.last(),
                src180,
                dist,
            ).contains(p),
    ensures
        turns_nearest(copies, members, src180, dist, turns),
{
    let shorter = members.drop_last();
    let last = members.len() - 1;
    let member = members[last];
    let near = nearest_copies(copies, member, src180, dist);
    assert(members.last() == member);
    lemma_nearest_copies(copies, member, src180, dist);
    assert forall|p: usize| #[trigger] is_turned(before, p) implies copies[p as int].item_id
        != member.0 by {
        let id = copies[p as int].item_id;
        let m = choose|m: int| 0 <= m < shorter.len() && (#[trigger] shorter[m]).0 == id;
        assert(members[m] == shorter[m]);
        assert(members[m].0 != members[last].0);
    }
    assert forall|p: usize|
        #[trigger] is_turned(turns, p) && copies[p as int].item_id == member.0 <==> near.contains(
            p,
        ) by {
        if near.contains(p) {
            assert(copies[p as int].item_id == member.0);
        } else {
            assert(is_turned(turns, p) ==> is_turned(before, p));
        }
    }
    assert forall|m: int, p: usize| 0 <= m < last implies (#[trigger] is_turned(turns, p)
        && copies[p as int].item_id == (#[trigger] members[m]).0 <==> nearest_copies(
        copies,
        members[m],
        src180,
        dist,
    ).contains(p)) by {
        assert(members[m] == shorter[m]);
        assert(members[m].0 != members[last].0);
        assert(is_turned(before, p) && copies[p as int].item_id == shorter[m].0
            <==> nearest_copies(copies, shorter[m], src180, dist).contains(p));
        if copies[p as int].item_id == members[m].0 {
            assert(!near.contains(p));
            assert(is_turned(turns, p) <==> is_turned(before, p));
        }
    }
}

/// A garment is gathered from the copies nearest the anchor: of every piece type, each copy that
/// is turned is no farther from the anchor than any copy that faces the same way and is left
/// where it is, and of two at the same distance the one placed first is turned.
pub proof fn lemma_flip_takes_nearest(
    copies: Seq<PlacedCopy>,
    items: Seq<ItemType>,
    members: Seq<(usize, usize)>,
    src180: bool,
    dist: Seq<F32>,
    p: usize,
    q: usize,
)
    requires
        copies.len() <= usize::MAX,
        copies_of_items(copies, items.len()),
        dist.len() == copies.len(),
        members_distinct(members),
        garment_flips(copies, items, members, src180),
        is_turned(garment_turns(copies, items, members, src180, dist), p),
        q < copies.len(),
        copies[q as int].item_id == copies[p as int].item_id,
        copies[q as int].dir180 == src180,
        !is_turned(garment_turns(copies, items, members, src180, dist), q),
    ensures
        p < copies.len(),
        dist[p as int].total() <= dist[q as int].total(),
        dist[p as int].total() == dist[q as int].total() ==> p < q,
        !dist[p as int].nan() && !dist[q as int].nan() ==> dist[p as int].rank()
            <= dist[q as int].rank(),
{
    let turns = garment_turns(copies, items, members, src180, dist);
    lemma_garment_turns(copies, items, members, src180, dist);
    let i = choose|i: int| 0 <= i < turns.len() && (#[trigger] turns[i]).copy == p;
    assert(turn_allowed(copies, items, turns[i]));
    let id = copies[turns[i].copy as int].item_id;
    assert(is_member(members, id));
    let m = choose|m: int| 0 <= m < members.len() && (#[trigger] members[m]).0 == id;
    let ids = positions(copies, id, Some(src180));
    let ranks = distance_ranks(dist);
    let sorted = by_rank(ids, ranks);
    let near = nearest_copies(copies, members[m], src180, dist);
    assert(member_flips(copies, items, members[m], src180));
    lemma_positions(copies, id, Some(src180));
    lemma_by_rank(ids, ranks);
    lemma_by_rank_members(ids, ranks);
    assert(near.contains(p));
    assert(!near.contains(q));
    let a = choose|a: int| 0 <= a < near.len() && near[a] == p;
    assert(sorted[a] == p);
    assert(ids.contains(q));
    assert(sorted.contains(q));
    let b = choose|b: int| 0 <= b < sorted.len() && sorted[b] == q;
    if b < near.len() {
        assert(near[b] == q);
    }
    lemma_ranks_rise(ids, ranks, a, b);
    assert(ranks[p as int] == dist[p as int].total());
    assert(ranks[q as int] == dist[q as int].total());
}

/// The turns of a flip come piece type by piece type, as the group lists them, and of each piece
/// type from the nearest copy to the farthest.
pub proof fn lemma_flip_turns_in_order(
    copies: Seq<PlacedCopy>,
    items: Seq<ItemType>,
    members: Seq<(usize, usize)>,
    src180: bool,
    dist: Seq<F32>,
    i: int,
    j: int,
    m: int,
    n: int,
)
    requires
        copies.len() <= usize::MAX,
        copies_of_items(copies, items.len()),
        dist.len() == copies.len(),
        members_distinct(members),
        garment_flips(copies, items, members, src180),
        0 <= i < j < garment_turns(copies, items, members, src180, dist).len(),
        0 <= m < members.len(),
        0 <= n < members.len(),
        copies[garment_turns(copies, items, members, src180, dist)[i].copy as int].item_id
            == members[m].0,
        copies[garment_turns(copies, items, members, src180, dist)[j].copy as int].item_id
            == members[n].0,
    ensures
        m <= n,
        m == n ==> dist[garment_turns(copies, items, members, src180, dist)[i].copy as int].total()
            <= dist[garment_turns(copies, items, members, src180, dist)[j].copy as int].total(),
    decreases members.len(),
{
    let turns = garment_turns(copies, items, members, src180, dist);
    let shorter = members.drop_last();
    let last = members.len() - 1;
    let member = members[last];
    assert(forall|k: int| 0 <= k < last ==> shorter[k] == members[k]);
    assert(members_distinct(shorter));
    assert forall|k: int| 0 <= k < shorter.len() implies member_flips(
        copies,
        items,
        #[trigger] shorter[k],
        src180,
    ) by {
        assert(member_flips(copies, items, members[k], src180));
    }
    let before = garment_turns(copies, items, shorter, src180, dist);
    let more = member_turns(copies, items, member, src180, dist);
    let near = nearest_copies(copies, member, src180, dist);
    assert(turns =~= before + more);
    lemma_garment_turns(copies, items, shorter, src180, dist);
    assert(member_flips(copies, items, member, src180));
    lemma_nearest_copies(copies, member, src180, dist);
    // a turn of an earlier piece type is not one of the last
    assert forall|k: int, e: int|
        0 <= k < before.len() && 0 <= e < members.len() && copies[(
        #[trigger] before[k]).copy as int].item_id == (#[trigger] members[e]).0 implies e < last by {
        assert(is_member(shorter, copies[before[k].copy as int].item_id));
        let f = choose|f: int|
            0 <= f < shorter.len() && (#[trigger] shorter[f]).0
                == copies[before[k].copy as int].item_id;
        if e == last {
            assert(members[f].0 != members[last].0);
        }
    }
    if j < before.len() {
        assert(turns[i] == before[i] && turns[j] == before[j]);
        assert(copies[before[i].copy as int].item_id == members[m].0);
        assert(copies[before[j].copy as int].item_id == members[n].0);
        lemma_flip_turns_in_order(copies, items, shorter, src180, dist, i, j, m, n);
    } else {
        let b = j - before.len();
        assert(turns[j] == more[b]);
        assert(more[b].copy == near[b]);
        assert(near.contains(near[b]));
        if n != last {
            assert(members[n].0 != members[last].0);
        }
        if i < before.len() {
            assert(turns[i] == before[i]);
            assert(copies[before[i].copy as int].item_id == members[m].0);
        } else {
            let a = i - before.len();
            assert(turns[i] == more[a]);
            assert(more[a].copy == near[a]);
            assert(near.contains(near[a]));
            if m != last {
                assert(members[m].0 != members[last].0);
            }
            let ids = positions(copies, member.0, Some(src180));
            let ranks = distance_ranks(dist);
            lemma_by_rank(ids, ranks);
            lemma_ranks_rise(ids, ranks, a, b);
            assert(ranks[near[a] as int] == dist[near[a] as int].total());
            assert(ranks[near[b] as int] == dist[near[b] as int].total());
        }
    }
}

/// What a flip turns: copies of the group's piece types that face the source direction, of each
/// piece type as many as one garment takes, and each to the first allowed rotation of the other
/// class.
pub proof fn lemma_flip_turns_a_garment(
    copies: Seq<PlacedCopy>,
    items: Seq<ItemType>,
    members: Seq<(usize, usize)>,
    src180: bool,
    dist: Seq<F32>,
)
    requires
        copies.len() <= usize::MAX,
        copies_of_items(copies, items.len()),
        members_distinct(members),
        garment_flips(copies, items, members, src180),
    ensures
        forall|i: int|
            #![trigger garment_turns(copies, items, members, src180, dist)[i]]
            0 <= i < garment_turns(copies, items, members, src180, dist).len() ==> {
                let t = garment_turns(copies, items, members, src180, dist)[i];
                let rotations = items[copies[t.copy as int].item_id as int].rotations;
                &&& t.copy < copies.len()
                &&& copies[t.copy as int].dir180 == src180
                &&& exists|m: int|
                    0 <= m < members.len() && (#[trigger] members[m]).0
                        == copies[t.copy as int].item_id
                &&& rotations is Some
                &&& t.rotation < rotations->0@.len()
                &&& rotations->0@[t.rotation as int] == !src180
                &&& forall|j: int| 0 <= j < t.rotation ==> rotations->0@[j] == src180
            },
        forall|m: int|
            0 <= m < members.len() ==> Set::new(
                |p: usize|
                    is_turned(garment_turns(copies, items, members, src180, dist), p)
                        && copies[p as int].item_id == (#[trigger] members[m]).0,
            ).len() == members[m].1,
        turns_distinct(garment_turns(copies, items, members, src180, dist)),
{
    let turns = garment_turns(copies, items, members, src180, dist);
    lemma_garment_turns(copies, items, members, src180, dist);
    assert forall|i: int| 0 <= i < turns.len() implies {
        let t = #[trigger] turns[i];
        let rotations = items[copies[t.copy as int].item_id as int].rotations;
        &&& t.copy < copies.len()
        &&& copies[t.copy as int].dir180 == src180
        &&& exists|m: int|
            0 <= m < members.len() && (#[trigger] members[m]).0 == copies[t.copy as int].item_id
        &&& rotations is Some
        &&& t.rotation < rotations->0@.len()
        &&& rotations->0@[t.rotation as int] == !src180
        &&& forall|j: int| 0 <= j < t.rotation ==> rotations->0@[j] == src180
    } by {
        let t = turns[i];
        assert(turn_allowed(copies, items, t));
        assert(is_member(members, copies[t.copy as int].item_id));
        lemma_rotation_to(items[copies[t.copy as int].item_id as int], !src180);
    }
    assert forall|m: int| 0 <= m < members.len() implies Set::new(
        |p: usize| is_turned(turns, p) && copies[p as int].item_id == (#[trigger] members[m]).0,
    ).len() == members[m].1 by {
        let near = nearest_copies(copies, members[m], src180, dist);
        assert(member_flips(copies, items, members[m], src180));
        lemma_nearest_copies(copies, members[m], src180, dist);
        near.unique_seq_to_set();
        assert(near.to_set() =~= Set::new(
            |p: usize| is_turned(turns, p) && copies[p as int].item_id == members[m].0,
        ));
    }
}

/// A garment can be flipped exactly if every piece type has an allowed rotation of the other
/// class, and as many copies that face the source direction as a garment takes.
pub proof fn lemma_garment_flips(
    copies: Seq<PlacedCopy>,
    items: Seq<ItemType>,
    members: Seq<(usize, usize)>,
    src180: bool,
)
    requires
        copies.len() <= usize::MAX,
    ensures
        garment_flips(copies, items, members, src180) <==> forall|m: int|
            0 <= m < members.len() ==> {
                let (id, per_garment) = #[trigger] members[m];
                &&& items[id as int].rotations is Some
                &&& items[id as int].rotations->0@.contains(!src180)
                &&& Set::new(
                    |p: usize|
                        p < copies.len() && copies[p as int].item_id == id
                            && copies[p as int].dir180 == src180,
                ).len() >= per_garment
            },
{
    assert forall|m: int| 0 <= m < members.len() implies (member_flips(
        copies,
        items,
        #[trigger] members[m],
        src180,
    ) <==> {
        let (id, per_garment) = members[m];
        &&& items[id as int].rotations is Some
        &&& items[id as int].rotations->0@.contains(!src180)
        &&& Set::new(
            |p: usize|
                p < copies.len() && copies[p as int].item_id == id && copies[p as int].dir180
                    == src180,
        ).len() >= per_garment
    }) by {
        lemma_rotation_to(items[members[m].0 as int], !src180);
        lemma_facing(copies, members[m].0, src180);
    }
    if garment_flips(copies, items, members, src180) {
        assert forall|m: int| 0 <= m < members.len() implies {
            let (id, per_garment) = #[trigger] members[m];
            &&& items[id as int].rotations is Some
            &&& items[id as int].rotations->0@.contains(!src180)
            &&& Set::new(
                |p: usize|
                    p < copies.len() && copies[p as int].item_id == id && copies[p as int].dir180
                        == src180,
            ).len() >= per_garment
        } by {
            assert(member_flips(copies, items, members[m], src180));
        }
    }
}

/// The candidates for a flip: a group is listed with 0 degrees exactly if one garment's worth of
/// its first piece type faces 0, and with 180 degrees exactly if fewer copies of that piece type
/// face 0 than all garments of the group take.
pub proof fn lemma_candidates(copies: Seq<PlacedCopy>, groups: Seq<OrientationGroup>, g: usize)
    requires
        g < groups.len() <= usize::MAX,
        groups[g as int].members@.len() > 0,
        groups[g as int].members@[0].1 > 0,
    ensures
        candidates(copies, groups, groups.len()).contains((g, false)) <==> facing(
            copies,
            groups[g as int].members@[0].0,
            false,
        ) >= groups[g as int].members@[0].1,
        candidates(copies, groups, groups.len()).contains((g, true)) <==> facing(
            copies,
            groups[g as int].members@[0].0,
            false,
        ) < groups[g as int].quantity * groups[g as int].members@[0].1,
{
    let group = groups[g as int];
    let n = facing(copies, group.members@[0].0, false);
    let per_garment = group.members@[0].1 as nat;
    let n0 = garments_at0(copies, group);
    assert(n0 == n / per_garment);
    assert((n0 >= 1) == (n >= per_garment)) by (nonlinear_arith)
        requires
            n0 == n / per_garment,
            per_garment > 0,
    ;
    let quantity = group.quantity as nat;
    assert((quantity > n0) == (n < quantity * per_garment)) by (nonlinear_arith)
        requires
            n0 == n / per_garment,
            per_garment > 0,
    ;
    lemma_candidate_groups(copies, groups, groups.len());
    lemma_candidates_listed(copies, groups, groups.len(), g);
    let own = group_candidates(copies, group, g);
    assert(own.contains((g, false)) <==> n0 >= 1) by {
        if n0 >= 1 {
            assert(own[0] == (g, false));
        }
    }
    assert(own.contains((g, true)) <==> quantity > n0) by {
        if quantity > n0 {
            assert(own[own.len() - 1] == (g, true));
        }
    }
}

/// The candidates come group by group, a group at 0 degrees before the same at 180, and none
/// twice.
pub proof fn lemma_candidates_in_order(
    copies: Seq<PlacedCopy>,
    groups: Seq<OrientationGroup>,
    n: nat,
    i: int,
    j: int,
)
    requires
        n <= groups.len() <= usize::MAX,
        0 <= i < j < candidates(copies, groups, n).len(),
    ensures
        ({
            let (a, b) = (candidates(copies, groups, n)[i], candidates(copies, groups, n)[j]);
            a.0 < b.0 || (a.0 == b.0 && !a.1 && b.1)
        }),
    decreases n,
{
    let k = (n - 1) as nat;
    let before = candidates(copies, groups, k);
    let more = group_candidates(copies, groups[k as int], k as usize);
    let all = candidates(copies, groups, n);
    lemma_candidate_groups(copies, groups, k);
    if j < before.len() {
        lemma_candidates_in_order(copies, groups, k, i, j);
        assert(all[i] == before[i] && all[j] == before[j]);
    } else {
        assert(all[j] == more[j - before.len()]);
        if i < before.len() {
            assert(all[i] == before[i]);
            assert(before.contains(before[i]));
        } else {
            assert(all[i] == more[i - before.len()]);
        }
    }
}

/// Of a consistent layout the candidates are the directions that some garment of the group faces.
pub proof fn lemma_candidates_face(
    copies: Seq<PlacedCopy>,
    groups: Seq<OrientationGroup>,
    g: usize,
    turned: int,
)
    requires
        g < groups.len() <= usize::MAX,
        groups[g as int].members@.len() > 0,
        groups[g as int].members@[0].1 > 0,
        garments_turned(copies, groups[g as int], turned),
    ensures
        candidates(copies, groups, groups.len()).contains((g, false)) <==> turned
            < groups[g as int].quantity,
        candidates(copies, groups, groups.len()).contains((g, true)) <==> turned > 0,
{
    lemma_candidates(copies, groups, g);
    let per_garment = groups[g as int].members@[0].1 as int;
    let quantity = groups[g as int].quantity as int;
    assert(((quantity - turned) * per_garment >= per_garment) == (turned < quantity))
        by (nonlinear_arith)
        requires
            per_garment > 0,
    ;
    assert(((quantity - turned) * per_garment < quantity * per_garment) == (turned > 0))
        by (nonlinear_arith)
        requires
            per_garment > 0,
    ;
}

proof fn lemma_candidates_listed(
    copies: Seq<PlacedCopy>,
    groups: Seq<OrientationGroup>,
    n: nat,
    g: usize,
)
    requires
        g < n <= groups.len() <= usize::MAX,
    ensures
        forall|c: (usize, bool)|
            #![trigger candidates(copies, groups, n).contains(c)]
            group_candidates(copies, groups[g as int], g).contains(c) ==> candidates(
                copies,
                groups,
                n,
            ).contains(c),
    decreases n,
{
    let k = (n - 1) as nat;
    let before = candidates(copies, groups, k);
    let more = group_candidates(copies, groups[k as int], k as usize);
    let all = candidates(copies, groups, n);
    if g < k {
        lemma_candidates_listed(copies, groups, k, g);
    }
    assert forall|c: (usize, bool)| group_candidates(copies, groups[g as int], g).contains(
        c,
    ) implies #[trigger] all.contains(c) by {
        if g < k {
            assert(before.contains(c));
            let i = choose|i: int| 0 <= i < before.len() && before[i] == c;
            assert(all[i] == c);
        } else {
            let i = choose|i: int| 0 <= i < more.len() && more[i] == c;
            assert(all[before.len() + i] == c);
        }
    }
}

/// A garment is gathered around a copy of the group's largest piece type: an anchor faces the
/// source direction, and no piece type of the group is larger than its own. Among piece types of
/// the same size the last one listed provides the anchors, all of its copies that face that way.
pub proof fn lemma_anchors_largest(
    copies: Seq<PlacedCopy>,
    items: Seq<ItemType>,
    group: OrientationGroup,
    src180: bool,
)
    requires
        copies.len() <= usize::MAX,
        group.members@.len() > 0,
    ensures
        forall|m: int, p: usize|
            #![trigger group.members@[m], anchors(copies, items, group, src180).contains(p)]
            0 <= m < group.members@.len() && (forall|j: int|
                0 <= j < group.members@.len() ==> items[(
                #[trigger] group.members@[j]).0 as int].area.total()
                    <= items[group.members@[m].0 as int].area.total()) && (forall|j: int|
                m < j < group.members@.len() ==> items[(
                #[trigger] group.members@[j]).0 as int].area.total()
                    != items[group.members@[m].0 as int].area.total()) ==> (anchors(
                copies,
                items,
                group,
                src180,
            ).contains(p) <==> p < copies.len() && copies[p as int].item_id == group.members@[m].0
                && copies[p as int].dir180 == src180),
        forall|m: int, p: usize|
            #![trigger group.members@[m], anchors(copies, items, group, src180).contains(p)]
            0 <= m < group.members@.len() && anchors(copies, items, group, src180).contains(p)
                ==> items[group.members@[m].0 as int].area.total()
                <= items[copies[p as int].item_id as int].area.total(),
{
    let members = group.members@;
    lemma_largest_exists(items, members, members.len());
    assert(members.take(members.len() as int) =~= members);
    let i = choose|i: int| is_largest(items, members, i);
    lemma_positions(copies, members[i].0, Some(src180));
    assert forall|m: int|
        0 <= m < members.len() && (forall|j: int|
            0 <= j < members.len() ==> items[(#[trigger] members[j]).0 as int].area.total()
                <= items[members[m].0 as int].area.total()) && (forall|j: int|
            m < j < members.len() ==> items[(#[trigger] members[j]).0 as int].area.total()
                != items[members[m].0 as int].area.total()) implies #[trigger] members[m]
        == members[i] by {
        assert(items[members[i].0 as int].area.total() <= items[members[m].0 as int].area.total());
        assert(items[members[m].0 as int].area.total() <= items[members[i].0 as int].area.total());
    }
}

/// A flip event: garments are flipped one after the other, as many as one event takes.
#[derive(Debug)]
pub struct FlipEvent {
    attempts_left: usize,
    n_flipped: usize,
}

/// [`FlipEvent`] in numbers.
#[verifier::ext_equal]
pub struct FlipEventView {
    pub attempts_left: nat,
    pub n_flipped: nat,
}

impl View for FlipEvent {
    type V = FlipEventView;

    closed spec fn view(&self) -> FlipEventView {
        FlipEventView { attempts_left: self.attempts_left as nat, n_flipped: self.n_flipped as nat }
    }
}

impl FlipEventView {
    /// The attempts that are left and the garments flipped stay within the machine's range.
    pub open spec fn wf(self) -> bool {
        self.attempts_left + self.n_flipped <= usize::MAX
    }

    /// The event after one more attempt.
    pub open spec fn flipped(self, ok: bool) -> FlipEventView {
        FlipEventView {
            attempts_left: (self.attempts_left - 1) as nat,
            n_flipped: if ok {
                self.n_flipped + 1
            } else {
                self.n_flipped
            },
        }
    }

    /// The event after a number of attempts.
    pub open spec fn after(self, oks: Seq<bool>) -> FlipEventView
        decreases oks.len(),
    {
        if oks.len() == 0 {
            self
        } else {
            self.after(oks.drop_last()).flipped(oks.last())
        }
    }
}

impl FlipEvent {
    /// An event before its first attempt.
    pub fn start(flip: &GroupFlipConfig) -> (r: FlipEvent)
        ensures
            r@ == (FlipEventView { attempts_left: flip.n_garments_per_flip as nat, n_flipped: 0 }),
            r@.wf(),
    {
        FlipEvent { attempts_left: flip.n_garments_per_flip, n_flipped: 0 }
    }

    /// Whether another garment is to be flipped.
    pub fn goes_on(&self) -> (r: bool)
        ensures
            r == (self@.attempts_left > 0),
    {
        self.attempts_left > 0
    }

    /// Takes in whether the garment tried was flipped.
    pub fn flipped(&mut self, ok: bool)
        requires
            old(self)@.wf(),
            old(self)@.attempts_left > 0,
        ensures
            final(self)@ == old(self)@.flipped(ok),
            final(self)@.wf(),
    {
        self.attempts_left = self.attempts_left - 1;
        if ok {
            self.n_flipped = self.n_flipped + 1;
        }
    }

    /// What the event came to: it succeeded if at least one garment was flipped. `flip_loss` is
    /// the loss that flips have injected so far.
    pub fn result(&self, flip_loss: F32) -> (r: Option<Flipped>)
        ensures
            r is Some <==> self@.n_flipped > 0,
            r matches Some(f) ==> f.n == self@.n_flipped && f.flip_loss == flip_loss,
    {
        if self.n_flipped > 0 {
            Some(Flipped { n: self.n_flipped, flip_loss })
        } else {
            None
        }
    }
}

/// How many of the attempts succeeded.
pub open spec fn n_ok(oks: Seq<bool>) -> nat
    decreases oks.len(),
{
    if oks.len() == 0 {
        0
    } else {
        n_ok(oks.drop_last()) + if oks.last() {
            1nat
        } else {
            0nat
        }
    }
}

/// A flip event makes as many attempts as garments are flipped per event, and flips one garment
/// for each that succeeds: it comes to something if and only if one does.
pub proof fn lemma_flip_event(v: FlipEventView, oks: Seq<bool>)
    requires
        v.n_flipped == 0,
        oks.len() <= v.attempts_left,
    ensures
        v.after(oks).attempts_left == v.attempts_left - oks.len(),
        v.after(oks).n_flipped == n_ok(oks),
        v.after(oks).n_flipped == oks.filter(|ok: bool| ok).len(),
        v.after(oks).n_flipped > 0 <==> oks.contains(true),
    decreases oks.len(),
{
    reveal(Seq::filter);
    if oks.len() > 0 {
        let shorter = oks.drop_last();
        lemma_flip_event(v, shorter);
        if shorter.contains(true) {
            let k = choose|k: int| 0 <= k < shorter.len() && shorter[k] == true;
            assert(oks[k] == true);
        }
        if oks.contains(true) && !oks.last() {
            let k = choose|k: int| 0 <= k < oks.len() && oks[k] == true;
            assert(shorter[k] == true);
        }
        assert(oks[oks.len() - 1] == oks.last());
    }
}

/// Turning some copies of an item over moves them from one direction's count to the other's.
proof fn lemma_turn_counts(
    copies: Seq<PlacedCopy>,
    items: Seq<ItemType>,
    turns: Seq<Turn>,
    src180: bool,
    id: usize,
    moved: Seq<usize>,
)
    requires
        copies.len() <= usize::MAX,
        turns_allowed(copies, items, turns),
        turns_distinct(turns),
        forall|i: int|
            0 <= i < turns.len() ==> copies[(#[trigger] turns[i]).copy as int].dir180 == src180
                && turn_class(copies, items, turns[i]) == !src180,
        moved.no_duplicates(),
        forall|p: usize| #[trigger]
            moved.contains(p) <==> is_turned(turns, p) && copies[p as int].item_id == id,
    ensures
        facing(after_turns(copies, items, turns), id, src180) == facing(copies, id, src180)
            - moved.len(),
        facing(after_turns(copies, items, turns), id, !src180) == facing(copies, id, !src180)
            + moved.len(),
{
    let after = after_turns(copies, items, turns);
    lemma_after_turns(copies, items, turns);
    lemma_positions(copies, id, Some(src180));
    lemma_positions(copies, id, Some(!src180));
    lemma_positions(after, id, Some(src180));
    lemma_positions(after, id, Some(!src180));
    let from = positions(copies, id, Some(src180));
    let to = positions(copies, id, Some(!src180));
    let left = positions(after, id, Some(src180));
    let came = positions(after, id, Some(!src180));
    assert forall|p: usize| p < copies.len() implies #[trigger] after[p as int].item_id
        == copies[p as int].item_id && after[p as int].dir180 == (if is_turned(turns, p) {
        !src180
    } else {
        copies[p as int].dir180
    }) && (is_turned(turns, p) ==> copies[p as int].dir180 == src180) by {
        if is_turned(turns, p) {
            let i = choose|i: int| 0 <= i < turns.len() && (#[trigger] turns[i]).copy == p;
            assert(after[turns[i].copy as int].dir180 == turn_class(copies, items, turns[i]));
        } else {
            assert(forall|k: int| 0 <= k < turns.len() ==> (#[trigger] turns[k]).copy != p);
        }
    }
    assert forall|p: usize| moved.contains(p) implies p < copies.len() by {
        let i = choose|i: int| 0 <= i < turns.len() && (#[trigger] turns[i]).copy == p;
        assert(turn_allowed(copies, items, turns[i]));
    }
    from.unique_seq_to_set();
    to.unique_seq_to_set();
    left.unique_seq_to_set();
    came.unique_seq_to_set();
    moved.unique_seq_to_set();
    assert(from.to_set() =~= left.to_set().union(moved.to_set())) by {
        assert forall|p: usize| from.to_set().contains(p) <==> left.to_set().union(
            moved.to_set(),
        ).contains(p) by {
            assert(from.contains(p) <==> p < copies.len() && selected(
                copies[p as int],
                id,
                Some(src180),
            ));
            assert(left.contains(p) <==> p < copies.len() && selected(
                after[p as int],
                id,
                Some(src180),
            ));
            assert(moved.contains(p) <==> is_turned(turns, p) && copies[p as int].item_id == id);
        }
    }
    assert(left.to_set().disjoint(moved.to_set())) by {
        assert forall|p: usize| !(left.to_set().contains(p) && moved.to_set().contains(p)) by {
            if left.contains(p) && moved.contains(p) {
                assert(after[p as int].dir180 == !src180);
            }
        }
    }
    lemma_set_disjoint_lens(left.to_set(), moved.to_set());
    assert(came.to_set() =~= to.to_set().union(moved.to_set())) by {
        assert forall|p: usize| came.to_set().contains(p) <==> to.to_set().union(
            moved.to_set(),
        ).contains(p) by {
            assert(to.contains(p) <==> p < copies.len() && selected(
                copies[p as int],
                id,
                Some(!src180),
            ));
            assert(came.contains(p) <==> p < copies.len() && selected(
                after[p as int],
                id,
                Some(!src180),
            ));
            assert(moved.contains(p) <==> is_turned(turns, p) && copies[p as int].item_id == id);
        }
    }
    assert(to.to_set().disjoint(moved.to_set())) by {
        assert forall|p: usize| !(to.to_set().contains(p) && moved.to_set().contains(p)) by {
            if to.contains(p) && moved.contains(p) {
                assert(after[p as int].dir180 == !src180);
            }
        }
    }
    lemma_set_disjoint_lens(to.to_set(), moved.to_set());
}

/// A flip turns exactly one garment of its group over, and leaves every other group as it is:
/// where `turned` garments of the group faced 180 degrees there is afterwards one more, or one
/// fewer if that is where the garment came from.
pub proof fn lemma_flip_turns_one_garment(
    copies: Seq<PlacedCopy>,
    items: Seq<ItemType>,
    spec: GroupedOrientationSpec,
    gi: int,
    src180: bool,
    dist: Seq<F32>,
    turned: int,
)
    requires
        copies.len() <= usize::MAX,
        spec.fits(items),
        copies_of_items(copies, items.len()),
        0 <= gi < spec.groups@.len(),
        garment_flips(copies, items, spec.groups@[gi].members@, src180),
        garments_turned(copies, spec.groups@[gi], turned),
    ensures
        ({
            let after = after_turns(
                copies,
                items,
                garment_turns(copies, items, spec.groups@[gi].members@, src180, dist),
            );
            &&& garments_turned(
                after,
                spec.groups@[gi],
                if src180 {
                    turned - 1
                } else {
                    turned + 1
                },
            )
            &&& forall|h: int, other: int|
                0 <= h < spec.groups@.len() && h != gi && garments_turned(
                    copies,
                    #[trigger] spec.groups@[h],
                    other,
                ) ==> #[trigger] garments_turned(after, spec.groups@[h], other)
        }),
{
    let groups = spec.groups@;
    let group = groups[gi];
    let members = group.members@;
    lemma_fits_disjoint(spec, items);
    lemma_fits_distinct(spec, items, gi);
    lemma_garment_turns(copies, items, members, src180, dist);
    let turns = garment_turns(copies, items, members, src180, dist);
    let after = after_turns(copies, items, turns);
    let now = if src180 {
        turned - 1
    } else {
        turned + 1
    };
    assert(0 <= now <= group.quantity) by {
        let (id, per_garment) = members[0];
        assert(member_flips(copies, items, members[0], src180));
        assert(facing(copies, id, true) == turned * per_garment);
        assert(facing(copies, id, false) == (group.quantity - turned) * per_garment);
        assert(0 * per_garment == 0) by (nonlinear_arith);
    }
    assert forall|m: int|
        #![trigger group.members@[m]]
        0 <= m < group.members@.len() implies {
        let (id, per_garment) = group.members@[m];
        &&& facing(after, id, true) == now * per_garment
        &&& facing(after, id, false) == (group.quantity - now) * per_garment
    } by {
        let (id, per_garment) = members[m];
        let near = nearest_copies(copies, members[m], src180, dist);
        assert(member_flips(copies, items, members[m], src180));
        lemma_nearest_copies(copies, members[m], src180, dist);
        assert forall|p: usize| #[trigger] near.contains(p) <==> is_turned(turns, p)
            && copies[p as int].item_id == id by {
            assert(is_turned(turns, p) && copies[p as int].item_id == members[m].0
                <==> near.contains(p));
        }
        lemma_turn_counts(copies, items, turns, src180, id, near);
        let quantity = group.quantity as int;
        assert(facing(copies, id, true) == turned * per_garment);
        assert(facing(copies, id, false) == (quantity - turned) * per_garment);
        assert((turned - 1) * per_garment == turned * per_garment - per_garment) by (nonlinear_arith);
        assert((turned + 1) * per_garment == turned * per_garment + per_garment) by (nonlinear_arith);
        assert((quantity - (turned - 1)) * per_garment == (quantity - turned) * per_garment
            + per_garment) by (nonlinear_arith);
        assert((quantity - (turned + 1)) * per_garment == (quantity - turned) * per_garment
            - per_garment) by (nonlinear_arith);
    }
    assert(garments_turned(after, group, now));
    assert forall|h: int, other: int|
        0 <= h < groups.len() && h != gi && garments_turned(
            copies,
            #[trigger] groups[h],
            other,
        ) implies #[trigger] garments_turned(after, groups[h], other) by {
        let rest = groups[h];
        assert forall|m: int|
            #![trigger rest.members@[m]]
            0 <= m < rest.members@.len() implies {
            let (id, per_garment) = rest.members@[m];
            &&& facing(after, id, true) == other * per_garment
            &&& facing(after, id, false) == (rest.quantity - other) * per_garment
        } by {
            let (id, per_garment) = rest.members@[m];
            let none = Seq::<usize>::empty();
            assert forall|p: usize| #[trigger] none.contains(p) <==> is_turned(turns, p)
                && copies[p as int].item_id == id by {
                if is_turned(turns, p) && copies[p as int].item_id == id {
                    let i = choose|i: int| 0 <= i < turns.len() && (#[trigger] turns[i]).copy == p;
                    assert(is_member(members, copies[turns[i].copy as int].item_id));
                    let k = choose|k: int| 0 <= k < members.len() && (#[trigger] members[k]).0 == id;
                    assert(groups[gi].members@[k].0 == groups[h].members@[m].0);
                }
            }
            lemma_turn_counts(copies, items, turns, src180, id, none);
        }
    }
}

/// A flip turns copies over; it neither adds nor removes any.
pub proof fn lemma_flip_keeps_copies(
    copies: Seq<PlacedCopy>,
    items: Seq<ItemType>,
    spec: GroupedOrientationSpec,
    gi: int,
    src180: bool,
    dist: Seq<F32>,
)
    requires
        copies.len() <= usize::MAX,
        spec.fits(items),
        copies_of_items(copies, items.len()),
        0 <= gi < spec.groups@.len(),
        garment_flips(copies, items, spec.groups@[gi].members@, src180),
    ensures
        ({
            let after = after_turns(
                copies,
                items,
                garment_turns(copies, items, spec.groups@[gi].members@, src180, dist),
            );
            &&& after.len() == copies.len()
            &&& forall|p: int|
                0 <= p < copies.len() ==> (#[trigger] after[p]).item_id == copies[p].item_id
        }),
{
    lemma_fits_distinct(spec, items, gi);
    let members = spec.groups@[gi].members@;
    lemma_garment_turns(copies, items, members, src180, dist);
    lemma_after_turns(copies, items, garment_turns(copies, items, members, src180, dist));
}

proof fn lemma_fits_distinct(spec: GroupedOrientationSpec, items: Seq<ItemType>, gi: int)
    requires
        spec.fits(items),
        0 <= gi < spec.groups@.len(),
    ensures
        members_distinct(spec.groups@[gi].members@),
        members_usable(spec.groups@[gi].members@, items.len()),
{
    let groups = spec.groups@;
    let members = groups[gi].members@;
    lemma_fits_disjoint(spec, items);
    assert forall|i: int, j: int|
        0 <= i < members.len() && 0 <= j < members.len() && i != j implies (#[trigger] members[i]).0
        != (#[trigger] members[j]).0 by {
        assert(groups[gi].members@[i].0 != groups[gi].members@[j].0);
    }
}

/// Flips keep the group counting invariant.
pub proof fn lemma_flip_consistent(
    copies: Seq<PlacedCopy>,
    items: Seq<ItemType>,
    spec: GroupedOrientationSpec,
    gi: int,
    src180: bool,
    dist: Seq<F32>,
)
    requires
        copies.len() <= usize::MAX,
        spec.fits(items),
        copies_of_items(copies, items.len()),
        0 <= gi < spec.groups@.len(),
        garment_flips(copies, items, spec.groups@[gi].members@, src180),
        consistent(copies, spec.groups@),
    ensures
        consistent(
            after_turns(
                copies,
                items,
                garment_turns(copies, items, spec.groups@[gi].members@, src180, dist),
            ),
            spec.groups@,
        ),
{
    let groups = spec.groups@;
    assert(group_consistent(copies, groups[gi]));
    let turned = choose|turned: int| garments_turned(copies, groups[gi], turned);
    lemma_flip_turns_one_garment(copies, items, spec, gi, src180, dist, turned);
    let after = after_turns(
        copies,
        items,
        garment_turns(copies, items, groups[gi].members@, src180, dist),
    );
    assert forall|h: int| 0 <= h < groups.len() implies group_consistent(
        after,
        #[trigger] groups[h],
    ) by {
        assert(group_consistent(copies, groups[h]));
        let other = choose|other: int| garments_turned(copies, groups[h], other);
        if h == gi {
            let now = if src180 {
                turned - 1
            } else {
                turned + 1
            };
            assert(garments_turned(after, groups[h], now));
        } else {
            assert(garments_turned(after, groups[h], other));
        }
    }
}

/// Flipping the only garment of a group there and back changes nothing: the second flip finds
/// all its pieces, however it is gathered, turns each to the first allowed rotation of the class
/// that it came from, and leaves every copy as it was at first.
pub proof fn lemma_flip_round_trip(
    copies: Seq<PlacedCopy>,
    items: Seq<ItemType>,
    spec: GroupedOrientationSpec,
    gi: int,
    src180: bool,
    dist: Seq<F32>,
    back_dist: Seq<F32>,
)
    requires
        copies.len() <= usize::MAX,
        spec.fits(items),
        copies_of_items(copies, items.len()),
        0 <= gi < spec.groups@.len(),
        spec.groups@[gi].quantity == 1,
        garments_turned(
            copies,
            spec.groups@[gi],
            if src180 {
                1
            } else {
                0
            },
        ),
        garment_flips(copies, items, spec.groups@[gi].members@, src180),
        forall|m: int|
            0 <= m < spec.groups@[gi].members@.len() ==> rotation_to(
                items[(#[trigger] spec.groups@[gi].members@[m]).0 as int],
                src180,
            ) is Some,
    ensures
        ({
            let members = spec.groups@[gi].members@;
            let there = after_turns(
                copies,
                items,
                garment_turns(copies, items, members, src180, dist),
            );
            let turns = garment_turns(there, items, members, !src180, back_dist);
            &&& garment_flips(there, items, members, !src180)
            &&& forall|i: int|
                0 <= i < turns.len() ==> rotation_to(
                    items[copies[(#[trigger] turns[i]).copy as int].item_id as int],
                    src180,
                ) == Some(turns[i].rotation)
            &&& after_turns(there, items, turns) == copies
        }),
{
    let group = spec.groups@[gi];
    let members = group.members@;
    let turned = if src180 {
        1int
    } else {
        0int
    };
    lemma_fits_distinct(spec, items, gi);
    lemma_flip_turns_one_garment(copies, items, spec, gi, src180, dist, turned);
    lemma_garment_turns(copies, items, members, src180, dist);
    let out = garment_turns(copies, items, members, src180, dist);
    lemma_after_turns(copies, items, out);
    let there = after_turns(copies, items, out);
    assert(garments_turned(there, group, 1 - turned));
    assert forall|p: int| 0 <= p < there.len() implies (#[trigger] there[p]).item_id
        < items.len() by {
        assert(copies[p].item_id < items.len());
    }
    assert forall|m: int| 0 <= m < members.len() implies member_flips(
        there,
        items,
        #[trigger] members[m],
        !src180,
    ) by {
        let (id, per_garment) = group.members@[m];
        assert(facing(there, id, !src180) == 1 * per_garment);
        assert(rotation_to(items[spec.groups@[gi].members@[m].0 as int], src180) is Some);
    }
    assert(garment_flips(there, items, members, !src180));
    lemma_flip_turns_one_garment(there, items, spec, gi, !src180, back_dist, 1 - turned);
    lemma_garment_turns(there, items, members, !src180, back_dist);
    let turns = garment_turns(there, items, members, !src180, back_dist);
    lemma_after_turns(there, items, turns);
    let back = after_turns(there, items, turns);
    assert(garments_turned(back, group, turned));
    assert forall|p: int| 0 <= p < copies.len() implies back[p] == copies[p] by {
        let q = p as usize;
        let id = copies[p].item_id;
        lemma_turned_or_same(copies, items, out, q);
        lemma_turned_or_same(there, items, turns, q);
        assert(back[p] == (PlacedCopy { dir180: back[p].dir180, ..copies[p] }));
        if is_member(members, id) {
            let m = choose|m: int| 0 <= m < members.len() && (#[trigger] members[m]).0 == id;
            let per_garment = group.members@[m].1;
            assert(0 * per_garment == 0) by (nonlinear_arith);
            assert(facing(copies, id, !src180) == 0);
            assert(facing(back, id, !src180) == 0);
            lemma_positions(copies, id, Some(!src180));
            lemma_positions(back, id, Some(!src180));
            assert(!positions(copies, id, Some(!src180)).contains(q));
            assert(!positions(back, id, Some(!src180)).contains(q));
        } else {
            assert forall|i: int| 0 <= i < out.len() implies (#[trigger] out[i]).copy != p by {
                assert(is_member(members, copies[out[i].copy as int].item_id));
            }
            assert(there[p] == copies[p]);
            assert forall|i: int| 0 <= i < turns.len() implies (#[trigger] turns[i]).copy != p by {
                assert(is_member(members, there[turns[i].copy as int].item_id));
            }
        }
    }
    assert(back =~= copies);
    lemma_garment_rotations(there, items, members, !src180, back_dist);
    assert forall|i: int| 0 <= i < turns.len() implies rotation_to(
        items[copies[(#[trigger] turns[i]).copy as int].item_id as int],
        src180,
    ) == Some(turns[i].rotation) by {
        assert(turn_allowed(there, items, turns[i]));
        assert(there[turns[i].copy as int].item_id == copies[turns[i].copy as int].item_id);
    }
}

/// A turn changes at most the direction of a copy.
proof fn lemma_turned_or_same(
    copies: Seq<PlacedCopy>,
    items: Seq<ItemType>,
    turns: Seq<Turn>,
    p: usize,
)
    requires
        turns_allowed(copies, items, turns),
        turns_distinct(turns),
        p < copies.len(),
    ensures
        after_turns(copies, items, turns)[p as int] == (PlacedCopy {
            dir180: after_turns(copies, items, turns)[p as int].dir180,
            ..copies[p as int]
        }),
{
    lemma_after_turns(copies, items, turns);
    if is_turned(turns, p) {
        let i = choose|i: int| 0 <= i < turns.len() && (#[trigger] turns[i]).copy == p;
        assert(turns[i].copy == p);
    } else {
        assert(forall|i: int| 0 <= i < turns.len() ==> (#[trigger] turns[i]).copy != p);
    }
}

/// Every copy of a garment is turned to the first allowed rotation of the other class.
proof fn lemma_garment_rotations(
    copies: Seq<PlacedCopy>,
    items: Seq<ItemType>,
    members: Seq<(usize, usize)>,
    src180: bool,
    dist: Seq<F32>,
)
    requires
        copies.len() <= usize::MAX,
        garment_flips(copies, items, members, src180),
    ensures
        forall|i: int|
            0 <= i < garment_turns(copies, items, members, src180, dist).len() ==> rotation_to(
                items[copies[(#[trigger] garment_turns(
                    copies,
                    items,
                    members,
                    src180,
                    dist,
                )[i]).copy as int].item_id as int],
                !src180,
            ) == Some(garment_turns(copies, items, members, src180, dist)[i].rotation),
    decreases members.len(),
{
    if members.len() > 0 {
        let turns = garment_turns(copies, items, members, src180, dist);
        let shorter = members.drop_last();
        let member = members.last();
        assert(members[members.len() - 1] == member);
        assert forall|m: int| 0 <= m < shorter.len() implies member_flips(
            copies,
            items,
            #[trigger] shorter[m],
            src180,
        ) by {
            assert(member_flips(copies, items, members[m], src180));
        }
        lemma_garment_rotations(copies, items, shorter, src180, dist);
        assert(member_flips(copies, items, members[members.len() - 1], src180));
        lemma_nearest_copies(copies, member, src180, dist);
        let before = garment_turns(copies, items, shorter, src180, dist);
        let more = member_turns(copies, items, member, src180, dist);
        let near = nearest_copies(copies, member, src180, dist);
        assert forall|i: int| 0 <= i < turns.len() implies rotation_to(
            items[copies[(#[trigger] turns[i]).copy as int].item_id as int],
            !src180,
        ) == Some(turns[i].rotation) by {
            if i < before.len() {
                assert(turns[i] == before[i]);
            } else {
                let k = i - before.len();
                assert(turns[i] == more[k]);
                assert(more[k].copy == near[k]);
                assert(near.contains(near[k]));
            }
        }
    }
}

/// In a consistent layout whose members can face either way, a flip never fails: there is a
/// candidate, and every candidate has an anchor copy and all the pieces of a garment.
pub proof fn lemma_flip_succeeds(
    copies: Seq<PlacedCopy>,
    items: Seq<ItemType>,
    spec: GroupedOrientationSpec,
)
    requires
        copies.len() <= usize::MAX,
        spec.groups@.len() <= usize::MAX,
        spec.fits(items),
        copies_of_items(copies, items.len()),
        members_turnable(items, spec.groups@),
        consistent(copies, spec.groups@),
    ensures
        candidates(copies, spec.groups@, spec.groups@.len()).len() > 0,
        forall|c: (usize, bool)| #[trigger]
            candidates(copies, spec.groups@, spec.groups@.len()).contains(c) ==> c.0
                < spec.groups@.len() && garment_flips(
                copies,
                items,
                spec.groups@[c.0 as int].members@,
                c.1,
            ) && anchors(copies, items, spec.groups@[c.0 as int], c.1).len() > 0,
{
    let groups = spec.groups@;
    let all = candidates(copies, groups, groups.len());
    lemma_fits_disjoint(spec, items);
    lemma_candidate_groups(copies, groups, groups.len());
    assert forall|c: (usize, bool)| #[trigger] all.contains(c) implies c.0 < groups.len()
        && garment_flips(copies, items, groups[c.0 as int].members@, c.1) && anchors(
        copies,
        items,
        groups[c.0 as int],
        c.1,
    ).len() > 0 by {
        let group = groups[c.0 as int];
        assert(group_consistent(copies, group));
        assert(members_usable(group.members@, items.len()));
        let turned = choose|turned: int| garments_turned(copies, group, turned);
        assert(garments_turned(copies, group, turned));
        lemma_candidate_counts(copies, items, group, turned);
        let n = if c.1 {
            turned
        } else {
            group.quantity - turned
        };
        assert(n >= 1) by {
            let mine = group_candidates(copies, group, c.0);
            assert(mine.contains(c));
            let i = choose|i: int| 0 <= i < mine.len() && mine[i] == c;
            assert(mine[i] == c);
        }
        assert forall|m: int| 0 <= m < group.members@.len() implies member_flips(
            copies,
            items,
            #[trigger] group.members@[m],
            c.1,
        ) by {
            let (id, per_garment) = group.members@[m];
            assert(groups[c.0 as int].members@[m].0 == id);
            lemma_rotation_to(items[id as int], !c.1);
            assert(facing(copies, id, c.1) == n * per_garment);
            assert(n * per_garment >= per_garment) by (nonlinear_arith)
                requires
                    n >= 1,
            ;
        }
        lemma_largest_exists(items, group.members@, group.members@.len());
        assert(group.members@.take(group.members@.len() as int) =~= group.members@);
        let i = choose|i: int| is_largest(items, group.members@, i);
        assert(is_largest(items, group.members@, i));
        assert(member_flips(copies, items, group.members@[i], c.1));
    }
    assert(group_fits(groups, items, 0));
    assert(group_consistent(copies, groups[0]));
    let turned = choose|turned: int| garments_turned(copies, groups[0], turned);
    assert(members_usable(groups[0].members@, items.len()));
    lemma_candidate_counts(copies, items, groups[0], turned);
    lemma_candidates_grow(copies, groups, 1, groups.len());
    assert(candidates(copies, groups, 1).len() > 0) by {
        reveal_with_fuel(candidates, 2);
    }
}

proof fn lemma_candidates_grow(
    copies: Seq<PlacedCopy>,
    groups: Seq<OrientationGroup>,
    n: nat,
    more: nat,
)
    requires
        n <= more,
    ensures
        candidates(copies, groups, n).len() <= candidates(copies, groups, more).len(),
    decreases more,
{
    if n < more {
        lemma_candidates_grow(copies, groups, n, (more - 1) as nat);
    }
}

proof fn lemma_candidate_counts(
    copies: Seq<PlacedCopy>,
    items: Seq<ItemType>,
    group: OrientationGroup,
    turned: int,
)
    requires
        garments_turned(copies, group, turned),
        members_usable(group.members@, items.len()),
    ensures
        garments_at0(copies, group) == group.quantity - turned,
{
    let (id, per_garment) = group.members@[0];
    let n0 = group.quantity - turned;
    assert(facing(copies, id, false) == n0 * per_garment);
    assert((n0 * per_garment) / (per_garment as int) == n0) by (nonlinear_arith)
        requires
            per_garment > 0,
    ;
}

proof fn lemma_largest_exists(items: Seq<ItemType>, members: Seq<(usize, usize)>, n: nat)
    requires
        0 < n <= members.len(),
    ensures
        exists|i: int| is_largest(items, members.take(n as int), i),
    decreases n,
{
    let all = members.take(n as int);
    if n == 1 {
        assert(is_largest(items, all, 0));
    } else {
        lemma_largest_exists(items, members, (n - 1) as nat);
        let before = members.take(n - 1);
        let i = choose|i: int| is_largest(items, before, i);
        assert(is_largest(items, before, i));
        assert(forall|j: int| 0 <= j < n - 1 ==> before[j] == all[j]);
        if items[all[i].0 as int].area.total() <= items[all[n - 1].0 as int].area.total() {
            assert forall|j: int| 0 <= j < all.len() implies items[(
            #[trigger] all[j]).0 as int].area.total() <= items[all[n - 1].0 as int].area.total() by {
                if j < n - 1 {
                    assert(items[before[j].0 as int].area.total()
                        <= items[before[i].0 as int].area.total());
                }
            }
            assert(is_largest(items, all, n - 1));
        } else {
            assert forall|j: int| 0 <= j < all.len() implies items[(
            #[trigger] all[j]).0 as int].area.total() <= items[all[i].0 as int].area.total() by {
                if j < n - 1 {
                    assert(items[before[j].0 as int].area.total()
                        <= items[before[i].0 as int].area.total());
                }
            }
            assert forall|j: int| i < j < all.len() implies items[(
            #[trigger] all[j]).0 as int].area.total() < items[all[i].0 as int].area.total() by {
                if j < n - 1 {
                    assert(items[before[j].0 as int].area.total()
                        < items[before[i].0 as int].area.total());
                }
            }
            assert(is_largest(items, all, i));
        }
    }
}

} // verus!
