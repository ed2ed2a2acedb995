//! Disruption by swapping two large items.
use crate::grouped::ItemType;
use crate::grouped::OrientationGroup;
use crate::grouped::PlacedCopy;
use crate::layout::consistent;
use crate::layout::facing;
use crate::layout::garments_turned;
use crate::layout::group_consistent;
use crate::layout::positions;
use crate::optimizer::flip::choose_copy;
use crate::order::by_rank;
use crate::order::lemma_by_rank;
use crate::order::lemma_by_rank_members;
use crate::order::lemma_ranks_rise;
use crate::scalar::F32;
use itertools::Itertools;
use rand::rngs::SmallRng;
use vstd::prelude::*;

verus! {

/// The indices below `n`, rising.
pub open spec fn indices(n: nat) -> Seq<usize> {
    Seq::new(n, |i: int| i as usize)
}

/// `itertools::Itertools::sorted_by_key` over the indices of `keys`: by rising key, and indices
/// with equal keys in rising order, for the sort is stable.
#[verifier::external_body]
fn sorted_by_key(keys: &Vec<i64>) -> (r: Vec<usize>)
    ensures
        r@ == by_rank(indices(keys@.len()), keys@),
{
    (0..keys.len()).sorted_by_key(|i| keys[*i]).collect()
}

/// Sort keys for falling hull area; areas that are not numbers come first.
pub open spec fn falling_hulls(items: Seq<ItemType>) -> Seq<i64> {
    Seq::new(items.len(), |i: int| (-items[i].hull_area.nan_last()) as i64)
}

/// The items by falling hull area; items of the same area keep their order.
pub fn hull_order(items: &Vec<ItemType>) -> (r: Vec<usize>)
    ensures
        r@ == by_rank(indices(items@.len()), falling_hulls(items@)),
{
    let mut keys: Vec<i64> = Vec::new();
    let mut i: usize = 0;
    while i < items.len()
        invariant
            i <= items.len(),
            keys.len() == i,
            forall|j: int| 0 <= j < i ==> keys[j] == -items[j].hull_area.nan_last(),
        decreases items.len() - i,
    {
        keys.push(-items[i].hull_area.nan_last_rank());
        i = i + 1;
    }
    assert(keys@ =~= falling_hulls(items@));
    sorted_by_key(&keys)
}

/// Sum `i` is the first that exceeds the threshold.
pub open spec fn first_over(sums: Seq<F32>, threshold: F32, i: int) -> bool {
    &&& 0 <= i < sums.len()
    &&& threshold.below(sums[i])
    &&& forall|j: int| 0 <= j < i ==> !threshold.below(#[trigger] sums[j])
}

/// The hull area from which on an item is large. `sums[i]` is the total hull area of all copies
/// of the first `i + 1` items of `order`. The cutoff is the hull area of the item with which the
/// sum first exceeds the threshold, and zero if it never does.
pub fn hull_cutoff(
    items: &Vec<ItemType>,
    order: &Vec<usize>,
    sums: &Vec<F32>,
    threshold: F32,
) -> (r: F32)
    requires
        sums.len() == order.len(),
        forall|i: int| 0 <= i < order.len() ==> order[i] < items.len(),
    ensures
        forall|i: int|
            #[trigger] first_over(sums@, threshold, i) ==> r == items[order[i] as int].hull_area,
        (forall|i: int| !(#[trigger] first_over(sums@, threshold, i))) ==> r == (F32 { bits: 0 }),
        forall|i: int|
            0 <= i < sums.len() && !threshold.nan() && !(#[trigger] sums[i]).nan()
                && threshold.rank() < sums[i].rank() && (forall|j: int|
                0 <= j < i ==> (#[trigger] sums[j]).nan() || sums[j].rank() <= threshold.rank())
                ==> r == items[order[i] as int].hull_area,
        (threshold.nan() || forall|i: int|
            0 <= i < sums.len() ==> (#[trigger] sums[i]).nan() || sums[i].rank()
                <= threshold.rank()) ==> r == (F32 { bits: 0 }),
{
    let mut n: usize = 0;
    while n < sums.len()
        invariant
            n <= sums.len(),
            sums.len() == order.len(),
            forall|i: int| 0 <= i < order.len() ==> order[i] < items.len(),
            forall|j: int| 0 <= j < n ==> !threshold.below(#[trigger] sums[j]),
        decreases sums.len() - n,
    {
        if threshold.lt(sums[n]) {
            assert(first_over(sums@, threshold, n as int));
            return items[order[n]].hull_area;
        }
        n = n + 1;
    }
    F32::zero()
}

/// Copy `p` is large: its hull area reaches the cutoff.
pub open spec fn is_large(copies: Seq<PlacedCopy>, cutoff: F32, p: usize) -> bool {
    p < copies.len() && cutoff.within(copies[p as int].hull_area)
}

/// The large copies, in placement order.
pub fn large_copies(copies: &Vec<PlacedCopy>, cutoff: F32) -> (r: Vec<usize>)
    ensures
        forall|i: int, j: int| 0 <= i < j < r.len() ==> r[i] < r[j],
        forall|p: usize| #[trigger] r@.contains(p) <==> is_large(copies@, cutoff, p),
        forall|p: usize| #[trigger]
            r@.contains(p) <==> p < copies.len() && !cutoff.nan() && !copies[p as int].hull_area.nan()
                && cutoff.rank() <= copies[p as int].hull_area.rank(),
{
    let mut r: Vec<usize> = Vec::new();
    let mut n: usize = 0;
    while n < copies.len()
        invariant
            n <= copies.len(),
            forall|i: int| 0 <= i < r.len() ==> r[i] < n,
            forall|i: int, j: int| 0 <= i < j < r.len() ==> r[i] < r[j],
            forall|p: usize| #[trigger] r@.contains(p) <==> p < n && is_large(copies@, cutoff, p),
        decreases copies.len() - n,
    {
        let ghost before = r@;
        let large: bool = cutoff.le(copies[n].hull_area);
        if large {
            r.push(n);
        }
        proof {
            assert forall|p: usize| #[trigger] r@.contains(p) <==> p < n + 1 && is_large(
                copies@,
                cutoff,
                p,
            ) by {
                lemma_push_contains(before, n, p);
                assert(before.contains(p) <==> p < n && is_large(copies@, cutoff, p));
            }
        }
        n = n + 1;
    }
    r
}

proof fn lemma_push_contains(s: Seq<usize>, x: usize, p: usize)
    ensures
        s.push(x).contains(p) <==> s.contains(p) || p == x,
{
    let more = s.push(x);
    if s.contains(p) {
        let i = choose|i: int| 0 <= i < s.len() && s[i] == p;
        assert(more[i] == p);
    }
    if more.contains(p) {
        let i = choose|i: int| 0 <= i < more.len() && more[i] == p;
        assert(i < s.len() ==> s[i] == p);
    }
    assert(more[s.len() as int] == x);
}

/// How a swap begins.
#[derive(Debug, Clone, Copy, PartialEq, Eq, Structural)]
pub enum SwapStart {
    /// Not at all: there are fewer than two items.
    TooFew,
    /// Not at all: no item is large.
    NoneLarge,
    /// With this copy.
    First(usize),
}

/// Chooses the first item of a swap among the large copies. A swap takes two items.
pub fn choose_first(copies: &Vec<PlacedCopy>, cutoff: F32, rng: &mut SmallRng) -> (r: SwapStart)
    ensures
        r is TooFew <==> copies.len() < 2,
        r is NoneLarge <==> copies.len() >= 2 && forall|p: usize|
            !(#[trigger] is_large(copies@, cutoff, p)),
        r matches SwapStart::First(p) ==> is_large(copies@, cutoff, p),
        r matches SwapStart::First(p) ==> p < copies.len() && !cutoff.nan()
            && !copies[p as int].hull_area.nan() && cutoff.rank()
            <= copies[p as int].hull_area.rank(),
{
    if copies.len() < 2 {
        return SwapStart::TooFew;
    }
    let large: Vec<usize> = large_copies(copies, cutoff);
    let r: Option<usize> = choose_copy(&large, rng);
    proof {
        if large.len() == 0 {
            assert forall|p: usize| !(#[trigger] is_large(copies@, cutoff, p)) by {
                assert(!large@.contains(p));
            }
        } else {
            assert(large@.contains(large@[0]));
        }
    }
    match r {
        Some(p) => SwapStart::First(p),
        None => SwapStart::NoneLarge,
    }
}

/// Copy `p` is a good second item of a swap: large, and different enough from the first.
pub open spec fn good_second(
    copies: Seq<PlacedCopy>,
    cutoff: F32,
    differs: Seq<bool>,
    p: usize,
) -> bool {
    is_large(copies, cutoff, p) && differs[p as int]
}

/// Chooses the second item of a swap among the large copies that differ from the first; if
/// there are none, among all copies but the first. `differs` says of every copy whether it
/// differs enough from the first.
pub fn choose_second(
    copies: &Vec<PlacedCopy>,
    cutoff: F32,
    differs: &Vec<bool>,
    first: usize,
    rng: &mut SmallRng,
) -> (r: Option<usize>)
    requires
        differs.len() == copies.len(),
    ensures
        (exists|p: usize| good_second(copies@, cutoff, differs@, p)) ==> (r matches Some(q)
            && good_second(copies@, cutoff, differs@, q)),
        !(exists|p: usize| good_second(copies@, cutoff, differs@, p)) ==> (r matches Some(q) ==> q
            < copies.len() && q != first),
        r is None <==> !(exists|p: usize| good_second(copies@, cutoff, differs@, p)) && (
        copies.len() == 0 || (copies.len() == 1 && first == 0)),
        forall|p: usize|
            p < copies.len() && !cutoff.nan() && !copies[p as int].hull_area.nan() && cutoff.rank()
                <= copies[p as int].hull_area.rank() && #[trigger] differs@[p as int] ==> (
            r matches Some(q) && q < copies.len() && !copies[q as int].hull_area.nan()
                && cutoff.rank() <= copies[q as int].hull_area.rank() && differs@[q as int]),
{
    let large: Vec<usize> = large_copies(copies, cutoff);
    let mut good: Vec<usize> = Vec::new();
    let mut n: usize = 0;
    while n < large.len()
        invariant
            n <= large.len(),
            differs.len() == copies.len(),
            forall|p: usize| #[trigger] large@.contains(p) <==> is_large(copies@, cutoff, p),
            forall|i: int|
                0 <= i < good.len() ==> good_second(copies@, cutoff, differs@, #[trigger] good[i]),
            forall|i: int|
                0 <= i < n && differs[#[trigger] large[i] as int] ==> good@.contains(large[i]),
        decreases large.len() - n,
    {
        assert(large@.contains(large@[n as int]));
        let ghost before = good@;
        if differs[large[n]] {
            good.push(large[n]);
        }
        proof {
            assert forall|i: int|
                0 <= i < n + 1 && differs[#[trigger] large[i] as int] implies good@.contains(
                large[i],
            ) by {
                lemma_push_contains(before, large[n as int], large[i]);
            }
        }
        n = n + 1;
    }
    let preferred: Option<usize> = choose_copy(&good, rng);
    proof {
        assert forall|p: usize| good_second(copies@, cutoff, differs@, p) implies good@.contains(
            p,
        ) by {
            assert(large@.contains(p));
            let i = choose|i: int| 0 <= i < large.len() && large@[i] == p;
            assert(differs[large[i] as int]);
        }
    }
    if preferred.is_some() {
        assert(good_second(copies@, cutoff, differs@, preferred->0));
        return preferred;
    }
    assert(!(exists|p: usize| good_second(copies@, cutoff, differs@, p))) by {
        assert forall|p: usize| !good_second(copies@, cutoff, differs@, p) by {
            assert(!good@.contains(p));
        }
    }
    assert forall|p: usize|
        p < copies.len() && !cutoff.nan() && !copies[p as int].hull_area.nan() && cutoff.rank()
            <= copies[p as int].hull_area.rank() implies !(#[trigger] differs@[p as int]) by {
        assert(!good_second(copies@, cutoff, differs@, p));
    }
    let mut others: Vec<usize> = Vec::new();
    let mut m: usize = 0;
    while m < copies.len()
        invariant
            m <= copies.len(),
            forall|i: int| 0 <= i < others.len() ==> others[i] < m && others[i] != first,
            forall|p: usize| p < m && p != first ==> #[trigger] others@.contains(p),
        decreases copies.len() - m,
    {
        let ghost before = others@;
        if m != first {
            others.push(m);
        }
        proof {
            assert forall|p: usize| p < m + 1 && p != first implies #[trigger] others@.contains(
                p,
            ) by {
                lemma_push_contains(before, m, p);
            }
        }
        m = m + 1;
    }
    let r: Option<usize> = choose_copy(&others, rng);
    proof {
        if r is None {
            assert(copies.len() > 0 && first != 0 ==> others@.contains(0));
            assert(copies.len() > 1 && first == 0 ==> others@.contains(1));
        } else {
            assert(others@.contains(r->0));
        }
    }
    r
}

/// How the new pose of a moved copy is found.
#[derive(Debug, Clone, Copy, PartialEq, Eq, Structural)]
pub enum PoseRule {
    /// The copy keeps its own rotation and takes over the translation only.
    KeepRotation,
    /// The copy takes over the nearest pose that its item allows.
    ClosestFeasible,
}

/// Whether the rotations of an item are locked: only flips of whole garments change them.
pub open spec fn is_locked(locked: Option<Seq<bool>>, item_id: int) -> bool {
    locked matches Some(l) && l[item_id]
}

/// The lock list as a sequence.
pub open spec fn locks(locked: Option<Vec<bool>>) -> Option<Seq<bool>> {
    match locked {
        Some(l) => Some(l@),
        None => None,
    }
}

/// The pose rule for a copy of an item: locked items keep their rotation.
pub open spec fn rule_for(locked: Option<Seq<bool>>, item_id: int) -> PoseRule {
    if is_locked(locked, item_id) {
        PoseRule::KeepRotation
    } else {
        PoseRule::ClosestFeasible
    }
}

/// The pose rule for a copy of an item.
pub fn pose_rule(locked: &Option<Vec<bool>>, item_id: usize) -> (r: PoseRule)
    requires
        *locked matches Some(l) ==> item_id < l.len(),
    ensures
        r == rule_for(locks(*locked), item_id as int),
        r is KeepRotation <==> (*locked matches Some(l) && l[item_id as int]),
{
    match locked {
        Some(l) => {
            if l[item_id] {
                PoseRule::KeepRotation
            } else {
                PoseRule::ClosestFeasible
            }
        },
        None => PoseRule::ClosestFeasible,
    }
}

/// A copy that takes another one's place.
#[derive(Debug, Clone, Copy, PartialEq, Eq, Structural)]
pub struct Exchange {
    /// The copy that moves.
    pub copy: usize,
    /// The copy whose place before the swap it takes.
    pub place_of: usize,
    /// How it is posed there.
    pub rule: PoseRule,
}

/// The exchange by which copy `p` takes the place of copy `q`.
pub open spec fn exchange(
    locked: Option<Seq<bool>>,
    copies: Seq<PlacedCopy>,
    p: usize,
    q: usize,
) -> Exchange {
    Exchange { copy: p, place_of: q, rule: rule_for(locked, copies[p as int].item_id as int) }
}

/// The lock list, where there is one, has an entry for every item that is placed.
pub open spec fn locks_cover(locked: Option<Seq<bool>>, copies: Seq<PlacedCopy>) -> bool {
    locked matches Some(l) ==> forall|p: int|
        0 <= p < copies.len() ==> (#[trigger] copies[p]).item_id < l.len()
}

/// The plan of a swap: each of the two copies takes the other's place, locked items with their
/// own rotation. There is none where there are fewer than two copies.
pub fn swap_plan(
    locked: &Option<Vec<bool>>,
    copies: &Vec<PlacedCopy>,
    first: usize,
    second: usize,
) -> (r: Option<(Exchange, Exchange)>)
    requires
        locks_cover(locks(*locked), copies@),
        copies.len() >= 2 ==> first < copies.len() && second < copies.len(),
    ensures
        r is None <==> copies.len() < 2,
        r matches Some(plan) ==> plan.0 == exchange(locks(*locked), copies@, first, second)
            && plan.1 == exchange(locks(*locked), copies@, second, first),
        r matches Some(plan) ==> plan.0.copy == first && plan.0.place_of == second && plan.1.copy
            == second && plan.1.place_of == first,
        r matches Some(plan) ==> (plan.0.rule is KeepRotation <==> (*locked matches Some(l)
            && l[copies[first as int].item_id as int])),
        r matches Some(plan) ==> (plan.1.rule is KeepRotation <==> (*locked matches Some(l)
            && l[copies[second as int].item_id as int])),
{
    if copies.len() < 2 {
        return None;
    }
    Some(
        (
            Exchange {
                copy: first,
                place_of: second,
                rule: pose_rule(locked, copies[first].item_id),
            },
            Exchange {
                copy: second,
                place_of: first,
                rule: pose_rule(locked, copies[second].item_id),
            },
        ),
    )
}

/// In a swap each copy takes the other's place, and whether it keeps its own rotation is up to
/// the lock on its own item, whatever its partner is.
pub proof fn lemma_exchange(
    locked: Option<Seq<bool>>,
    copies: Seq<PlacedCopy>,
    p: usize,
    q: usize,
)
    ensures
        exchange(locked, copies, p, q).copy == p,
        exchange(locked, copies, p, q).place_of == q,
        exchange(locked, copies, p, q).rule is KeepRotation <==> locked is Some
            && locked->0[copies[p as int].item_id as int],
        rule_for(locked, copies[p as int].item_id as int) == exchange(locked, copies, p, q).rule,
{
}

/// The items by falling hull area: the order names every item once, areas that are not
/// numbers stand first, the others fall along it, and items of the same area keep their order.
pub proof fn lemma_hull_order(items: Seq<ItemType>, i: int, j: int)
    requires
        items.len() <= usize::MAX,
        0 <= i < j < items.len(),
    ensures
        ({
            let order = by_rank(indices(items.len()), falling_hulls(items));
            let (a, b) = (order[i], order[j]);
            let (left, right) = (items[a as int].hull_area, items[b as int].hull_area);
            &&& order.len() == items.len()
            &&& order.no_duplicates()
            &&& a < items.len() && b < items.len()
            &&& right.nan() ==> left.nan() && a < b
            &&& !left.nan() ==> left.rank() >= right.rank() && (left.rank() == right.rank() ==> a
                < b)
        }),
{
    let ids = indices(items.len());
    let ranks = falling_hulls(items);
    let order = by_rank(ids, ranks);
    lemma_by_rank(ids, ranks);
    lemma_by_rank_members(ids, ranks);
    assert(ids.no_duplicates());
    lemma_ranks_rise(ids, ranks, i, j);
    assert forall|k: int| 0 <= k < order.len() implies (#[trigger] order[k]) < items.len() by {
        assert(order.contains(order[k]));
        assert(ids.contains(order[k]));
        let n = choose|n: int| 0 <= n < ids.len() && ids[n] == order[k];
        assert(ids[n] == n);
    }
    assert(order[i] != order[j]);
    assert(ranks[order[i] as int] == -items[order[i] as int].hull_area.nan_last());
    assert(ranks[order[j] as int] == -items[order[j] as int].hull_area.nan_last());
}

/// Something that a shape collides with.
#[derive(Debug, Clone, Copy, PartialEq, Eq, Structural)]
pub enum Hit {
    /// A placed item: its key, and whether its pole of inaccessibility lies in the shape.
    Placed { key: u64, poi_inside: bool },
    /// Anything else.
    Other,
}

/// The key of a placed item other than `carrier` that the hit shows to be practically contained.
pub open spec fn contained_key(hit: Hit, carrier: u64) -> Option<u64> {
    match hit {
        Hit::Placed { key, poi_inside } => if key != carrier && poi_inside {
            Some(key)
        } else {
            None
        },
        Hit::Other => None,
    }
}

/// The keys of the practically contained items, in the order of the hits.
pub open spec fn contained(hits: Seq<Hit>, carrier: u64) -> Seq<u64>
    decreases hits.len(),
{
    if hits.len() == 0 {
        Seq::empty()
    } else {
        let before = contained(hits.drop_last(), carrier);
        match contained_key(hits.last(), carrier) {
            Some(key) => before.push(key),
            None => before,
        }
    }
}

/// Collects, from what an item's shape collides with, the other items whose pole of
/// inaccessibility lies in that shape.
pub fn practically_contained_items(hits: &Vec<Hit>, carrier: u64) -> (r: Vec<u64>)
    ensures
        r@ == contained(hits@, carrier),
{
    let mut r: Vec<u64> = Vec::new();
    let mut n: usize = 0;
    assert(hits@.take(0) =~= Seq::<Hit>::empty());
    while n < hits.len()
        invariant
            n <= hits.len(),
            r@ == contained(hits@.take(n as int), carrier),
        decreases hits.len() - n,
    {
        assert(hits@.take(n + 1).drop_last() =~= hits@.take(n as int));
        match hits[n] {
            Hit::Placed { key, poi_inside } => {
                if key != carrier && poi_inside {
                    r.push(key);
                }
            },
            Hit::Other => {},
        }
        n = n + 1;
    }
    assert(hits@.take(n as int) =~= hits@);
    r
}

/// A list of keys without one of them.
pub open spec fn without(keys: Seq<u64>, left_out: u64) -> Seq<u64>
    decreases keys.len(),
{
    if keys.len() == 0 {
        Seq::empty()
    } else {
        let before = without(keys.drop_last(), left_out);
        if keys.last() != left_out {
            before.push(keys.last())
        } else {
            before
        }
    }
}

/// The items that move along with a swapped one: those that it practically contains in its new
/// place, except its swap partner.
pub fn carried_items(hits: &Vec<Hit>, carrier: u64, partner: u64) -> (r: Vec<u64>)
    ensures
        r@ == without(contained(hits@, carrier), partner),
{
    let keys: Vec<u64> = practically_contained_items(hits, carrier);
    let mut r: Vec<u64> = Vec::new();
    let mut n: usize = 0;
    assert(keys@.take(0) =~= Seq::<u64>::empty());
    while n < keys.len()
        invariant
            n <= keys.len(),
            r@ == without(keys@.take(n as int), partner),
        decreases keys.len() - n,
    {
        assert(keys@.take(n + 1).drop_last() =~= keys@.take(n as int));
        if keys[n] != partner {
            r.push(keys[n]);
        }
        n = n + 1;
    }
    assert(keys@.take(n as int) =~= keys@);
    r
}

/// What is practically contained, and what is carried along: of the hits, in their order, the
/// placed items whose pole of inaccessibility lies in the shape, except the carrier itself and,
/// for what is carried along, its swap partner.
pub proof fn lemma_carried_items(hits: Seq<Hit>, carrier: u64, partner: u64)
    ensures
        contained(hits, carrier) == hits.filter(
            |h: Hit| h is Placed && h->poi_inside && h->key != carrier,
        ).map_values(|h: Hit| h->key),
        without(contained(hits, carrier), partner) == hits.filter(
            |h: Hit| h is Placed && h->poi_inside && h->key != carrier && h->key != partner,
        ).map_values(|h: Hit| h->key),
    decreases hits.len(),
{
    reveal(Seq::filter);
    let inside = |h: Hit| h is Placed && h->poi_inside && h->key != carrier;
    let carried = |h: Hit|
        h is Placed && h->poi_inside && h->key != carrier && h->key != partner;
    let key = |h: Hit| h->key;
    if hits.len() > 0 {
        let shorter = hits.drop_last();
        lemma_carried_items(shorter, carrier, partner);
        assert(hits.filter(inside).map_values(key) =~= if inside(hits.last()) {
            shorter.filter(inside).map_values(key).push(hits.last()->key)
        } else {
            shorter.filter(inside).map_values(key)
        });
        assert(hits.filter(carried).map_values(key) =~= if carried(hits.last()) {
            shorter.filter(carried).map_values(key).push(hits.last()->key)
        } else {
            shorter.filter(carried).map_values(key)
        });
        let before = contained(shorter, carrier);
        if inside(hits.last()) {
            assert(contained(hits, carrier) == before.push(hits.last()->key));
            assert(before.push(hits.last()->key).drop_last() =~= before);
        }
    } else {
        assert(contained(hits, carrier) =~= hits.filter(inside).map_values(key));
        assert(without(contained(hits, carrier), partner) =~= hits.filter(carried).map_values(key));
    }
}

/// Neither swapped item is carried along by the other.
pub proof fn lemma_swapped_not_carried(hits: Seq<Hit>, carrier: u64, partner: u64)
    ensures
        !without(contained(hits, carrier), partner).contains(carrier),
        !without(contained(hits, carrier), partner).contains(partner),
{
    lemma_contained(hits, carrier);
    lemma_without(contained(hits, carrier), partner);
}

proof fn lemma_contained(hits: Seq<Hit>, carrier: u64)
    ensures
        forall|i: int|
            0 <= i < contained(hits, carrier).len() ==> contained(hits, carrier)[i] != carrier,
    decreases hits.len(),
{
    if hits.len() > 0 {
        lemma_contained(hits.drop_last(), carrier);
        let before = contained(hits.drop_last(), carrier);
        let out = contained(hits, carrier);
        assert forall|i: int| 0 <= i < out.len() implies out[i] != carrier by {
            if i < before.len() {
                assert(out[i] == before[i]);
            }
        }
    }
}

proof fn lemma_without(keys: Seq<u64>, left_out: u64)
    ensures
        forall|i: int|
            0 <= i < without(keys, left_out).len() ==> without(keys, left_out)[i] != left_out
                && keys.contains(without(keys, left_out)[i]),
    decreases keys.len(),
{
    if keys.len() > 0 {
        let shorter = keys.drop_last();
        lemma_without(shorter, left_out);
        let out = without(keys, left_out);
        let before = without(shorter, left_out);
        assert forall|i: int| 0 <= i < out.len() implies out[i] != left_out && keys.contains(
            out[i],
        ) by {
            if i < before.len() {
                assert(out[i] == before[i]);
                assert(shorter.contains(before[i]));
                let k = choose|k: int| 0 <= k < shorter.len() && shorter[k] == before[i];
                assert(keys[k] == before[i]);
            } else {
                assert(keys[keys.len() - 1] == keys.last());
            }
        }
    }
}

/// Every member of a group is locked.
pub open spec fn members_locked(groups: Seq<OrientationGroup>, locked: Seq<bool>) -> bool {
    forall|g: int, m: int|
        #![trigger groups[g].members@[m]]
        0 <= g < groups.len() && 0 <= m < groups[g].members@.len()
            ==> locked[groups[g].members@[m].0 as int]
}

/// The copies moved about, but those of locked items kept their rotation.
pub open spec fn locks_kept(
    before: Seq<PlacedCopy>,
    after: Seq<PlacedCopy>,
    locked: Seq<bool>,
) -> bool {
    &&& before.len() == after.len()
    &&& forall|p: int|
        0 <= p < before.len() ==> (#[trigger] after[p]).item_id == before[p].item_id && (
        locked[before[p].item_id as int] ==> after[p].dir180 == before[p].dir180)
}

proof fn lemma_locked_positions(
    before: Seq<PlacedCopy>,
    after: Seq<PlacedCopy>,
    locked: Seq<bool>,
    id: usize,
    dir: Option<bool>,
)
    requires
        locks_kept(before, after, locked),
        locked[id as int],
    ensures
        positions(after, id, dir) == positions(before, id, dir),
    decreases before.len(),
{
    if before.len() > 0 {
        let (b, a) = (before.drop_last(), after.drop_last());
        assert forall|p: int| 0 <= p < b.len() implies (#[trigger] a[p]).item_id == b[p].item_id && (
        locked[b[p].item_id as int] ==> a[p].dir180 == b[p].dir180) by {
            assert(after[p].item_id == before[p].item_id);
        }
        lemma_locked_positions(b, a, locked, id, dir);
        assert(after[before.len() - 1].item_id == before[before.len() - 1].item_id);
    }
}

/// A swap that is carried out keeps the locks: where the two exchanged copies, and whatever is
/// carried along, keep their rotation wherever their pose rule says so, every copy of a locked
/// item faces the way it did. With all members locked the group counting invariant survives.
pub proof fn lemma_swap_keeps_locks(
    before: Seq<PlacedCopy>,
    after: Seq<PlacedCopy>,
    groups: Seq<OrientationGroup>,
    locked: Seq<bool>,
    first: usize,
    second: usize,
)
    requires
        first < before.len(),
        second < before.len(),
        after.len() == before.len(),
        forall|p: int|
            0 <= p < before.len() ==> (#[trigger] after[p]).item_id == before[p].item_id,
        exchange(Some(locked), before, first, second).rule is KeepRotation
            ==> after[first as int].dir180 == before[first as int].dir180,
        exchange(Some(locked), before, second, first).rule is KeepRotation
            ==> after[second as int].dir180 == before[second as int].dir180,
        forall|p: int|
            0 <= p < before.len() && p != first && p != second && rule_for(
                Some(locked),
                before[p].item_id as int,
            ) is KeepRotation ==> (#[trigger] after[p]).dir180 == before[p].dir180,
    ensures
        forall|p: int|
            0 <= p < before.len() && locked[before[p].item_id as int] ==> (
            #[trigger] after[p]).dir180 == before[p].dir180,
        locks_kept(before, after, locked),
        members_locked(groups, locked) && consistent(before, groups) ==> consistent(after, groups),
{
    assert forall|p: int| 0 <= p < before.len() && locked[before[p].item_id as int] implies (
    #[trigger] after[p]).dir180 == before[p].dir180 by {
        assert(after[p].item_id == before[p].item_id);
    }
    if members_locked(groups, locked) && consistent(before, groups) {
        lemma_locked_moves_consistent(before, after, groups, locked);
    }
}

/// Moves that leave the rotations of locked items alone keep the group counting invariant, as
/// long as all members are locked: swaps, and regular moves.
pub proof fn lemma_locked_moves_consistent(
    before: Seq<PlacedCopy>,
    after: Seq<PlacedCopy>,
    groups: Seq<OrientationGroup>,
    locked: Seq<bool>,
)
    requires
        locks_kept(before, after, locked),
        members_locked(groups, locked),
        consistent(before, groups),
    ensures
        consistent(after, groups),
{
    assert forall|g: int| 0 <= g < groups.len() implies group_consistent(
        after,
        #[trigger] groups[g],
    ) by {
        let group = groups[g];
        assert(group_consistent(before, group));
        let turned = choose|turned: int| garments_turned(before, group, turned);
        assert(garments_turned(before, group, turned));
        assert forall|m: int|
            #![trigger group.members@[m]]
            0 <= m < group.members@.len() implies {
            let (id, per_garment) = group.members@[m];
            &&& facing(after, id, true) == turned * per_garment
            &&& facing(after, id, false) == (group.quantity - turned) * per_garment
        } by {
            let id = groups[g].members@[m].0;
            lemma_locked_positions(before, after, locked, id, Some(true));
            lemma_locked_positions(before, after, locked, id, Some(false));
        }
        assert(garments_turned(after, group, turned));
    }
}

} // verus!
