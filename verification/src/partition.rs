//! The garments of all groups together.
use crate::cluster::all_cells;
use crate::cluster::group_cells;
use crate::cluster::groups_usable;
use crate::cluster::members_usable;
use crate::cluster::n_strata;
use crate::cluster::pool_of;
use crate::cluster::stratum_dir;
use crate::cluster::stratum_group;
use crate::garments::cells_disjoint;
use crate::garments::held;
use crate::garments::in_cells;
use crate::garments::is_member;
use crate::garments::lemma_clusters_are_garments;
use crate::garments::lemma_clusters_disjoint;
use crate::garments::lemma_uniform_garments_consistent;
use crate::garments::members_distinct;
use crate::garments::whole_garments;
use crate::grouped::group_fits;
use crate::grouped::member_problem;
use crate::grouped::named_before;
use crate::grouped::GroupedOrientationSpec;
use crate::grouped::ItemType;
use crate::grouped::OrientationGroup;
use crate::grouped::PlacedCopy;
use crate::layout::census;
use crate::layout::consistent;
use crate::layout::copies_of_items;
use crate::layout::facing;
use crate::layout::garments_turned;
use crate::layout::group_consistent;
use crate::layout::lemma_rotation_to;
use crate::layout::positions;
use crate::layout::selected;
use crate::scalar::F32;
use crate::turning::cells_of_copies;
use crate::turning::turnable;
use vstd::prelude::*;

verus! {

/// No item is a member twice, neither within a group nor across groups.
pub open spec fn items_disjoint(groups: Seq<OrientationGroup>) -> bool {
    forall|g: int, m: int, h: int, k: int|
        #![trigger groups[g].members@[m], groups[h].members@[k]]
        0 <= g < groups.len() && 0 <= m < groups[g].members@.len() && 0 <= h < groups.len() && 0 <= k
            < groups[h].members@.len() && (g != h || m != k) ==> groups[g].members@[m].0
            != groups[h].members@[k].0
}

/// Every member has its copies for exactly `n` garments among the copies that face `dir`.
pub open spec fn enough_for(
    copies: Seq<PlacedCopy>,
    group: OrientationGroup,
    dir: Option<bool>,
    n: nat,
) -> bool {
    forall|m: int|
        0 <= m < group.members@.len() ==> positions(
            copies,
            (#[trigger] group.members@[m]).0,
            dir,
        ).len() == n * group.members@[m].1
}

/// The whole demand is placed: every member has its copies for all garments of its group.
pub open spec fn all_placed(copies: Seq<PlacedCopy>, groups: Seq<OrientationGroup>) -> bool {
    forall|g: int|
        0 <= g < groups.len() ==> enough_for(
            copies,
            #[trigger] groups[g],
            None,
            groups[g].quantity as nat,
        )
}

/// The layout holds every item as often as it is demanded.
pub open spec fn demand_placed(copies: Seq<PlacedCopy>, items: Seq<ItemType>) -> bool {
    forall|id: int|
        0 <= id < items.len() ==> positions(copies, id as usize, None).len() == (
        #[trigger] items[id]).demand
}

/// Every member can be placed in either direction: its rotations are a discrete set with both
/// classes.
pub open spec fn members_turnable(items: Seq<ItemType>, groups: Seq<OrientationGroup>) -> bool {
    forall|g: int, m: int|
        #![trigger groups[g].members@[m]]
        0 <= g < groups.len() && 0 <= m < groups[g].members@.len() ==> {
            let rotations = items[groups[g].members@[m].0 as int].rotations;
            rotations is Some && rotations->0@.contains(true) && rotations->0@.contains(false)
        }
}

/// Copy `c` is one of those that are clustered in stratum `s`.
pub open spec fn in_stratum(
    c: PlacedCopy,
    groups: Seq<OrientationGroup>,
    split: bool,
    s: int,
) -> bool {
    is_member(stratum_group(groups, split, s).members@, c.item_id) && selected(
        c,
        c.item_id,
        stratum_dir(split, s),
    )
}

/// A spec that fits an instance names every item at most once, and can be clustered by.
pub proof fn lemma_fits_disjoint(spec: GroupedOrientationSpec, items: Seq<ItemType>)
    requires
        spec.fits(items),
    ensures
        items_disjoint(spec.groups@),
        groups_usable(spec.groups@, items.len()),
{
    let groups = spec.groups@;
    assert forall|g: int, m: int|
        #![trigger groups[g].members@[m]]
        0 <= g < groups.len() && 0 <= m < groups[g].members@.len() implies groups[g].members@[m].0
        < items.len() && groups[g].members@[m].1 > 0 && !named_before(
        groups,
        g,
        m,
        groups[g].members@[m].0,
    ) by {
        assert(group_fits(groups, items, g));
        assert(member_problem(groups, items, g, m) is None);
    }
    assert forall|g: int, m: int, h: int, k: int|
        #![trigger groups[g].members@[m], groups[h].members@[k]]
        0 <= g < groups.len() && 0 <= m < groups[g].members@.len() && 0 <= h < groups.len() && 0 <= k
            < groups[h].members@.len() && (g != h || m != k) implies groups[g].members@[m].0
        != groups[h].members@[k].0 by {
        if groups[g].members@[m].0 == groups[h].members@[k].0 {
            if h < g || (h == g && k < m) {
                assert(named_before(groups, g, m, groups[g].members@[m].0));
            } else {
                assert(named_before(groups, h, k, groups[h].members@[k].0));
            }
        }
    }
    assert forall|g: int| 0 <= g < groups.len() implies members_usable(
        (#[trigger] groups[g]).members@,
        items.len(),
    ) by {
        assert(group_fits(groups, items, g));
        assert forall|m: int| 0 <= m < groups[g].members@.len() implies (
        #[trigger] groups[g].members@[m]).0 < items.len() && groups[g].members@[m].1 > 0 by {
            assert(groups[g].members@[m].0 < items.len());
        }
    }
}

/// With a spec that fits, placing the demand places all garments.
pub proof fn lemma_demand_placed(
    copies: Seq<PlacedCopy>,
    items: Seq<ItemType>,
    spec: GroupedOrientationSpec,
)
    requires
        spec.fits(items),
        demand_placed(copies, items),
        items.len() <= usize::MAX,
    ensures
        all_placed(copies, spec.groups@),
{
    let groups = spec.groups@;
    assert forall|g: int| 0 <= g < groups.len() implies enough_for(
        copies,
        #[trigger] groups[g],
        None,
        groups[g].quantity as nat,
    ) by {
        assert(group_fits(groups, items, g));
        assert forall|m: int| 0 <= m < groups[g].members@.len() implies positions(
            copies,
            (#[trigger] groups[g].members@[m]).0,
            None,
        ).len() == groups[g].quantity as nat * groups[g].members@[m].1 by {
            assert(member_problem(groups, items, g, m) is None);
            let id = groups[g].members@[m].0 as int;
            assert(positions(copies, id as usize, None).len() == items[id].demand);
        }
    }
}

/// Two lists of cells without a copy in common.
proof fn lemma_cells_concat(a: Seq<Seq<usize>>, b: Seq<Seq<usize>>)
    requires
        cells_disjoint(a),
        cells_disjoint(b),
        forall|p: usize| #[trigger] in_cells(a, p) ==> !in_cells(b, p),
    ensures
        cells_disjoint(a + b),
        forall|p: usize| #[trigger] in_cells(a + b, p) <==> in_cells(a, p) || in_cells(b, p),
{
    let all = a + b;
    assert(forall|c: int| 0 <= c < a.len() ==> all[c] == a[c]);
    assert(forall|c: int| a.len() <= c < all.len() ==> all[c] == b[c - a.len()]);
    assert forall|c: int| 0 <= c < all.len() implies (#[trigger] all[c]).no_duplicates() by {
        if c < a.len() {
            assert(a[c].no_duplicates());
        } else {
            assert(b[c - a.len()].no_duplicates());
        }
    }
    assert forall|i: int, j: int, p: usize|
        0 <= i < all.len() && 0 <= j < all.len() && i != j && #[trigger] all[i].contains(
            p,
        ) implies !(#[trigger] all[j].contains(p)) by {
        if i < a.len() && j < a.len() {
            assert(a[i].contains(p));
            assert(!a[j].contains(p));
        } else if i >= a.len() && j >= a.len() {
            assert(b[i - a.len()].contains(p));
            assert(!b[j - a.len()].contains(p));
        } else if i < a.len() {
            assert(a[i].contains(p));
            assert(in_cells(a, p));
            if all[j].contains(p) {
                assert(b[j - a.len()].contains(p));
                assert(in_cells(b, p));
            }
        } else {
            assert(b[i - a.len()].contains(p));
            assert(in_cells(b, p));
            if all[j].contains(p) {
                assert(a[j].contains(p));
                assert(in_cells(a, p));
            }
        }
    }
    assert forall|p: usize| #[trigger] in_cells(all, p) <==> in_cells(a, p) || in_cells(b, p) by {
        if in_cells(a, p) {
            let c = choose|c: int| 0 <= c < a.len() && (#[trigger] a[c]).contains(p);
            assert(all[c].contains(p));
        }
        if in_cells(b, p) {
            let c = choose|c: int| 0 <= c < b.len() && (#[trigger] b[c]).contains(p);
            assert(all[a.len() + c].contains(p));
        }
        if in_cells(all, p) {
            let c = choose|c: int| 0 <= c < all.len() && (#[trigger] all[c]).contains(p);
            if c < a.len() {
                assert(a[c].contains(p));
            } else {
                assert(b[c - a.len()].contains(p));
            }
        }
    }
}

/// The cells of different strata have no copy in common, and together hold exactly the copies
/// of those strata.
pub proof fn lemma_all_cells(
    copies: Seq<PlacedCopy>,
    items: Seq<ItemType>,
    groups: Seq<OrientationGroup>,
    split: bool,
    dist: Seq<Vec<F32>>,
    counts: Seq<nat>,
    n: nat,
)
    requires
        copies.len() <= usize::MAX,
        groups_usable(groups, items.len()),
        items_disjoint(groups),
        n <= n_strata(groups, split),
        counts.len() >= n,
        forall|s: int|
            0 <= s < n ==> enough_for(
                copies,
                #[trigger] stratum_group(groups, split, s),
                stratum_dir(split, s),
                counts[s],
            ),
    ensures
        cells_disjoint(all_cells(copies, items, groups, split, dist, n)),
        forall|p: usize| #[trigger]
            in_cells(all_cells(copies, items, groups, split, dist, n), p) <==> p < copies.len()
                && exists|s: int|
                0 <= s < n && #[trigger] in_stratum(copies[p as int], groups, split, s),
        forall|s: int|
            0 <= s < n ==> #[trigger] stratum_whole(copies, items, groups, split, dist, counts, s),
    decreases n,
{
    if n > 0 {
        let k = (n - 1) as nat;
        lemma_all_cells(copies, items, groups, split, dist, counts, k);
        let before = all_cells(copies, items, groups, split, dist, k);
        let group = stratum_group(groups, split, k as int);
        let g = if split { k as int / 2 } else { k as int };
        assert(group == groups[g]);
        assert(members_usable(group.members@, items.len()));
        let dir = stratum_dir(split, k as int);
        assert(members_distinct(group.members@)) by {
            assert forall|i: int, j: int|
                0 <= i < group.members@.len() && 0 <= j < group.members@.len() && i != j implies (
            #[trigger] group.members@[i]).0 != (#[trigger] group.members@[j]).0 by {
                assert(groups[g].members@[i].0 != groups[g].members@[j].0);
            }
        }
        let base = before.len() as int;
        assert(enough_for(copies, group, dir, counts[k as int]));
        lemma_clusters_are_garments(
            copies,
            items,
            group.members@,
            dir,
            dist,
            base,
            counts[k as int],
        );
        let more = group_cells(copies, items, group.members@, dir, dist, base);
        assert forall|p: usize| #[trigger] in_cells(before, p) implies !in_cells(more, p) by {
            if in_cells(more, p) {
                let s = choose|s: int|
                    0 <= s < k && #[trigger] in_stratum(copies[p as int], groups, split, s);
                let h = if split { s / 2 } else { s };
                assert(stratum_group(groups, split, s) == groups[h]);
                let id = copies[p as int].item_id;
                assert(is_member(groups[h].members@, id));
                assert(is_member(groups[g].members@, id));
                let i = choose|i: int|
                    0 <= i < groups[h].members@.len() && (#[trigger] groups[h].members@[i]).0 == id;
                let j = choose|j: int|
                    0 <= j < groups[g].members@.len() && (#[trigger] groups[g].members@[j]).0 == id;
                assert(groups[h].members@[i].0 == groups[g].members@[j].0);
                assert(h == g);
            }
        }
        lemma_cells_concat(before, more);
        let all = all_cells(copies, items, groups, split, dist, n);
        assert(all == before + more);
        assert forall|p: usize| #[trigger] in_cells(all, p) <==> p < copies.len() && exists|s: int|
            0 <= s < n && #[trigger] in_stratum(copies[p as int], groups, split, s) by {
            assert(in_cells(all, p) <==> in_cells(before, p) || in_cells(more, p));
            if in_cells(before, p) {
                let s = choose|s: int|
                    0 <= s < k && #[trigger] in_stratum(copies[p as int], groups, split, s);
                assert(in_stratum(copies[p as int], groups, split, s));
            }
            if in_cells(more, p) {
                assert(in_stratum(copies[p as int], groups, split, k as int));
            }
            if p < copies.len() && exists|s: int|
                0 <= s < n && #[trigger] in_stratum(copies[p as int], groups, split, s) {
                let s = choose|s: int|
                    0 <= s < n && #[trigger] in_stratum(copies[p as int], groups, split, s);
                if s < k {
                    assert(in_cells(before, p));
                } else {
                    assert(in_cells(more, p));
                }
            }
        }
        assert(stratum_whole(copies, items, groups, split, dist, counts, k as int));
    }
}

/// A copy that is a member in two strata is in the same one twice.
proof fn lemma_strata_apart(
    c: PlacedCopy,
    groups: Seq<OrientationGroup>,
    split: bool,
    s: int,
    t: int,
)
    requires
        items_disjoint(groups),
        0 <= s < n_strata(groups, split),
        0 <= t < n_strata(groups, split),
        in_stratum(c, groups, split, s),
        in_stratum(c, groups, split, t),
    ensures
        s == t,
{
    let g = if split { s / 2 } else { s };
    let h = if split { t / 2 } else { t };
    let i = choose|i: int|
        0 <= i < groups[g].members@.len() && (#[trigger] groups[g].members@[i]).0 == c.item_id;
    let j = choose|j: int|
        0 <= j < groups[h].members@.len() && (#[trigger] groups[h].members@[j]).0 == c.item_id;
    assert(groups[g].members@[i].0 == groups[h].members@[j].0);
}

/// The cells of a layout have no copy in common, and only copies of members stand in them,
/// however many copies of each are placed.
pub proof fn lemma_all_cells_disjoint(
    copies: Seq<PlacedCopy>,
    items: Seq<ItemType>,
    groups: Seq<OrientationGroup>,
    split: bool,
    dist: Seq<Vec<F32>>,
    n: nat,
)
    requires
        copies.len() <= usize::MAX,
        groups_usable(groups, items.len()),
        items_disjoint(groups),
        n <= n_strata(groups, split),
    ensures
        cells_disjoint(all_cells(copies, items, groups, split, dist, n)),
        forall|p: usize| #[trigger]
            in_cells(all_cells(copies, items, groups, split, dist, n), p) ==> p < copies.len()
                && exists|s: int|
                0 <= s < n && #[trigger] in_stratum(copies[p as int], groups, split, s),
        cells_of_copies(all_cells(copies, items, groups, split, dist, n), copies.len()),
    decreases n,
{
    let all = all_cells(copies, items, groups, split, dist, n);
    if n > 0 {
        let k = (n - 1) as nat;
        lemma_all_cells_disjoint(copies, items, groups, split, dist, k);
        let before = all_cells(copies, items, groups, split, dist, k);
        let g = if split { k as int / 2 } else { k as int };
        let members = groups[g].members@;
        assert(stratum_group(groups, split, k as int) == groups[g]);
        assert(members_usable(members, items.len()));
        assert(members_distinct(members)) by {
            assert forall|i: int, j: int|
                0 <= i < members.len() && 0 <= j < members.len() && i != j implies (
            #[trigger] members[i]).0 != (#[trigger] members[j]).0 by {
                assert(groups[g].members@[i].0 != groups[g].members@[j].0);
            }
        }
        let dir = stratum_dir(split, k as int);
        let base = before.len() as int;
        lemma_clusters_disjoint(copies, items, members, dir, dist, base);
        let more = group_cells(copies, items, members, dir, dist, base);
        assert forall|p: usize| #[trigger] in_cells(more, p) implies p < copies.len() && in_stratum(
            copies[p as int],
            groups,
            split,
            k as int,
        ) by {}
        assert forall|p: usize| #[trigger] in_cells(before, p) implies !in_cells(more, p) by {
            if in_cells(more, p) {
                let s = choose|s: int|
                    0 <= s < k && #[trigger] in_stratum(copies[p as int], groups, split, s);
                lemma_strata_apart(copies[p as int], groups, split, s, k as int);
            }
        }
        lemma_cells_concat(before, more);
        assert(all == before + more);
        assert forall|p: usize| #[trigger] in_cells(all, p) implies p < copies.len() && exists|s: int|
            0 <= s < n && #[trigger] in_stratum(copies[p as int], groups, split, s) by {
            if in_cells(before, p) {
                let s = choose|s: int|
                    0 <= s < k && #[trigger] in_stratum(copies[p as int], groups, split, s);
                assert(in_stratum(copies[p as int], groups, split, s));
            } else {
                assert(in_stratum(copies[p as int], groups, split, k as int));
            }
        }
    }
    lemma_cells_in_range(copies, all);
}

/// The cells of stratum `s` are as many garments as counted, made of its copies.
pub open spec fn stratum_whole(
    copies: Seq<PlacedCopy>,
    items: Seq<ItemType>,
    groups: Seq<OrientationGroup>,
    split: bool,
    dist: Seq<Vec<F32>>,
    counts: Seq<nat>,
    s: int,
) -> bool {
    let members = stratum_group(groups, split, s).members@;
    let dir = stratum_dir(split, s);
    let base = all_cells(copies, items, groups, split, dist, s as nat).len() as int;
    let cells = group_cells(copies, items, members, dir, dist, base);
    cells.len() == counts[s] && whole_garments(copies, members, dir, cells)
}

/// Where the cells of stratum `s` stand among all cells.
pub proof fn lemma_block(
    copies: Seq<PlacedCopy>,
    items: Seq<ItemType>,
    groups: Seq<OrientationGroup>,
    split: bool,
    dist: Seq<Vec<F32>>,
    s: int,
    n: nat,
)
    requires
        0 <= s < n,
    ensures
        ({
            let all = all_cells(copies, items, groups, split, dist, n);
            let base = all_cells(copies, items, groups, split, dist, s as nat).len() as int;
            let cells = group_cells(
                copies,
                items,
                stratum_group(groups, split, s).members@,
                stratum_dir(split, s),
                dist,
                base,
            );
            &&& all_cells(copies, items, groups, split, dist, (s + 1) as nat).len() == base
                + cells.len()
            &&& base + cells.len() <= all.len()
            &&& forall|j: int|
                0 <= j < cells.len() ==> #[trigger] all[base + j] == cells[j]
        }),
    decreases n,
{
    if s < n - 1 {
        lemma_block(copies, items, groups, split, dist, s, (n - 1) as nat);
        let before = all_cells(copies, items, groups, split, dist, (n - 1) as nat);
        let all = all_cells(copies, items, groups, split, dist, n);
        assert(forall|c: int| 0 <= c < before.len() ==> all[c] == before[c]);
    }
}

proof fn lemma_held_same(
    copies: Seq<PlacedCopy>,
    after: Seq<PlacedCopy>,
    cell: Seq<usize>,
    id: usize,
)
    requires
        forall|k: int|
            0 <= k < cell.len() ==> after[(#[trigger] cell[k]) as int].item_id
                == copies[cell[k] as int].item_id,
    ensures
        held(after, cell, id) == held(copies, cell, id),
    decreases cell.len(),
{
    if cell.len() > 0 {
        let shorter = cell.drop_last();
        assert(forall|k: int| 0 <= k < shorter.len() ==> shorter[k] == cell[k]);
        assert(cell[cell.len() - 1] == cell.last());
        lemma_held_same(copies, after, shorter, id);
    }
}

/// Which copies make up whole garments does not depend on where they face.
proof fn lemma_whole_garments_same(
    copies: Seq<PlacedCopy>,
    after: Seq<PlacedCopy>,
    members: Seq<(usize, usize)>,
    cells: Seq<Seq<usize>>,
)
    requires
        after.len() == copies.len(),
        forall|p: int| 0 <= p < copies.len() ==> (#[trigger] after[p]).item_id == copies[p].item_id,
        whole_garments(copies, members, None, cells),
    ensures
        whole_garments(after, members, None, cells),
{
    assert forall|p: usize| #[trigger] in_cells(cells, p) <==> p < after.len() && is_member(
        members,
        after[p as int].item_id,
    ) && selected(after[p as int], after[p as int].item_id, None) by {
        if p < copies.len() {
            assert(after[p as int].item_id == copies[p as int].item_id);
        }
    }
    assert forall|c: int, m: int| 0 <= c < cells.len() && 0 <= m < members.len() implies held(
        after,
        #[trigger] cells[c],
        (#[trigger] members[m]).0,
    ) == members[m].1 by {
        assert forall|k: int| 0 <= k < cells[c].len() implies after[(
        #[trigger] cells[c][k]) as int].item_id == copies[cells[c][k] as int].item_id by {
            assert(cells[c].contains(cells[c][k]));
            assert(in_cells(cells, cells[c][k]));
        }
        lemma_held_same(copies, after, cells[c], members[m].0);
        assert(held(copies, cells[c], members[m].0) == members[m].1);
    }
}

/// The garments at 0 and those at 180 degrees together.
proof fn lemma_whole_garments_join(
    copies: Seq<PlacedCopy>,
    members: Seq<(usize, usize)>,
    at0: Seq<Seq<usize>>,
    at180: Seq<Seq<usize>>,
)
    requires
        whole_garments(copies, members, Some(false), at0),
        whole_garments(copies, members, Some(true), at180),
    ensures
        whole_garments(copies, members, None, at0 + at180),
{
    assert forall|p: usize| #[trigger] in_cells(at0, p) implies !in_cells(at180, p) by {}
    lemma_cells_concat(at0, at180);
    let all = at0 + at180;
    assert forall|p: usize| #[trigger] in_cells(all, p) <==> p < copies.len() && is_member(
        members,
        copies[p as int].item_id,
    ) && selected(copies[p as int], copies[p as int].item_id, None) by {
        assert(in_cells(all, p) <==> in_cells(at0, p) || in_cells(at180, p));
    }
    assert forall|c: int, m: int| 0 <= c < all.len() && 0 <= m < members.len() implies held(
        copies,
        #[trigger] all[c],
        (#[trigger] members[m]).0,
    ) == members[m].1 by {
        if c < at0.len() {
            assert(held(copies, at0[c], members[m].0) == members[m].1);
        } else {
            assert(held(copies, at180[c - at0.len()], members[m].0) == members[m].1);
        }
    }
}

/// The garments of one group, among all its copies, as a run of cells.
pub open spec fn group_run(
    copies: Seq<PlacedCopy>,
    group: OrientationGroup,
    all: Seq<Seq<usize>>,
    base: int,
) -> bool {
    &&& 0 <= base
    &&& base + group.quantity <= all.len()
    &&& whole_garments(
        copies,
        group.members@,
        None,
        all.subrange(base, base + group.quantity),
    )
}

/// All garments of the group stand side by side among the cells.
pub open spec fn has_run(
    copies: Seq<PlacedCopy>,
    group: OrientationGroup,
    all: Seq<Seq<usize>>,
) -> bool {
    exists|base: int| group_run(copies, group, all, base)
}

/// The garments of each group.
spec fn mixed_counts(groups: Seq<OrientationGroup>) -> Seq<nat> {
    Seq::new(groups.len(), |s: int| groups[s].quantity as nat)
}

proof fn lemma_mixed_counts(copies: Seq<PlacedCopy>, groups: Seq<OrientationGroup>)
    requires
        all_placed(copies, groups),
    ensures
        mixed_counts(groups).len() == n_strata(groups, false),
        forall|s: int|
            0 <= s < groups.len() ==> enough_for(
                copies,
                #[trigger] stratum_group(groups, false, s),
                stratum_dir(false, s),
                mixed_counts(groups)[s],
            ),
{
    assert forall|s: int| 0 <= s < groups.len() implies enough_for(
        copies,
        #[trigger] stratum_group(groups, false, s),
        stratum_dir(false, s),
        mixed_counts(groups)[s],
    ) by {
        assert(enough_for(copies, groups[s], None, groups[s].quantity as nat));
    }
}

/// How many garments a consistent group has at 180 degrees.
pub open spec fn n_turned(copies: Seq<PlacedCopy>, group: OrientationGroup) -> int {
    choose|turned: int| garments_turned(copies, group, turned)
}

/// The garments of each group, at 0 and then at 180 degrees.
spec fn split_counts(copies: Seq<PlacedCopy>, groups: Seq<OrientationGroup>) -> Seq<nat> {
    Seq::new(
        2 * groups.len(),
        |s: int|
            if s % 2 == 1 {
                n_turned(copies, groups[s / 2]) as nat
            } else {
                (groups[s / 2].quantity - n_turned(copies, groups[s / 2])) as nat
            },
    )
}

proof fn lemma_split_counts(copies: Seq<PlacedCopy>, groups: Seq<OrientationGroup>)
    requires
        consistent(copies, groups),
    ensures
        split_counts(copies, groups).len() == n_strata(groups, true),
        forall|s: int|
            0 <= s < 2 * groups.len() ==> enough_for(
                copies,
                #[trigger] stratum_group(groups, true, s),
                stratum_dir(true, s),
                split_counts(copies, groups)[s],
            ),
{
    let counts = split_counts(copies, groups);
    assert forall|s: int| 0 <= s < 2 * groups.len() implies enough_for(
        copies,
        #[trigger] stratum_group(groups, true, s),
        stratum_dir(true, s),
        counts[s],
    ) by {
        let group = groups[s / 2];
        assert(group_consistent(copies, group));
        assert(garments_turned(copies, group, n_turned(copies, group)));
        assert forall|m: int| 0 <= m < group.members@.len() implies positions(
            copies,
            (#[trigger] group.members@[m]).0,
            stratum_dir(true, s),
        ).len() == counts[s] * group.members@[m].1 by {
            let id = group.members@[m].0;
            assert(facing(copies, id, s % 2 == 1) == positions(
                copies,
                id,
                stratum_dir(true, s),
            ).len());
        }
    }
}

/// In a layout with the whole demand placed, clustering without regard to direction yields all
/// garments of every group.
pub proof fn lemma_runs_mixed(
    copies: Seq<PlacedCopy>,
    items: Seq<ItemType>,
    groups: Seq<OrientationGroup>,
    dist: Seq<Vec<F32>>,
)
    requires
        copies.len() <= usize::MAX,
        groups_usable(groups, items.len()),
        items_disjoint(groups),
        all_placed(copies, groups),
    ensures
        ({
            let all = all_cells(copies, items, groups, false, dist, groups.len());
            &&& cells_disjoint(all)
            &&& cells_of_copies(all, copies.len())
            &&& forall|g: int|
                0 <= g < groups.len() ==> has_run(copies, #[trigger] groups[g], all)
        }),
{
    let n = groups.len();
    let counts = mixed_counts(groups);
    let all = all_cells(copies, items, groups, false, dist, n);
    lemma_mixed_counts(copies, groups);
    lemma_all_cells(copies, items, groups, false, dist, counts, n);
    lemma_cells_in_range(copies, all);
    assert forall|g: int| 0 <= g < groups.len() implies has_run(
        copies,
        #[trigger] groups[g],
        all,
    ) by {
        assert(stratum_whole(copies, items, groups, false, dist, counts, g));
        lemma_block(copies, items, groups, false, dist, g, n);
        let base = all_cells(copies, items, groups, false, dist, g as nat).len() as int;
        let cells = group_cells(copies, items, groups[g].members@, None, dist, base);
        assert(cells.len() == groups[g].quantity);
        assert(all.subrange(base, base + groups[g].quantity) =~= cells) by {
            assert(forall|j: int| 0 <= j < cells.len() ==> all[base + j] == cells[j]);
        }
        assert(group_run(copies, groups[g], all, base));
    }
}

proof fn lemma_cells_in_range(copies: Seq<PlacedCopy>, all: Seq<Seq<usize>>)
    requires
        forall|p: usize| #[trigger] in_cells(all, p) ==> p < copies.len(),
    ensures
        cells_of_copies(all, copies.len()),
{
    assert forall|c: int, k: int| 0 <= c < all.len() && 0 <= k < all[c].len() implies (
    #[trigger] all[c][k]) < copies.len() by {
        assert(all[c].contains(all[c][k]));
        assert(in_cells(all, all[c][k]));
    }
}

/// In a consistent layout, clustering each direction by itself yields all garments of every
/// group, each facing one direction.
pub proof fn lemma_runs_split(
    copies: Seq<PlacedCopy>,
    items: Seq<ItemType>,
    groups: Seq<OrientationGroup>,
    dist: Seq<Vec<F32>>,
)
    requires
        copies.len() <= usize::MAX,
        groups_usable(groups, items.len()),
        items_disjoint(groups),
        consistent(copies, groups),
    ensures
        ({
            let all = all_cells(copies, items, groups, true, dist, 2 * groups.len());
            &&& cells_disjoint(all)
            &&& cells_of_copies(all, copies.len())
            &&& forall|g: int|
                0 <= g < groups.len() ==> has_run(copies, #[trigger] groups[g], all)
        }),
{
    let n = 2 * groups.len();
    let counts = split_counts(copies, groups);
    let all = all_cells(copies, items, groups, true, dist, n);
    lemma_split_counts(copies, groups);
    lemma_all_cells(copies, items, groups, true, dist, counts, n);
    lemma_cells_in_range(copies, all);
    assert forall|g: int| 0 <= g < groups.len() implies has_run(
        copies,
        #[trigger] groups[g],
        all,
    ) by {
        let group = groups[g];
        assert(group_consistent(copies, group));
        assert(garments_turned(copies, group, n_turned(copies, group)));
        let s = 2 * g;
        assert(stratum_whole(copies, items, groups, true, dist, counts, s));
        assert(stratum_whole(copies, items, groups, true, dist, counts, s + 1));
        lemma_block(copies, items, groups, true, dist, s, n);
        lemma_block(copies, items, groups, true, dist, s + 1, n);
        assert(stratum_group(groups, true, s) == group);
        assert(stratum_group(groups, true, s + 1) == group);
        assert(stratum_dir(true, s) == Some(false));
        assert(stratum_dir(true, s + 1) == Some(true));
        let base = all_cells(copies, items, groups, true, dist, s as nat).len() as int;
        let at0 = group_cells(copies, items, group.members@, Some(false), dist, base);
        let base180 = all_cells(copies, items, groups, true, dist, (s + 1) as nat).len() as int;
        let at180 = group_cells(copies, items, group.members@, Some(true), dist, base180);
        assert(base180 == base + at0.len());
        assert(at0.len() + at180.len() == group.quantity);
        lemma_whole_garments_join(copies, group.members@, at0, at180);
        assert(all.subrange(base, base + group.quantity) =~= at0 + at180) by {
            assert(forall|j: int| 0 <= j < at0.len() ==> all[base + j] == at0[j]);
            assert(forall|j: int| 0 <= j < at180.len() ==> all[base180 + j] == at180[j]);
            assert forall|j: int| 0 <= j < group.quantity implies all[base + j] == (at0
                + at180)[j] by {
                if j >= at0.len() {
                    assert(all[base180 + (j - at0.len())] == at180[j - at0.len()]);
                }
            }
        }
        assert(group_run(copies, group, all, base));
    }
}

/// Where the cells are the garments of every group and each cell faces one direction, the
/// layout is consistent.
pub proof fn lemma_uniform_cells_consistent(
    copies: Seq<PlacedCopy>,
    after: Seq<PlacedCopy>,
    groups: Seq<OrientationGroup>,
    all: Seq<Seq<usize>>,
    wants: Seq<bool>,
)
    requires
        copies.len() <= usize::MAX,
        after.len() == copies.len(),
        forall|p: int| 0 <= p < copies.len() ==> (#[trigger] after[p]).item_id == copies[p].item_id,
        wants.len() == all.len(),
        forall|g: int|
            0 <= g < groups.len() ==> has_run(copies, #[trigger] groups[g], all),
        forall|c: int, p: usize|
            0 <= c < all.len() && #[trigger] all[c].contains(p) ==> after[p as int].dir180
                == wants[c],
    ensures
        consistent(after, groups),
{
    assert forall|g: int| 0 <= g < groups.len() implies group_consistent(
        after,
        #[trigger] groups[g],
    ) by {
        let group = groups[g];
        let base = choose|base: int| group_run(copies, group, all, base);
        assert(group_run(copies, group, all, base));
        let cells = all.subrange(base, base + group.quantity);
        let class = wants.subrange(base, base + group.quantity);
        lemma_whole_garments_same(copies, after, group.members@, cells);
        assert forall|c: int, p: usize|
            0 <= c < cells.len() && #[trigger] cells[c].contains(p) implies after[p as int].dir180
            == class[c] by {
            assert(all[base + c].contains(p));
        }
        lemma_uniform_garments_consistent(after, group, cells, class);
    }
}

/// Only copies of members stand in cells, so they can be turned over wherever members can face
/// either way.
pub proof fn lemma_members_in_cells(
    copies: Seq<PlacedCopy>,
    items: Seq<ItemType>,
    groups: Seq<OrientationGroup>,
    split: bool,
    dist: Seq<Vec<F32>>,
)
    requires
        copies.len() <= usize::MAX,
        groups_usable(groups, items.len()),
        items_disjoint(groups),
        members_turnable(items, groups),
    ensures
        forall|p: usize| #[trigger]
            in_cells(all_cells(copies, items, groups, split, dist, n_strata(groups, split)), p)
                ==> turnable(copies, items, p as int),
{
    let n = n_strata(groups, split);
    lemma_all_cells_disjoint(copies, items, groups, split, dist, n);
    let all = all_cells(copies, items, groups, split, dist, n);
    assert forall|p: usize| #[trigger] in_cells(all, p) implies turnable(
        copies,
        items,
        p as int,
    ) by {
        let s = choose|s: int|
            0 <= s < n && #[trigger] in_stratum(copies[p as int], groups, split, s);
        let g = if split { s / 2 } else { s };
        let id = copies[p as int].item_id;
        assert(is_member(groups[g].members@, id));
        let m = choose|m: int|
            0 <= m < groups[g].members@.len() && (#[trigger] groups[g].members@[m]).0 == id;
        assert(groups[g].members@[m].0 == id);
        lemma_rotation_to(items[id as int], !copies[p as int].dir180);
    }
}

/// Whether a product is a given number; products too large for a `usize` are none.
fn product_is(a: usize, b: usize, wanted: usize) -> (r: bool)
    ensures
        r == (a * b == wanted),
{
    match a.checked_mul(b) {
        Some(n) => n == wanted,
        None => false,
    }
}

fn group_holds(
    copies: &Vec<PlacedCopy>,
    n_items: usize,
    group: &OrientationGroup,
    pool0: &Vec<Vec<usize>>,
    pool180: &Vec<Vec<usize>>,
) -> (r: bool)
    requires
        members_usable(group.members@, n_items as nat),
        pool_of(pool0@, copies@, n_items as nat, Some(false)),
        pool_of(pool180@, copies@, n_items as nat, Some(true)),
    ensures
        r == group_consistent(copies@, *group),
{
    let (first, first_pg) = group.members[0];
    assert(group.members@[0] == (first, first_pg));
    assert(pool180@[first as int]@ == positions(copies@, first, Some(true)));
    let turned: usize = pool180[first].len() / first_pg;
    proof {
        assert forall|t: int| #[trigger] garments_turned(copies@, *group, t) implies t == turned by {
            assert(facing(copies@, first, true) == t * first_pg);
            assert((t * first_pg) / (first_pg as int) == t) by (nonlinear_arith)
                requires
                    first_pg > 0,
            ;
        }
    }
    if turned > group.quantity {
        return false;
    }
    let rest: usize = group.quantity - turned;
    let mut m: usize = 0;
    while m < group.members.len()
        invariant
            m <= group.members.len(),
            members_usable(group.members@, n_items as nat),
            pool_of(pool0@, copies@, n_items as nat, Some(false)),
            pool_of(pool180@, copies@, n_items as nat, Some(true)),
            turned <= group.quantity,
            rest == group.quantity - turned,
            forall|t: int| #[trigger] garments_turned(copies@, *group, t) ==> t == turned,
            forall|i: int|
                0 <= i < m ==> facing(copies@, (#[trigger] group.members@[i]).0, true) == turned
                    * group.members@[i].1 && facing(copies@, group.members@[i].0, false) == rest
                    * group.members@[i].1,
        decreases group.members.len() - m,
    {
        let (id, per_garment) = group.members[m];
        assert(group.members@[m as int] == (id, per_garment));
        assert(pool0@[id as int]@ == positions(copies@, id, Some(false)));
        assert(pool180@[id as int]@ == positions(copies@, id, Some(true)));
        if !product_is(turned, per_garment, pool180[id].len()) || !product_is(
            rest,
            per_garment,
            pool0[id].len(),
        ) {
            proof {
                if group_consistent(copies@, *group) {
                    let t = choose|t: int| garments_turned(copies@, *group, t);
                    assert(garments_turned(copies@, *group, t));
                    assert(t == turned);
                    assert(facing(copies@, group.members@[m as int].0, true) == turned
                        * per_garment);
                }
            }
            return false;
        }
        m = m + 1;
    }
    assert(garments_turned(copies@, *group, turned as int));
    true
}

/// Whether the group counting invariant holds of a layout.
pub fn invariant_holds(
    copies: &Vec<PlacedCopy>,
    n_items: usize,
    spec: &GroupedOrientationSpec,
) -> (r: bool)
    requires
        copies_of_items(copies@, n_items as nat),
        groups_usable(spec.groups@, n_items as nat),
    ensures
        r == consistent(copies@, spec.groups@),
{
    let ghost groups = spec.groups@;
    let pool0: Vec<Vec<usize>> = census(copies, n_items, Some(false));
    let pool180: Vec<Vec<usize>> = census(copies, n_items, Some(true));
    let mut g: usize = 0;
    while g < spec.groups.len()
        invariant
            g <= spec.groups.len(),
            groups == spec.groups@,
            groups_usable(groups, n_items as nat),
            pool_of(pool0@, copies@, n_items as nat, Some(false)),
            pool_of(pool180@, copies@, n_items as nat, Some(true)),
            forall|i: int| 0 <= i < g ==> group_consistent(copies@, #[trigger] groups[i]),
        decreases spec.groups.len() - g,
    {
        assert(members_usable(groups[g as int].members@, n_items as nat));
        if !group_holds(copies, n_items, &spec.groups[g], &pool0, &pool180) {
            assert(!group_consistent(copies@, groups[g as int]));
            return false;
        }
        g = g + 1;
    }
    true
}

} // verus!
