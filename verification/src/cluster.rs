//! Clustering placed copies into physical garments.
//!
//! Copies of one piece type are interchangeable, so which pieces make up one garment is read
//! off the geometry. The copies of one piece type, the anchor, are cut into chunks along the
//! x axis; every chunk seeds one garment cell. The copies of every other piece type then go,
//! in x order, to the nearest cell that still has room for one. Distances are handed in: row
//! `c` of the table holds the squared distance of every copy to the centre of seed cell `c`.
use crate::grouped::GroupedOrientationSpec;
use crate::grouped::ItemType;
use crate::grouped::OrientationGroup;
use crate::grouped::PlacedCopy;
use crate::layout::census;
use crate::layout::copies_of_items;
use crate::layout::lemma_positions;
use crate::layout::positions;
use crate::layout::selected;
use crate::order::by_rank;
use crate::order::lemma_by_rank;
use crate::order::lemma_by_rank_members;
use crate::order::lemma_ranks_rise;
use crate::order::sort_by_rank;
use crate::scalar::F32;
use vstd::prelude::*;

verus! {

/// The lists of a list of vectors.
pub open spec fn lists(v: Seq<Vec<usize>>) -> Seq<Seq<usize>> {
    v.map_values(|l: Vec<usize>| l@)
}

/// The x order of the copies, as ranks.
pub open spec fn x_ranks(copies: Seq<PlacedCopy>) -> Seq<i64> {
    Seq::new(copies.len(), |p: int| copies[p].x.total() as i64)
}

/// The given copies from left to right; copies at the same x stay in placement order.
pub open spec fn by_x(copies: Seq<PlacedCopy>, ids: Seq<usize>) -> Seq<usize> {
    by_rank(ids, x_ranks(copies))
}

/// Whether member `a` makes a better anchor than member `b`: fewer copies per garment, or as
/// many of a larger piece.
pub open spec fn better_anchor(items: Seq<ItemType>, a: (usize, usize), b: (usize, usize)) -> bool {
    a.1 < b.1 || (a.1 == b.1 && items[a.0 as int].area.total() > items[b.0 as int].area.total())
}

/// Member `i` is the anchor: no member is better, and none before it is as good.
pub open spec fn is_anchor(items: Seq<ItemType>, members: Seq<(usize, usize)>, i: int) -> bool {
    &&& 0 <= i < members.len()
    &&& forall|j: int| 0 <= j < members.len() ==> !better_anchor(items, #[trigger] members[j], members[i])
    &&& forall|j: int| 0 <= j < i ==> better_anchor(items, members[i], #[trigger] members[j])
}

/// The anchor member of a group.
pub open spec fn anchor(items: Seq<ItemType>, members: Seq<(usize, usize)>) -> (usize, usize) {
    members[choose|i: int| is_anchor(items, members, i)]
}

/// A list cut into chunks of `size`; only the last one may be shorter.
pub open spec fn chunks(s: Seq<usize>, size: nat) -> Seq<Seq<usize>>
    decreases s.len(),
{
    if s.len() == 0 {
        Seq::empty()
    } else {
        let before = chunks(s.drop_last(), size);
        if before.len() == 0 || before.last().len() >= size {
            before.push(seq![s.last()])
        } else {
            before.update(before.len() - 1, before.last().push(s.last()))
        }
    }
}

/// Cell `i` is where copy `p` goes: it has room, no cell with room is nearer, and none before
/// it is as near.
pub open spec fn is_nearest(
    dist: Seq<Vec<F32>>,
    base: int,
    p: usize,
    room: Seq<nat>,
    i: int,
) -> bool {
    &&& 0 <= i < room.len()
    &&& room[i] > 0
    &&& forall|j: int|
        0 <= j < room.len() && #[trigger] room[j] > 0 ==> dist[base + i]@[p as int].total()
            <= dist[base + j]@[p as int].total()
    &&& forall|j: int|
        0 <= j < i && #[trigger] room[j] > 0 ==> dist[base + i]@[p as int].total()
            < dist[base + j]@[p as int].total()
}

/// Cells being filled: how many more copies of the piece type at hand each one takes, and
/// what each one holds.
pub struct Fill {
    pub room: Seq<nat>,
    pub cells: Seq<Seq<usize>>,
}

/// One copy put in its place; a copy for which no cell has room is left out.
pub open spec fn put(dist: Seq<Vec<F32>>, base: int, f: Fill, p: usize) -> Fill {
    if exists|i: int| is_nearest(dist, base, p, f.room, i) {
        let i = choose|i: int| is_nearest(dist, base, p, f.room, i);
        Fill {
            room: f.room.update(i, (f.room[i] - 1) as nat),
            cells: f.cells.update(i, f.cells[i].push(p)),
        }
    } else {
        f
    }
}

/// The copies of a list put in their places one after the other.
pub open spec fn fill(dist: Seq<Vec<F32>>, base: int, start: Fill, ids: Seq<usize>) -> Fill
    decreases ids.len(),
{
    if ids.len() == 0 {
        start
    } else {
        put(dist, base, fill(dist, base, start, ids.drop_last()), ids.last())
    }
}

/// The seed cells of a group: its anchor's copies that face `dir`, cut into garments from left
/// to right.
pub open spec fn seeds(
    copies: Seq<PlacedCopy>,
    items: Seq<ItemType>,
    members: Seq<(usize, usize)>,
    dir: Option<bool>,
) -> Seq<Seq<usize>> {
    let (id, per_garment) = anchor(items, members);
    chunks(by_x(copies, positions(copies, id, dir)), per_garment as nat)
}

/// How many whole garments the anchor's copies make up.
pub open spec fn whole_cells(
    copies: Seq<PlacedCopy>,
    items: Seq<ItemType>,
    members: Seq<(usize, usize)>,
    dir: Option<bool>,
) -> nat {
    let (id, per_garment) = anchor(items, members);
    (positions(copies, id, dir).len() / per_garment as nat) as nat
}

/// `cells` after the copies of every listed member but the anchor were put into the first
/// `n_cells` of them.
pub open spec fn with_members(
    copies: Seq<PlacedCopy>,
    dir: Option<bool>,
    dist: Seq<Vec<F32>>,
    base: int,
    anchor_id: usize,
    n_cells: nat,
    cells: Seq<Seq<usize>>,
    members: Seq<(usize, usize)>,
) -> Seq<Seq<usize>>
    decreases members.len(),
{
    if members.len() == 0 {
        cells
    } else {
        let before = with_members(
            copies,
            dir,
            dist,
            base,
            anchor_id,
            n_cells,
            cells,
            members.drop_last(),
        );
        let (id, per_garment) = members.last();
        if id == anchor_id {
            before
        } else {
            fill(
                dist,
                base,
                Fill { room: Seq::new(n_cells, |i: int| per_garment as nat), cells: before },
                by_x(copies, positions(copies, id, dir)),
            ).cells
        }
    }
}

/// The garment cells of a group among its copies that face `dir`.
pub open spec fn group_cells(
    copies: Seq<PlacedCopy>,
    items: Seq<ItemType>,
    members: Seq<(usize, usize)>,
    dir: Option<bool>,
    dist: Seq<Vec<F32>>,
    base: int,
) -> Seq<Seq<usize>> {
    with_members(
        copies,
        dir,
        dist,
        base,
        anchor(items, members).0,
        whole_cells(copies, items, members, dir),
        seeds(copies, items, members, dir),
        members,
    )
}

/// Groups are clustered one after the other; where the directions are kept apart, each group
/// first among its copies at 0 and then among those at 180 degrees.
pub open spec fn stratum_dir(split: bool, s: int) -> Option<bool> {
    if split {
        Some(s % 2 == 1)
    } else {
        None
    }
}

/// The group of stratum `s`.
pub open spec fn stratum_group(
    groups: Seq<OrientationGroup>,
    split: bool,
    s: int,
) -> OrientationGroup {
    if split {
        groups[s / 2]
    } else {
        groups[s]
    }
}

/// How many strata there are.
pub open spec fn n_strata(groups: Seq<OrientationGroup>, split: bool) -> nat {
    if split {
        2 * groups.len()
    } else {
        groups.len()
    }
}

/// The seed cells of the first `n` strata.
pub open spec fn all_seeds(
    copies: Seq<PlacedCopy>,
    items: Seq<ItemType>,
    groups: Seq<OrientationGroup>,
    split: bool,
    n: nat,
) -> Seq<Seq<usize>>
    decreases n,
{
    if n == 0 {
        Seq::empty()
    } else {
        all_seeds(copies, items, groups, split, (n - 1) as nat) + seeds(
            copies,
            items,
            stratum_group(groups, split, n - 1).members@,
            stratum_dir(split, n - 1),
        )
    }
}

/// The garment cells of the first `n` strata. The rows of the distance table follow the seed
/// cells.
pub open spec fn all_cells(
    copies: Seq<PlacedCopy>,
    items: Seq<ItemType>,
    groups: Seq<OrientationGroup>,
    split: bool,
    dist: Seq<Vec<F32>>,
    n: nat,
) -> Seq<Seq<usize>>
    decreases n,
{
    if n == 0 {
        Seq::empty()
    } else {
        let before = all_cells(copies, items, groups, split, dist, (n - 1) as nat);
        before + group_cells(
            copies,
            items,
            stratum_group(groups, split, n - 1).members@,
            stratum_dir(split, n - 1),
            dist,
            before.len() as int,
        )
    }
}

/// Every group has a member, and every member names an item and at least one copy of it per
/// garment.
pub open spec fn groups_usable(groups: Seq<OrientationGroup>, n_items: nat) -> bool {
    forall|g: int| 0 <= g < groups.len() ==> members_usable((#[trigger] groups[g]).members@, n_items)
}

/// There is a member, and every member names an item and at least one copy of it per garment.
pub open spec fn members_usable(members: Seq<(usize, usize)>, n_items: nat) -> bool {
    &&& members.len() > 0
    &&& forall|m: int|
        0 <= m < members.len() ==> (#[trigger] members[m]).0 < n_items && members[m].1 > 0
}

/// The table has a row for every cell, and each row an entry for every copy.
pub open spec fn table_covers(dist: Seq<Vec<F32>>, n_cells: nat, n_copies: nat) -> bool {
    &&& dist.len() >= n_cells
    &&& forall|c: int| 0 <= c < dist.len() ==> (#[trigger] dist[c])@.len() == n_copies
}

/// There is exactly one anchor.
pub proof fn lemma_anchor_unique(items: Seq<ItemType>, members: Seq<(usize, usize)>, i: int)
    requires
        is_anchor(items, members, i),
    ensures
        anchor(items, members) == members[i],
{
    let j = choose|j: int| is_anchor(items, members, j);
    assert(is_anchor(items, members, j));
    if i < j {
        assert(better_anchor(items, members[j], members[i]));
    } else if j < i {
        assert(better_anchor(items, members[i], members[j]));
    }
}

/// There is at most one nearest cell.
pub proof fn lemma_nearest_unique(
    dist: Seq<Vec<F32>>,
    base: int,
    p: usize,
    room: Seq<nat>,
    i: int,
    j: int,
)
    requires
        is_nearest(dist, base, p, room, i),
        is_nearest(dist, base, p, room, j),
    ensures
        i == j,
{
    assert(room[i] > 0 && room[j] > 0);
}

/// Filling changes neither how many cells there are nor how many of them take copies.
pub proof fn lemma_fill_shape(dist: Seq<Vec<F32>>, base: int, start: Fill, ids: Seq<usize>)
    requires
        start.room.len() <= start.cells.len(),
    ensures
        fill(dist, base, start, ids).room.len() == start.room.len(),
        fill(dist, base, start, ids).cells.len() == start.cells.len(),
    decreases ids.len(),
{
    if ids.len() > 0 {
        lemma_fill_shape(dist, base, start, ids.drop_last());
    }
}

/// Putting members into cells does not change how many cells there are.
pub proof fn lemma_with_members_len(
    copies: Seq<PlacedCopy>,
    dir: Option<bool>,
    dist: Seq<Vec<F32>>,
    base: int,
    anchor_id: usize,
    n_cells: nat,
    cells: Seq<Seq<usize>>,
    members: Seq<(usize, usize)>,
)
    requires
        n_cells <= cells.len(),
    ensures
        with_members(copies, dir, dist, base, anchor_id, n_cells, cells, members).len()
            == cells.len(),
    decreases members.len(),
{
    if members.len() > 0 {
        let shorter = members.drop_last();
        lemma_with_members_len(copies, dir, dist, base, anchor_id, n_cells, cells, shorter);
        let before = with_members(copies, dir, dist, base, anchor_id, n_cells, cells, shorter);
        let (id, per_garment) = members.last();
        assert(before.len() == cells.len());
        lemma_fill_shape(
            dist,
            base,
            Fill { room: Seq::new(n_cells, |i: int| per_garment as nat), cells: before },
            by_x(copies, positions(copies, id, dir)),
        );
    }
}

/// A group that can be clustered has an anchor.
pub proof fn lemma_anchor_exists(items: Seq<ItemType>, members: Seq<(usize, usize)>, n: nat)
    requires
        0 < n <= members.len(),
    ensures
        exists|i: int| is_anchor(items, members.take(n as int), i),
    decreases n,
{
    let all = members.take(n as int);
    if n == 1 {
        assert(is_anchor(items, all, 0));
    } else {
        lemma_anchor_exists(items, members, (n - 1) as nat);
        let before = members.take(n - 1);
        let i = choose|i: int| is_anchor(items, before, i);
        assert(is_anchor(items, before, i));
        assert(forall|j: int| 0 <= j < n - 1 ==> before[j] == all[j]);
        if better_anchor(items, all[n - 1], all[i]) {
            assert forall|j: int| 0 <= j < n - 1 implies better_anchor(
                items,
                all[n - 1],
                #[trigger] all[j],
            ) by {
                assert(!better_anchor(items, before[j], before[i]));
            }
            assert(is_anchor(items, all, n - 1));
        } else {
            assert forall|j: int| 0 <= j < all.len() implies !better_anchor(
                items,
                #[trigger] all[j],
                all[i],
            ) by {
                if j < n - 1 {
                    assert(!better_anchor(items, before[j], before[i]));
                }
            }
            assert forall|j: int| 0 <= j < i implies better_anchor(
                items,
                all[i],
                #[trigger] all[j],
            ) by {
                assert(better_anchor(items, before[i], before[j]));
            }
            assert(is_anchor(items, all, i));
        }
    }
}

/// The anchor is one of the members.
pub proof fn lemma_anchor_member(items: Seq<ItemType>, members: Seq<(usize, usize)>)
    requires
        members.len() > 0,
    ensures
        exists|i: int| is_anchor(items, members, i) && members[i] == anchor(items, members),
        members.contains(anchor(items, members)),
{
    lemma_anchor_exists(items, members, members.len());
    assert(members.take(members.len() as int) =~= members);
    let i = choose|i: int| is_anchor(items, members, i);
    assert(members[i] == anchor(items, members));
}

/// What makes a member the anchor: it is one of the group's, none takes fewer copies per garment,
/// and of those that take as few none is larger; of several such members it is the first.
pub proof fn lemma_anchor_choice(items: Seq<ItemType>, members: Seq<(usize, usize)>) -> (i: int)
    requires
        members.len() > 0,
    ensures
        0 <= i < members.len(),
        anchor(items, members) == members[i],
        forall|j: int| 0 <= j < members.len() ==> members[i].1 <= (#[trigger] members[j]).1,
        forall|j: int|
            0 <= j < members.len() && (#[trigger] members[j]).1 == members[i].1
                ==> items[members[j].0 as int].area.total()
                <= items[members[i].0 as int].area.total(),
        forall|j: int|
            0 <= j < i && (#[trigger] members[j]).1 == members[i].1
                ==> items[members[j].0 as int].area.total() < items[members[i].0 as int].area.total(),
{
    lemma_anchor_member(items, members);
    let i = choose|i: int| is_anchor(items, members, i) && members[i] == anchor(items, members);
    assert forall|j: int| 0 <= j < members.len() implies members[i].1 <= (#[trigger] members[j]).1 && (
    members[j].1 == members[i].1 ==> items[members[j].0 as int].area.total()
        <= items[members[i].0 as int].area.total()) by {
        assert(!better_anchor(items, members[j], members[i]));
    }
    assert forall|j: int|
        0 <= j < i && (#[trigger] members[j]).1
            == members[i].1 implies items[members[j].0 as int].area.total()
        < items[members[i].0 as int].area.total() by {
        assert(better_anchor(items, members[i], members[j]));
    }
    i
}

/// No more whole garments than seed cells.
pub proof fn lemma_whole_cells(
    copies: Seq<PlacedCopy>,
    items: Seq<ItemType>,
    members: Seq<(usize, usize)>,
    dir: Option<bool>,
)
    requires
        members_usable(members, items.len()),
    ensures
        whole_cells(copies, items, members, dir) <= seeds(copies, items, members, dir).len(),
{
    lemma_anchor_member(items, members);
    let (id, per_garment) = anchor(items, members);
    let ids = positions(copies, id, dir);
    lemma_by_rank(ids, x_ranks(copies));
    lemma_chunks(by_x(copies, ids), per_garment as nat);
}

/// Each seed cell becomes one garment cell.
pub proof fn lemma_cells_follow_seeds(
    copies: Seq<PlacedCopy>,
    items: Seq<ItemType>,
    groups: Seq<OrientationGroup>,
    split: bool,
    dist: Seq<Vec<F32>>,
    n: nat,
)
    requires
        groups_usable(groups, items.len()),
        n <= n_strata(groups, split),
    ensures
        all_cells(copies, items, groups, split, dist, n).len() == all_seeds(
            copies,
            items,
            groups,
            split,
            n,
        ).len(),
    decreases n,
{
    if n > 0 {
        lemma_cells_follow_seeds(copies, items, groups, split, dist, (n - 1) as nat);
        let members = stratum_group(groups, split, n - 1).members@;
        let dir = stratum_dir(split, n - 1);
        let base = all_cells(copies, items, groups, split, dist, (n - 1) as nat).len() as int;
        assert(members_usable(members, items.len()));
        lemma_whole_cells(copies, items, members, dir);
        lemma_with_members_len(
            copies,
            dir,
            dist,
            base,
            anchor(items, members).0,
            whole_cells(copies, items, members, dir),
            seeds(copies, items, members, dir),
            members,
        );
    }
}

/// More strata have at least as many seed cells.
pub proof fn lemma_seeds_grow(
    copies: Seq<PlacedCopy>,
    items: Seq<ItemType>,
    groups: Seq<OrientationGroup>,
    split: bool,
    n: nat,
    more: nat,
)
    requires
        n <= more,
    ensures
        all_seeds(copies, items, groups, split, n).len() <= all_seeds(
            copies,
            items,
            groups,
            split,
            more,
        ).len(),
    decreases more,
{
    if n < more {
        lemma_seeds_grow(copies, items, groups, split, n, (more - 1) as nat);
    }
}

/// Chunks of a list: none is empty, none longer than `size`, all but the last are full.
pub proof fn lemma_chunks(s: Seq<usize>, size: nat)
    requires
        size > 0,
    ensures
        forall|c: int|
            0 <= c < chunks(s, size).len() ==> 0 < (#[trigger] chunks(s, size)[c]).len() <= size,
        forall|c: int|
            0 <= c < chunks(s, size).len() - 1 ==> (#[trigger] chunks(s, size)[c]).len() == size,
        s.len() > 0 ==> chunks(s, size).len() > 0,
        s.len() > 0 ==> s.len() == (chunks(s, size).len() - 1) * size + chunks(s, size).last().len(),
        s.len() / size <= chunks(s, size).len() <= s.len(),
    decreases s.len(),
{
    if s.len() > 0 {
        let shorter = s.drop_last();
        lemma_chunks(shorter, size);
        let before = chunks(shorter, size);
        let all = chunks(s, size);
        let k = before.len() as int;
        let n = all.len() as int;
        let rest = all.last().len() as int;
        if before.len() == 0 || before.last().len() >= size {
            assert(all =~= before.push(seq![s.last()]));
            assert(n == k + 1 && rest == 1);
            if k > 0 {
                assert((k - 1) * size + size == k * size) by (nonlinear_arith);
                assert(shorter.len() == (k - 1) * size + before.last().len());
                assert(before.last().len() == size);
                assert(s.len() == k * size + 1);
            } else {
                assert(0 * size == 0) by (nonlinear_arith);
            }
            assert(s.len() == (n - 1) * size + rest);
        } else {
            assert(n == k && rest == before.last().len() + 1);
            assert(s.len() == (n - 1) * size + rest);
        }
        assert((n - 1) * size + rest <= n * size) by (nonlinear_arith)
            requires
                rest <= size,
        ;
        assert(s.len() / size <= n) by (nonlinear_arith)
            requires
                s.len() <= n * size,
                size > 0,
        ;
    } else {
        assert(0nat / size == 0) by (nonlinear_arith)
            requires
                size > 0,
        ;
    }
}

/// The chunks of a list follow one another: entry `k` of chunk `c` is the entry of the list that
/// comes after `c` full chunks and `k` more.
pub proof fn lemma_chunk_entries(s: Seq<usize>, size: nat, c: int, k: int)
    requires
        size > 0,
        0 <= c < chunks(s, size).len(),
        0 <= k < chunks(s, size)[c].len(),
    ensures
        0 <= c * size + k < s.len(),
        chunks(s, size)[c][k] == s[c * size + k],
    decreases s.len(),
{
    if s.len() > 0 {
        let shorter = s.drop_last();
        let before = chunks(shorter, size);
        let all = chunks(s, size);
        let n = before.len() as int;
        lemma_chunks(shorter, size);
        if n == 0 || before.last().len() >= size {
            assert(all =~= before.push(seq![s.last()]));
            if c < n {
                lemma_chunk_entries(shorter, size, c, k);
            } else {
                if n > 0 {
                    assert(before[n - 1] == before.last());
                    assert((n - 1) * size + size == n * size) by (nonlinear_arith);
                } else {
                    assert(0 * size == 0) by (nonlinear_arith);
                }
            }
        } else {
            assert(before[n - 1] == before.last());
            if c < n - 1 || k < before.last().len() {
                assert(all[c][k] == before[c][k]);
                lemma_chunk_entries(shorter, size, c, k);
            }
        }
    }
}

/// The seed cells of a group run from left to right: a copy that stands in an earlier seed cell,
/// or earlier in the same one, is placed to the left, and of two at the same x it is the one
/// placed first.
pub proof fn lemma_seeds_left_to_right(
    copies: Seq<PlacedCopy>,
    items: Seq<ItemType>,
    members: Seq<(usize, usize)>,
    dir: Option<bool>,
    c: int,
    k: int,
    d: int,
    l: int,
)
    requires
        copies.len() <= usize::MAX,
        members_usable(members, items.len()),
        0 <= c <= d < seeds(copies, items, members, dir).len(),
        0 <= k < seeds(copies, items, members, dir)[c].len(),
        0 <= l < seeds(copies, items, members, dir)[d].len(),
        c < d || k < l,
    ensures
        ({
            let p = seeds(copies, items, members, dir)[c][k];
            let q = seeds(copies, items, members, dir)[d][l];
            copies[p as int].x.total() < copies[q as int].x.total() || (copies[p as int].x.total()
                == copies[q as int].x.total() && p < q)
        }),
{
    lemma_anchor_member(items, members);
    let (id, per_garment) = anchor(items, members);
    let size = per_garment as nat;
    let ids = positions(copies, id, dir);
    let sorted = by_x(copies, ids);
    lemma_chunks(sorted, size);
    lemma_chunk_entries(sorted, size, c, k);
    lemma_chunk_entries(sorted, size, d, l);
    if c < d {
        assert(c * size + size <= d * size) by (nonlinear_arith)
            requires
                c < d,
        ;
    }
    let (i, j) = (c * size + k, d * size + l);
    lemma_positions(copies, id, dir);
    lemma_by_rank(ids, x_ranks(copies));
    lemma_by_rank_members(ids, x_ranks(copies));
    lemma_ranks_rise(ids, x_ranks(copies), i, j);
    assert(sorted.contains(sorted[i]) && sorted.contains(sorted[j]));
    assert(ids.contains(sorted[i]) && ids.contains(sorted[j]));
    assert(x_ranks(copies)[sorted[i] as int] == copies[sorted[i] as int].x.total());
    assert(x_ranks(copies)[sorted[j] as int] == copies[sorted[j] as int].x.total());
}

/// A cell that holds at least one copy, all of them facing `dir`.
pub open spec fn cell_faces(copies: Seq<PlacedCopy>, cell: Seq<usize>, dir: Option<bool>) -> bool {
    &&& cell.len() > 0
    &&& forall|k: int|
        0 <= k < cell.len() ==> (#[trigger] cell[k]) < copies.len() && selected(
            copies[cell[k] as int],
            copies[cell[k] as int].item_id,
            dir,
        )
}

/// Every cell of a list holds copies, all facing `dir`.
pub open spec fn cells_face(
    copies: Seq<PlacedCopy>,
    cells: Seq<Seq<usize>>,
    dir: Option<bool>,
) -> bool {
    forall|c: int| 0 <= c < cells.len() ==> cell_faces(copies, #[trigger] cells[c], dir)
}

proof fn lemma_chunks_face(
    copies: Seq<PlacedCopy>,
    s: Seq<usize>,
    size: nat,
    dir: Option<bool>,
)
    requires
        forall|k: int|
            0 <= k < s.len() ==> (#[trigger] s[k]) < copies.len() && selected(
                copies[s[k] as int],
                copies[s[k] as int].item_id,
                dir,
            ),
    ensures
        cells_face(copies, chunks(s, size), dir),
    decreases s.len(),
{
    if s.len() > 0 {
        let shorter = s.drop_last();
        assert(forall|k: int| 0 <= k < shorter.len() ==> shorter[k] == s[k]);
        assert(s[s.len() - 1] == s.last());
        lemma_chunks_face(copies, shorter, size, dir);
        let before = chunks(shorter, size);
        let all = chunks(s, size);
        assert forall|c: int| 0 <= c < all.len() implies cell_faces(
            copies,
            #[trigger] all[c],
            dir,
        ) by {
            if c < before.len() {
                assert(cell_faces(copies, before[c], dir));
            }
        }
    }
}

proof fn lemma_fill_faces(
    copies: Seq<PlacedCopy>,
    dist: Seq<Vec<F32>>,
    base: int,
    start: Fill,
    ids: Seq<usize>,
    dir: Option<bool>,
)
    requires
        start.room.len() <= start.cells.len(),
        cells_face(copies, start.cells, dir),
        forall|k: int|
            0 <= k < ids.len() ==> (#[trigger] ids[k]) < copies.len() && selected(
                copies[ids[k] as int],
                copies[ids[k] as int].item_id,
                dir,
            ),
    ensures
        cells_face(copies, fill(dist, base, start, ids).cells, dir),
    decreases ids.len(),
{
    if ids.len() > 0 {
        let shorter = ids.drop_last();
        assert(forall|k: int| 0 <= k < shorter.len() ==> shorter[k] == ids[k]);
        assert(ids[ids.len() - 1] == ids.last());
        lemma_fill_faces(copies, dist, base, start, shorter, dir);
        lemma_fill_shape(dist, base, start, shorter);
        let before = fill(dist, base, start, shorter);
        let all = fill(dist, base, start, ids);
        assert forall|c: int| 0 <= c < all.cells.len() implies cell_faces(
            copies,
            #[trigger] all.cells[c],
            dir,
        ) by {
            assert(cell_faces(copies, before.cells[c], dir));
        }
    }
}

proof fn lemma_sorted_faces(copies: Seq<PlacedCopy>, id: usize, dir: Option<bool>)
    requires
        copies.len() <= usize::MAX,
    ensures
        ({
            let ids = by_x(copies, positions(copies, id, dir));
            forall|k: int|
                0 <= k < ids.len() ==> (#[trigger] ids[k]) < copies.len() && selected(
                    copies[ids[k] as int],
                    copies[ids[k] as int].item_id,
                    dir,
                )
        }),
{
    lemma_positions(copies, id, dir);
    lemma_by_rank_members(positions(copies, id, dir), x_ranks(copies));
    let ids = by_x(copies, positions(copies, id, dir));
    assert forall|k: int| 0 <= k < ids.len() implies (#[trigger] ids[k]) < copies.len() && selected(
        copies[ids[k] as int],
        copies[ids[k] as int].item_id,
        dir,
    ) by {
        assert(ids.contains(ids[k]));
        assert(positions(copies, id, dir).contains(ids[k]));
    }
}

proof fn lemma_with_members_faces(
    copies: Seq<PlacedCopy>,
    dir: Option<bool>,
    dist: Seq<Vec<F32>>,
    base: int,
    anchor_id: usize,
    n_cells: nat,
    cells: Seq<Seq<usize>>,
    members: Seq<(usize, usize)>,
)
    requires
        copies.len() <= usize::MAX,
        n_cells <= cells.len(),
        cells_face(copies, cells, dir),
    ensures
        cells_face(
            copies,
            with_members(copies, dir, dist, base, anchor_id, n_cells, cells, members),
            dir,
        ),
    decreases members.len(),
{
    if members.len() > 0 {
        let shorter = members.drop_last();
        lemma_with_members_faces(copies, dir, dist, base, anchor_id, n_cells, cells, shorter);
        lemma_with_members_len(copies, dir, dist, base, anchor_id, n_cells, cells, shorter);
        let before = with_members(copies, dir, dist, base, anchor_id, n_cells, cells, shorter);
        let (id, per_garment) = members.last();
        lemma_sorted_faces(copies, id, dir);
        lemma_fill_faces(
            copies,
            dist,
            base,
            Fill { room: Seq::new(n_cells, |i: int| per_garment as nat), cells: before },
            by_x(copies, positions(copies, id, dir)),
            dir,
        );
    }
}

/// Clustering puts copies into the cells of their own direction only, and leaves no cell empty.
pub proof fn lemma_cells_face(
    copies: Seq<PlacedCopy>,
    items: Seq<ItemType>,
    groups: Seq<OrientationGroup>,
    split: bool,
    dist: Seq<Vec<F32>>,
    n: nat,
)
    requires
        copies.len() <= usize::MAX,
        groups_usable(groups, items.len()),
        n <= n_strata(groups, split),
    ensures
        forall|c: int|
            0 <= c < all_cells(copies, items, groups, split, dist, n).len() ==> cell_uniform(
                copies,
                #[trigger] all_cells(copies, items, groups, split, dist, n)[c],
                split,
            ),
    decreases n,
{
    if n > 0 {
        let k = (n - 1) as nat;
        lemma_cells_face(copies, items, groups, split, dist, k);
        let before = all_cells(copies, items, groups, split, dist, k);
        let members = stratum_group(groups, split, k as int).members@;
        let dir = stratum_dir(split, k as int);
        assert(members_usable(members, items.len()));
        let base = before.len() as int;
        lemma_whole_cells(copies, items, members, dir);
        lemma_sorted_faces(copies, anchor(items, members).0, dir);
        lemma_chunks_face(
            copies,
            by_x(copies, positions(copies, anchor(items, members).0, dir)),
            anchor(items, members).1 as nat,
            dir,
        );
        lemma_with_members_faces(
            copies,
            dir,
            dist,
            base,
            anchor(items, members).0,
            whole_cells(copies, items, members, dir),
            seeds(copies, items, members, dir),
            members,
        );
        let more = group_cells(copies, items, members, dir, dist, base);
        let all = all_cells(copies, items, groups, split, dist, n);
        assert forall|c: int| 0 <= c < all.len() implies cell_uniform(
            copies,
            #[trigger] all[c],
            split,
        ) by {
            if c < before.len() {
                assert(all[c] == before[c]);
            } else {
                assert(all[c] == more[c - before.len()]);
                assert(cell_faces(copies, all[c], dir));
            }
        }
    }
}

/// A cell that holds at least one copy; with `split`, all of them face one direction.
pub open spec fn cell_uniform(copies: Seq<PlacedCopy>, cell: Seq<usize>, split: bool) -> bool {
    &&& cell.len() > 0
    &&& forall|k: int| 0 <= k < cell.len() ==> (#[trigger] cell[k]) < copies.len()
    &&& split ==> forall|k: int|
        0 <= k < cell.len() ==> copies[#[trigger] cell[k] as int].dir180
            == copies[cell[0] as int].dir180
}

/// The x order of the copies, as ranks.
fn x_rank_list(copies: &Vec<PlacedCopy>) -> (r: Vec<i64>)
    ensures
        r@ == x_ranks(copies@),
{
    let mut r: Vec<i64> = Vec::new();
    let mut p: usize = 0;
    while p < copies.len()
        invariant
            p <= copies.len(),
            r.len() == p,
            forall|i: int| 0 <= i < p ==> r[i] == copies[i].x.total(),
        decreases copies.len() - p,
    {
        r.push(copies[p].x.total_rank());
        p = p + 1;
    }
    assert(r@ =~= x_ranks(copies@));
    r
}

/// Finds the anchor member of a group.
pub(crate) fn find_anchor(items: &Vec<ItemType>, members: &Vec<(usize, usize)>) -> (r: (usize, usize))
    requires
        members_usable(members@, items@.len()),
    ensures
        r == anchor(items@, members@),
        r.0 < items.len(),
        r.1 > 0,
{
    let mut best: usize = 0;
    let mut m: usize = 1;
    while m < members.len()
        invariant
            0 <= best < m <= members.len(),
            members_usable(members@, items@.len()),
            is_anchor(items@, members@.take(m as int), best as int),
        decreases members.len() - m,
    {
        let a: (usize, usize) = members[m];
        let b: (usize, usize) = members[best];
        let better: bool = a.1 < b.1 || (a.1 == b.1 && items[a.0].area.total_rank()
            > items[b.0].area.total_rank());
        proof {
            let before = members@.take(m as int);
            let all = members@.take(m + 1);
            assert(forall|j: int| 0 <= j < m ==> before[j] == all[j]);
            if better {
                assert forall|j: int| 0 <= j < m implies better_anchor(
                    items@,
                    all[m as int],
                    #[trigger] all[j],
                ) by {
                    assert(!better_anchor(items@, before[j], before[best as int]));
                }
                assert(is_anchor(items@, all, m as int));
            } else {
                assert forall|j: int| 0 <= j < all.len() implies !better_anchor(
                    items@,
                    #[trigger] all[j],
                    all[best as int],
                ) by {
                    if j < m {
                        assert(!better_anchor(items@, before[j], before[best as int]));
                    }
                }
                assert forall|j: int| 0 <= j < best implies better_anchor(
                    items@,
                    all[best as int],
                    #[trigger] all[j],
                ) by {
                    assert(better_anchor(items@, before[best as int], before[j]));
                }
                assert(is_anchor(items@, all, best as int));
            }
        }
        if better {
            best = m;
        }
        m = m + 1;
    }
    proof {
        assert(members@.take(m as int) =~= members@);
        lemma_anchor_unique(items@, members@, best as int);
    }
    members[best]
}

/// Cuts a list into chunks of `size`.
fn cut_chunks(ids: &Vec<usize>, size: usize) -> (r: Vec<Vec<usize>>)
    requires
        size > 0,
    ensures
        lists(r@) == chunks(ids@, size as nat),
{
    let mut r: Vec<Vec<usize>> = Vec::new();
    let mut n: usize = 0;
    assert(ids@.take(0) =~= Seq::<usize>::empty());
    assert(lists(r@) =~= chunks(ids@.take(0), size as nat));
    while n < ids.len()
        invariant
            n <= ids.len(),
            size > 0,
            lists(r@) == chunks(ids@.take(n as int), size as nat),
        decreases ids.len() - n,
    {
        let ghost was = lists(r@);
        proof {
            assert(ids@.take(n + 1).drop_last() =~= ids@.take(n as int));
            assert(was.len() == r.len());
            assert(r.len() > 0 ==> was.last() == r@.last()@);
        }
        let last: usize = r.len();
        if last == 0 || r[last - 1].len() >= size {
            let mut fresh: Vec<usize> = Vec::new();
            fresh.push(ids[n]);
            r.push(fresh);
            assert(lists(r@) =~= was.push(seq![ids@[n as int]]));
        } else {
            let ghost held = was.last();
            let tail = &mut r[last - 1];
            tail.push(ids[n]);
            assert(lists(r@) =~= was.update(last - 1, held.push(ids@[n as int])));
        }
        n = n + 1;
    }
    assert(ids@.take(n as int) =~= ids@);
    r
}

/// Puts the copies `ids`, in that order, each into the nearest of the first `n_cells` cells
/// that has taken fewer than `per_garment` of them.
fn fill_cells(
    ids: &Vec<usize>,
    per_garment: usize,
    n_cells: usize,
    dist: &Vec<Vec<F32>>,
    base: usize,
    n_copies: usize,
    cells: &mut Vec<Vec<usize>>,
)
    requires
        n_cells <= old(cells).len(),
        table_covers(dist@, (base + n_cells) as nat, n_copies as nat),
        forall|i: int| 0 <= i < ids.len() ==> ids[i] < n_copies,
    ensures
        lists(final(cells)@) == fill(
            dist@,
            base as int,
            (Fill {
                room: Seq::new(n_cells as nat, |i: int| per_garment as nat),
                cells: lists(old(cells)@),
            }),
            ids@,
        ).cells,
        final(cells).len() == old(cells).len(),
{
    let ghost start = Fill {
        room: Seq::new(n_cells as nat, |i: int| per_garment as nat),
        cells: lists(cells@),
    };
    let n_all: usize = cells.len();
    let mut room: Vec<usize> = Vec::new();
    while room.len() < n_cells
        invariant
            room.len() <= n_cells,
            forall|i: int| 0 <= i < room.len() ==> room[i] == per_garment,
        decreases n_cells - room.len(),
    {
        room.push(per_garment);
    }
    let mut n: usize = 0;
    proof {
        assert(ids@.take(0) =~= Seq::<usize>::empty());
        assert(room@.map_values(|k: usize| k as nat) =~= start.room);
    }
    while n < ids.len()
        invariant
            n <= ids.len(),
            room.len() == n_cells,
            n_cells <= cells.len(),
            cells.len() == n_all,
            start.room.len() == n_cells,
            start.cells.len() == n_all,
            table_covers(dist@, (base + n_cells) as nat, n_copies as nat),
            forall|i: int| 0 <= i < ids.len() ==> ids[i] < n_copies,
            lists(cells@) == fill(dist@, base as int, start, ids@.take(n as int)).cells,
            room@.map_values(|k: usize| k as nat) == fill(
                dist@,
                base as int,
                start,
                ids@.take(n as int),
            ).room,
        decreases ids.len() - n,
    {
        let p: usize = ids[n];
        let ghost f = fill(dist@, base as int, start, ids@.take(n as int));
        proof {
            assert(ids@.take(n + 1).drop_last() =~= ids@.take(n as int));
            assert(f.room.len() == n_cells);
            assert(forall|i: int| 0 <= i < n_cells ==> f.room[i] == room[i]);
        }
        let mut best: Option<usize> = None;
        let mut i: usize = 0;
        while i < n_cells
            invariant
                i <= n_cells,
                room.len() == n_cells,
                p < n_copies,
                table_covers(dist@, (base + n_cells) as nat, n_copies as nat),
                f.room.len() == n_cells,
                forall|i: int| 0 <= i < n_cells ==> f.room[i] == room[i],
                best is None ==> forall|j: int| 0 <= j < i ==> f.room[j] == 0,
                best matches Some(b) ==> b < i && is_nearest(
                    dist@,
                    base as int,
                    p,
                    f.room.take(i as int),
                    b as int,
                ),
            decreases n_cells - i,
        {
            let ghost seen = f.room.take(i as int);
            let ghost more = f.room.take(i + 1);
            proof {
                assert(forall|j: int| 0 <= j < i ==> seen[j] == more[j]);
                assert(more[i as int] == room[i as int]);
            }
            assert(base + i < dist.len());
            let closer: bool = room[i] > 0 && match best {
                None => true,
                Some(b) => dist[base + i][p].total_rank() < dist[base + b][p].total_rank(),
            };
            proof {
                if closer {
                    assert(is_nearest(dist@, base as int, p, more, i as int)) by {
                        assert forall|j: int| 0 <= j < i && #[trigger] more[j] > 0 implies dist@[base
                            + i]@[p as int].total() < dist@[base + j]@[p as int].total() by {
                            assert(seen[j] > 0);
                            assert(best is Some);
                        }
                    }
                } else if best is Some {
                    let b = best->0;
                    assert(is_nearest(dist@, base as int, p, more, b as int)) by {
                        assert forall|j: int| 0 <= j < more.len() && #[trigger] more[j]
                            > 0 implies dist@[base + b]@[p as int].total() <= dist@[base
                            + j]@[p as int].total() by {
                            if j < i {
                                assert(seen[j] > 0);
                            }
                        }
                        assert forall|j: int| 0 <= j < b && #[trigger] more[j]
                            > 0 implies dist@[base + b]@[p as int].total() < dist@[base
                            + j]@[p as int].total() by {
                            assert(seen[j] > 0);
                        }
                    }
                }
            }
            if closer {
                best = Some(i);
            }
            i = i + 1;
        }
        assert(f.room.take(n_cells as int) =~= f.room);
        let ghost was = lists(cells@);
        match best {
            Some(b) => {
                proof {
                    let c = choose|c: int| is_nearest(dist@, base as int, p, f.room, c);
                    lemma_nearest_unique(dist@, base as int, p, f.room, b as int, c);
                }
                room[b] = room[b] - 1;
                let ghost list = cells@[b as int]@;
                let cell = &mut cells[b];
                cell.push(p);
                proof {
                    assert(lists(cells@) =~= was.update(b as int, list.push(p)));
                    assert(was[b as int] == list);
                    assert(room@.map_values(|k: usize| k as nat) =~= f.room.update(
                        b as int,
                        (f.room[b as int] - 1) as nat,
                    ));
                }
            },
            None => {
                assert(forall|c: int| !is_nearest(dist@, base as int, p, f.room, c));
            },
        }
        n = n + 1;
    }
    assert(ids@.take(n as int) =~= ids@);
}

/// Adds the lists of `more` behind those of `all`.
fn append_lists(all: &mut Vec<Vec<usize>>, more: Vec<Vec<usize>>)
    ensures
        lists(final(all)@) == lists(old(all)@) + lists(more@),
{
    let mut more: Vec<Vec<usize>> = more;
    let ghost added = more@;
    let ghost was = all@;
    all.append(&mut more);
    assert(lists(all@) =~= lists(was) + lists(added));
}

/// The positions listed for each item are those of its copies that face `dir`.
pub open spec fn pool_of(
    pool: Seq<Vec<usize>>,
    copies: Seq<PlacedCopy>,
    n_items: nat,
    dir: Option<bool>,
) -> bool {
    &&& pool.len() == n_items
    &&& forall|id: int|
        0 <= id < n_items ==> (#[trigger] pool[id])@ == positions(copies, id as usize, dir)
}

/// The seed cells of one group among the copies that face `dir`.
fn seed_group(
    copies: &Vec<PlacedCopy>,
    items: &Vec<ItemType>,
    members: &Vec<(usize, usize)>,
    dir: Option<bool>,
    pool: &Vec<Vec<usize>>,
    ranks: &Vec<i64>,
) -> (r: Vec<Vec<usize>>)
    requires
        members_usable(members@, items@.len()),
        pool_of(pool@, copies@, items@.len(), dir),
        ranks@ == x_ranks(copies@),
    ensures
        lists(r@) == seeds(copies@, items@, members@, dir),
{
    let (id, per_garment) = find_anchor(items, members);
    assert(pool@[id as int]@ == positions(copies@, id, dir));
    proof {
        assert(copies.len() <= usize::MAX);
        lemma_positions(copies@, id, dir);
    }
    let sorted: Vec<usize> = sort_by_rank(&pool[id], ranks);
    cut_chunks(&sorted, per_garment)
}

/// The garment cells of one group among the copies that face `dir`.
fn cluster_group(
    copies: &Vec<PlacedCopy>,
    items: &Vec<ItemType>,
    members: &Vec<(usize, usize)>,
    dir: Option<bool>,
    pool: &Vec<Vec<usize>>,
    ranks: &Vec<i64>,
    dist: &Vec<Vec<F32>>,
    base: usize,
) -> (r: Vec<Vec<usize>>)
    requires
        members_usable(members@, items@.len()),
        pool_of(pool@, copies@, items@.len(), dir),
        ranks@ == x_ranks(copies@),
        table_covers(
            dist@,
            (base + seeds(copies@, items@, members@, dir).len()) as nat,
            copies@.len(),
        ),
    ensures
        lists(r@) == group_cells(copies@, items@, members@, dir, dist@, base as int),
        r.len() == seeds(copies@, items@, members@, dir).len(),
{
    let (anchor_id, anchor_pg) = find_anchor(items, members);
    let mut cells: Vec<Vec<usize>> = seed_group(copies, items, members, dir, pool, ranks);
    assert(pool@[anchor_id as int]@ == positions(copies@, anchor_id, dir));
    let n_cells: usize = pool[anchor_id].len() / anchor_pg;
    let ghost seeded = lists(cells@);
    let ghost n_seeds = cells.len();
    proof {
        lemma_whole_cells(copies@, items@, members@, dir);
        assert(n_cells == whole_cells(copies@, items@, members@, dir));
        assert(seeded.len() == cells.len());
        assert(members@.take(0) =~= Seq::<(usize, usize)>::empty());
    }
    let mut m: usize = 0;
    while m < members.len()
        invariant
            m <= members.len(),
            members_usable(members@, items@.len()),
            pool_of(pool@, copies@, items@.len(), dir),
            ranks@ == x_ranks(copies@),
            n_cells <= n_seeds,
            cells.len() == n_seeds,
            table_covers(dist@, (base + n_seeds) as nat, copies@.len()),
            lists(cells@) == with_members(
                copies@,
                dir,
                dist@,
                base as int,
                anchor_id,
                n_cells as nat,
                seeded,
                members@.take(m as int),
            ),
        decreases members.len() - m,
    {
        let (id, per_garment) = members[m];
        proof {
            assert(members@.take(m + 1).drop_last() =~= members@.take(m as int));
            assert(members@.take(m + 1).last() == members@[m as int]);
        }
        if id != anchor_id {
            assert(pool@[id as int]@ == positions(copies@, id, dir));
            proof {
                assert(copies.len() <= usize::MAX);
                lemma_positions(copies@, id, dir);
                lemma_by_rank_members(positions(copies@, id, dir), ranks@);
            }
            let sorted: Vec<usize> = sort_by_rank(&pool[id], ranks);
            proof {
                assert forall|i: int| 0 <= i < sorted.len() implies sorted[i] < copies.len() by {
                    assert(sorted@.contains(sorted@[i]));
                    assert(positions(copies@, id, dir).contains(sorted@[i]));
                }
            }
            fill_cells(&sorted, per_garment, n_cells, dist, base, copies.len(), &mut cells);
        }
        m = m + 1;
    }
    assert(members@.take(m as int) =~= members@);
    cells
}

/// The seed cells of every group: chunks of the anchor's copies from left to right, taken
/// together or, with `split`, apart for each direction.
pub fn seed_cells(
    copies: &Vec<PlacedCopy>,
    items: &Vec<ItemType>,
    spec: &GroupedOrientationSpec,
    split: bool,
) -> (r: Vec<Vec<usize>>)
    requires
        copies_of_items(copies@, items@.len()),
        groups_usable(spec.groups@, items@.len()),
    ensures
        lists(r@) == all_seeds(
            copies@,
            items@,
            spec.groups@,
            split,
            n_strata(spec.groups@, split),
        ),
{
    let ghost groups = spec.groups@;
    let ranks: Vec<i64> = x_rank_list(copies);
    let first: Option<bool> = if split {
        Some(false)
    } else {
        None
    };
    let pool: Vec<Vec<usize>> = census(copies, items.len(), first);
    let pool180: Vec<Vec<usize>> = census(copies, items.len(), Some(true));
    let mut r: Vec<Vec<usize>> = Vec::new();
    let mut g: usize = 0;
    assert(lists(r@) =~= all_seeds(copies@, items@, groups, split, 0));
    while g < spec.groups.len()
        invariant
            g <= spec.groups.len(),
            groups == spec.groups@,
            groups_usable(groups, items@.len()),
            first == stratum_dir(split, 0),
            pool_of(pool@, copies@, items@.len(), first),
            pool_of(pool180@, copies@, items@.len(), Some(true)),
            ranks@ == x_ranks(copies@),
            lists(r@) == all_seeds(
                copies@,
                items@,
                groups,
                split,
                n_strata(groups.take(g as int), split),
            ),
        decreases spec.groups.len() - g,
    {
        let group = &spec.groups[g];
        let ghost s = n_strata(groups.take(g as int), split) as int;
        proof {
            assert(members_usable(groups[g as int].members@, items@.len()));
            assert(stratum_group(groups, split, s) == groups[g as int]);
            assert(stratum_dir(split, s) == first);
        }
        append_lists(&mut r, seed_group(copies, items, &group.members, first, &pool, &ranks));
        assert(lists(r@) == all_seeds(copies@, items@, groups, split, (s + 1) as nat));
        if split {
            proof {
                assert(stratum_group(groups, split, s + 1) == groups[g as int]);
                assert(stratum_dir(split, s + 1) == Some(true));
            }
            append_lists(
                &mut r,
                seed_group(copies, items, &group.members, Some(true), &pool180, &ranks),
            );
            assert(lists(r@) == all_seeds(copies@, items@, groups, split, (s + 2) as nat));
        }
        g = g + 1;
    }
    assert(groups.take(g as int) =~= groups);
    r
}

/// The garment cells of every group, in the order of their seed cells.
pub fn garment_cells(
    copies: &Vec<PlacedCopy>,
    items: &Vec<ItemType>,
    spec: &GroupedOrientationSpec,
    split: bool,
    dist: &Vec<Vec<F32>>,
) -> (r: Vec<Vec<usize>>)
    requires
        copies_of_items(copies@, items@.len()),
        groups_usable(spec.groups@, items@.len()),
        table_covers(
            dist@,
            all_seeds(
                copies@,
                items@,
                spec.groups@,
                split,
                n_strata(spec.groups@, split),
            ).len(),
            copies@.len(),
        ),
    ensures
        lists(r@) == all_cells(
            copies@,
            items@,
            spec.groups@,
            split,
            dist@,
            n_strata(spec.groups@, split),
        ),
        forall|c: int| 0 <= c < r.len() ==> cell_uniform(copies@, (#[trigger] r[c])@, split),
{
    let ghost groups = spec.groups@;
    let ghost total = n_strata(groups, split);
    let ghost n_rows = all_seeds(copies@, items@, groups, split, total).len();
    let ranks: Vec<i64> = x_rank_list(copies);
    let first: Option<bool> = if split {
        Some(false)
    } else {
        None
    };
    let pool: Vec<Vec<usize>> = census(copies, items.len(), first);
    let pool180: Vec<Vec<usize>> = census(copies, items.len(), Some(true));
    let mut r: Vec<Vec<usize>> = Vec::new();
    let mut g: usize = 0;
    assert(lists(r@) =~= all_cells(copies@, items@, groups, split, dist@, 0));
    while g < spec.groups.len()
        invariant
            g <= spec.groups.len(),
            groups == spec.groups@,
            total == n_strata(groups, split),
            n_rows == all_seeds(copies@, items@, groups, split, total).len(),
            groups_usable(groups, items@.len()),
            table_covers(dist@, n_rows, copies@.len()),
            first == stratum_dir(split, 0),
            pool_of(pool@, copies@, items@.len(), first),
            pool_of(pool180@, copies@, items@.len(), Some(true)),
            ranks@ == x_ranks(copies@),
            lists(r@) == all_cells(
                copies@,
                items@,
                groups,
                split,
                dist@,
                n_strata(groups.take(g as int), split),
            ),
        decreases spec.groups.len() - g,
    {
        let group = &spec.groups[g];
        let ghost s = n_strata(groups.take(g as int), split);
        proof {
            assert(members_usable(groups[g as int].members@, items@.len()));
            assert(stratum_group(groups, split, s as int) == groups[g as int]);
            assert(stratum_dir(split, s as int) == first);
            lemma_cells_follow_seeds(copies@, items@, groups, split, dist@, s);
            lemma_seeds_grow(copies@, items@, groups, split, s + 1, total);
            assert(lists(r@).len() == r.len());
        }
        let base: usize = r.len();
        let cells: Vec<Vec<usize>> = cluster_group(
            copies,
            items,
            &group.members,
            first,
            &pool,
            &ranks,
            dist,
            base,
        );
        append_lists(&mut r, cells);
        assert(lists(r@) == all_cells(copies@, items@, groups, split, dist@, s + 1));
        if split {
            proof {
                assert(stratum_group(groups, split, (s + 1) as int) == groups[g as int]);
                assert(stratum_dir(split, (s + 1) as int) == Some(true));
                lemma_cells_follow_seeds(copies@, items@, groups, split, dist@, s + 1);
                lemma_seeds_grow(copies@, items@, groups, split, s + 2, total);
                assert(lists(r@).len() == r.len());
            }
            let base180: usize = r.len();
            let cells180: Vec<Vec<usize>> = cluster_group(
                copies,
                items,
                &group.members,
                Some(true),
                &pool180,
                &ranks,
                dist,
                base180,
            );
            append_lists(&mut r, cells180);
            assert(lists(r@) == all_cells(copies@, items@, groups, split, dist@, s + 2));
        }
        g = g + 1;
    }
    assert(groups.take(g as int) =~= groups);
    proof {
        assert(copies.len() <= usize::MAX);
        lemma_cells_face(copies@, items@, groups, split, dist@, total);
        assert forall|c: int| 0 <= c < r.len() implies cell_uniform(
            copies@,
            (#[trigger] r[c])@,
            split,
        ) by {
            assert(lists(r@)[c] == r[c]@);
        }
    }
    r
}

} // verus!
