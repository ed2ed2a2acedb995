//! What clustering guarantees: whole garments.
use crate::cluster::anchor;
use crate::cluster::by_x;
use crate::cluster::chunks;
use crate::cluster::fill;
use crate::cluster::group_cells;
use crate::cluster::is_nearest;
use crate::cluster::lemma_anchor_member;
use crate::cluster::lemma_chunks;
use crate::cluster::lemma_whole_cells;
use crate::cluster::members_usable;
use crate::cluster::put;
use crate::cluster::seeds;
use crate::cluster::whole_cells;
use crate::cluster::with_members;
use crate::cluster::x_ranks;
use crate::cluster::Fill;
use crate::grouped::ItemType;
use crate::grouped::OrientationGroup;
use crate::grouped::PlacedCopy;
use crate::layout::facing;
use crate::layout::garments_turned;
use crate::layout::group_consistent;
use crate::layout::lemma_positions;
use crate::layout::positions;
use crate::layout::selected;
use crate::order::lemma_by_rank;
use crate::order::lemma_by_rank_members;
use crate::scalar::F32;
use vstd::prelude::*;

verus! {

/// Number of copies of item `id` in a cell.
pub open spec fn held(copies: Seq<PlacedCopy>, cell: Seq<usize>, id: usize) -> nat
    decreases cell.len(),
{
    if cell.len() == 0 {
        0
    } else {
        held(copies, cell.drop_last(), id) + if copies[cell.last() as int].item_id == id {
            1nat
        } else {
            0nat
        }
    }
}

/// No copy stands in two places.
pub open spec fn cells_disjoint(cells: Seq<Seq<usize>>) -> bool {
    &&& forall|i: int| 0 <= i < cells.len() ==> (#[trigger] cells[i]).no_duplicates()
    &&& forall|i: int, j: int, p: usize|
        0 <= i < cells.len() && 0 <= j < cells.len() && i != j && #[trigger] cells[i].contains(p)
            ==> !(#[trigger] cells[j].contains(p))
}

/// Copy `p` stands in one of the cells.
pub open spec fn in_cells(cells: Seq<Seq<usize>>, p: usize) -> bool {
    exists|i: int| 0 <= i < cells.len() && (#[trigger] cells[i]).contains(p)
}

/// The members of a group name different items.
pub open spec fn members_distinct(members: Seq<(usize, usize)>) -> bool {
    forall|i: int, j: int|
        0 <= i < members.len() && 0 <= j < members.len() && i != j ==> (#[trigger] members[i]).0 != (
        #[trigger] members[j]).0
}

/// Item `id` is a member.
pub open spec fn is_member(members: Seq<(usize, usize)>, id: usize) -> bool {
    exists|m: int| 0 <= m < members.len() && (#[trigger] members[m]).0 == id
}

/// The cells are garments of a group, made of exactly its copies that face `dir`: every cell
/// holds each member's copies per garment and nothing else, no copy stands in two cells, and
/// every copy of a member stands in one.
pub open spec fn whole_garments(
    copies: Seq<PlacedCopy>,
    members: Seq<(usize, usize)>,
    dir: Option<bool>,
    cells: Seq<Seq<usize>>,
) -> bool {
    &&& cells_disjoint(cells)
    &&& forall|p: usize| #[trigger]
        in_cells(cells, p) <==> p < copies.len() && is_member(members, copies[p as int].item_id)
            && selected(copies[p as int], copies[p as int].item_id, dir)
    &&& forall|c: int, m: int|
        0 <= c < cells.len() && 0 <= m < members.len() ==> held(
            copies,
            #[trigger] cells[c],
            (#[trigger] members[m]).0,
        ) == members[m].1
}

/// The room left in all cells.
pub open spec fn total_room(room: Seq<nat>) -> nat
    decreases room.len(),
{
    if room.len() == 0 {
        0
    } else {
        total_room(room.drop_last()) + room.last()
    }
}

proof fn lemma_total_room_update(room: Seq<nat>, i: int)
    requires
        0 <= i < room.len(),
        room[i] > 0,
    ensures
        total_room(room.update(i, (room[i] - 1) as nat)) == total_room(room) - 1,
        total_room(room) > 0,
    decreases room.len(),
{
    let less = room.update(i, (room[i] - 1) as nat);
    if i == room.len() - 1 {
        assert(less.drop_last() =~= room.drop_last());
    } else {
        assert(less.drop_last() =~= room.drop_last().update(i, (room[i] - 1) as nat));
        lemma_total_room_update(room.drop_last(), i);
    }
}

pub(crate) proof fn lemma_no_room(room: Seq<nat>)
    ensures
        total_room(room) == 0 <==> forall|i: int| 0 <= i < room.len() ==> room[i] == 0,
    decreases room.len(),
{
    if room.len() > 0 {
        lemma_no_room(room.drop_last());
        assert(forall|i: int| 0 <= i < room.len() - 1 ==> room.drop_last()[i] == room[i]);
        if total_room(room) != 0 && total_room(room.drop_last()) != 0 {
            let i = choose|i: int| 0 <= i < room.len() - 1 && room.drop_last()[i] != 0;
            assert(room[i] != 0);
        }
    }
}

proof fn lemma_total_room_even(n: nat, k: nat)
    ensures
        total_room(Seq::new(n, |i: int| k)) == n * k,
    decreases n,
{
    let room = Seq::new(n, |i: int| k);
    if n > 0 {
        assert(room.drop_last() =~= Seq::new((n - 1) as nat, |i: int| k));
        lemma_total_room_even((n - 1) as nat, k);
        assert(n * k == (n - 1) * k + k) by (nonlinear_arith)
            requires
                n > 0,
        ;
    } else {
        assert(0 * k == 0) by (nonlinear_arith);
    }
}

/// As long as some cell has room there is a nearest one.
pub(crate) proof fn lemma_nearest_exists(dist: Seq<Vec<F32>>, base: int, p: usize, room: Seq<nat>)
    requires
        total_room(room) > 0,
    ensures
        exists|i: int| is_nearest(dist, base, p, room, i),
    decreases room.len(),
{
    let shorter = room.drop_last();
    let last = room.len() - 1;
    assert(forall|j: int| 0 <= j < last ==> shorter[j] == room[j]);
    if total_room(shorter) == 0 {
        lemma_no_room(shorter);
        assert(is_nearest(dist, base, p, room, last)) by {
            assert forall|j: int| 0 <= j < room.len() && #[trigger] room[j]
                > 0 implies dist[base + last]@[p as int].total() <= dist[base
                + j]@[p as int].total() by {
                assert(j < last ==> shorter[j] == 0);
            }
            assert forall|j: int| 0 <= j < last && #[trigger] room[j] > 0 implies dist[base
                + last]@[p as int].total() < dist[base + j]@[p as int].total() by {
                assert(shorter[j] == 0);
            }
        }
    } else {
        lemma_nearest_exists(dist, base, p, shorter);
        let i = choose|i: int| is_nearest(dist, base, p, shorter, i);
        assert(is_nearest(dist, base, p, shorter, i));
        if room[last] > 0 && dist[base + last]@[p as int].total() < dist[base
            + i]@[p as int].total() {
            assert(is_nearest(dist, base, p, room, last)) by {
                assert forall|j: int| 0 <= j < last && #[trigger] room[j] > 0 implies dist[base
                    + last]@[p as int].total() < dist[base + j]@[p as int].total() by {
                    assert(shorter[j] > 0);
                }
            }
        } else {
            assert(is_nearest(dist, base, p, room, i)) by {
                assert forall|j: int| 0 <= j < room.len() && #[trigger] room[j]
                    > 0 implies dist[base + i]@[p as int].total() <= dist[base
                    + j]@[p as int].total() by {
                    if j < last {
                        assert(shorter[j] > 0);
                    }
                }
                assert forall|j: int| 0 <= j < i && #[trigger] room[j] > 0 implies dist[base
                    + i]@[p as int].total() < dist[base + j]@[p as int].total() by {
                    assert(shorter[j] > 0);
                }
            }
        }
    }
}

/// Adding one copy to one cell.
proof fn lemma_cells_push(cells: Seq<Seq<usize>>, i: int, p: usize)
    requires
        cells_disjoint(cells),
        0 <= i < cells.len(),
        !in_cells(cells, p),
    ensures
        cells_disjoint(cells.update(i, cells[i].push(p))),
        forall|q: usize|
            #[trigger] in_cells(cells.update(i, cells[i].push(p)), q) <==> in_cells(cells, q) || q
                == p,
{
    let more = cells.update(i, cells[i].push(p));
    assert(!cells[i].contains(p));
    assert forall|q: usize| #[trigger] more[i].contains(q) <==> cells[i].contains(q) || q == p by {
        if cells[i].contains(q) {
            let k = choose|k: int| 0 <= k < cells[i].len() && cells[i][k] == q;
            assert(more[i][k] == q);
        }
        if q == p {
            assert(more[i][cells[i].len() as int] == p);
        }
        if more[i].contains(q) {
            let k = choose|k: int| 0 <= k < more[i].len() && more[i][k] == q;
            assert(k < cells[i].len() ==> cells[i][k] == q);
        }
    }
    assert forall|c: int| 0 <= c < more.len() implies (#[trigger] more[c]).no_duplicates() by {
        if c == i {
            assert forall|a: int, b: int|
                0 <= a < more[i].len() && 0 <= b < more[i].len() && a != b implies more[i][a]
                != more[i][b] by {
                assert(a < cells[i].len() ==> more[i][a] == cells[i][a] && cells[i].contains(
                    cells[i][a],
                ));
                assert(b < cells[i].len() ==> more[i][b] == cells[i][b] && cells[i].contains(
                    cells[i][b],
                ));
            }
        } else {
            assert(more[c] == cells[c]);
        }
    }
    assert forall|a: int, b: int, q: usize|
        0 <= a < more.len() && 0 <= b < more.len() && a != b && #[trigger] more[a].contains(
            q,
        ) implies !(#[trigger] more[b].contains(q)) by {
        assert(a != i ==> more[a] == cells[a]);
        assert(b != i ==> more[b] == cells[b]);
        assert(a != i ==> in_cells(cells, q));
        if b == i && a != i {
            assert(cells[a].contains(q));
            assert(!cells[i].contains(q));
        } else if a == i {
            if cells[i].contains(q) {
                assert(!cells[b].contains(q));
            } else {
                assert(q == p);
                assert(!cells[b].contains(p));
            }
        } else {
            assert(cells[a].contains(q));
            assert(!cells[b].contains(q));
        }
    }
    assert forall|q: usize| #[trigger] in_cells(more, q) <==> in_cells(cells, q) || q == p by {
        if in_cells(cells, q) {
            let c = choose|c: int| 0 <= c < cells.len() && (#[trigger] cells[c]).contains(q);
            assert(more[c].contains(q));
        }
        if q == p {
            assert(more[i].contains(p));
        }
        if in_cells(more, q) {
            let c = choose|c: int| 0 <= c < more.len() && (#[trigger] more[c]).contains(q);
            if c != i {
                assert(cells[c].contains(q));
            } else if q != p {
                assert(cells[i].contains(q));
            }
        }
    }
}

/// Filling `n` cells with copies of one item, as long as there is room for all of them.
proof fn lemma_fill(
    copies: Seq<PlacedCopy>,
    dist: Seq<Vec<F32>>,
    base: int,
    start: Fill,
    ids: Seq<usize>,
    id: usize,
    per_garment: nat,
)
    requires
        start.room.len() <= start.cells.len(),
        forall|i: int| 0 <= i < start.room.len() ==> start.room[i] == per_garment,
        ids.len() <= total_room(start.room),
        ids.no_duplicates(),
        forall|i: int|
            0 <= i < ids.len() ==> copies[#[trigger] ids[i] as int].item_id == id && !in_cells(
                start.cells,
                ids[i],
            ),
        cells_disjoint(start.cells),
    ensures
        ({
            let f = fill(dist, base, start, ids);
            &&& f.room.len() == start.room.len()
            &&& f.cells.len() == start.cells.len()
            &&& total_room(f.room) == total_room(start.room) - ids.len()
            &&& cells_disjoint(f.cells)
            &&& forall|q: usize| #[trigger]
                in_cells(f.cells, q) <==> in_cells(start.cells, q) || ids.contains(q)
            &&& forall|c: int|
                0 <= c < f.room.len() ==> held(copies, #[trigger] f.cells[c], id) + f.room[c] == held(
                    copies,
                    start.cells[c],
                    id,
                ) + per_garment
            &&& forall|c: int, other: usize|
                0 <= c < f.cells.len() && other != id ==> #[trigger] held(copies, f.cells[c], other)
                    == held(copies, start.cells[c], other)
        }),
    decreases ids.len(),
{
    let f = fill(dist, base, start, ids);
    if ids.len() > 0 {
        let before = ids.drop_last();
        let p = ids.last();
        assert(forall|i: int| 0 <= i < before.len() ==> before[i] == ids[i]);
        lemma_fill(copies, dist, base, start, before, id, per_garment);
        let g = fill(dist, base, start, before);
        lemma_nearest_exists(dist, base, p, g.room);
        let i = choose|i: int| is_nearest(dist, base, p, g.room, i);
        assert(is_nearest(dist, base, p, g.room, i));
        assert(f == put(dist, base, g, p));
        assert(!before.contains(p)) by {
            if before.contains(p) {
                let k = choose|k: int| 0 <= k < before.len() && before[k] == p;
                assert(ids[k] == ids[ids.len() - 1]);
            }
        }
        assert(!in_cells(start.cells, ids[ids.len() - 1]));
        assert(!in_cells(g.cells, p));
        lemma_cells_push(g.cells, i, p);
        lemma_total_room_update(g.room, i);
        assert(f.cells[i].drop_last() =~= g.cells[i]);
        assert(copies[p as int].item_id == id);
        assert forall|q: usize| #[trigger] in_cells(f.cells, q) <==> in_cells(start.cells, q)
            || ids.contains(q) by {
            if before.contains(q) {
                let k = choose|k: int| 0 <= k < before.len() && before[k] == q;
                assert(ids[k] == q);
            }
            if ids.contains(q) && q != p {
                let k = choose|k: int| 0 <= k < ids.len() && ids[k] == q;
                assert(before[k] == q);
            }
            assert(ids[ids.len() - 1] == p);
        }
        assert forall|c: int| 0 <= c < f.room.len() implies held(copies, #[trigger] f.cells[c], id)
            + f.room[c] == held(copies, start.cells[c], id) + per_garment by {
            assert(held(copies, g.cells[c], id) + g.room[c] == held(copies, start.cells[c], id)
                + per_garment);
        }
        assert forall|c: int, other: usize|
            0 <= c < f.cells.len() && other != id implies #[trigger] held(copies, f.cells[c], other)
            == held(copies, start.cells[c], other) by {
            assert(held(copies, g.cells[c], other) == held(copies, start.cells[c], other));
        }
    }
}

/// Filling cells puts no copy into two of them, whether or not there is room for all.
proof fn lemma_fill_disjoint(dist: Seq<Vec<F32>>, base: int, start: Fill, ids: Seq<usize>)
    requires
        start.room.len() <= start.cells.len(),
        ids.no_duplicates(),
        forall|i: int| 0 <= i < ids.len() ==> !in_cells(start.cells, #[trigger] ids[i]),
        cells_disjoint(start.cells),
    ensures
        fill(dist, base, start, ids).room.len() == start.room.len(),
        fill(dist, base, start, ids).cells.len() == start.cells.len(),
        cells_disjoint(fill(dist, base, start, ids).cells),
        forall|q: usize| #[trigger]
            in_cells(fill(dist, base, start, ids).cells, q) ==> in_cells(start.cells, q)
                || ids.contains(q),
    decreases ids.len(),
{
    if ids.len() > 0 {
        let f = fill(dist, base, start, ids);
        let before = ids.drop_last();
        let p = ids.last();
        assert(forall|i: int| 0 <= i < before.len() ==> before[i] == ids[i]);
        assert(ids[ids.len() - 1] == p);
        lemma_fill_disjoint(dist, base, start, before);
        let g = fill(dist, base, start, before);
        assert(!before.contains(p)) by {
            if before.contains(p) {
                let k = choose|k: int| 0 <= k < before.len() && before[k] == p;
                assert(ids[k] == ids[ids.len() - 1]);
            }
        }
        assert(!in_cells(g.cells, p));
        if exists|i: int| is_nearest(dist, base, p, g.room, i) {
            let i = choose|i: int| is_nearest(dist, base, p, g.room, i);
            lemma_cells_push(g.cells, i, p);
        }
        assert forall|q: usize| #[trigger] in_cells(f.cells, q) implies in_cells(start.cells, q)
            || ids.contains(q) by {
            if in_cells(g.cells, q) {
                if before.contains(q) {
                    let k = choose|k: int| 0 <= k < before.len() && before[k] == q;
                    assert(ids[k] == q);
                }
            }
        }
    }
}

/// An empty cell changes nothing.
proof fn lemma_cells_open(cells: Seq<Seq<usize>>)
    requires
        cells_disjoint(cells),
    ensures
        cells_disjoint(cells.push(Seq::empty())),
        forall|q: usize| #[trigger] in_cells(cells.push(Seq::empty()), q) <==> in_cells(cells, q),
{
    let more = cells.push(Seq::<usize>::empty());
    assert(forall|c: int| 0 <= c < cells.len() ==> more[c] == cells[c]);
    assert(forall|q: usize| !more[cells.len() as int].contains(q));
    assert forall|c: int| 0 <= c < more.len() implies (#[trigger] more[c]).no_duplicates() by {
        if c < cells.len() {
            assert(cells[c].no_duplicates());
        }
    }
    assert forall|a: int, b: int, q: usize|
        0 <= a < more.len() && 0 <= b < more.len() && a != b && #[trigger] more[a].contains(
            q,
        ) implies !(#[trigger] more[b].contains(q)) by {
        if a < cells.len() && b < cells.len() {
            assert(cells[a].contains(q));
            assert(!cells[b].contains(q));
        }
    }
    assert forall|q: usize| #[trigger] in_cells(more, q) <==> in_cells(cells, q) by {
        if in_cells(cells, q) {
            let c = choose|c: int| 0 <= c < cells.len() && (#[trigger] cells[c]).contains(q);
            assert(more[c].contains(q));
        }
        if in_cells(more, q) {
            let c = choose|c: int| 0 <= c < more.len() && (#[trigger] more[c]).contains(q);
            assert(cells[c].contains(q));
        }
    }
}

/// The chunks of a list of copies of one item.
pub(crate) proof fn lemma_chunk_cells(copies: Seq<PlacedCopy>, s: Seq<usize>, size: nat, id: usize)
    requires
        size > 0,
        s.no_duplicates(),
        forall|i: int| 0 <= i < s.len() ==> copies[#[trigger] s[i] as int].item_id == id,
    ensures
        cells_disjoint(chunks(s, size)),
        forall|q: usize| #[trigger] in_cells(chunks(s, size), q) <==> s.contains(q),
        forall|c: int|
            0 <= c < chunks(s, size).len() ==> held(copies, #[trigger] chunks(s, size)[c], id)
                == chunks(s, size)[c].len(),
        forall|c: int, other: usize|
            0 <= c < chunks(s, size).len() && other != id ==> #[trigger] held(
                copies,
                chunks(s, size)[c],
                other,
            ) == 0,
    decreases s.len(),
{
    let all = chunks(s, size);
    if s.len() == 0 {
        assert(all.len() == 0);
    } else {
        let shorter = s.drop_last();
        let p = s.last();
        assert(forall|i: int| 0 <= i < shorter.len() ==> shorter[i] == s[i]);
        assert(s[s.len() - 1] == p);
        lemma_chunk_cells(copies, shorter, size, id);
        let before = chunks(shorter, size);
        assert(!shorter.contains(p)) by {
            if shorter.contains(p) {
                let k = choose|k: int| 0 <= k < shorter.len() && shorter[k] == p;
                assert(s[k] == s[s.len() - 1]);
            }
        }
        let last = all.len() - 1;
        if before.len() == 0 || before.last().len() >= size {
            lemma_cells_open(before);
            let open = before.push(Seq::<usize>::empty());
            lemma_cells_push(open, before.len() as int, p);
            assert(open[before.len() as int].push(p) =~= seq![p]);
            assert(all =~= open.update(before.len() as int, open[before.len() as int].push(p)));
            assert(all[last].drop_last() =~= Seq::<usize>::empty());
        } else {
            lemma_cells_push(before, before.len() - 1, p);
            assert(all[last].drop_last() =~= before[last]);
        }
        assert(all[last].last() == p);
        reveal_with_fuel(held, 2);
        assert(forall|c: int| 0 <= c < last ==> all[c] == before[c]);
        assert forall|q: usize| #[trigger] in_cells(all, q) <==> s.contains(q) by {
            if shorter.contains(q) {
                let k = choose|k: int| 0 <= k < shorter.len() && shorter[k] == q;
                assert(s[k] == q);
            }
            if s.contains(q) && q != p {
                let k = choose|k: int| 0 <= k < s.len() && s[k] == q;
                assert(shorter[k] == q);
            }
        }
        assert forall|c: int| 0 <= c < all.len() implies held(copies, #[trigger] all[c], id)
            == all[c].len() by {
            if c < last {
                assert(held(copies, before[c], id) == before[c].len());
            } else if last < before.len() {
                assert(held(copies, before[last], id) == before[last].len());
            }
        }
        assert forall|c: int, other: usize|
            0 <= c < all.len() && other != id implies #[trigger] held(copies, all[c], other)
            == 0 by {
            if c < last {
                assert(held(copies, before[c], other) == 0);
            } else if last < before.len() {
                assert(held(copies, before[last], other) == 0);
            }
        }
    }
}

/// How many copies of item `id` each cell holds once the listed members are in.
pub open spec fn wanted(anchor: (usize, usize), members: Seq<(usize, usize)>, id: usize) -> nat
    decreases members.len(),
{
    if id == anchor.0 {
        anchor.1 as nat
    } else if members.len() == 0 {
        0
    } else if members.last().0 == id {
        members.last().1 as nat
    } else {
        wanted(anchor, members.drop_last(), id)
    }
}

proof fn lemma_wanted(anchor: (usize, usize), members: Seq<(usize, usize)>)
    requires
        members_distinct(members),
    ensures
        forall|m: int|
            0 <= m < members.len() && members[m].0 != anchor.0 ==> wanted(
                anchor,
                members,
                (#[trigger] members[m]).0,
            ) == members[m].1,
    decreases members.len(),
{
    if members.len() > 0 {
        let shorter = members.drop_last();
        assert(forall|m: int| 0 <= m < shorter.len() ==> shorter[m] == members[m]);
        assert(members_distinct(shorter));
        lemma_wanted(anchor, shorter);
        assert forall|m: int| 0 <= m < members.len() && members[m].0 != anchor.0 implies wanted(
            anchor,
            members,
            (#[trigger] members[m]).0,
        ) == members[m].1 by {
            if m < shorter.len() {
                assert(shorter[m].0 != anchor.0);
                assert(members[m].0 != members[members.len() - 1].0);
            }
        }
    }
}

/// The cells after the listed members were put in: as [`whole_garments`], for the anchor and
/// those members.
proof fn lemma_with_members(
    copies: Seq<PlacedCopy>,
    dir: Option<bool>,
    dist: Seq<Vec<F32>>,
    base: int,
    anchor: (usize, usize),
    n_cells: nat,
    cells: Seq<Seq<usize>>,
    members: Seq<(usize, usize)>,
)
    requires
        copies.len() <= usize::MAX,
        members_distinct(members),
        n_cells == cells.len(),
        cells_disjoint(cells),
        forall|q: usize| #[trigger]
            in_cells(cells, q) <==> positions(copies, anchor.0, dir).contains(q),
        forall|c: int, id: usize|
            0 <= c < cells.len() ==> #[trigger] held(copies, cells[c], id) == wanted(
                anchor,
                Seq::empty(),
                id,
            ),
        forall|m: int|
            0 <= m < members.len() && members[m].0 != anchor.0 ==> positions(
                copies,
                (#[trigger] members[m]).0,
                dir,
            ).len() == n_cells * members[m].1,
    ensures
        ({
            let out = with_members(copies, dir, dist, base, anchor.0, n_cells, cells, members);
            &&& out.len() == cells.len()
            &&& cells_disjoint(out)
            &&& forall|q: usize| #[trigger]
                in_cells(out, q) <==> q < copies.len() && (copies[q as int].item_id == anchor.0
                    || is_member(members, copies[q as int].item_id)) && selected(
                    copies[q as int],
                    copies[q as int].item_id,
                    dir,
                )
            &&& forall|c: int, id: usize|
                0 <= c < out.len() ==> #[trigger] held(copies, out[c], id) == wanted(
                    anchor,
                    members,
                    id,
                )
        }),
    decreases members.len(),
{
    let out = with_members(copies, dir, dist, base, anchor.0, n_cells, cells, members);
    lemma_positions(copies, anchor.0, dir);
    if members.len() > 0 {
        let shorter = members.drop_last();
        let (id, per_garment) = members.last();
        assert(members[members.len() - 1] == members.last());
        assert(forall|m: int| 0 <= m < shorter.len() ==> shorter[m] == members[m]);
        assert(members_distinct(shorter));
        assert forall|m: int| 0 <= m < shorter.len() && shorter[m].0 != anchor.0 implies positions(
            copies,
            (#[trigger] shorter[m]).0,
            dir,
        ).len() == n_cells * shorter[m].1 by {
            assert(members[m].0 != anchor.0);
        }
        lemma_with_members(copies, dir, dist, base, anchor, n_cells, cells, shorter);
        let before = with_members(copies, dir, dist, base, anchor.0, n_cells, cells, shorter);
        assert forall|other: usize| is_member(members, other) <==> is_member(shorter, other)
            || other == id by {
            if is_member(shorter, other) {
                let m = choose|m: int| 0 <= m < shorter.len() && (#[trigger] shorter[m]).0 == other;
                assert(members[m].0 == other);
            }
            if is_member(members, other) {
                let m = choose|m: int| 0 <= m < members.len() && (#[trigger] members[m]).0 == other;
                if m < shorter.len() {
                    assert(shorter[m].0 == other);
                }
            }
        }
        if id != anchor.0 {
            let ids = positions(copies, id, dir);
            lemma_positions(copies, id, dir);
            lemma_by_rank(ids, x_ranks(copies));
            lemma_by_rank_members(ids, x_ranks(copies));
            let sorted = by_x(copies, ids);
            let start = Fill { room: Seq::new(n_cells, |i: int| per_garment as nat), cells: before };
            lemma_total_room_even(n_cells, per_garment as nat);
            assert(!is_member(shorter, id)) by {
                if is_member(shorter, id) {
                    let m = choose|m: int| 0 <= m < shorter.len() && (#[trigger] shorter[m]).0 == id;
                    assert(members[m].0 != members[members.len() - 1].0);
                }
            }
            assert forall|i: int| 0 <= i < sorted.len() implies copies[#[trigger] sorted[i] as int].item_id
                == id && !in_cells(start.cells, sorted[i]) by {
                assert(sorted.contains(sorted[i]));
                assert(ids.contains(sorted[i]));
            }
            lemma_fill(copies, dist, base, start, sorted, id, per_garment as nat);
            let f = fill(dist, base, start, sorted);
            assert(out == f.cells);
            lemma_no_room(f.room);
            assert forall|q: usize| #[trigger] in_cells(out, q) <==> q < copies.len() && (
            copies[q as int].item_id == anchor.0 || is_member(members, copies[q as int].item_id))
                && selected(copies[q as int], copies[q as int].item_id, dir) by {
                assert(in_cells(out, q) <==> in_cells(before, q) || sorted.contains(q));
                assert(sorted.contains(q) <==> ids.contains(q));
                assert(ids.contains(q) <==> q < copies.len() && selected(
                    copies[q as int],
                    id,
                    dir,
                ));
            }
            assert forall|c: int, other: usize| 0 <= c < out.len() implies #[trigger] held(
                copies,
                out[c],
                other,
            ) == wanted(anchor, members, other) by {
                assert(held(copies, before[c], other) == wanted(anchor, shorter, other));
                if other == id {
                    lemma_wanted_absent(anchor, shorter, id);
                    assert(f.room[c] == 0);
                    assert(held(copies, f.cells[c], id) + f.room[c] == held(
                        copies,
                        start.cells[c],
                        id,
                    ) + per_garment);
                }
            }
        } else {
            assert forall|c: int, other: usize| 0 <= c < out.len() implies #[trigger] held(
                copies,
                out[c],
                other,
            ) == wanted(anchor, members, other) by {
                assert(held(copies, before[c], other) == wanted(anchor, shorter, other));
            }
        }
    }
}

proof fn lemma_wanted_absent(anchor: (usize, usize), members: Seq<(usize, usize)>, id: usize)
    requires
        id != anchor.0,
        !is_member(members, id),
    ensures
        wanted(anchor, members, id) == 0,
    decreases members.len(),
{
    if members.len() > 0 {
        let shorter = members.drop_last();
        assert(members[members.len() - 1].0 != id);
        if is_member(shorter, id) {
            let m = choose|m: int| 0 <= m < shorter.len() && (#[trigger] shorter[m]).0 == id;
            assert(members[m].0 == id);
        }
        lemma_wanted_absent(anchor, shorter, id);
    }
}

pub(crate) proof fn lemma_with_members_disjoint(
    copies: Seq<PlacedCopy>,
    dir: Option<bool>,
    dist: Seq<Vec<F32>>,
    base: int,
    anchor_id: usize,
    n_cells: nat,
    cells: Seq<Seq<usize>>,
    members: Seq<(usize, usize)>,
)
    requires
        copies.len() <= usize::MAX,
        members_distinct(members),
        n_cells <= cells.len(),
        cells_disjoint(cells),
        forall|q: usize| #[trigger]
            in_cells(cells, q) ==> positions(copies, anchor_id, dir).contains(q),
    ensures
        ({
            let out = with_members(copies, dir, dist, base, anchor_id, n_cells, cells, members);
            &&& out.len() == cells.len()
            &&& cells_disjoint(out)
            &&& forall|q: usize| #[trigger]
                in_cells(out, q) ==> q < copies.len() && (copies[q as int].item_id == anchor_id
                    || is_member(members, copies[q as int].item_id)) && selected(
                    copies[q as int],
                    copies[q as int].item_id,
                    dir,
                )
        }),
    decreases members.len(),
{
    lemma_positions(copies, anchor_id, dir);
    if members.len() > 0 {
        let out = with_members(copies, dir, dist, base, anchor_id, n_cells, cells, members);
        let shorter = members.drop_last();
        let (id, per_garment) = members.last();
        assert(members[members.len() - 1] == members.last());
        assert(forall|m: int| 0 <= m < shorter.len() ==> shorter[m] == members[m]);
        assert(members_distinct(shorter));
        lemma_with_members_disjoint(copies, dir, dist, base, anchor_id, n_cells, cells, shorter);
        let before = with_members(copies, dir, dist, base, anchor_id, n_cells, cells, shorter);
        assert forall|other: usize| is_member(shorter, other) implies is_member(members, other) by {
            let m = choose|m: int| 0 <= m < shorter.len() && (#[trigger] shorter[m]).0 == other;
            assert(members[m].0 == other);
        }
        assert(is_member(members, id));
        if id != anchor_id {
            let ids = positions(copies, id, dir);
            lemma_positions(copies, id, dir);
            lemma_by_rank_members(ids, x_ranks(copies));
            let sorted = by_x(copies, ids);
            let start = Fill { room: Seq::new(n_cells, |i: int| per_garment as nat), cells: before };
            assert(!is_member(shorter, id)) by {
                if is_member(shorter, id) {
                    let m = choose|m: int| 0 <= m < shorter.len() && (#[trigger] shorter[m]).0 == id;
                    assert(members[m].0 != members[members.len() - 1].0);
                }
            }
            assert forall|i: int| 0 <= i < sorted.len() implies !in_cells(
                start.cells,
                #[trigger] sorted[i],
            ) by {
                assert(sorted.contains(sorted[i]));
                assert(ids.contains(sorted[i]));
            }
            lemma_fill_disjoint(dist, base, start, sorted);
            assert(out == fill(dist, base, start, sorted).cells);
            assert forall|q: usize| #[trigger] in_cells(out, q) implies q < copies.len() && (
            copies[q as int].item_id == anchor_id || is_member(members, copies[q as int].item_id))
                && selected(copies[q as int], copies[q as int].item_id, dir) by {
                if !in_cells(before, q) {
                    assert(sorted.contains(q));
                    assert(ids.contains(q));
                }
            }
        }
    }
}

/// Clustering puts no copy into two cells, and only copies of members that face `dir` into any,
/// however many copies there are of each.
pub proof fn lemma_clusters_disjoint(
    copies: Seq<PlacedCopy>,
    items: Seq<ItemType>,
    members: Seq<(usize, usize)>,
    dir: Option<bool>,
    dist: Seq<Vec<F32>>,
    base: int,
)
    requires
        copies.len() <= usize::MAX,
        members_usable(members, items.len()),
        members_distinct(members),
    ensures
        cells_disjoint(group_cells(copies, items, members, dir, dist, base)),
        forall|q: usize| #[trigger]
            in_cells(group_cells(copies, items, members, dir, dist, base), q) ==> q < copies.len()
                && is_member(members, copies[q as int].item_id) && selected(
                copies[q as int],
                copies[q as int].item_id,
                dir,
            ),
{
    lemma_anchor_member(items, members);
    let a = anchor(items, members);
    let i = choose|i: int| 0 <= i < members.len() && members[i] == a;
    assert(members[i].0 == a.0);
    assert(is_member(members, a.0));
    let ids = positions(copies, a.0, dir);
    lemma_positions(copies, a.0, dir);
    lemma_by_rank_members(ids, x_ranks(copies));
    let sorted = by_x(copies, ids);
    assert forall|k: int| 0 <= k < sorted.len() implies copies[#[trigger] sorted[k] as int].item_id
        == a.0 by {
        assert(sorted.contains(sorted[k]));
        assert(ids.contains(sorted[k]));
    }
    let cells = seeds(copies, items, members, dir);
    lemma_chunk_cells(copies, sorted, a.1 as nat, a.0);
    lemma_whole_cells(copies, items, members, dir);
    assert forall|q: usize| #[trigger] in_cells(cells, q) implies ids.contains(q) by {
        assert(sorted.contains(q));
    }
    lemma_with_members_disjoint(
        copies,
        dir,
        dist,
        base,
        a.0,
        whole_cells(copies, items, members, dir),
        cells,
        members,
    );
}

proof fn lemma_even_chunks(k: int, rest: int, n: int, size: int)
    requires
        size > 0,
        n > 0,
        k > 0,
        0 < rest <= size,
        (k - 1) * size + rest == n * size,
    ensures
        k == n,
        rest == size,
{
    assert(k - 1 < n) by (nonlinear_arith)
        requires
            size > 0,
            0 < rest,
            (k - 1) * size + rest == n * size,
    ;
    assert(n <= k) by (nonlinear_arith)
        requires
            size > 0,
            rest <= size,
            (k - 1) * size + rest == n * size,
    ;
    assert((n - 1) * size + size == n * size) by (nonlinear_arith);
}

/// Where every member has its copies for `n` garments among the copies that face `dir`,
/// clustering them yields exactly `n` whole garments.
pub proof fn lemma_clusters_are_garments(
    copies: Seq<PlacedCopy>,
    items: Seq<ItemType>,
    members: Seq<(usize, usize)>,
    dir: Option<bool>,
    dist: Seq<Vec<F32>>,
    base: int,
    n: nat,
)
    requires
        copies.len() <= usize::MAX,
        members_usable(members, items.len()),
        members_distinct(members),
        forall|m: int|
            0 <= m < members.len() ==> positions(copies, (#[trigger] members[m]).0, dir).len() == n
                * members[m].1,
    ensures
        group_cells(copies, items, members, dir, dist, base).len() == n,
        whole_garments(
            copies,
            members,
            dir,
            group_cells(copies, items, members, dir, dist, base),
        ),
{
    lemma_anchor_member(items, members);
    let a = anchor(items, members);
    let i = choose|i: int| 0 <= i < members.len() && members[i] == a;
    let size = a.1 as nat;
    let ids = positions(copies, a.0, dir);
    assert(ids.len() == n * size) by {
        assert(members[i] == a);
    }
    lemma_positions(copies, a.0, dir);
    lemma_by_rank(ids, x_ranks(copies));
    lemma_by_rank_members(ids, x_ranks(copies));
    let sorted = by_x(copies, ids);
    assert forall|k: int| 0 <= k < sorted.len() implies copies[#[trigger] sorted[k] as int].item_id
        == a.0 by {
        assert(sorted.contains(sorted[k]));
        assert(ids.contains(sorted[k]));
    }
    assert(whole_cells(copies, items, members, dir) == n) by {
        assert((n * size) / size == n) by (nonlinear_arith)
            requires
                size > 0,
        ;
    }
    let cells = seeds(copies, items, members, dir);
    lemma_chunks(sorted, size);
    lemma_chunk_cells(copies, sorted, size, a.0);
    if n == 0 {
        assert(0 * size == 0) by (nonlinear_arith);
        assert(sorted.len() == 0);
        assert(cells.len() == 0);
    } else {
        assert(n * size > 0) by (nonlinear_arith)
            requires
                n > 0,
                size > 0,
        ;
        lemma_even_chunks(cells.len() as int, cells.last().len() as int, n as int, size as int);
    }
    assert forall|c: int, id: usize| 0 <= c < cells.len() implies #[trigger] held(
        copies,
        cells[c],
        id,
    ) == wanted(a, Seq::empty(), id) by {
        if id == a.0 {
            assert(held(copies, cells[c], id) == cells[c].len());
            if c < cells.len() - 1 {
                assert(cells[c].len() == size);
            }
        }
    }
    assert forall|q: usize| #[trigger] in_cells(cells, q) <==> ids.contains(q) by {
        assert(sorted.contains(q) <==> ids.contains(q));
    }
    lemma_with_members(copies, dir, dist, base, a, n, cells, members);
    lemma_wanted(a, members);
    let out = group_cells(copies, items, members, dir, dist, base);
    assert(is_member(members, a.0));
    assert forall|c: int, m: int| 0 <= c < out.len() && 0 <= m < members.len() implies held(
        copies,
        #[trigger] out[c],
        (#[trigger] members[m]).0,
    ) == members[m].1 by {
        if members[m].0 == a.0 && m != i {
            assert(members[m].0 != members[i].0);
        }
    }
}

/// The copies of item `id` in the first `n` cells of class `dir`.
spec fn class_members(
    copies: Seq<PlacedCopy>,
    cells: Seq<Seq<usize>>,
    class: Seq<bool>,
    id: usize,
    dir: bool,
    n: nat,
) -> Set<usize> {
    Set::new(
        |p: usize|
            exists|c: int|
                0 <= c < n && (#[trigger] cells[c]).contains(p) && class[c] == dir
                    && copies[p as int].item_id == id,
    )
}

/// How many of the first `n` cells are of class `dir`.
pub open spec fn n_class(class: Seq<bool>, dir: bool, n: nat) -> nat
    decreases n,
{
    if n == 0 {
        0
    } else {
        n_class(class, dir, (n - 1) as nat) + if class[n - 1] == dir {
            1nat
        } else {
            0nat
        }
    }
}

proof fn lemma_n_class(class: Seq<bool>, n: nat)
    ensures
        n_class(class, true, n) + n_class(class, false, n) == n,
    decreases n,
{
    if n > 0 {
        lemma_n_class(class, (n - 1) as nat);
    }
}

/// The copies of one item in a cell, as a set.
pub(crate) proof fn lemma_held_set(copies: Seq<PlacedCopy>, cell: Seq<usize>, id: usize) -> (r: Set<usize>)
    requires
        cell.no_duplicates(),
    ensures
        r.finite(),
        r.len() == held(copies, cell, id),
        forall|p: usize| #[trigger]
            r.contains(p) <==> cell.contains(p) && copies[p as int].item_id == id,
    decreases cell.len(),
{
    if cell.len() == 0 {
        Set::empty()
    } else {
        let shorter = cell.drop_last();
        assert(forall|k: int| 0 <= k < shorter.len() ==> shorter[k] == cell[k]);
        let before = lemma_held_set(copies, shorter, id);
        let p = cell.last();
        assert(!shorter.contains(p)) by {
            if shorter.contains(p) {
                let k = choose|k: int| 0 <= k < shorter.len() && shorter[k] == p;
                assert(cell[k] == cell[cell.len() - 1]);
            }
        }
        let r = if copies[p as int].item_id == id {
            before.insert(p)
        } else {
            before
        };
        assert forall|q: usize| #[trigger] r.contains(q) <==> cell.contains(q)
            && copies[q as int].item_id == id by {
            if shorter.contains(q) {
                let k = choose|k: int| 0 <= k < shorter.len() && shorter[k] == q;
                assert(cell[k] == q);
            }
            if cell.contains(q) && q != p {
                let k = choose|k: int| 0 <= k < cell.len() && cell[k] == q;
                assert(shorter[k] == q);
            }
            assert(cell[cell.len() - 1] == p);
        }
        r
    }
}

proof fn lemma_class_members(
    copies: Seq<PlacedCopy>,
    cells: Seq<Seq<usize>>,
    class: Seq<bool>,
    id: usize,
    dir: bool,
    per_garment: nat,
    n: nat,
)
    requires
        n <= cells.len(),
        cells_disjoint(cells),
        forall|c: int| 0 <= c < cells.len() ==> held(copies, #[trigger] cells[c], id) == per_garment,
    ensures
        class_members(copies, cells, class, id, dir, n).finite(),
        class_members(copies, cells, class, id, dir, n).len() == n_class(class, dir, n)
            * per_garment,
    decreases n,
{
    let all = class_members(copies, cells, class, id, dir, n);
    if n == 0 {
        assert(all =~= Set::empty());
        assert(0 * per_garment == 0) by (nonlinear_arith);
    } else {
        let k = (n - 1) as nat;
        lemma_class_members(copies, cells, class, id, dir, per_garment, k);
        let before = class_members(copies, cells, class, id, dir, k);
        let last = lemma_held_set(copies, cells[k as int], id);
        if class[k as int] == dir {
            assert(all =~= before.union(last)) by {
                assert forall|p: usize| all.contains(p) <==> before.union(last).contains(p) by {
                    if last.contains(p) {
                        assert(cells[k as int].contains(p));
                    }
                    if before.contains(p) {
                        let c = choose|c: int|
                            0 <= c < k && (#[trigger] cells[c]).contains(p) && class[c] == dir
                                && copies[p as int].item_id == id;
                        assert(cells[c].contains(p));
                    }
                }
            }
            assert(before.disjoint(last)) by {
                assert forall|p: usize| !(before.contains(p) && last.contains(p)) by {
                    if before.contains(p) && last.contains(p) {
                        let c = choose|c: int|
                            0 <= c < k && (#[trigger] cells[c]).contains(p) && class[c] == dir
                                && copies[p as int].item_id == id;
                        assert(cells[c].contains(p));
                        assert(cells[k as int].contains(p));
                    }
                }
            }
            vstd::set_lib::lemma_set_disjoint_lens(before, last);
            assert((n_class(class, dir, k) + 1) * per_garment == n_class(class, dir, k)
                * per_garment + per_garment) by (nonlinear_arith);
        } else {
            assert(all =~= before) by {
                assert forall|p: usize| all.contains(p) <==> before.contains(p) by {
                    if all.contains(p) {
                        let c = choose|c: int|
                            0 <= c < n && (#[trigger] cells[c]).contains(p) && class[c] == dir
                                && copies[p as int].item_id == id;
                        assert(c < k && cells[c].contains(p));
                    }
                    if before.contains(p) {
                        let c = choose|c: int|
                            0 <= c < k && (#[trigger] cells[c]).contains(p) && class[c] == dir
                                && copies[p as int].item_id == id;
                        assert(cells[c].contains(p));
                    }
                }
            }
        }
    }
}

/// A group whose copies form whole garments, each facing one direction, is consistent: as
/// many garments are turned as there are cells of that class.
pub proof fn lemma_uniform_garments_consistent(
    copies: Seq<PlacedCopy>,
    group: OrientationGroup,
    cells: Seq<Seq<usize>>,
    class: Seq<bool>,
)
    requires
        copies.len() <= usize::MAX,
        whole_garments(copies, group.members@, None, cells),
        cells.len() == group.quantity,
        class.len() == cells.len(),
        forall|c: int, p: usize|
            0 <= c < cells.len() && #[trigger] cells[c].contains(p) ==> copies[p as int].dir180
                == class[c],
    ensures
        garments_turned(copies, group, n_class(class, true, class.len()) as int),
        group_consistent(copies, group),
{
    let n = cells.len();
    let turned = n_class(class, true, n) as int;
    lemma_n_class(class, n);
    assert forall|m: int|
        #![trigger group.members@[m]]
        0 <= m < group.members@.len() implies {
        let (id, per_garment) = group.members@[m];
        &&& facing(copies, id, true) == turned * per_garment
        &&& facing(copies, id, false) == (group.quantity - turned) * per_garment
    } by {
        let (id, per_garment) = group.members@[m];
        assert forall|dir: bool| facing(copies, id, dir) == #[trigger] n_class(class, dir, n)
            * per_garment by {
            lemma_class_members(copies, cells, class, id, dir, per_garment as nat, n);
            let set = class_members(copies, cells, class, id, dir, n);
            let ids = positions(copies, id, Some(dir));
            lemma_positions(copies, id, Some(dir));
            assert(ids.to_set() =~= set) by {
                assert forall|p: usize| ids.to_set().contains(p) <==> set.contains(p) by {
                    if ids.contains(p) {
                        assert(is_member(group.members@, id));
                        assert(in_cells(cells, p));
                        let c = choose|c: int|
                            0 <= c < cells.len() && (#[trigger] cells[c]).contains(p);
                        assert(cells[c].contains(p));
                    }
                    if set.contains(p) {
                        let c = choose|c: int|
                            0 <= c < n && (#[trigger] cells[c]).contains(p) && class[c] == dir
                                && copies[p as int].item_id == id;
                        assert(cells[c].contains(p));
                        assert(in_cells(cells, p));
                    }
                }
            }
            ids.unique_seq_to_set();
        }
        assert(facing(copies, id, true) == n_class(class, true, n) * per_garment);
        assert(facing(copies, id, false) == n_class(class, false, n) * per_garment);
        assert(n_class(class, false, n) == group.quantity - turned);
    }
    assert(garments_turned(copies, group, turned));
}

} // verus!
