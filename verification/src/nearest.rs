//! What clustering guarantees: every copy goes to the nearest cell that has room for it.
use crate::cluster::all_cells;
use crate::cluster::all_seeds;
use crate::cluster::anchor;
use crate::cluster::by_x;
use crate::cluster::fill;
use crate::cluster::group_cells;
use crate::cluster::groups_usable;
use crate::cluster::is_anchor;
use crate::cluster::is_nearest;
use crate::cluster::lemma_anchor_member;
use crate::cluster::lemma_chunks;
use crate::cluster::lemma_seeds_left_to_right;
use crate::cluster::lemma_whole_cells;
use crate::cluster::lemma_with_members_len;
use crate::cluster::members_usable;
use crate::cluster::n_strata;
use crate::cluster::put;
use crate::cluster::seeds;
use crate::cluster::stratum_dir;
use crate::cluster::stratum_group;
use crate::cluster::whole_cells;
use crate::cluster::with_members;
use crate::cluster::x_ranks;
use crate::cluster::Fill;
use crate::garments::cells_disjoint;
use crate::garments::held;
use crate::garments::in_cells;
use crate::garments::is_member;
use crate::garments::lemma_chunk_cells;
use crate::garments::lemma_clusters_disjoint;
use crate::garments::lemma_held_set;
use crate::garments::lemma_nearest_exists;
use crate::garments::lemma_no_room;
use crate::garments::lemma_with_members_disjoint;
use crate::garments::members_distinct;
use crate::garments::total_room;
use crate::grouped::ItemType;
use crate::grouped::OrientationGroup;
use crate::grouped::PlacedCopy;
use crate::layout::lemma_positions;
use crate::layout::positions;
use crate::layout::selected;
use crate::order::lemma_by_rank;
use crate::order::lemma_by_rank_members;
use crate::order::lemma_ranks_rise;
use crate::partition::items_disjoint;
use crate::partition::lemma_all_cells_disjoint;
use crate::partition::lemma_block;
use crate::scalar::F32;
use vstd::prelude::*;

verus! {

/// The cell takes no more copies of item `id`, and those it holds are among `early`.
spec fn full_of(
    copies: Seq<PlacedCopy>,
    cell: Seq<usize>,
    id: usize,
    per_garment: nat,
    early: Seq<usize>,
) -> bool {
    &&& held(copies, cell, id) == per_garment
    &&& forall|q: usize| #[trigger] cell.contains(q) && copies[q as int].item_id == id
        ==> early.contains(q)
}

/// Copy `p` would go to cell `j` before it goes to cell `i`.
spec fn preferred(dist: Seq<Vec<F32>>, base: int, p: usize, j: int, i: int) -> bool {
    let (to_j, to_i) = (dist[base + j]@[p as int].total(), dist[base + i]@[p as int].total());
    to_j < to_i || (to_j == to_i && j < i)
}

/// The copies `ids` of item `id` stand in the first `n` cells as if each had gone, in turn, to
/// the cell it prefers among those with room.
spec fn served_in_turn(
    copies: Seq<PlacedCopy>,
    dist: Seq<Vec<F32>>,
    base: int,
    n: nat,
    cells: Seq<Seq<usize>>,
    id: usize,
    per_garment: nat,
    ids: Seq<usize>,
) -> bool {
    &&& n <= cells.len()
    &&& forall|c: int|
        0 <= c < n ==> held(copies, #[trigger] cells[c], id) <= per_garment
    &&& forall|c: int, q: usize|
        0 <= c < cells.len() && #[trigger] cells[c].contains(q) && copies[q as int].item_id == id
            ==> c < n && ids.contains(q)
    &&& forall|k: int, i: int, j: int|
        #![trigger cells[i].contains(ids[k]), cells[j]]
        0 <= k < ids.len() && 0 <= i < n && 0 <= j < n && cells[i].contains(ids[k])
            && preferred(dist, base, ids[k], j, i) ==> full_of(
            copies,
            cells[j],
            id,
            per_garment,
            ids.take(k),
        )
    &&& forall|k: int, j: int|
        #![trigger in_cells(cells, ids[k]), cells[j]]
        0 <= k < ids.len() && 0 <= j < n && !in_cells(cells, ids[k]) ==> full_of(
            copies,
            cells[j],
            id,
            per_garment,
            ids.take(k),
        )
}

/// The copies of one item stand in the same cells of both lists.
spec fn same_copies(
    copies: Seq<PlacedCopy>,
    cells: Seq<Seq<usize>>,
    more: Seq<Seq<usize>>,
    id: usize,
) -> bool {
    &&& cells.len() == more.len()
    &&& forall|c: int|
        0 <= c < cells.len() ==> held(copies, #[trigger] more[c], id) == held(copies, cells[c], id)
    &&& forall|c: int, q: usize|
        #![trigger more[c].contains(q)]
        0 <= c < cells.len() && copies[q as int].item_id == id ==> (more[c].contains(q)
            <==> cells[c].contains(q))
}

/// Every cell of the one list goes on from that of the other.
spec fn cells_extend(cells: Seq<Seq<usize>>, more: Seq<Seq<usize>>) -> bool {
    &&& cells.len() == more.len()
    &&& forall|c: int|
        0 <= c < cells.len() ==> (#[trigger] more[c]).len() >= cells[c].len() && more[c].take(
            cells[c].len() as int,
        ) == cells[c]
}

proof fn lemma_push_contains(cell: Seq<usize>, p: usize, q: usize)
    ensures
        cell.push(p).contains(q) <==> cell.contains(q) || q == p,
{
    let more = cell.push(p);
    if cell.contains(q) {
        let k = choose|k: int| 0 <= k < cell.len() && cell[k] == q;
        assert(more[k] == q);
    }
    if more.contains(q) {
        let k = choose|k: int| 0 <= k < more.len() && more[k] == q;
        assert(k < cell.len() ==> cell[k] == q);
    }
    assert(more[cell.len() as int] == p);
}

/// Filling leaves the copies of other items where they are, and takes nothing out of a cell.
proof fn lemma_fill_keeps(
    copies: Seq<PlacedCopy>,
    dist: Seq<Vec<F32>>,
    base: int,
    start: Fill,
    ids: Seq<usize>,
    id: usize,
    other: usize,
)
    requires
        start.room.len() <= start.cells.len(),
        forall|k: int| 0 <= k < ids.len() ==> copies[#[trigger] ids[k] as int].item_id == id,
    ensures
        fill(dist, base, start, ids).room.len() == start.room.len(),
        cells_extend(start.cells, fill(dist, base, start, ids).cells),
        other != id ==> same_copies(
            copies,
            start.cells,
            fill(dist, base, start, ids).cells,
            other,
        ),
    decreases ids.len(),
{
    let f = fill(dist, base, start, ids);
    if ids.len() > 0 {
        let before = ids.drop_last();
        let p = ids.last();
        assert(forall|k: int| 0 <= k < before.len() ==> before[k] == ids[k]);
        assert(ids[ids.len() - 1] == p);
        lemma_fill_keeps(copies, dist, base, start, before, id, other);
        let g = fill(dist, base, start, before);
        if exists|i: int| is_nearest(dist, base, p, g.room, i) {
            let i = choose|i: int| is_nearest(dist, base, p, g.room, i);
            assert(f.cells == g.cells.update(i, g.cells[i].push(p)));
            assert(f.cells[i].drop_last() =~= g.cells[i]);
            assert forall|c: int| 0 <= c < start.cells.len() implies (
            #[trigger] f.cells[c]).len() >= start.cells[c].len() && f.cells[c].take(
                start.cells[c].len() as int,
            ) == start.cells[c] by {
                assert(g.cells[c].len() >= start.cells[c].len());
                assert(f.cells[c].take(start.cells[c].len() as int) =~= g.cells[c].take(
                    start.cells[c].len() as int,
                ));
            }
            if other != id {
                assert forall|c: int| 0 <= c < start.cells.len() implies held(
                    copies,
                    #[trigger] f.cells[c],
                    other,
                ) == held(copies, start.cells[c], other) by {
                    assert(held(copies, g.cells[c], other) == held(copies, start.cells[c], other));
                }
                assert forall|c: int, q: usize|
                    0 <= c < start.cells.len() && copies[q as int].item_id == other implies (
                #[trigger] f.cells[c].contains(q) <==> start.cells[c].contains(q)) by {
                    assert(g.cells[c].contains(q) <==> start.cells[c].contains(q));
                    lemma_push_contains(g.cells[i], p, q);
                }
            }
        }
    } else {
        assert forall|c: int| 0 <= c < start.cells.len() implies (#[trigger] f.cells[c]).take(
            start.cells[c].len() as int,
        ) == start.cells[c] by {
            assert(f.cells[c].take(start.cells[c].len() as int) =~= start.cells[c]);
        }
    }
}

/// One more copy, put where it prefers to go among the cells with room.
proof fn lemma_serve_one(
    copies: Seq<PlacedCopy>,
    dist: Seq<Vec<F32>>,
    base: int,
    g: Fill,
    f: Fill,
    ids: Seq<usize>,
    id: usize,
    per_garment: nat,
)
    requires
        ids.len() > 0,
        ids.no_duplicates(),
        forall|k: int| 0 <= k < ids.len() ==> copies[#[trigger] ids[k] as int].item_id == id,
        g.room.len() <= g.cells.len(),
        forall|c: int|
            0 <= c < g.room.len() ==> held(copies, #[trigger] g.cells[c], id) + g.room[c]
                == per_garment,
        served_in_turn(
            copies,
            dist,
            base,
            g.room.len(),
            g.cells,
            id,
            per_garment,
            ids.drop_last(),
        ),
        f == put(dist, base, g, ids.last()),
    ensures
        f.room.len() == g.room.len(),
        f.cells.len() == g.cells.len(),
        forall|c: int|
            0 <= c < f.room.len() ==> held(copies, #[trigger] f.cells[c], id) + f.room[c]
                == per_garment,
        served_in_turn(copies, dist, base, f.room.len(), f.cells, id, per_garment, ids),
{
    let n = g.room.len();
    let before = ids.drop_last();
    let last = ids.len() - 1;
    let p = ids.last();
    assert(ids[last] == p);
    assert(forall|k: int| 0 <= k < last ==> before[k] == ids[k]);
    assert forall|k: int| 0 <= k < last implies #[trigger] before.take(k) == ids.take(k) by {
        assert(before.take(k) =~= ids.take(k));
    }
    assert(ids.take(last) =~= before);
    assert(!before.contains(p)) by {
        if before.contains(p) {
            let k = choose|k: int| 0 <= k < before.len() && before[k] == p;
            assert(ids[k] == ids[last]);
        }
    }
    assert forall|q: usize| before.contains(q) implies ids.contains(q) by {
        let k = choose|k: int| 0 <= k < before.len() && before[k] == q;
        assert(ids[k] == q);
    }
    assert forall|c: int| 0 <= c < g.cells.len() implies !(#[trigger] g.cells[c]).contains(p) by {
        if g.cells[c].contains(p) {
            assert(before.contains(p));
        }
    }
    if exists|i: int| is_nearest(dist, base, p, g.room, i) {
        let at = choose|i: int| is_nearest(dist, base, p, g.room, i);
        assert(is_nearest(dist, base, p, g.room, at));
        assert(f.cells == g.cells.update(at, g.cells[at].push(p)));
        assert(f.cells[at].drop_last() =~= g.cells[at]);
        assert forall|c: int, q: usize| 0 <= c < g.cells.len() implies (#[trigger] f.cells[c].contains(
            q,
        ) <==> g.cells[c].contains(q) || (c == at && q == p)) by {
            lemma_push_contains(g.cells[at], p, q);
        }
        assert forall|c: int| 0 <= c < f.room.len() implies held(copies, #[trigger] f.cells[c], id)
            + f.room[c] == per_garment by {
            assert(held(copies, g.cells[c], id) + g.room[c] == per_garment);
        }
        assert forall|c: int, q: usize|
            0 <= c < f.cells.len() && #[trigger] f.cells[c].contains(q)
                && copies[q as int].item_id == id implies c < n && ids.contains(q) by {
            if g.cells[c].contains(q) {
                assert(before.contains(q));
            } else {
                assert(ids.contains(p));
            }
        }
        // a cell that was full is not the one that takes the copy
        assert forall|j: int, early: Seq<usize>|
            0 <= j < n && #[trigger] full_of(
                copies,
                g.cells[j],
                id,
                per_garment,
                early,
            ) implies f.cells[j] == g.cells[j] by {
            assert(held(copies, g.cells[j], id) + g.room[j] == per_garment);
        }
        assert forall|k: int, i: int, j: int|
            #![trigger f.cells[i].contains(ids[k]), f.cells[j]]
            0 <= k < ids.len() && 0 <= i < n && 0 <= j < n && f.cells[i].contains(ids[k])
                && preferred(dist, base, ids[k], j, i) implies full_of(
            copies,
            f.cells[j],
            id,
            per_garment,
            ids.take(k),
        ) by {
            if k < last {
                assert(ids[k] != p);
                assert(g.cells[i].contains(before[k]));
                assert(full_of(copies, g.cells[j], id, per_garment, before.take(k)));
            } else {
                assert(i == at);
                assert(j != at);
                assert(held(copies, g.cells[j], id) + g.room[j] == per_garment);
                assert(g.room[j] == 0);
                assert forall|q: usize|
                    #[trigger] f.cells[j].contains(q) && copies[q as int].item_id
                        == id implies ids.take(k).contains(q) by {
                    assert(g.cells[j].contains(q));
                }
            }
        }
        assert forall|k: int, j: int|
            #![trigger in_cells(f.cells, ids[k]), f.cells[j]]
            0 <= k < ids.len() && 0 <= j < n && !in_cells(f.cells, ids[k]) implies full_of(
            copies,
            f.cells[j],
            id,
            per_garment,
            ids.take(k),
        ) by {
            if k < last {
                if in_cells(g.cells, before[k]) {
                    let c = choose|c: int|
                        0 <= c < g.cells.len() && (#[trigger] g.cells[c]).contains(before[k]);
                    assert(f.cells[c].contains(ids[k]));
                }
                assert(full_of(copies, g.cells[j], id, per_garment, before.take(k)));
            } else {
                assert(f.cells[at].contains(p));
            }
        }
    } else {
        assert(f == g);
        assert(total_room(g.room) == 0) by {
            if total_room(g.room) > 0 {
                lemma_nearest_exists(dist, base, p, g.room);
            }
        }
        lemma_no_room(g.room);
        assert forall|c: int, q: usize|
            0 <= c < f.cells.len() && #[trigger] f.cells[c].contains(q)
                && copies[q as int].item_id == id implies c < n && ids.contains(q) by {
            assert(before.contains(q));
        }
        assert forall|k: int, i: int, j: int|
            #![trigger f.cells[i].contains(ids[k]), f.cells[j]]
            0 <= k < ids.len() && 0 <= i < n && 0 <= j < n && f.cells[i].contains(ids[k])
                && preferred(dist, base, ids[k], j, i) implies full_of(
            copies,
            f.cells[j],
            id,
            per_garment,
            ids.take(k),
        ) by {
            assert(k < last);
            assert(g.cells[i].contains(before[k]));
        }
        assert forall|k: int, j: int|
            #![trigger in_cells(f.cells, ids[k]), f.cells[j]]
            0 <= k < ids.len() && 0 <= j < n && !in_cells(f.cells, ids[k]) implies full_of(
            copies,
            f.cells[j],
            id,
            per_garment,
            ids.take(k),
        ) by {
            if k < last {
                assert(!in_cells(g.cells, before[k]));
            } else {
                assert(held(copies, g.cells[j], id) + g.room[j] == per_garment);
                assert forall|q: usize|
                    #[trigger] f.cells[j].contains(q) && copies[q as int].item_id
                        == id implies ids.take(k).contains(q) by {
                    assert(g.cells[j].contains(q));
                }
            }
        }
    }
}

/// Filling cells that hold no copy of the item serves its copies in turn.
proof fn lemma_fill_serves(
    copies: Seq<PlacedCopy>,
    dist: Seq<Vec<F32>>,
    base: int,
    start: Fill,
    ids: Seq<usize>,
    id: usize,
    per_garment: nat,
)
    requires
        start.room.len() <= start.cells.len(),
        forall|c: int| 0 <= c < start.room.len() ==> start.room[c] == per_garment,
        ids.no_duplicates(),
        forall|k: int| 0 <= k < ids.len() ==> copies[#[trigger] ids[k] as int].item_id == id,
        forall|c: int, q: usize|
            0 <= c < start.cells.len() && #[trigger] start.cells[c].contains(q)
                ==> copies[q as int].item_id != id,
    ensures
        ({
            let f = fill(dist, base, start, ids);
            &&& f.room.len() == start.room.len()
            &&& f.cells.len() == start.cells.len()
            &&& forall|c: int|
                0 <= c < f.room.len() ==> held(copies, #[trigger] f.cells[c], id) + f.room[c]
                    == per_garment
            &&& served_in_turn(copies, dist, base, f.room.len(), f.cells, id, per_garment, ids)
        }),
    decreases ids.len(),
{
    if ids.len() > 0 {
        let before = ids.drop_last();
        assert(forall|k: int| 0 <= k < before.len() ==> before[k] == ids[k]);
        lemma_fill_serves(copies, dist, base, start, before, id, per_garment);
        lemma_serve_one(
            copies,
            dist,
            base,
            fill(dist, base, start, before),
            fill(dist, base, start, ids),
            ids,
            id,
            per_garment,
        );
    } else {
        assert forall|c: int| 0 <= c < start.room.len() implies held(
            copies,
            #[trigger] start.cells[c],
            id,
        ) == 0 by {
            lemma_none_held(copies, start.cells[c], id);
        }
    }
}

proof fn lemma_none_held(copies: Seq<PlacedCopy>, cell: Seq<usize>, id: usize)
    requires
        forall|q: usize| #[trigger] cell.contains(q) ==> copies[q as int].item_id != id,
    ensures
        held(copies, cell, id) == 0,
    decreases cell.len(),
{
    if cell.len() > 0 {
        let shorter = cell.drop_last();
        assert(cell.contains(cell[cell.len() - 1]));
        assert forall|q: usize| #[trigger] shorter.contains(q) implies copies[q as int].item_id
            != id by {
            let k = choose|k: int| 0 <= k < shorter.len() && shorter[k] == q;
            assert(cell[k] == q);
            assert(cell.contains(q));
        }
        lemma_none_held(copies, shorter, id);
    }
}

/// What holds of the copies of an item goes on to hold where they stay in their cells.
proof fn lemma_same_copies_served(
    copies: Seq<PlacedCopy>,
    dist: Seq<Vec<F32>>,
    base: int,
    n: nat,
    cells: Seq<Seq<usize>>,
    more: Seq<Seq<usize>>,
    id: usize,
    per_garment: nat,
    ids: Seq<usize>,
)
    requires
        served_in_turn(copies, dist, base, n, cells, id, per_garment, ids),
        same_copies(copies, cells, more, id),
        forall|k: int| 0 <= k < ids.len() ==> copies[#[trigger] ids[k] as int].item_id == id,
    ensures
        served_in_turn(copies, dist, base, n, more, id, per_garment, ids),
{
    assert forall|j: int, early: Seq<usize>|
        0 <= j < n && full_of(copies, cells[j], id, per_garment, early) implies #[trigger] full_of(
        copies,
        more[j],
        id,
        per_garment,
        early,
    ) by {
        assert forall|q: usize| #[trigger] more[j].contains(q) && copies[q as int].item_id
            == id implies early.contains(q) by {
            assert(cells[j].contains(q));
        }
    }
    assert forall|c: int| 0 <= c < n implies held(copies, #[trigger] more[c], id) <= per_garment by {
        assert(held(copies, cells[c], id) <= per_garment);
    }
    assert forall|c: int, q: usize|
        0 <= c < more.len() && #[trigger] more[c].contains(q) && copies[q as int].item_id
            == id implies c < n && ids.contains(q) by {
        assert(cells[c].contains(q));
    }
    assert forall|k: int, i: int, j: int|
        #![trigger more[i].contains(ids[k]), more[j]]
        0 <= k < ids.len() && 0 <= i < n && 0 <= j < n && more[i].contains(ids[k]) && preferred(
            dist,
            base,
            ids[k],
            j,
            i,
        ) implies full_of(copies, more[j], id, per_garment, ids.take(k)) by {
        assert(cells[i].contains(ids[k]));
        assert(full_of(copies, cells[j], id, per_garment, ids.take(k)));
    }
    assert forall|k: int, j: int|
        #![trigger in_cells(more, ids[k]), more[j]]
        0 <= k < ids.len() && 0 <= j < n && !in_cells(more, ids[k]) implies full_of(
        copies,
        more[j],
        id,
        per_garment,
        ids.take(k),
    ) by {
        if in_cells(cells, ids[k]) {
            let c = choose|c: int| 0 <= c < cells.len() && (#[trigger] cells[c]).contains(ids[k]);
            assert(more[c].contains(ids[k]));
        }
        assert(full_of(copies, cells[j], id, per_garment, ids.take(k)));
    }
}

/// The copies of an item from left to right are those of its positions, each once.
proof fn lemma_sorted_copies(copies: Seq<PlacedCopy>, id: usize, dir: Option<bool>)
    requires
        copies.len() <= usize::MAX,
    ensures
        by_x(copies, positions(copies, id, dir)).len() == positions(copies, id, dir).len(),
        by_x(copies, positions(copies, id, dir)).no_duplicates(),
        forall|q: usize| #[trigger]
            by_x(copies, positions(copies, id, dir)).contains(q) <==> q < copies.len() && selected(
                copies[q as int],
                id,
                dir,
            ),
        forall|k: int|
            0 <= k < by_x(copies, positions(copies, id, dir)).len() ==> copies[#[trigger] by_x(
                copies,
                positions(copies, id, dir),
            )[k] as int].item_id == id,
{
    let ids = positions(copies, id, dir);
    let sorted = by_x(copies, ids);
    lemma_positions(copies, id, dir);
    lemma_by_rank(ids, x_ranks(copies));
    lemma_by_rank_members(ids, x_ranks(copies));
    assert forall|q: usize| #[trigger] sorted.contains(q) <==> q < copies.len() && selected(
        copies[q as int],
        id,
        dir,
    ) by {
        assert(sorted.contains(q) <==> ids.contains(q));
    }
    assert forall|k: int| 0 <= k < sorted.len() implies copies[#[trigger] sorted[k] as int].item_id
        == id by {
        assert(sorted.contains(sorted[k]));
    }
}

/// Putting members in takes nothing out of a cell, and leaves the anchor's copies where they are.
proof fn lemma_with_members_keeps(
    copies: Seq<PlacedCopy>,
    dir: Option<bool>,
    dist: Seq<Vec<F32>>,
    base: int,
    anchor_id: usize,
    n_cells: nat,
    cells: Seq<Seq<usize>>,
    members: Seq<(usize, usize)>,
)
    requires
        copies.len() <= usize::MAX,
        n_cells <= cells.len(),
    ensures
        cells_extend(
            cells,
            with_members(copies, dir, dist, base, anchor_id, n_cells, cells, members),
        ),
        same_copies(
            copies,
            cells,
            with_members(copies, dir, dist, base, anchor_id, n_cells, cells, members),
            anchor_id,
        ),
    decreases members.len(),
{
    let out = with_members(copies, dir, dist, base, anchor_id, n_cells, cells, members);
    if members.len() > 0 {
        let shorter = members.drop_last();
        lemma_with_members_keeps(copies, dir, dist, base, anchor_id, n_cells, cells, shorter);
        let before = with_members(copies, dir, dist, base, anchor_id, n_cells, cells, shorter);
        let (id, per_garment) = members.last();
        if id != anchor_id {
            let start = Fill { room: Seq::new(n_cells, |i: int| per_garment as nat), cells: before };
            let sorted = by_x(copies, positions(copies, id, dir));
            lemma_sorted_copies(copies, id, dir);
            lemma_fill_keeps(copies, dist, base, start, sorted, id, anchor_id);
            assert(out == fill(dist, base, start, sorted).cells);
            assert forall|c: int| 0 <= c < cells.len() implies (#[trigger] out[c]).len()
                >= cells[c].len() && out[c].take(cells[c].len() as int) == cells[c] by {
                assert(before[c].take(cells[c].len() as int) == cells[c]);
                assert(out[c].take(before[c].len() as int) == before[c]);
                assert(out[c].take(cells[c].len() as int) =~= out[c].take(
                    before[c].len() as int,
                ).take(cells[c].len() as int));
            }
            assert forall|c: int, q: usize|
                #![trigger out[c].contains(q)]
                0 <= c < cells.len() && copies[q as int].item_id == anchor_id implies (
            out[c].contains(q) <==> cells[c].contains(q)) by {
                assert(before[c].contains(q) <==> cells[c].contains(q));
            }
        }
    } else {
        assert forall|c: int| 0 <= c < cells.len() implies (#[trigger] out[c]).take(
            cells[c].len() as int,
        ) == cells[c] by {
            assert(out[c].take(cells[c].len() as int) =~= cells[c]);
        }
    }
}

/// Every member but the anchor is served in turn.
proof fn lemma_members_served(
    copies: Seq<PlacedCopy>,
    dir: Option<bool>,
    dist: Seq<Vec<F32>>,
    base: int,
    anchor_id: usize,
    n_cells: nat,
    cells: Seq<Seq<usize>>,
    members: Seq<(usize, usize)>,
    m: int,
)
    requires
        copies.len() <= usize::MAX,
        members_distinct(members),
        n_cells <= cells.len(),
        cells_disjoint(cells),
        forall|q: usize| #[trigger]
            in_cells(cells, q) ==> positions(copies, anchor_id, dir).contains(q),
        0 <= m < members.len(),
        members[m].0 != anchor_id,
    ensures
        served_in_turn(
            copies,
            dist,
            base,
            n_cells,
            with_members(copies, dir, dist, base, anchor_id, n_cells, cells, members),
            members[m].0,
            members[m].1 as nat,
            by_x(copies, positions(copies, members[m].0, dir)),
        ),
    decreases members.len(),
{
    let out = with_members(copies, dir, dist, base, anchor_id, n_cells, cells, members);
    let shorter = members.drop_last();
    let last = members.len() - 1;
    let (id, per_garment) = members[last];
    assert(members.last() == members[last]);
    assert(forall|k: int| 0 <= k < last ==> shorter[k] == members[k]);
    assert(members_distinct(shorter));
    let before = with_members(copies, dir, dist, base, anchor_id, n_cells, cells, shorter);
    lemma_with_members_len(copies, dir, dist, base, anchor_id, n_cells, cells, shorter);
    let start = Fill { room: Seq::new(n_cells, |i: int| per_garment as nat), cells: before };
    let sorted = by_x(copies, positions(copies, id, dir));
    lemma_sorted_copies(copies, id, dir);
    if m == last {
        lemma_with_members_disjoint(copies, dir, dist, base, anchor_id, n_cells, cells, shorter);
        assert(!is_member(shorter, id)) by {
            if is_member(shorter, id) {
                let k = choose|k: int| 0 <= k < shorter.len() && (#[trigger] shorter[k]).0 == id;
                assert(members[k].0 != members[last].0);
            }
        }
        assert forall|c: int, q: usize|
            0 <= c < before.len() && #[trigger] before[c].contains(q) implies copies[q as int].item_id
            != id by {
            assert(in_cells(before, q));
        }
        lemma_fill_serves(copies, dist, base, start, sorted, id, per_garment as nat);
    } else {
        let own = members[m].0;
        assert(shorter[m] == members[m]);
        lemma_members_served(
            copies,
            dir,
            dist,
            base,
            anchor_id,
            n_cells,
            cells,
            shorter,
            m,
        );
        if id != anchor_id {
            assert(members[m].0 != members[last].0);
            lemma_fill_keeps(copies, dist, base, start, sorted, id, own);
            lemma_sorted_copies(copies, own, dir);
            lemma_same_copies_served(
                copies,
                dist,
                base,
                n_cells,
                before,
                out,
                own,
                members[m].1 as nat,
                by_x(copies, positions(copies, own, dir)),
            );
        }
    }
}

/// A chunk is full exactly if it is one of the whole ones.
proof fn lemma_full_chunks(len: nat, size: nat, n_chunks: nat, rest: nat, c: int)
    requires
        size > 0,
        0 <= c < n_chunks,
        0 < rest <= size,
        len == (n_chunks - 1) * size + rest,
    ensures
        c < len / size <==> c < n_chunks - 1 || rest == size,
{
    let k = n_chunks - 1;
    assert(len / size >= k) by (nonlinear_arith)
        requires
            len == k * size + rest,
            size > 0,
    ;
    if rest == size {
        assert(len / size == k + 1) by (nonlinear_arith)
            requires
                len == k * size + size,
                size > 0,
        ;
    } else {
        assert(len / size == k) by (nonlinear_arith)
            requires
                len == k * size + rest,
                0 <= rest < size,
        ;
    }
}

/// The seed cells of a group: they hold the copies of the anchor that face `dir`, each once, and
/// nothing else; none is empty, none holds more than a garment takes, and the full ones come
/// first, as many as whole garments can be made.
pub proof fn lemma_seed_cells(
    copies: Seq<PlacedCopy>,
    items: Seq<ItemType>,
    members: Seq<(usize, usize)>,
    dir: Option<bool>,
)
    requires
        copies.len() <= usize::MAX,
        members_usable(members, items.len()),
    ensures
        cells_disjoint(seeds(copies, items, members, dir)),
        forall|q: usize| #[trigger]
            in_cells(seeds(copies, items, members, dir), q) <==> positions(
                copies,
                anchor(items, members).0,
                dir,
            ).contains(q),
        forall|c: int|
            0 <= c < seeds(copies, items, members, dir).len() ==> {
                let seed = #[trigger] seeds(copies, items, members, dir)[c];
                &&& seed.len() > 0
                &&& held(copies, seed, anchor(items, members).0) == seed.len()
                &&& seed.len() <= anchor(items, members).1
                &&& seed.len() == anchor(items, members).1 <==> c < whole_cells(
                    copies,
                    items,
                    members,
                    dir,
                )
            },
{
    let (id, per_garment) = anchor(items, members);
    lemma_anchor_member(items, members);
    let i = choose|i: int| is_anchor(items, members, i) && members[i] == anchor(items, members);
    assert(members[i].1 > 0);
    let ids = positions(copies, id, dir);
    let sorted = by_x(copies, ids);
    lemma_positions(copies, id, dir);
    lemma_sorted_copies(copies, id, dir);
    let all = seeds(copies, items, members, dir);
    lemma_chunks(sorted, per_garment as nat);
    lemma_chunk_cells(copies, sorted, per_garment as nat, id);
    assert forall|q: usize| #[trigger] in_cells(all, q) <==> ids.contains(q) by {
        assert(in_cells(all, q) <==> sorted.contains(q));
        assert(sorted.contains(q) <==> q < copies.len() && selected(copies[q as int], id, dir));
    }
    assert forall|c: int| 0 <= c < all.len() implies {
        let seed = #[trigger] all[c];
        &&& seed.len() > 0
        &&& held(copies, seed, id) == seed.len()
        &&& seed.len() <= per_garment
        &&& seed.len() == per_garment <==> c < whole_cells(copies, items, members, dir)
    } by {
        assert(held(copies, all[c], id) == all[c].len());
        if sorted.len() == 0 {
            assert(all.len() == 0);
        }
        lemma_full_chunks(
            sorted.len(),
            per_garment as nat,
            all.len(),
            all.last().len(),
            c,
        );
        assert(all[all.len() - 1] == all.last());
    }
}

/// The cells of a group: each starts with a copy of the anchor, those that hold as many of the
/// anchor's copies as a garment takes are the first, and members are served in turn.
proof fn lemma_group_served(
    copies: Seq<PlacedCopy>,
    items: Seq<ItemType>,
    members: Seq<(usize, usize)>,
    dir: Option<bool>,
    dist: Seq<Vec<F32>>,
    base: int,
)
    requires
        copies.len() <= usize::MAX,
        members_usable(members, items.len()),
        members_distinct(members),
    ensures
        cells_extend(
            seeds(copies, items, members, dir),
            group_cells(copies, items, members, dir, dist, base),
        ),
        forall|c: int|
            0 <= c < group_cells(copies, items, members, dir, dist, base).len() ==> {
                let cell = #[trigger] group_cells(copies, items, members, dir, dist, base)[c];
                &&& cell.len() > 0
                &&& cell[0] < copies.len()
                &&& selected(copies[cell[0] as int], anchor(items, members).0, dir)
                &&& held(copies, cell, anchor(items, members).0) == anchor(items, members).1 <==> c
                    < whole_cells(copies, items, members, dir)
            },
        forall|m: int|
            0 <= m < members.len() && members[m].0 != anchor(items, members).0 ==> served_in_turn(
                copies,
                dist,
                base,
                whole_cells(copies, items, members, dir),
                group_cells(copies, items, members, dir, dist, base),
                (#[trigger] members[m]).0,
                members[m].1 as nat,
                by_x(copies, positions(copies, members[m].0, dir)),
            ),
{
    let a = anchor(items, members);
    let first = seeds(copies, items, members, dir);
    let n = whole_cells(copies, items, members, dir);
    let out = group_cells(copies, items, members, dir, dist, base);
    lemma_seed_cells(copies, items, members, dir);
    lemma_whole_cells(copies, items, members, dir);
    lemma_with_members_keeps(copies, dir, dist, base, a.0, n, first, members);
    lemma_positions(copies, a.0, dir);
    assert forall|c: int| 0 <= c < out.len() implies {
        let cell = #[trigger] out[c];
        &&& cell.len() > 0
        &&& cell[0] < copies.len()
        &&& selected(copies[cell[0] as int], a.0, dir)
        &&& held(copies, cell, a.0) == a.1 <==> c < n
    } by {
        let seed = first[c];
        assert(out[c].take(seed.len() as int) == seed);
        assert(out[c][0] == seed[0]);
        assert(first[c].contains(seed[0]));
        assert(in_cells(first, seed[0]));
        assert(positions(copies, a.0, dir).contains(seed[0]));
        assert(held(copies, out[c], a.0) == held(copies, seed, a.0));
    }
    assert forall|m: int| 0 <= m < members.len() && members[m].0 != a.0 implies served_in_turn(
        copies,
        dist,
        base,
        n,
        out,
        (#[trigger] members[m]).0,
        members[m].1 as nat,
        by_x(copies, positions(copies, members[m].0, dir)),
    ) by {
        lemma_members_served(copies, dir, dist, base, a.0, n, first, members, m);
    }
}

/// The group of a stratum.
spec fn group_of_stratum(split: bool, s: int) -> int {
    if split {
        s / 2
    } else {
        s
    }
}

/// Every cell of the whole result is a cell of some stratum; its place there and the number of
/// cells of the strata before add up to its place in the whole result.
proof fn lemma_place(
    copies: Seq<PlacedCopy>,
    items: Seq<ItemType>,
    groups: Seq<OrientationGroup>,
    split: bool,
    dist: Seq<Vec<F32>>,
    n: nat,
    t: int,
) -> (r: (int, int))
    requires
        n <= n_strata(groups, split),
        0 <= t < all_cells(copies, items, groups, split, dist, n).len(),
    ensures
        0 <= r.0 < n,
        ({
            let base = all_cells(copies, items, groups, split, dist, r.0 as nat).len() as int;
            let cells = group_cells(
                copies,
                items,
                groups[group_of_stratum(split, r.0)].members@,
                stratum_dir(split, r.0),
                dist,
                base,
            );
            &&& 0 <= group_of_stratum(split, r.0) < groups.len()
            &&& 0 <= r.1 < cells.len()
            &&& base + r.1 == t
            &&& all_cells(copies, items, groups, split, dist, n)[t] == cells[r.1]
        }),
    decreases n,
{
    let k = (n - 1) as nat;
    let before = all_cells(copies, items, groups, split, dist, k);
    let all = all_cells(copies, items, groups, split, dist, n);
    if t < before.len() {
        assert(all[t] == before[t]);
        lemma_place(copies, items, groups, split, dist, k, t)
    } else {
        assert(stratum_group(groups, split, k as int) == groups[group_of_stratum(
            split,
            k as int,
        )]);
        (k as int, t - before.len())
    }
}

/// The members of one group of disjoint ones are distinct.
proof fn lemma_group_distinct(groups: Seq<OrientationGroup>, g: int)
    requires
        items_disjoint(groups),
        0 <= g < groups.len(),
    ensures
        members_distinct(groups[g].members@),
{
    let members = groups[g].members@;
    assert forall|i: int, j: int|
        0 <= i < members.len() && 0 <= j < members.len() && i != j implies (
    #[trigger] members[i]).0 != (#[trigger] members[j]).0 by {
        assert(groups[g].members@[i].0 != groups[g].members@[j].0);
    }
}

/// Two cells that start with copies of the same item, and in the same direction where those are
/// kept apart, are cells of one stratum.
proof fn lemma_same_stratum(
    copies: Seq<PlacedCopy>,
    items: Seq<ItemType>,
    groups: Seq<OrientationGroup>,
    split: bool,
    a: usize,
    b: usize,
    s: int,
    u: int,
)
    requires
        groups_usable(groups, items.len()),
        items_disjoint(groups),
        0 <= s < n_strata(groups, split),
        0 <= u < n_strata(groups, split),
        selected(
            copies[a as int],
            anchor(items, groups[group_of_stratum(split, s)].members@).0,
            stratum_dir(split, s),
        ),
        is_member(groups[group_of_stratum(split, u)].members@, copies[a as int].item_id),
        split ==> Some(copies[b as int].dir180) == stratum_dir(split, u),
        split ==> copies[a as int].dir180 == copies[b as int].dir180,
    ensures
        s == u,
{
    let (g, h) = (group_of_stratum(split, s), group_of_stratum(split, u));
    assert(members_usable(groups[g].members@, items.len()));
    lemma_anchor_member(items, groups[g].members@);
    let own = anchor(items, groups[g].members@);
    let i = choose|i: int| 0 <= i < groups[g].members@.len() && groups[g].members@[i] == own;
    let id = copies[a as int].item_id;
    let j = choose|j: int|
        0 <= j < groups[h].members@.len() && (#[trigger] groups[h].members@[j]).0 == id;
    if g != h {
        assert(groups[g].members@[i].0 != groups[h].members@[j].0);
    }
}

/// Copies that are early in x order stand to the left.
proof fn lemma_early_is_left(
    copies: Seq<PlacedCopy>,
    id: usize,
    dir: Option<bool>,
    k: int,
    q: usize,
)
    requires
        copies.len() <= usize::MAX,
        0 <= k < by_x(copies, positions(copies, id, dir)).len(),
        by_x(copies, positions(copies, id, dir)).take(k).contains(q),
    ensures
        ({
            let p = by_x(copies, positions(copies, id, dir))[k];
            copies[q as int].x.total() < copies[p as int].x.total() || (copies[q as int].x.total()
                == copies[p as int].x.total() && q < p)
        }),
{
    let ids = positions(copies, id, dir);
    let sorted = by_x(copies, ids);
    let p = sorted[k];
    lemma_sorted_copies(copies, id, dir);
    let i = choose|i: int| 0 <= i < sorted.take(k).len() && sorted.take(k)[i] == q;
    assert(sorted[i] == q);
    lemma_ranks_rise(ids, x_ranks(copies), i, k);
    assert(sorted.contains(p));
    assert(sorted.contains(q));
    assert(x_ranks(copies)[q as int] == copies[q as int].x.total());
    assert(x_ranks(copies)[p as int] == copies[p as int].x.total());
}

/// A full cell holds as many copies of the item as a garment takes, all to the left of `p`.
proof fn lemma_full_of_left(
    copies: Seq<PlacedCopy>,
    cell: Seq<usize>,
    id: usize,
    dir: Option<bool>,
    per_garment: nat,
    k: int,
)
    requires
        copies.len() <= usize::MAX,
        cell.no_duplicates(),
        0 <= k < by_x(copies, positions(copies, id, dir)).len(),
        full_of(
            copies,
            cell,
            id,
            per_garment,
            by_x(copies, positions(copies, id, dir)).take(k),
        ),
    ensures
        ({
            let p = by_x(copies, positions(copies, id, dir))[k];
            Set::new(
                |q: usize|
                    cell.contains(q) && copies[q as int].item_id == id && (
                    copies[q as int].x.total() < copies[p as int].x.total() || (
                    copies[q as int].x.total() == copies[p as int].x.total() && q < p)),
            ).len() == per_garment
        }),
{
    let p = by_x(copies, positions(copies, id, dir))[k];
    let all = lemma_held_set(copies, cell, id);
    let left = Set::new(
        |q: usize|
            cell.contains(q) && copies[q as int].item_id == id && (copies[q as int].x.total()
                < copies[p as int].x.total() || (copies[q as int].x.total()
                == copies[p as int].x.total() && q < p)),
    );
    assert forall|q: usize| all.contains(q) <==> left.contains(q) by {
        if all.contains(q) {
            lemma_early_is_left(copies, id, dir, k, q);
        }
    }
    assert(all =~= left);
}

/// A copy that is put into a cell goes to the nearest one with room, by that cell's own row of
/// the distance table. Cell `r` holds copy `p` of a piece type other than the anchor, which the
/// cells start with; cell `t` is another cell of the same group, with as many copies of the anchor
/// and, where the directions are kept apart, of the same direction. If `t` holds fewer copies of
/// the piece type to the left of `p` than a garment takes, so that it had room when the turn was
/// `p`'s, then `p` is no farther from `r`, by row `r`, than from `t`, by row `t`; and it is nearer
/// to `r` where `t` comes first.
pub proof fn lemma_joins_nearest_cell(
    copies: Seq<PlacedCopy>,
    items: Seq<ItemType>,
    groups: Seq<OrientationGroup>,
    split: bool,
    dist: Seq<Vec<F32>>,
    r: int,
    t: int,
    p: usize,
    g: int,
    m: int,
)
    requires
        copies.len() <= usize::MAX,
        groups_usable(groups, items.len()),
        items_disjoint(groups),
        0 <= r < all_cells(copies, items, groups, split, dist, n_strata(groups, split)).len(),
        0 <= t < all_cells(copies, items, groups, split, dist, n_strata(groups, split)).len(),
        0 <= g < groups.len(),
        0 <= m < groups[g].members@.len(),
        copies[p as int].item_id == groups[g].members@[m].0,
        ({
            let all = all_cells(copies, items, groups, split, dist, n_strata(groups, split));
            let seed = copies[all[r][0] as int].item_id;
            &&& all[r].contains(p)
            &&& copies[p as int].item_id != seed
            &&& copies[all[t][0] as int].item_id == seed
            &&& split ==> copies[all[t][0] as int].dir180 == copies[p as int].dir180
            &&& held(copies, all[t], seed) == held(copies, all[r], seed)
            &&& Set::new(
                |q: usize|
                    all[t].contains(q) && copies[q as int].item_id == groups[g].members@[m].0 && (
                    copies[q as int].x.total() < copies[p as int].x.total() || (
                    copies[q as int].x.total() == copies[p as int].x.total() && q < p)),
            ).len() < groups[g].members@[m].1
        }),
    ensures
        dist[r]@[p as int].total() <= dist[t]@[p as int].total(),
        t < r ==> dist[r]@[p as int].total() < dist[t]@[p as int].total(),
{
    let n = n_strata(groups, split);
    let all = all_cells(copies, items, groups, split, dist, n);
    let (s, i) = lemma_place(copies, items, groups, split, dist, n, r);
    let (u, j) = lemma_place(copies, items, groups, split, dist, n, t);
    let h = group_of_stratum(split, s);
    let members = groups[h].members@;
    let dir = stratum_dir(split, s);
    let base = all_cells(copies, items, groups, split, dist, s as nat).len() as int;
    let cells = group_cells(copies, items, members, dir, dist, base);
    let a = anchor(items, members);
    assert(members_usable(members, items.len()));
    lemma_group_distinct(groups, h);
    lemma_group_served(copies, items, members, dir, dist, base);
    lemma_clusters_disjoint(copies, items, members, dir, dist, base);
    assert(cells[i].contains(p));
    assert(in_cells(cells, p));
    lemma_all_cells_disjoint(copies, items, groups, split, dist, n);
    // the other cell is one of the same stratum
    let other = groups[group_of_stratum(split, u)].members@;
    let far = all_cells(copies, items, groups, split, dist, u as nat).len() as int;
    assert(members_usable(other, items.len()));
    lemma_group_distinct(groups, group_of_stratum(split, u));
    lemma_group_served(copies, items, other, stratum_dir(split, u), dist, far);
    lemma_anchor_member(items, members);
    let e = choose|e: int| 0 <= e < members.len() && members[e] == a;
    assert(members[e].0 == a.0);
    lemma_same_stratum(copies, items, groups, split, all[t][0], p, u, s);
    assert(all[t] == cells[j]);
    // the piece type is a member of this group
    let k = choose|k: int|
        0 <= k < members.len() && (#[trigger] members[k]).0 == copies[p as int].item_id;
    if h != g || k != m {
        assert(groups[h].members@[k].0 != groups[g].members@[m].0);
    }
    let id = members[m].0;
    let sorted = by_x(copies, positions(copies, id, dir));
    let whole = whole_cells(copies, items, members, dir);
    assert(served_in_turn(copies, dist, base, whole, cells, id, members[m].1 as nat, sorted));
    assert(i < whole);
    assert(held(copies, cells[i], a.0) == a.1);
    assert(j < whole);
    lemma_sorted_copies(copies, id, dir);
    assert(sorted.contains(p));
    let at = choose|at: int| 0 <= at < sorted.len() && sorted[at] == p;
    if preferred(dist, base, p, j, i) {
        assert(cells[i].contains(sorted[at]));
        assert(full_of(copies, cells[j], id, members[m].1 as nat, sorted.take(at)));
        assert(all[t].no_duplicates());
        lemma_full_of_left(copies, cells[j], id, dir, members[m].1 as nat, at);
    }
}

/// A copy is left out only where no cell has room: if copy `p` of a piece type other than the
/// anchor stands in no cell, then every cell of its group with a whole garment's copies of the
/// anchor, of its own direction where those are kept apart, holds as many copies of the piece
/// type to the left of `p` as a garment takes.
pub proof fn lemma_left_out_when_full(
    copies: Seq<PlacedCopy>,
    items: Seq<ItemType>,
    groups: Seq<OrientationGroup>,
    split: bool,
    dist: Seq<Vec<F32>>,
    t: int,
    p: usize,
    g: int,
    m: int,
)
    requires
        copies.len() <= usize::MAX,
        groups_usable(groups, items.len()),
        items_disjoint(groups),
        0 <= t < all_cells(copies, items, groups, split, dist, n_strata(groups, split)).len(),
        0 <= g < groups.len(),
        0 <= m < groups[g].members@.len(),
        p < copies.len(),
        copies[p as int].item_id == groups[g].members@[m].0,
        ({
            let all = all_cells(copies, items, groups, split, dist, n_strata(groups, split));
            let (seed, per_garment) = anchor(items, groups[g].members@);
            &&& copies[p as int].item_id != seed
            &&& !in_cells(all, p)
            &&& copies[all[t][0] as int].item_id == seed
            &&& held(copies, all[t], seed) == per_garment
            &&& split ==> copies[all[t][0] as int].dir180 == copies[p as int].dir180
        }),
    ensures
        ({
            let all = all_cells(copies, items, groups, split, dist, n_strata(groups, split));
            Set::new(
                |q: usize|
                    all[t].contains(q) && copies[q as int].item_id == groups[g].members@[m].0 && (
                    copies[q as int].x.total() < copies[p as int].x.total() || (
                    copies[q as int].x.total() == copies[p as int].x.total() && q < p)),
            ).len() == groups[g].members@[m].1
        }),
{
    let n = n_strata(groups, split);
    let all = all_cells(copies, items, groups, split, dist, n);
    let (s, j) = lemma_place(copies, items, groups, split, dist, n, t);
    let h = group_of_stratum(split, s);
    let members = groups[h].members@;
    let dir = stratum_dir(split, s);
    let base = all_cells(copies, items, groups, split, dist, s as nat).len() as int;
    let cells = group_cells(copies, items, members, dir, dist, base);
    let a = anchor(items, members);
    assert(members_usable(members, items.len()));
    lemma_group_distinct(groups, h);
    lemma_group_served(copies, items, members, dir, dist, base);
    lemma_all_cells_disjoint(copies, items, groups, split, dist, n);
    // the cell is one of the group
    let seed = copies[all[t][0] as int].item_id;
    lemma_anchor_member(items, members);
    assert(members_usable(groups[g].members@, items.len()));
    lemma_anchor_member(items, groups[g].members@);
    let e = choose|e: int| 0 <= e < members.len() && members[e] == a;
    let f = choose|f: int|
        0 <= f < groups[g].members@.len() && groups[g].members@[f] == anchor(
            items,
            groups[g].members@,
        );
    assert(groups[h].members@[e].0 == seed);
    if h != g {
        assert(groups[h].members@[e].0 != groups[g].members@[f].0);
    }
    let id = members[m].0;
    let sorted = by_x(copies, positions(copies, id, dir));
    let whole = whole_cells(copies, items, members, dir);
    assert(served_in_turn(copies, dist, base, whole, cells, id, members[m].1 as nat, sorted));
    assert(held(copies, cells[j], a.0) == a.1);
    assert(j < whole);
    lemma_sorted_copies(copies, id, dir);
    assert(selected(copies[p as int], id, dir));
    assert(sorted.contains(p));
    let at = choose|at: int| 0 <= at < sorted.len() && sorted[at] == p;
    lemma_block(copies, items, groups, split, dist, s, n);
    assert(stratum_group(groups, split, s) == groups[h]);
    assert(!in_cells(cells, p)) by {
        if in_cells(cells, p) {
            let c = choose|c: int| 0 <= c < cells.len() && (#[trigger] cells[c]).contains(p);
            assert(all[base + c] == cells[c]);
            assert(all[base + c].contains(p));
        }
    }
    assert(!in_cells(cells, sorted[at]));
    assert(full_of(copies, cells[j], id, members[m].1 as nat, sorted.take(at)));
    assert(all[t].no_duplicates());
    lemma_full_of_left(copies, cells[j], id, dir, members[m].1 as nat, at);
}

/// What a cell holds. It starts with copies of the anchor of a group; every other copy in it is
/// one of that group, and of the same direction where those are kept apart. Only cells with a
/// whole garment's copies of the anchor hold copies of another piece type, and no more of it than
/// a garment takes.
pub proof fn lemma_cell_contents(
    copies: Seq<PlacedCopy>,
    items: Seq<ItemType>,
    groups: Seq<OrientationGroup>,
    split: bool,
    dist: Seq<Vec<F32>>,
    r: int,
) -> (g: int)
    requires
        copies.len() <= usize::MAX,
        groups_usable(groups, items.len()),
        items_disjoint(groups),
        0 <= r < all_cells(copies, items, groups, split, dist, n_strata(groups, split)).len(),
    ensures
        0 <= g < groups.len(),
        all_cells(copies, items, groups, split, dist, n_strata(groups, split))[r].len() > 0,
        ({
            let cell = all_cells(copies, items, groups, split, dist, n_strata(groups, split))[r];
            let (seed, per_garment) = anchor(items, groups[g].members@);
            &&& copies[cell[0] as int].item_id == seed
            &&& forall|p: usize| #[trigger]
                cell.contains(p) ==> {
                    &&& p < copies.len()
                    &&& exists|m: int|
                        0 <= m < groups[g].members@.len() && (#[trigger] groups[g].members@[m]).0
                            == copies[p as int].item_id
                    &&& split ==> copies[p as int].dir180 == copies[cell[0] as int].dir180
                    &&& copies[p as int].item_id != seed ==> held(copies, cell, seed) == per_garment
                }
            &&& forall|m: int|
                0 <= m < groups[g].members@.len() && groups[g].members@[m].0 != seed ==> held(
                    copies,
                    cell,
                    (#[trigger] groups[g].members@[m]).0,
                ) <= groups[g].members@[m].1
        }),
{
    let n = n_strata(groups, split);
    let all = all_cells(copies, items, groups, split, dist, n);
    let (s, i) = lemma_place(copies, items, groups, split, dist, n, r);
    let g = group_of_stratum(split, s);
    let members = groups[g].members@;
    let dir = stratum_dir(split, s);
    let base = all_cells(copies, items, groups, split, dist, s as nat).len() as int;
    let cells = group_cells(copies, items, members, dir, dist, base);
    let a = anchor(items, members);
    let cell = all[r];
    assert(members_usable(members, items.len()));
    lemma_group_distinct(groups, g);
    lemma_group_served(copies, items, members, dir, dist, base);
    lemma_clusters_disjoint(copies, items, members, dir, dist, base);
    let whole = whole_cells(copies, items, members, dir);
    assert(selected(copies[cells[i][0] as int], a.0, dir));
    assert forall|p: usize| #[trigger] cell.contains(p) implies {
        &&& p < copies.len()
        &&& exists|m: int|
            0 <= m < groups[g].members@.len() && (#[trigger] groups[g].members@[m]).0
                == copies[p as int].item_id
        &&& split ==> copies[p as int].dir180 == copies[cell[0] as int].dir180
        &&& copies[p as int].item_id != a.0 ==> held(copies, cell, a.0) == a.1
    } by {
        assert(cells[i].contains(p));
        assert(in_cells(cells, p));
        let m = choose|m: int|
            0 <= m < members.len() && (#[trigger] members[m]).0 == copies[p as int].item_id;
        assert(groups[g].members@[m].0 == copies[p as int].item_id);
        if copies[p as int].item_id != a.0 {
            assert(served_in_turn(
                copies,
                dist,
                base,
                whole,
                cells,
                members[m].0,
                members[m].1 as nat,
                by_x(copies, positions(copies, members[m].0, dir)),
            ));
            assert(i < whole);
        }
    }
    assert forall|m: int| 0 <= m < members.len() && members[m].0 != a.0 implies held(
        copies,
        cell,
        (#[trigger] members[m]).0,
    ) <= members[m].1 by {
        assert(served_in_turn(
            copies,
            dist,
            base,
            whole,
            cells,
            members[m].0,
            members[m].1 as nat,
            by_x(copies, positions(copies, members[m].0, dir)),
        ));
        if i < whole {
            assert(held(copies, cells[i], members[m].0) <= members[m].1);
        } else {
            assert forall|q: usize| #[trigger] cell.contains(q) implies copies[q as int].item_id
                != members[m].0 by {
                assert(cells[i].contains(q));
            }
            lemma_none_held(copies, cell, members[m].0);
        }
    }
    g
}

/// Every garment cell grows out of the seed cell at the same place, to whose centre the row of the
/// distance table at that place belongs: it starts with the copies of the seed cell.
pub proof fn lemma_cells_extend_seeds(
    copies: Seq<PlacedCopy>,
    items: Seq<ItemType>,
    groups: Seq<OrientationGroup>,
    split: bool,
    dist: Seq<Vec<F32>>,
    n: nat,
)
    requires
        copies.len() <= usize::MAX,
        groups_usable(groups, items.len()),
        items_disjoint(groups),
        n <= n_strata(groups, split),
    ensures
        all_cells(copies, items, groups, split, dist, n).len() == all_seeds(
            copies,
            items,
            groups,
            split,
            n,
        ).len(),
        forall|c: int|
            0 <= c < all_seeds(copies, items, groups, split, n).len() ==> {
                let cell = all_cells(copies, items, groups, split, dist, n)[c];
                let seed = #[trigger] all_seeds(copies, items, groups, split, n)[c];
                cell.len() >= seed.len() && cell.take(seed.len() as int) == seed
            },
    decreases n,
{
    if n > 0 {
        let k = (n - 1) as nat;
        lemma_cells_extend_seeds(copies, items, groups, split, dist, k);
        let before = all_cells(copies, items, groups, split, dist, k);
        let seeds_before = all_seeds(copies, items, groups, split, k);
        let g = group_of_stratum(split, k as int);
        let members = groups[g].members@;
        let dir = stratum_dir(split, k as int);
        let base = before.len() as int;
        assert(stratum_group(groups, split, k as int) == groups[g]);
        assert(members_usable(members, items.len()));
        lemma_group_distinct(groups, g);
        lemma_group_served(copies, items, members, dir, dist, base);
        let all = all_cells(copies, items, groups, split, dist, n);
        let first = all_seeds(copies, items, groups, split, n);
        let cells = group_cells(copies, items, members, dir, dist, base);
        assert forall|c: int| 0 <= c < first.len() implies {
            let seed = #[trigger] first[c];
            all[c].len() >= seed.len() && all[c].take(seed.len() as int) == seed
        } by {
            if c < base {
                assert(first[c] == seeds_before[c]);
                assert(all[c] == before[c]);
            } else {
                assert(first[c] == seeds(copies, items, members, dir)[c - base]);
                assert(all[c] == cells[c - base]);
            }
        }
    }
}

proof fn lemma_cells_grow(
    copies: Seq<PlacedCopy>,
    items: Seq<ItemType>,
    groups: Seq<OrientationGroup>,
    split: bool,
    dist: Seq<Vec<F32>>,
    n: nat,
    more: nat,
)
    requires
        n <= more,
    ensures
        all_cells(copies, items, groups, split, dist, n).len() <= all_cells(
            copies,
            items,
            groups,
            split,
            dist,
            more,
        ).len(),
    decreases more,
{
    if n < more {
        lemma_cells_grow(copies, items, groups, split, dist, n, (more - 1) as nat);
    }
}

/// The cells come group by group; where the directions are kept apart, those at 0 degrees come
/// before those at 180 degrees of the same group.
pub proof fn lemma_cells_by_group(
    copies: Seq<PlacedCopy>,
    items: Seq<ItemType>,
    groups: Seq<OrientationGroup>,
    split: bool,
    dist: Seq<Vec<F32>>,
    c: int,
    d: int,
    g: int,
    m: int,
    h: int,
    k: int,
)
    requires
        copies.len() <= usize::MAX,
        groups_usable(groups, items.len()),
        items_disjoint(groups),
        0 <= c < d < all_cells(copies, items, groups, split, dist, n_strata(groups, split)).len(),
        0 <= g < groups.len(),
        0 <= m < groups[g].members@.len(),
        0 <= h < groups.len(),
        0 <= k < groups[h].members@.len(),
        ({
            let all = all_cells(copies, items, groups, split, dist, n_strata(groups, split));
            &&& copies[all[c][0] as int].item_id == groups[g].members@[m].0
            &&& copies[all[d][0] as int].item_id == groups[h].members@[k].0
        }),
    ensures
        g <= h,
        ({
            let all = all_cells(copies, items, groups, split, dist, n_strata(groups, split));
            split && g == h && copies[all[c][0] as int].dir180
                ==> copies[all[d][0] as int].dir180
        }),
{
    let n = n_strata(groups, split);
    let all = all_cells(copies, items, groups, split, dist, n);
    let (s, i) = lemma_place(copies, items, groups, split, dist, n, c);
    let (u, j) = lemma_place(copies, items, groups, split, dist, n, d);
    lemma_starts_with_anchor(copies, items, groups, split, dist, s, i, g, m);
    lemma_starts_with_anchor(copies, items, groups, split, dist, u, j, h, k);
    if u < s {
        lemma_block(copies, items, groups, split, dist, u, n);
        assert(stratum_group(groups, split, u) == groups[group_of_stratum(split, u)]);
        lemma_cells_grow(copies, items, groups, split, dist, (u + 1) as nat, s as nat);
    }
}

proof fn lemma_starts_with_anchor(
    copies: Seq<PlacedCopy>,
    items: Seq<ItemType>,
    groups: Seq<OrientationGroup>,
    split: bool,
    dist: Seq<Vec<F32>>,
    s: int,
    i: int,
    g: int,
    m: int,
)
    requires
        copies.len() <= usize::MAX,
        groups_usable(groups, items.len()),
        items_disjoint(groups),
        0 <= s < n_strata(groups, split),
        0 <= g < groups.len(),
        0 <= m < groups[g].members@.len(),
        ({
            let base = all_cells(copies, items, groups, split, dist, s as nat).len() as int;
            let cells = group_cells(
                copies,
                items,
                groups[group_of_stratum(split, s)].members@,
                stratum_dir(split, s),
                dist,
                base,
            );
            &&& 0 <= i < cells.len()
            &&& copies[cells[i][0] as int].item_id == groups[g].members@[m].0
        }),
    ensures
        g == group_of_stratum(split, s),
        ({
            let base = all_cells(copies, items, groups, split, dist, s as nat).len() as int;
            let cells = group_cells(
                copies,
                items,
                groups[group_of_stratum(split, s)].members@,
                stratum_dir(split, s),
                dist,
                base,
            );
            split ==> copies[cells[i][0] as int].dir180 == (s % 2 == 1)
        }),
{
    let h = group_of_stratum(split, s);
    let members = groups[h].members@;
    let base = all_cells(copies, items, groups, split, dist, s as nat).len() as int;
    assert(members_usable(members, items.len()));
    lemma_group_distinct(groups, h);
    lemma_group_served(copies, items, members, stratum_dir(split, s), dist, base);
    lemma_anchor_member(items, members);
    let e = choose|e: int|
        0 <= e < members.len() && members[e] == anchor(items, members);
    assert(groups[h].members@[e].0 == groups[g].members@[m].0);
}

/// Copies are added to a cell in the order in which they are put in place.
proof fn lemma_fill_in_order(
    copies: Seq<PlacedCopy>,
    dist: Seq<Vec<F32>>,
    base: int,
    start: Fill,
    ids: Seq<usize>,
)
    requires
        start.room.len() <= start.cells.len(),
        ids.no_duplicates(),
    ensures
        ({
            let f = fill(dist, base, start, ids);
            &&& f.room.len() == start.room.len()
            &&& f.cells.len() == start.cells.len()
            &&& forall|c: int| 0 <= c < f.cells.len() ==> (#[trigger] f.cells[c]).len()
                >= start.cells[c].len()
            &&& forall|c: int, k: int|
                #![trigger f.cells[c][k]]
                0 <= c < f.cells.len() && 0 <= k < start.cells[c].len() ==> f.cells[c][k]
                    == start.cells[c][k]
            &&& forall|c: int, k: int|
                #![trigger f.cells[c][k]]
                0 <= c < f.cells.len() && start.cells[c].len() <= k < f.cells[c].len()
                    ==> ids.contains(f.cells[c][k])
            &&& forall|c: int, k: int, l: int, a: int, b: int|
                #![trigger f.cells[c][k], f.cells[c][l], ids[a], ids[b]]
                0 <= c < f.cells.len() && start.cells[c].len() <= k < l < f.cells[c].len() && 0 <= a
                    < ids.len() && 0 <= b < ids.len() && ids[a] == f.cells[c][k] && ids[b]
                    == f.cells[c][l] ==> a < b
        }),
    decreases ids.len(),
{
    let f = fill(dist, base, start, ids);
    if ids.len() > 0 {
        let before = ids.drop_last();
        let last = ids.len() - 1;
        let p = ids.last();
        assert(forall|k: int| 0 <= k < before.len() ==> before[k] == ids[k]);
        assert(ids[last] == p);
        lemma_fill_in_order(copies, dist, base, start, before);
        let g = fill(dist, base, start, before);
        assert forall|q: usize| before.contains(q) implies ids.contains(q) by {
            let k = choose|k: int| 0 <= k < before.len() && before[k] == q;
            assert(ids[k] == q);
        }
        if exists|i: int| is_nearest(dist, base, p, g.room, i) {
            let at = choose|i: int| is_nearest(dist, base, p, g.room, i);
            assert(f.cells == g.cells.update(at, g.cells[at].push(p)));
            assert forall|c: int, k: int| 0 <= c < g.cells.len() && 0 <= k < g.cells[c].len() implies (
            #[trigger] f.cells[c][k]) == g.cells[c][k] by {}
            assert forall|c: int, k: int|
                0 <= c < f.cells.len() && g.cells[c].len() <= k < f.cells[c].len() implies (
            #[trigger] f.cells[c][k]) == p by {}
            assert(ids.contains(p));
            assert forall|c: int, k: int|
                #![trigger f.cells[c][k]]
                0 <= c < f.cells.len() && start.cells[c].len() <= k
                    < f.cells[c].len() implies ids.contains(f.cells[c][k]) by {
                if k < g.cells[c].len() {
                    assert(before.contains(g.cells[c][k]));
                }
            }
            assert forall|c: int, k: int, l: int, a: int, b: int|
                #![trigger f.cells[c][k], f.cells[c][l], ids[a], ids[b]]
                0 <= c < f.cells.len() && start.cells[c].len() <= k < l < f.cells[c].len() && 0 <= a
                    < ids.len() && 0 <= b < ids.len() && ids[a] == f.cells[c][k] && ids[b]
                    == f.cells[c][l] implies a < b by {
                assert(f.cells[c].len() <= g.cells[c].len() + 1);
                assert(before.contains(g.cells[c][k]));
                let x = choose|x: int| 0 <= x < before.len() && before[x] == g.cells[c][k];
                assert(ids[x] == ids[a]);
                if l < g.cells[c].len() {
                    assert(before.contains(g.cells[c][l]));
                    let y = choose|y: int| 0 <= y < before.len() && before[y] == g.cells[c][l];
                    assert(ids[y] == ids[b]);
                    assert(before[a] == g.cells[c][k] && before[b] == g.cells[c][l]);
                } else {
                    assert(ids[b] == ids[last]);
                }
            }
        } else {
            assert forall|c: int, k: int, l: int, a: int, b: int|
                #![trigger f.cells[c][k], f.cells[c][l], ids[a], ids[b]]
                0 <= c < f.cells.len() && start.cells[c].len() <= k < l < f.cells[c].len() && 0 <= a
                    < ids.len() && 0 <= b < ids.len() && ids[a] == f.cells[c][k] && ids[b]
                    == f.cells[c][l] implies a < b by {
                assert(before.contains(g.cells[c][k]));
                let x = choose|x: int| 0 <= x < before.len() && before[x] == g.cells[c][k];
                assert(ids[x] == ids[a]);
                assert(before.contains(g.cells[c][l]));
                let y = choose|y: int| 0 <= y < before.len() && before[y] == g.cells[c][l];
                assert(ids[y] == ids[b]);
                assert(before[a] == g.cells[c][k] && before[b] == g.cells[c][l]);
            }
        }
    }
}

/// Copy `p` stands to the left of copy `q`, or at the same x and was placed first.
spec fn left_of(copies: Seq<PlacedCopy>, p: usize, q: usize) -> bool {
    copies[p as int].x.total() < copies[q as int].x.total() || (copies[p as int].x.total()
        == copies[q as int].x.total() && p < q)
}

/// The copies of a cell: the anchor's first, then member by member, and each from left to right.
spec fn cell_ordered(
    copies: Seq<PlacedCopy>,
    anchor_id: usize,
    members: Seq<(usize, usize)>,
    cell: Seq<usize>,
) -> bool {
    forall|k: int, l: int|
        #![trigger cell[k], cell[l]]
        0 <= k < l < cell.len() ==> {
            let (a, b) = (copies[cell[k] as int].item_id, copies[cell[l] as int].item_id);
            &&& b == anchor_id ==> a == anchor_id
            &&& a == b ==> left_of(copies, cell[k], cell[l])
            &&& forall|m: int, n: int|
                0 <= m < members.len() && 0 <= n < members.len() && (#[trigger] members[m]).0 == a
                    && (#[trigger] members[n]).0 == b && a != anchor_id && b != anchor_id ==> m <= n
        }
}

proof fn lemma_with_members_ordered(
    copies: Seq<PlacedCopy>,
    dir: Option<bool>,
    dist: Seq<Vec<F32>>,
    base: int,
    anchor_id: usize,
    n_cells: nat,
    cells: Seq<Seq<usize>>,
    members: Seq<(usize, usize)>,
)
    requires
        copies.len() <= usize::MAX,
        members_distinct(members),
        n_cells <= cells.len(),
        cells_disjoint(cells),
        forall|q: usize| #[trigger]
            in_cells(cells, q) ==> positions(copies, anchor_id, dir).contains(q),
        forall|c: int|
            0 <= c < cells.len() ==> cell_ordered(
                copies,
                anchor_id,
                Seq::empty(),
                #[trigger] cells[c],
            ),
    ensures
        forall|c: int|
            0 <= c < cells.len() ==> cell_ordered(
                copies,
                anchor_id,
                members,
                #[trigger] with_members(
                    copies,
                    dir,
                    dist,
                    base,
                    anchor_id,
                    n_cells,
                    cells,
                    members,
                )[c],
            ),
    decreases members.len(),
{
    let out = with_members(copies, dir, dist, base, anchor_id, n_cells, cells, members);
    if members.len() == 0 {
        assert(members =~= Seq::empty());
    } else {
        let shorter = members.drop_last();
        let last = members.len() - 1;
        let (id, per_garment) = members[last];
        assert(members.last() == members[last]);
        assert(forall|k: int| 0 <= k < last ==> shorter[k] == members[k]);
        assert(members_distinct(shorter));
        lemma_with_members_ordered(copies, dir, dist, base, anchor_id, n_cells, cells, shorter);
        lemma_with_members_disjoint(copies, dir, dist, base, anchor_id, n_cells, cells, shorter);
        let before = with_members(copies, dir, dist, base, anchor_id, n_cells, cells, shorter);
        lemma_positions(copies, anchor_id, dir);
        // what the cells held before is the anchor's, or an earlier member's
        assert forall|c: int, k: int, m: int|
            #![trigger before[c][k], members[m]]
            0 <= c < before.len() && 0 <= k < before[c].len() && 0 <= m < members.len()
                && members[m].0 == copies[before[c][k] as int].item_id
                && copies[before[c][k] as int].item_id != anchor_id implies m < last && id
            != copies[before[c][k] as int].item_id by {
            assert(before[c].contains(before[c][k]));
            assert(in_cells(before, before[c][k]));
            let e = choose|e: int|
                0 <= e < shorter.len() && (#[trigger] shorter[e]).0
                    == copies[before[c][k] as int].item_id;
            assert(members[e].0 == members[m].0);
            assert(members[e].0 != members[last].0);
        }
        assert forall|c: int| 0 <= c < before.len() implies cell_ordered(
            copies,
            anchor_id,
            members,
            #[trigger] before[c],
        ) by {
            let cell = before[c];
            assert(cell_ordered(copies, anchor_id, shorter, cell));
            assert forall|k: int, l: int|
                #![trigger cell[k], cell[l]]
                0 <= k < l < cell.len() implies {
                let (a, b) = (copies[cell[k] as int].item_id, copies[cell[l] as int].item_id);
                &&& b == anchor_id ==> a == anchor_id
                &&& a == b ==> left_of(copies, cell[k], cell[l])
                &&& forall|m: int, n: int|
                    0 <= m < members.len() && 0 <= n < members.len() && (#[trigger] members[m]).0
                        == a && (#[trigger] members[n]).0 == b && a != anchor_id && b != anchor_id
                        ==> m <= n
            } by {
                let (a, b) = (copies[cell[k] as int].item_id, copies[cell[l] as int].item_id);
                assert forall|m: int, n: int|
                    0 <= m < members.len() && 0 <= n < members.len() && (#[trigger] members[m]).0
                        == a && (#[trigger] members[n]).0 == b && a != anchor_id && b
                        != anchor_id implies m <= n by {
                    assert(before[c][k] == cell[k] && before[c][l] == cell[l]);
                    assert(m < last && n < last);
                    assert(shorter[m].0 == a && shorter[n].0 == b);
                }
            }
        }
        if id != anchor_id {
            let start = Fill { room: Seq::new(n_cells, |i: int| per_garment as nat), cells: before };
            let sorted = by_x(copies, positions(copies, id, dir));
            lemma_sorted_copies(copies, id, dir);
            lemma_fill_in_order(copies, dist, base, start, sorted);
            assert(out == fill(dist, base, start, sorted).cells);
            assert forall|c: int| 0 <= c < out.len() implies cell_ordered(
                copies,
                anchor_id,
                members,
                #[trigger] out[c],
            ) by {
                assert forall|k: int| 0 <= k < before[c].len() implies copies[#[trigger] before[c][k] as int].item_id
                    != id by {
                    assert(before[c].contains(before[c][k]));
                    assert(in_cells(before, before[c][k]));
                    if copies[before[c][k] as int].item_id == id {
                        let e = choose|e: int|
                            0 <= e < shorter.len() && (#[trigger] shorter[e]).0 == id;
                        assert(members[e].0 != members[last].0);
                    }
                }
                lemma_cell_grows_ordered(
                    copies,
                    dir,
                    anchor_id,
                    members,
                    before,
                    out,
                    c,
                );
            }
        }
    }
}

/// A cell in order stays so as the copies of the last member are added from left to right.
proof fn lemma_cell_grows_ordered(
    copies: Seq<PlacedCopy>,
    dir: Option<bool>,
    anchor_id: usize,
    members: Seq<(usize, usize)>,
    before: Seq<Seq<usize>>,
    out: Seq<Seq<usize>>,
    c: int,
)
    requires
        copies.len() <= usize::MAX,
        members.len() > 0,
        members_distinct(members),
        members.last().0 != anchor_id,
        0 <= c < before.len() == out.len(),
        cell_ordered(copies, anchor_id, members, before[c]),
        forall|k: int|
            0 <= k < before[c].len() ==> copies[#[trigger] before[c][k] as int].item_id
                != members.last().0,
        out[c].len() >= before[c].len(),
        forall|k: int| 0 <= k < before[c].len() ==> #[trigger] out[c][k] == before[c][k],
        forall|k: int|
            before[c].len() <= k < out[c].len() ==> by_x(
                copies,
                positions(copies, members.last().0, dir),
            ).contains(#[trigger] out[c][k]),
        forall|k: int, l: int, a: int, b: int|
            #![trigger out[c][k], out[c][l], by_x(copies, positions(copies, members.last().0, dir))[a], by_x(copies, positions(copies, members.last().0, dir))[b]]
            before[c].len() <= k < l < out[c].len() && 0 <= a < by_x(
                copies,
                positions(copies, members.last().0, dir),
            ).len() && 0 <= b < by_x(copies, positions(copies, members.last().0, dir)).len()
                && by_x(copies, positions(copies, members.last().0, dir))[a] == out[c][k] && by_x(
                copies,
                positions(copies, members.last().0, dir),
            )[b] == out[c][l] ==> a < b,
    ensures
        cell_ordered(copies, anchor_id, members, out[c]),
{
    let last = members.len() - 1;
    let id = members[last].0;
    let sorted = by_x(copies, positions(copies, id, dir));
    let was = before[c];
    let cell = out[c];
    lemma_sorted_copies(copies, id, dir);
    assert forall|k: int| was.len() <= k < cell.len() implies copies[#[trigger] cell[k] as int].item_id
        == id by {
        assert(sorted.contains(out[c][k]));
    }
    assert forall|k: int, l: int|
        #![trigger cell[k], cell[l]]
        0 <= k < l < cell.len() implies {
        let (a, b) = (copies[cell[k] as int].item_id, copies[cell[l] as int].item_id);
        &&& b == anchor_id ==> a == anchor_id
        &&& a == b ==> left_of(copies, cell[k], cell[l])
        &&& forall|m: int, n: int|
            0 <= m < members.len() && 0 <= n < members.len() && (#[trigger] members[m]).0 == a && (
            #[trigger] members[n]).0 == b && a != anchor_id && b != anchor_id ==> m <= n
    } by {
        let (a, b) = (copies[cell[k] as int].item_id, copies[cell[l] as int].item_id);
        if l < was.len() {
            assert(out[c][k] == was[k] && out[c][l] == was[l]);
        } else {
            assert(b == id);
            assert forall|n: int| 0 <= n < members.len() && (#[trigger] members[n]).0 == id implies n
                == last by {
                if n != last {
                    assert(members[n].0 != members[last].0);
                }
            }
            if k < was.len() {
                assert(out[c][k] == before[c][k]);
            } else {
                assert(sorted.contains(out[c][k]));
                assert(sorted.contains(out[c][l]));
                let x = choose|x: int| 0 <= x < sorted.len() && sorted[x] == cell[k];
                let y = choose|y: int| 0 <= y < sorted.len() && sorted[y] == cell[l];
                assert(x < y);
                assert(sorted.take(y)[x] == cell[k]);
                assert(sorted.take(y).contains(cell[k]));
                lemma_early_is_left(copies, id, dir, y, cell[k]);
            }
        }
    }
}

/// The order of the copies in a cell: those of the piece type that it starts with come first, the
/// others follow piece type by piece type as the group lists them, and those of one piece type
/// stand from left to right.
pub proof fn lemma_cell_in_order(
    copies: Seq<PlacedCopy>,
    items: Seq<ItemType>,
    groups: Seq<OrientationGroup>,
    split: bool,
    dist: Seq<Vec<F32>>,
    r: int,
    k: int,
    l: int,
)
    requires
        copies.len() <= usize::MAX,
        groups_usable(groups, items.len()),
        items_disjoint(groups),
        0 <= r < all_cells(copies, items, groups, split, dist, n_strata(groups, split)).len(),
        0 <= k < l < all_cells(
            copies,
            items,
            groups,
            split,
            dist,
            n_strata(groups, split),
        )[r].len(),
    ensures
        ({
            let cell = all_cells(copies, items, groups, split, dist, n_strata(groups, split))[r];
            let seed = copies[cell[0] as int].item_id;
            let (p, q) = (cell[k], cell[l]);
            let (a, b) = (copies[p as int].item_id, copies[q as int].item_id);
            &&& b == seed ==> a == seed
            &&& a == b ==> copies[p as int].x.total() < copies[q as int].x.total() || (
            copies[p as int].x.total() == copies[q as int].x.total() && p < q)
            &&& forall|g: int, m: int, h: int, n: int|
                0 <= g < groups.len() && 0 <= h < groups.len() && 0 <= m < groups[g].members@.len()
                    && 0 <= n < groups[h].members@.len() && (
                #[trigger] groups[g].members@[m]).0 == a && (#[trigger] groups[h].members@[n]).0 == b
                    && a != seed && b != seed ==> g == h && m <= n
        }),
{
    let total = n_strata(groups, split);
    let all = all_cells(copies, items, groups, split, dist, total);
    let (s, i) = lemma_place(copies, items, groups, split, dist, total, r);
    let e = group_of_stratum(split, s);
    let members = groups[e].members@;
    let dir = stratum_dir(split, s);
    let base = all_cells(copies, items, groups, split, dist, s as nat).len() as int;
    let cells = group_cells(copies, items, members, dir, dist, base);
    let a = anchor(items, members);
    let first = seeds(copies, items, members, dir);
    let cell = all[r];
    assert(members_usable(members, items.len()));
    lemma_group_distinct(groups, e);
    lemma_group_served(copies, items, members, dir, dist, base);
    lemma_clusters_disjoint(copies, items, members, dir, dist, base);
    lemma_seed_cells(copies, items, members, dir);
    lemma_whole_cells(copies, items, members, dir);
    lemma_positions(copies, a.0, dir);
    assert forall|c: int| 0 <= c < first.len() implies cell_ordered(
        copies,
        a.0,
        Seq::empty(),
        #[trigger] first[c],
    ) by {
        let seed = first[c];
        assert forall|x: int, y: int|
            #![trigger seed[x], seed[y]]
            0 <= x < y < seed.len() implies {
            let (u, v) = (copies[seed[x] as int].item_id, copies[seed[y] as int].item_id);
            &&& v == a.0 ==> u == a.0
            &&& u == v ==> left_of(copies, seed[x], seed[y])
        } by {
            lemma_seeds_left_to_right(copies, items, members, dir, c, x, c, y);
            assert(first[c].contains(seed[x]));
            assert(in_cells(first, seed[x]));
        }
    }
    lemma_with_members_ordered(
        copies,
        dir,
        dist,
        base,
        a.0,
        whole_cells(copies, items, members, dir),
        first,
        members,
    );
    assert(cell_ordered(copies, a.0, members, cells[i]));
    assert(cell == cells[i]);
    assert(cell[0] == cells[i][0]);
    let (p, q) = (cell[k], cell[l]);
    assert(cells[i].contains(p) && cells[i].contains(q));
    assert(in_cells(cells, p) && in_cells(cells, q));
    let (u, v) = (copies[p as int].item_id, copies[q as int].item_id);
    assert forall|g: int, m: int, h: int, n: int|
        0 <= g < groups.len() && 0 <= h < groups.len() && 0 <= m < groups[g].members@.len() && 0 <= n
            < groups[h].members@.len() && (#[trigger] groups[g].members@[m]).0 == u && (
        #[trigger] groups[h].members@[n]).0 == v && u != a.0 && v != a.0 implies g == h && m <= n by {
        let x = choose|x: int| 0 <= x < members.len() && (#[trigger] members[x]).0 == u;
        let y = choose|y: int| 0 <= y < members.len() && (#[trigger] members[y]).0 == v;
        assert(groups[e].members@[x].0 == groups[g].members@[m].0);
        assert(groups[e].members@[y].0 == groups[h].members@[n].0);
        assert(g == e && h == e);
        assert(members[m].0 == u && members[n].0 == v);
    }
}

} // verus!
