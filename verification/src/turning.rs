//! Turning whole garment cells.
use crate::cluster::lists;
use crate::garments::cells_disjoint;
use crate::garments::in_cells;
use crate::grouped::ItemType;
use crate::grouped::PlacedCopy;
use crate::grouped::Turn;
use crate::layout::after_turns;
use crate::layout::copies_of_items;
use crate::layout::find_rotation;
use crate::layout::lemma_after_turns;
use crate::layout::lemma_rotation_to;
use crate::layout::rotation_to;
use crate::layout::turn_allowed;
use crate::layout::turn_class;
use crate::layout::turns_allowed;
use crate::layout::turns_distinct;
use vstd::prelude::*;

verus! {

/// The turn that makes copy `p` face `want`: none where it does already, or where its item has
/// no allowed rotation of that class.
pub open spec fn turn_for(
    copies: Seq<PlacedCopy>,
    items: Seq<ItemType>,
    p: usize,
    want: bool,
) -> Option<Turn> {
    if copies[p as int].dir180 == want {
        None
    } else {
        match rotation_to(items[copies[p as int].item_id as int], want) {
            Some(rotation) => Some(Turn { copy: p, rotation }),
            None => None,
        }
    }
}

/// The turns that make the copies of a cell face `want`.
pub open spec fn cell_turns(
    copies: Seq<PlacedCopy>,
    items: Seq<ItemType>,
    cell: Seq<usize>,
    want: bool,
) -> Seq<Turn>
    decreases cell.len(),
{
    if cell.len() == 0 {
        Seq::empty()
    } else {
        let before = cell_turns(copies, items, cell.drop_last(), want);
        match turn_for(copies, items, cell.last(), want) {
            Some(t) => before.push(t),
            None => before,
        }
    }
}

/// The turns that make the copies of every cell face that cell's wanted direction.
pub open spec fn all_turns(
    copies: Seq<PlacedCopy>,
    items: Seq<ItemType>,
    cells: Seq<Seq<usize>>,
    wants: Seq<bool>,
) -> Seq<Turn>
    decreases cells.len(),
{
    if cells.len() == 0 {
        Seq::empty()
    } else {
        all_turns(copies, items, cells.drop_last(), wants) + cell_turns(
            copies,
            items,
            cells.last(),
            wants[cells.len() - 1],
        )
    }
}

/// Every position listed in the cells is that of a copy.
pub open spec fn cells_of_copies(cells: Seq<Seq<usize>>, n_copies: nat) -> bool {
    forall|c: int, k: int|
        0 <= c < cells.len() && 0 <= k < cells[c].len() ==> (#[trigger] cells[c][k]) < n_copies
}

/// Lists the turns that make the copies of every cell face that cell's wanted direction.
pub fn turn_cells(
    copies: &Vec<PlacedCopy>,
    items: &Vec<ItemType>,
    cells: &Vec<Vec<usize>>,
    wants: &Vec<bool>,
) -> (r: Vec<Turn>)
    requires
        copies_of_items(copies@, items@.len()),
        cells_of_copies(lists(cells@), copies@.len()),
        wants.len() == cells.len(),
    ensures
        r@ == all_turns(copies@, items@, lists(cells@), wants@),
{
    let ghost all = lists(cells@);
    let mut r: Vec<Turn> = Vec::new();
    let mut c: usize = 0;
    assert(all.take(0) =~= Seq::<Seq<usize>>::empty());
    while c < cells.len()
        invariant
            c <= cells.len(),
            all == lists(cells@),
            copies_of_items(copies@, items@.len()),
            cells_of_copies(all, copies@.len()),
            wants.len() == cells.len(),
            r@ == all_turns(copies@, items@, all.take(c as int), wants@),
        decreases cells.len() - c,
    {
        let cell = &cells[c];
        let want: bool = wants[c];
        let ghost before = r@;
        let mut k: usize = 0;
        proof {
            assert(all[c as int] == cell@);
            assert(all.take(c + 1).drop_last() =~= all.take(c as int));
            assert(all.take(c + 1).last() == cell@);
            assert(cell@.take(0) =~= Seq::<usize>::empty());
            assert(r@ =~= before + cell_turns(copies@, items@, cell@.take(0), want));
        }
        while k < cell.len()
            invariant
                k <= cell.len(),
                c < cells.len(),
                all == lists(cells@),
                cell@ == all[c as int],
                copies_of_items(copies@, items@.len()),
                cells_of_copies(all, copies@.len()),
                r@ == before + cell_turns(copies@, items@, cell@.take(k as int), want),
            decreases cell.len() - k,
        {
            let p: usize = cell[k];
            proof {
                assert(all[c as int][k as int] == p);
                assert(cell@.take(k + 1).drop_last() =~= cell@.take(k as int));
                assert(cell@.take(k + 1).last() == p);
            }
            if copies[p].dir180 != want {
                match find_rotation(&items[copies[p].item_id], want) {
                    Some(rotation) => {
                        r.push(Turn { copy: p, rotation });
                        assert(r@ =~= before + cell_turns(
                            copies@,
                            items@,
                            cell@.take(k as int),
                            want,
                        ).push(Turn { copy: p, rotation }));
                    },
                    None => {},
                }
            }
            k = k + 1;
        }
        assert(cell@.take(k as int) =~= cell@);
        c = c + 1;
    }
    assert(all.take(c as int) =~= all);
    r
}

/// Copy `p` can be turned over: its item has an allowed rotation of the class that it does not
/// face.
pub open spec fn turnable(copies: Seq<PlacedCopy>, items: Seq<ItemType>, p: int) -> bool {
    rotation_to(items[copies[p].item_id as int], !copies[p].dir180) is Some
}

/// Every copy that faces against the wanted direction of its cell can be turned over.
pub open spec fn cells_turnable(
    copies: Seq<PlacedCopy>,
    items: Seq<ItemType>,
    cells: Seq<Seq<usize>>,
    wants: Seq<bool>,
) -> bool {
    forall|c: int, p: usize|
        0 <= c < cells.len() && #[trigger] cells[c].contains(p) && copies[p as int].dir180
            != wants[c] ==> turnable(copies, items, p as int)
}

/// The turns of one cell: which copies they turn, and to what.
proof fn lemma_cell_turns(
    copies: Seq<PlacedCopy>,
    items: Seq<ItemType>,
    cell: Seq<usize>,
    want: bool,
)
    requires
        copies_of_items(copies, items.len()),
        cell.no_duplicates(),
        forall|k: int| 0 <= k < cell.len() ==> (#[trigger] cell[k]) < copies.len(),
    ensures
        ({
            let turns = cell_turns(copies, items, cell, want);
            &&& turns_allowed(copies, items, turns)
            &&& turns_distinct(turns)
            &&& forall|i: int|
                0 <= i < turns.len() ==> {
                    &&& cell.contains((#[trigger] turns[i]).copy)
                    &&& copies[turns[i].copy as int].dir180 != want
                    &&& turn_class(copies, items, turns[i]) == want
                    &&& turn_for(copies, items, turns[i].copy, want) == Some(turns[i])
                }
            &&& forall|p: usize|
                #[trigger] cell.contains(p) && copies[p as int].dir180 != want && turnable(
                    copies,
                    items,
                    p as int,
                ) ==> exists|i: int| 0 <= i < turns.len() && (#[trigger] turns[i]).copy == p
        }),
    decreases cell.len(),
{
    let turns = cell_turns(copies, items, cell, want);
    if cell.len() > 0 {
        let shorter = cell.drop_last();
        let p = cell.last();
        assert(forall|k: int| 0 <= k < shorter.len() ==> shorter[k] == cell[k]);
        assert(cell[cell.len() - 1] == p);
        lemma_cell_turns(copies, items, shorter, want);
        let before = cell_turns(copies, items, shorter, want);
        lemma_rotation_to(items[copies[p as int].item_id as int], want);
        assert(!shorter.contains(p)) by {
            if shorter.contains(p) {
                let k = choose|k: int| 0 <= k < shorter.len() && shorter[k] == p;
                assert(cell[k] == cell[cell.len() - 1]);
            }
        }
        assert(forall|i: int| 0 <= i < before.len() ==> turns[i] == before[i]);
        assert forall|i: int| 0 <= i < turns.len() implies {
            &&& cell.contains((#[trigger] turns[i]).copy)
            &&& copies[turns[i].copy as int].dir180 != want
            &&& turn_class(copies, items, turns[i]) == want
            &&& turn_for(copies, items, turns[i].copy, want) == Some(turns[i])
            &&& turn_allowed(copies, items, turns[i])
        } by {
            if i < before.len() {
                assert(shorter.contains(before[i].copy));
                let k = choose|k: int| 0 <= k < shorter.len() && shorter[k] == before[i].copy;
                assert(cell[k] == turns[i].copy);
                assert(turn_allowed(copies, items, before[i]));
            }
        }
        assert forall|i: int, j: int|
            0 <= i < turns.len() && 0 <= j < turns.len() && i != j implies (#[trigger] turns[i]).copy
            != (#[trigger] turns[j]).copy by {
            if i < before.len() && j < before.len() {
                assert(before[i].copy != before[j].copy);
            } else if i < before.len() {
                assert(shorter.contains(before[i].copy));
            } else {
                assert(shorter.contains(before[j].copy));
            }
        }
        assert forall|q: usize|
            #[trigger] cell.contains(q) && copies[q as int].dir180 != want && turnable(
                copies,
                items,
                q as int,
            ) implies exists|i: int| 0 <= i < turns.len() && (#[trigger] turns[i]).copy == q by {
            if q == p {
                assert(turns[before.len() as int].copy == q);
            } else {
                let k = choose|k: int| 0 <= k < cell.len() && cell[k] == q;
                assert(shorter[k] == q);
                assert(shorter.contains(q));
                let i = choose|i: int| 0 <= i < before.len() && (#[trigger] before[i]).copy == q;
                assert(turns[i].copy == q);
            }
        }
    }
}

/// The turns of all cells: they are allowed, turn no copy twice, and turn only copies that
/// stand in a cell and face the other direction.
pub proof fn lemma_all_turns(
    copies: Seq<PlacedCopy>,
    items: Seq<ItemType>,
    cells: Seq<Seq<usize>>,
    wants: Seq<bool>,
)
    requires
        copies_of_items(copies, items.len()),
        cells_disjoint(cells),
        cells_of_copies(cells, copies.len()),
        wants.len() >= cells.len(),
    ensures
        ({
            let turns = all_turns(copies, items, cells, wants);
            &&& turns_allowed(copies, items, turns)
            &&& turns_distinct(turns)
            &&& forall|i: int|
                0 <= i < turns.len() ==> in_cells(cells, (#[trigger] turns[i]).copy)
            &&& forall|i: int, c: int|
                0 <= i < turns.len() && 0 <= c < cells.len() && #[trigger] cells[c].contains(
                    (#[trigger] turns[i]).copy,
                ) ==> copies[turns[i].copy as int].dir180 != wants[c] && turn_class(
                    copies,
                    items,
                    turns[i],
                ) == wants[c] && turn_for(copies, items, turns[i].copy, wants[c]) == Some(turns[i])
            &&& forall|c: int, p: usize|
                0 <= c < cells.len() && #[trigger] cells[c].contains(p)
                    && copies[p as int].dir180 != wants[c] && turnable(copies, items, p as int)
                    ==> exists|i: int| 0 <= i < turns.len() && (#[trigger] turns[i]).copy == p
        }),
    decreases cells.len(),
{
    let turns = all_turns(copies, items, cells, wants);
    if cells.len() > 0 {
        let shorter = cells.drop_last();
        let last = cells.len() - 1;
        assert(forall|c: int| 0 <= c < last ==> shorter[c] == cells[c]);
        assert forall|c: int, k: int|
            0 <= c < shorter.len() && 0 <= k < shorter[c].len() implies (#[trigger] shorter[c][k])
            < copies.len() by {
            assert(cells[c][k] < copies.len());
        }
        assert(cells_disjoint(shorter)) by {
            assert forall|i: int| 0 <= i < shorter.len() implies (
            #[trigger] shorter[i]).no_duplicates() by {
                assert(cells[i].no_duplicates());
            }
            assert forall|i: int, j: int, p: usize|
                0 <= i < shorter.len() && 0 <= j < shorter.len() && i != j
                    && #[trigger] shorter[i].contains(p) implies !(#[trigger] shorter[j].contains(
                p,
            )) by {
                assert(cells[i].contains(p));
                assert(!cells[j].contains(p));
            }
        }
        lemma_all_turns(copies, items, shorter, wants);
        let before = all_turns(copies, items, shorter, wants);
        let cell = cells[last];
        assert forall|k: int| 0 <= k < cell.len() implies (#[trigger] cell[k]) < copies.len() by {
            assert(cells[last][k] < copies.len());
        }
        lemma_cell_turns(copies, items, cell, wants[last]);
        let more = cell_turns(copies, items, cell, wants[last]);
        assert(turns =~= before + more);
        let n = before.len();
        assert(forall|i: int| 0 <= i < n ==> turns[i] == before[i]);
        assert(forall|i: int| n <= i < turns.len() ==> turns[i] == more[i - n]);
        assert forall|i: int| 0 <= i < n implies in_cells(shorter, (#[trigger] turns[i]).copy) by {
            assert(in_cells(shorter, before[i].copy));
        }
        assert forall|i: int| 0 <= i < turns.len() implies in_cells(
            cells,
            (#[trigger] turns[i]).copy,
        ) && (i < n ==> !cell.contains(turns[i].copy)) && turn_allowed(
            copies,
            items,
            turns[i],
        ) by {
            if i < n {
                let c = choose|c: int|
                    0 <= c < shorter.len() && (#[trigger] shorter[c]).contains(turns[i].copy);
                assert(cells[c].contains(turns[i].copy));
                assert(!cells[last].contains(turns[i].copy));
                assert(turn_allowed(copies, items, before[i]));
            } else {
                assert(cells[last].contains(more[i - n].copy));
                assert(turn_allowed(copies, items, more[i - n]));
            }
        }
        assert forall|i: int, j: int|
            0 <= i < turns.len() && 0 <= j < turns.len() && i != j implies (#[trigger] turns[i]).copy
            != (#[trigger] turns[j]).copy by {
            if i < n && j < n {
                assert(before[i].copy != before[j].copy);
            } else if i >= n && j >= n {
                assert(more[i - n].copy != more[j - n].copy);
            } else if i < n {
                assert(cell.contains(more[j - n].copy));
            } else {
                assert(cell.contains(more[i - n].copy));
            }
        }
        assert forall|i: int, c: int|
            0 <= i < turns.len() && 0 <= c < cells.len() && #[trigger] cells[c].contains(
                (#[trigger] turns[i]).copy,
            ) implies copies[turns[i].copy as int].dir180 != wants[c] && turn_class(
            copies,
            items,
            turns[i],
        ) == wants[c] && turn_for(copies, items, turns[i].copy, wants[c]) == Some(turns[i]) by {
            if i < n {
                assert(c != last);
                assert(shorter[c].contains(before[i].copy));
            } else {
                assert(cell.contains(more[i - n].copy));
                if c != last {
                    assert(!cells[c].contains(turns[i].copy));
                }
            }
        }
        assert forall|c: int, p: usize|
            0 <= c < cells.len() && #[trigger] cells[c].contains(p) && copies[p as int].dir180
                != wants[c] && turnable(copies, items, p as int) implies exists|i: int|
            0 <= i < turns.len() && (#[trigger] turns[i]).copy == p by {
            if c < last {
                assert(shorter[c].contains(p));
                let i = choose|i: int| 0 <= i < before.len() && (#[trigger] before[i]).copy == p;
                assert(turns[i].copy == p);
            } else {
                let i = choose|i: int| 0 <= i < more.len() && (#[trigger] more[i]).copy == p;
                assert(turns[n + i].copy == p);
            }
        }
    }
}

/// After the turns every cell faces its wanted direction, and a copy that stands in no cell is
/// as it was.
pub proof fn lemma_turned_cells(
    copies: Seq<PlacedCopy>,
    items: Seq<ItemType>,
    cells: Seq<Seq<usize>>,
    wants: Seq<bool>,
)
    requires
        copies_of_items(copies, items.len()),
        cells_disjoint(cells),
        cells_of_copies(cells, copies.len()),
        wants.len() >= cells.len(),
        cells_turnable(copies, items, cells, wants),
    ensures
        ({
            let after = after_turns(copies, items, all_turns(copies, items, cells, wants));
            &&& after.len() == copies.len()
            &&& forall|p: int|
                0 <= p < copies.len() ==> (#[trigger] after[p]).item_id == copies[p].item_id
            &&& forall|c: int, p: usize|
                0 <= c < cells.len() && #[trigger] cells[c].contains(p) ==> after[p as int].dir180
                    == wants[c]
            &&& forall|p: usize|
                p < copies.len() && !(#[trigger] in_cells(cells, p)) ==> after[p as int]
                    == copies[p as int]
        }),
{
    let turns = all_turns(copies, items, cells, wants);
    lemma_all_turns(copies, items, cells, wants);
    lemma_after_turns(copies, items, turns);
    let after = after_turns(copies, items, turns);
    assert forall|c: int, p: usize|
        0 <= c < cells.len() && #[trigger] cells[c].contains(p) implies after[p as int].dir180
        == wants[c] by {
        let k = choose|k: int| 0 <= k < cells[c].len() && cells[c][k] == p;
        assert(cells[c][k] < copies.len());
        assert(in_cells(cells, p));
        if copies[p as int].dir180 != wants[c] {
            let i = choose|i: int| 0 <= i < turns.len() && (#[trigger] turns[i]).copy == p;
            assert(cells[c].contains(turns[i].copy));
            assert(after[turns[i].copy as int].dir180 == turn_class(copies, items, turns[i]));
        } else {
            assert forall|i: int| 0 <= i < turns.len() implies (#[trigger] turns[i]).copy != p by {
                if turns[i].copy == p {
                    assert(cells[c].contains(turns[i].copy));
                }
            }
            assert(after[p as int] == copies[p as int]);
        }
    }
    assert forall|p: usize| p < copies.len() && !(#[trigger] in_cells(cells, p)) implies after[p as int]
        == copies[p as int] by {
        assert forall|i: int| 0 <= i < turns.len() implies (#[trigger] turns[i]).copy != p by {
            assert(in_cells(cells, turns[i].copy));
        }
    }
}

proof fn lemma_cell_turns_in_order(
    copies: Seq<PlacedCopy>,
    items: Seq<ItemType>,
    cell: Seq<usize>,
    want: bool,
    i: int,
    j: int,
    k: int,
    l: int,
)
    requires
        copies_of_items(copies, items.len()),
        cell.no_duplicates(),
        forall|n: int| 0 <= n < cell.len() ==> (#[trigger] cell[n]) < copies.len(),
        0 <= i < j < cell_turns(copies, items, cell, want).len(),
        0 <= k < cell.len(),
        0 <= l < cell.len(),
        cell_turns(copies, items, cell, want)[i].copy == cell[k],
        cell_turns(copies, items, cell, want)[j].copy == cell[l],
    ensures
        k < l,
    decreases cell.len(),
{
    let shorter = cell.drop_last();
    let last = cell.len() - 1;
    let before = cell_turns(copies, items, shorter, want);
    let turns = cell_turns(copies, items, cell, want);
    assert(forall|n: int| 0 <= n < last ==> shorter[n] == cell[n]);
    lemma_cell_turns(copies, items, shorter, want);
    assert(turns[i] == before[i]);
    assert(shorter.contains(before[i].copy));
    let a = choose|a: int| 0 <= a < shorter.len() && shorter[a] == before[i].copy;
    assert(cell[a] == cell[k]);
    if j < before.len() {
        assert(turns[j] == before[j]);
        assert(shorter.contains(before[j].copy));
        let b = choose|b: int| 0 <= b < shorter.len() && shorter[b] == before[j].copy;
        assert(cell[b] == cell[l]);
        lemma_cell_turns_in_order(copies, items, shorter, want, i, j, k, l);
    } else {
        assert(turns[j].copy == cell[last]);
    }
}

/// The turns come cell by cell, and within a cell in the order of its copies.
pub proof fn lemma_turns_in_order(
    copies: Seq<PlacedCopy>,
    items: Seq<ItemType>,
    cells: Seq<Seq<usize>>,
    wants: Seq<bool>,
    i: int,
    j: int,
    c: int,
    k: int,
    d: int,
    l: int,
)
    requires
        copies_of_items(copies, items.len()),
        cells_disjoint(cells),
        cells_of_copies(cells, copies.len()),
        wants.len() >= cells.len(),
        0 <= i < j < all_turns(copies, items, cells, wants).len(),
        0 <= c < cells.len(),
        0 <= k < cells[c].len(),
        0 <= d < cells.len(),
        0 <= l < cells[d].len(),
        all_turns(copies, items, cells, wants)[i].copy == cells[c][k],
        all_turns(copies, items, cells, wants)[j].copy == cells[d][l],
    ensures
        c < d || (c == d && k < l),
    decreases cells.len(),
{
    let shorter = cells.drop_last();
    let last = cells.len() - 1;
    let before = all_turns(copies, items, shorter, wants);
    let more = cell_turns(copies, items, cells[last], wants[last]);
    let turns = all_turns(copies, items, cells, wants);
    let n = before.len();
    assert(turns =~= before + more);
    assert(forall|e: int| 0 <= e < last ==> shorter[e] == cells[e]);
    assert(cells_of_copies(shorter, copies.len())) by {
        assert forall|e: int, m: int|
            0 <= e < shorter.len() && 0 <= m < shorter[e].len() implies (#[trigger] shorter[e][m])
            < copies.len() by {
            assert(cells[e][m] < copies.len());
        }
    }
    assert(cells_disjoint(shorter)) by {
        assert forall|e: int| 0 <= e < shorter.len() implies (
        #[trigger] shorter[e]).no_duplicates() by {
            assert(cells[e].no_duplicates());
        }
        assert forall|e: int, f: int, p: usize|
            0 <= e < shorter.len() && 0 <= f < shorter.len() && e != f
                && #[trigger] shorter[e].contains(p) implies !(#[trigger] shorter[f].contains(p)) by {
            assert(cells[e].contains(p));
            assert(!cells[f].contains(p));
        }
    }
    lemma_all_turns(copies, items, shorter, wants);
    assert forall|m: int| 0 <= m < cells[last].len() implies (#[trigger] cells[last][m])
        < copies.len() by {}
    lemma_cell_turns(copies, items, cells[last], wants[last]);
    assert(cells[c].contains(cells[c][k]));
    assert(cells[d].contains(cells[d][l]));
    // a turn of the earlier cells is of a copy in one of them
    assert forall|e: int, f: int|
        0 <= e < n && 0 <= f < cells.len() && #[trigger] cells[f].contains(
            (#[trigger] before[e]).copy,
        ) implies f < last by {
        assert(in_cells(shorter, before[e].copy));
        let h = choose|h: int|
            0 <= h < shorter.len() && (#[trigger] shorter[h]).contains(before[e].copy);
        assert(cells[h].contains(before[e].copy));
        if f == last {
            assert(!cells[last].contains(before[e].copy));
        }
    }
    if j < n {
        assert(turns[i] == before[i] && turns[j] == before[j]);
        assert(cells[c].contains(before[i].copy));
        assert(cells[d].contains(before[j].copy));
        lemma_turns_in_order(copies, items, shorter, wants, i, j, c, k, d, l);
    } else {
        assert(turns[j] == more[j - n]);
        assert(cells[last].contains(more[j - n].copy));
        if d != last {
            assert(!cells[last].contains(cells[d][l]));
        }
        if i < n {
            assert(turns[i] == before[i]);
            assert(cells[c].contains(before[i].copy));
        } else {
            assert(turns[i] == more[i - n]);
            assert(cells[last].contains(more[i - n].copy));
            if c != last {
                assert(!cells[last].contains(cells[c][k]));
            }
            lemma_cell_turns_in_order(
                copies,
                items,
                cells[last],
                wants[last],
                i - n,
                j - n,
                k,
                l,
            );
        }
    }
}

} // verus!
