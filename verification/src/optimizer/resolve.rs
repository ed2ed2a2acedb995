//! Exact orientation re-solve.
//!
//! At fixed positions the collision energy is a function of the garments' directions. There are
//! few garments, so all assignments of directions are tried and the layout is turned to the
//! best one, or left alone where the current one is as good as any.
use crate::cluster::all_cells;
use crate::cluster::all_seeds;
use crate::cluster::anchor;
use crate::cluster::cell_uniform;
use crate::cluster::find_anchor;
use crate::cluster::garment_cells;
use crate::cluster::groups_usable;
use crate::cluster::lemma_anchor_member;
use crate::cluster::lemma_cells_face;
use crate::cluster::lists;
use crate::cluster::members_usable;
use crate::cluster::n_strata;
use crate::cluster::pool_of;
use crate::cluster::table_covers;
use crate::cluster::whole_cells;
use crate::garments::cells_disjoint;
use crate::garments::in_cells;
use crate::grouped::GroupedOrientationSpec;
use crate::grouped::ItemType;
use crate::grouped::OrientationGroup;
use crate::grouped::PlacedCopy;
use crate::grouped::Turn;
use crate::layout::after_turns;
use crate::layout::census;
use crate::layout::consistent;
use crate::layout::copies_of_items;
use crate::layout::facing;
use crate::layout::find_rotation;
use crate::layout::garments_turned;
use crate::layout::group_consistent;
use crate::layout::lemma_after_turns;
use crate::layout::lemma_rotation_to;
use crate::layout::positions;
use crate::layout::rotation_to;
use crate::layout::turn_class;
use crate::layout::turns_distinct;
use crate::optimizer::assignment::best_assignment;
use crate::optimizer::assignment::bit;
use crate::optimizer::assignment::bits;
use crate::optimizer::assignment::lemma_bit_is_digit;
use crate::optimizer::assignment::lemma_bits_injective;
use crate::optimizer::assignment::lemma_mask_of;
use crate::optimizer::assignment::mask_of;
use crate::optimizer::assignment::pack;
use crate::optimizer::assignment::scan;
use crate::optimizer::assignment::unpack;
use crate::optimizer::assignment::Energy;
use crate::optimizer::flip::is_turned;
use crate::partition::lemma_all_cells_disjoint;
use crate::partition::lemma_fits_disjoint;
use crate::partition::lemma_members_in_cells;
use crate::partition::lemma_runs_split;
use crate::partition::lemma_uniform_cells_consistent;
use crate::partition::members_turnable;
use crate::scalar::F32;
use crate::turning::all_turns;
use crate::turning::cell_turns;
use crate::turning::cells_turnable;
use crate::turning::lemma_all_turns;
use crate::turning::lemma_turned_cells;
use crate::turning::turn_for;
use crate::turning::turnable;
use vstd::arithmetic::power2::pow2;
use vstd::prelude::*;

verus! {

/// Layouts with more garments than this are not re-solved.
pub const MAX_RESOLVE_GARMENTS: usize = 14;

/// One physical garment.
#[derive(Debug, Clone)]
pub struct GarmentCell {
    /// The positions of its copies, one per piece.
    pub copies: Vec<usize>,
    /// Per piece, the allowed rotation that turns it over.
    pub opposite: Vec<usize>,
    /// Current direction of the garment (true = 180).
    pub current: bool,
}

impl GarmentCell {
    /// The cell is a garment of the layout: it has pieces, all of them face its direction, and
    /// the rotation noted for each is the first one of the other class.
    pub open spec fn valid(self, copies: Seq<PlacedCopy>, items: Seq<ItemType>) -> bool {
        &&& self.copies@.len() > 0
        &&& self.opposite@.len() == self.copies@.len()
        &&& forall|k: int|
            0 <= k < self.copies@.len() ==> {
                let p = #[trigger] self.copies@[k] as int;
                &&& p < copies.len()
                &&& copies[p].dir180 == self.current
                &&& rotation_to(items[copies[p].item_id as int], !self.current) == Some(
                    self.opposite@[k],
                )
            }
    }
}

/// Among the copies that face `dir`, the anchor's whole garments find exactly their pieces of
/// every other member; where the anchor has no copies nothing is asked.
pub open spec fn stratum_matches(
    copies: Seq<PlacedCopy>,
    items: Seq<ItemType>,
    members: Seq<(usize, usize)>,
    dir: Option<bool>,
) -> bool {
    positions(copies, anchor(items, members).0, dir).len() > 0 ==> forall|m: int|
        0 <= m < members.len() && (#[trigger] members[m]).0 != anchor(items, members).0 ==> positions(
            copies,
            members[m].0,
            dir,
        ).len() == whole_cells(copies, items, members, dir) * members[m].1
}

/// Every group's pieces match in each direction.
pub open spec fn all_match(
    copies: Seq<PlacedCopy>,
    items: Seq<ItemType>,
    groups: Seq<OrientationGroup>,
) -> bool {
    forall|g: int|
        0 <= g < groups.len() ==> stratum_matches(
            copies,
            items,
            (#[trigger] groups[g]).members@,
            Some(false),
        ) && stratum_matches(copies, items, groups[g].members@, Some(true))
}

/// Every piece of the cell has an allowed rotation of the class that it does not face.
pub open spec fn cell_flippable(
    copies: Seq<PlacedCopy>,
    items: Seq<ItemType>,
    cell: Seq<usize>,
) -> bool {
    forall|k: int|
        0 <= k < cell.len() ==> rotation_to(
            items[copies[#[trigger] cell[k] as int].item_id as int],
            !copies[cell[k] as int].dir180,
        ) is Some
}

/// Every piece of every cell has such a rotation.
pub open spec fn cells_flippable(
    copies: Seq<PlacedCopy>,
    items: Seq<ItemType>,
    cells: Seq<Seq<usize>>,
) -> bool {
    forall|c: int| 0 <= c < cells.len() ==> cell_flippable(copies, items, #[trigger] cells[c])
}

fn stratum_check(
    copies: &Vec<PlacedCopy>,
    items: &Vec<ItemType>,
    members: &Vec<(usize, usize)>,
    dir: Option<bool>,
    pool: &Vec<Vec<usize>>,
) -> (r: bool)
    requires
        members_usable(members@, items@.len()),
        pool_of(pool@, copies@, items@.len(), dir),
    ensures
        r == stratum_matches(copies@, items@, members@, dir),
{
    let (anchor_id, anchor_pg) = find_anchor(items, members);
    assert(pool@[anchor_id as int]@ == positions(copies@, anchor_id, dir));
    if pool[anchor_id].len() == 0 {
        return true;
    }
    let n_cells: usize = pool[anchor_id].len() / anchor_pg;
    let mut m: usize = 0;
    while m < members.len()
        invariant
            m <= members.len(),
            members_usable(members@, items@.len()),
            pool_of(pool@, copies@, items@.len(), dir),
            (anchor_id, anchor_pg) == anchor(items@, members@),
            positions(copies@, anchor_id, dir).len() > 0,
            n_cells == whole_cells(copies@, items@, members@, dir),
            forall|i: int|
                0 <= i < m && (#[trigger] members[i]).0 != anchor_id ==> positions(
                    copies@,
                    members[i].0,
                    dir,
                ).len() == n_cells * members[i].1,
        decreases members.len() - m,
    {
        let (id, per_garment) = members[m];
        if id != anchor_id {
            assert(pool@[id as int]@ == positions(copies@, id, dir));
            let found: usize = pool[id].len();
            let wanted: Option<usize> = n_cells.checked_mul(per_garment);
            if wanted.is_none() || wanted.unwrap() != found {
                proof {
                    let member = members@[m as int];
                    assert(member.0 != anchor(items@, members@).0);
                    assert(n_cells * per_garment != found);
                    assert(whole_cells(copies@, items@, members@, dir) * member.1 == n_cells
                        * per_garment);
                }
                return false;
            }
        }
        m = m + 1;
    }
    true
}

/// Notes for every piece of a cell the rotation that turns it over.
fn opposites(
    copies: &Vec<PlacedCopy>,
    items: &Vec<ItemType>,
    cell: &Vec<usize>,
) -> (r: Option<Vec<usize>>)
    requires
        copies_of_items(copies@, items@.len()),
        cell_uniform(copies@, cell@, true),
    ensures
        r is Some <==> cell_flippable(copies@, items@, cell@),
        r matches Some(o) ==> o.len() == cell.len() && forall|k: int|
            0 <= k < cell.len() ==> rotation_to(
                items[copies[#[trigger] cell[k] as int].item_id as int],
                !copies[cell[k] as int].dir180,
            ) == Some(o[k]),
{
    let mut o: Vec<usize> = Vec::new();
    let mut k: usize = 0;
    while k < cell.len()
        invariant
            k <= cell.len(),
            copies_of_items(copies@, items@.len()),
            cell_uniform(copies@, cell@, true),
            o.len() == k,
            forall|i: int|
                0 <= i < k ==> rotation_to(
                    items[copies[#[trigger] cell[i] as int].item_id as int],
                    !copies[cell[i] as int].dir180,
                ) == Some(o[i]),
        decreases cell.len() - k,
    {
        let p: usize = cell[k];
        assert(cell@[k as int] < copies.len());
        match find_rotation(&items[copies[p].item_id], !copies[p].dir180) {
            Some(rotation) => {
                o.push(rotation);
            },
            None => {
                assert(cell@[k as int] == p);
                return None;
            },
        }
        k = k + 1;
    }
    Some(o)
}

/// Clusters the placed copies into physical garments, apart for each direction, and notes how
/// each piece is turned over. There is no result where the pieces in one direction do not make
/// up whole garments, or where a piece cannot be turned over.
pub fn build_cells(
    copies: &Vec<PlacedCopy>,
    items: &Vec<ItemType>,
    spec: &GroupedOrientationSpec,
    dist: &Vec<Vec<F32>>,
) -> (r: Option<Vec<GarmentCell>>)
    requires
        copies_of_items(copies@, items@.len()),
        groups_usable(spec.groups@, items@.len()),
        table_covers(
            dist@,
            all_seeds(copies@, items@, spec.groups@, true, 2 * spec.groups@.len()).len(),
            copies@.len(),
        ),
    ensures
        ({
            let all = all_cells(
                copies@,
                items@,
                spec.groups@,
                true,
                dist@,
                2 * spec.groups@.len(),
            );
            &&& r is Some <==> all_match(copies@, items@, spec.groups@) && cells_flippable(
                copies@,
                items@,
                all,
            )
            &&& r matches Some(cells) ==> cell_lists(cells@) == all && forall|c: int|
                0 <= c < cells.len() ==> (#[trigger] cells[c]).valid(copies@, items@)
        }),
{
    let ghost groups = spec.groups@;
    let pool0: Vec<Vec<usize>> = census(copies, items.len(), Some(false));
    let pool180: Vec<Vec<usize>> = census(copies, items.len(), Some(true));
    let mut g: usize = 0;
    while g < spec.groups.len()
        invariant
            g <= spec.groups.len(),
            groups == spec.groups@,
            groups_usable(groups, items@.len()),
            pool_of(pool0@, copies@, items@.len(), Some(false)),
            pool_of(pool180@, copies@, items@.len(), Some(true)),
            forall|i: int|
                0 <= i < g ==> stratum_matches(
                    copies@,
                    items@,
                    (#[trigger] groups[i]).members@,
                    Some(false),
                ) && stratum_matches(copies@, items@, groups[i].members@, Some(true)),
        decreases spec.groups.len() - g,
    {
        let group = &spec.groups[g];
        assert(members_usable(groups[g as int].members@, items@.len()));
        if !stratum_check(copies, items, &group.members, Some(false), &pool0) || !stratum_check(
            copies,
            items,
            &group.members,
            Some(true),
            &pool180,
        ) {
            assert(!all_match(copies@, items@, groups)) by {
                assert(groups[g as int] == *group);
            }
            return None;
        }
        g = g + 1;
    }
    let placed: Vec<Vec<usize>> = garment_cells(copies, items, spec, true, dist);
    let ghost all = lists(placed@);
    let mut cells: Vec<GarmentCell> = Vec::new();
    let mut c: usize = 0;
    while c < placed.len()
        invariant
            c <= placed.len(),
            cells.len() == c,
            all == lists(placed@),
            all == all_cells(copies@, items@, spec.groups@, true, dist@, 2 * spec.groups@.len()),
            copies_of_items(copies@, items@.len()),
            forall|i: int| 0 <= i < placed.len() ==> cell_uniform(
                copies@,
                (#[trigger] placed[i])@,
                true,
            ),
            forall|i: int| 0 <= i < c ==> (#[trigger] cells[i]).copies@ == all[i],
            forall|i: int| 0 <= i < c ==> (#[trigger] cells[i]).valid(copies@, items@),
            forall|i: int| 0 <= i < c ==> cell_flippable(copies@, items@, #[trigger] all[i]),
        decreases placed.len() - c,
    {
        assert(cell_uniform(copies@, placed[c as int]@, true));
        assert(all[c as int] == placed[c as int]@);
        let list: Vec<usize> = placed[c].clone();
        assert(list@ =~= placed[c as int]@);
        let current: bool = copies[list[0]].dir180;
        match opposites(copies, items, &list) {
            Some(opposite) => {
                let cell = GarmentCell { copies: list, opposite, current };
                proof {
                    assert forall|k: int| 0 <= k < cell.copies@.len() implies {
                        let p = #[trigger] cell.copies@[k] as int;
                        &&& p < copies.len()
                        &&& copies[p].dir180 == cell.current
                        &&& rotation_to(items[copies[p].item_id as int], !cell.current) == Some(
                            cell.opposite@[k],
                        )
                    } by {
                        assert(list[k] == cell.copies@[k]);
                    }
                    assert(cell.valid(copies@, items@));
                }
                cells.push(cell);
            },
            None => {
                assert(!cell_flippable(copies@, items@, all[c as int]));
                return None;
            },
        }
        c = c + 1;
    }
    assert(cell_lists(cells@) =~= all);
    Some(cells)
}

/// The copies of each cell.
pub open spec fn cell_lists(cells: Seq<GarmentCell>) -> Seq<Seq<usize>> {
    cells.map_values(|c: GarmentCell| c.copies@)
}

/// The current directions of the cells.
pub open spec fn currents(cells: Seq<GarmentCell>) -> Seq<bool> {
    cells.map_values(|c: GarmentCell| c.current)
}

/// In how many places two lists of directions differ.
pub open spec fn n_differ(a: Seq<bool>, b: Seq<bool>) -> nat
    decreases a.len(),
{
    if a.len() == 0 {
        0
    } else {
        n_differ(a.drop_last(), b.drop_last()) + if a.last() != b.last() {
            1nat
        } else {
            0nat
        }
    }
}

proof fn lemma_n_differ(a: Seq<bool>, b: Seq<bool>)
    requires
        a.len() == b.len(),
    ensures
        n_differ(a, b) <= a.len(),
        n_differ(a, b) == 0 <==> a == b,
    decreases a.len(),
{
    if a.len() > 0 {
        let (shorter_a, shorter_b) = (a.drop_last(), b.drop_last());
        lemma_n_differ(shorter_a, shorter_b);
        if n_differ(a, b) == 0 {
            assert(a =~= shorter_a.push(a.last()));
            assert(b =~= shorter_b.push(b.last()));
        }
    } else {
        assert(a =~= b);
    }
}

/// A cell that faces the wanted direction needs no turns.
proof fn lemma_no_turns(
    copies: Seq<PlacedCopy>,
    items: Seq<ItemType>,
    cell: Seq<usize>,
    want: bool,
)
    requires
        forall|k: int| 0 <= k < cell.len() ==> copies[#[trigger] cell[k] as int].dir180 == want,
    ensures
        cell_turns(copies, items, cell, want).len() == 0,
    decreases cell.len(),
{
    if cell.len() > 0 {
        let shorter = cell.drop_last();
        assert(forall|k: int| 0 <= k < shorter.len() ==> shorter[k] == cell[k]);
        assert(cell[cell.len() - 1] == cell.last());
        lemma_no_turns(copies, items, shorter, want);
    }
}

/// A re-solve that changes something.
#[derive(Debug, Clone)]
pub struct Resolution {
    /// The turns that realise the new assignment.
    pub turns: Vec<Turn>,
    /// How many garments are flipped.
    pub n_changed: usize,
}

/// Whether a layout with this many garments is re-solved.
pub fn resolvable(n_cells: usize) -> (r: bool)
    ensures
        r == (0 < n_cells <= MAX_RESOLVE_GARMENTS),
{
    n_cells != 0 && n_cells <= MAX_RESOLVE_GARMENTS
}

/// The current assignment of the cells, as a mask.
pub fn current_mask(cells: &Vec<GarmentCell>) -> (r: usize)
    requires
        cells.len() <= MAX_RESOLVE_GARMENTS,
    ensures
        r == mask_of(currents(cells@)),
        r < pow2(cells@.len()),
{
    let mut directions: Vec<bool> = Vec::new();
    let mut c: usize = 0;
    while c < cells.len()
        invariant
            c <= cells.len(),
            directions.len() == c,
            forall|i: int| 0 <= i < c ==> directions[i] == cells[i].current,
        decreases cells.len() - c,
    {
        directions.push(cells[c].current);
        c = c + 1;
    }
    assert(directions@ =~= currents(cells@));
    pack(&directions)
}

/// Turns the layout to the best assignment of directions, given the energy of each of them. The
/// result is none where there are no garments or too many of them, and where the current
/// assignment is kept; otherwise at least one garment is flipped.
pub fn orientation_resolve(
    copies: &Vec<PlacedCopy>,
    items: &Vec<ItemType>,
    cells: &Vec<GarmentCell>,
    energies: &Vec<Energy>,
) -> (r: Option<Resolution>)
    requires
        copies_of_items(copies@, items@.len()),
        0 < cells.len() <= MAX_RESOLVE_GARMENTS ==> energies.len() == pow2(cells@.len()),
        forall|c: int| 0 <= c < cells.len() ==> (#[trigger] cells[c]).valid(copies@, items@),
    ensures
        !(0 < cells.len() <= MAX_RESOLVE_GARMENTS) ==> r is None,
        0 < cells.len() <= MAX_RESOLVE_GARMENTS ==> ({
            let current = mask_of(currents(cells@));
            let best = scan(energies@, current, energies@.len()).mask;
            let wants = bits(best, cells@.len());
            &&& r is None <==> best == current
            &&& r matches Some(s) ==> {
                &&& s.turns@ == all_turns(copies@, items@, cell_lists(cells@), wants)
                &&& s.n_changed == n_differ(wants, currents(cells@))
                &&& s.n_changed > 0
                &&& s.turns.len() > 0
            }
        }),
{
    if !resolvable(cells.len()) {
        return None;
    }
    let current: usize = current_mask(cells);
    let best: usize = best_assignment(energies, current);
    if best == current {
        return None;
    }
    let wants: Vec<bool> = unpack(best, cells.len());
    let ghost all = cell_lists(cells@);
    let ghost now = currents(cells@);
    let mut turns: Vec<Turn> = Vec::new();
    let mut n_changed: usize = 0;
    let mut c: usize = 0;
    proof {
        lemma_mask_of(now);
        assert(wants@ != now) by {
            if wants@ == now {
                lemma_bits_injective(best as nat, current as nat, cells@.len());
            }
        }
        assert(all.take(0) =~= Seq::<Seq<usize>>::empty());
        assert(wants@.take(0) =~= Seq::<bool>::empty());
    }
    while c < cells.len()
        invariant
            c <= cells.len(),
            cells.len() <= MAX_RESOLVE_GARMENTS,
            wants.len() == cells.len(),
            all == cell_lists(cells@),
            now == currents(cells@),
            copies_of_items(copies@, items@.len()),
            forall|i: int| 0 <= i < cells.len() ==> (#[trigger] cells[i]).valid(copies@, items@),
            turns@ == all_turns(copies@, items@, all.take(c as int), wants@),
            n_changed == n_differ(wants@.take(c as int), now.take(c as int)),
            n_changed <= c,
            n_changed > 0 ==> turns.len() > 0,
        decreases cells.len() - c,
    {
        let cell = &cells[c];
        let want: bool = wants[c];
        let ghost before = turns@;
        proof {
            assert(cell.valid(copies@, items@));
            assert(all[c as int] == cell.copies@);
            assert(all.take(c + 1).drop_last() =~= all.take(c as int));
            assert(all.take(c + 1).last() == cell.copies@);
            assert(wants@.take(c + 1).drop_last() =~= wants@.take(c as int));
            assert(now.take(c + 1).drop_last() =~= now.take(c as int));
            assert(wants@.take(c + 1).last() == want);
            assert(now.take(c + 1).last() == cell.current);
        }
        if want != cell.current {
            let mut k: usize = 0;
            proof {
                assert(cell.copies@.take(0) =~= Seq::<usize>::empty());
                assert(turns@ =~= before + cell_turns(copies@, items@, cell.copies@.take(0), want));
            }
            while k < cell.copies.len()
                invariant
                    k <= cell.copies.len(),
                    cell.valid(copies@, items@),
                    want != cell.current,
                    turns@ == before + cell_turns(
                        copies@,
                        items@,
                        cell.copies@.take(k as int),
                        want,
                    ),
                    turns.len() >= before.len() + k,
                decreases cell.copies.len() - k,
            {
                let p: usize = cell.copies[k];
                let turn = Turn { copy: p, rotation: cell.opposite[k] };
                proof {
                    let list = cell.copies@;
                    assert(list[k as int] == p);
                    assert(list.take(k + 1).drop_last() =~= list.take(k as int));
                    assert(list.take(k + 1).last() == p);
                    assert(want == !cell.current);
                    assert(turn_for(copies@, items@, p, want) == Some(turn));
                    assert(before + cell_turns(copies@, items@, list.take(k as int), want).push(turn)
                        =~= (before + cell_turns(copies@, items@, list.take(k as int), want)).push(
                        turn,
                    ));
                }
                turns.push(turn);
                k = k + 1;
            }
            assert(cell.copies@.take(k as int) =~= cell.copies@);
            n_changed = n_changed + 1;
        } else {
            proof {
                lemma_no_turns(copies@, items@, cell.copies@, want);
                assert(turns@ =~= before + cell_turns(copies@, items@, cell.copies@, want));
            }
        }
        c = c + 1;
    }
    proof {
        assert(all.take(c as int) =~= all);
        assert(wants@.take(c as int) =~= wants@);
        assert(now.take(c as int) =~= now);
        lemma_n_differ(wants@, now);
    }
    Some(Resolution { turns, n_changed })
}

/// The copies that stand in no cell, in placement order.
pub fn fixed_copies(n_copies: usize, cells: &Vec<GarmentCell>) -> (r: Vec<usize>)
    ensures
        forall|i: int, j: int| 0 <= i < j < r.len() ==> r[i] < r[j],
        forall|p: usize| #[trigger]
            r@.contains(p) <==> p < n_copies && !in_cells(cell_lists(cells@), p),
{
    let ghost all = cell_lists(cells@);
    let mut r: Vec<usize> = Vec::new();
    let mut p: usize = 0;
    while p < n_copies
        invariant
            p <= n_copies,
            all == cell_lists(cells@),
            forall|i: int, j: int| 0 <= i < j < r.len() ==> r[i] < r[j],
            forall|i: int| 0 <= i < r.len() ==> r[i] < p,
            forall|q: usize| #[trigger] r@.contains(q) <==> q < p && !in_cells(all, q),
        decreases n_copies - p,
    {
        let mut found: bool = false;
        let mut c: usize = 0;
        while c < cells.len() && !found
            invariant
                c <= cells.len(),
                all == cell_lists(cells@),
                found ==> in_cells(all, p),
                !found ==> forall|d: int| 0 <= d < c ==> !(#[trigger] all[d]).contains(p),
            decreases cells.len() - c,
        {
            let list = &cells[c].copies;
            assert(all[c as int] == list@);
            let mut k: usize = 0;
            while k < list.len() && !found
                invariant
                    k <= list.len(),
                    c < cells.len(),
                    all == cell_lists(cells@),
                    all[c as int] == list@,
                    found ==> in_cells(all, p),
                    !found ==> forall|i: int| 0 <= i < k ==> list[i] != p,
                decreases list.len() - k,
            {
                if list[k] == p {
                    found = true;
                    assert(all[c as int].contains(list@[k as int]));
                }
                k = k + 1;
            }
            c = c + 1;
        }
        let ghost before = r@;
        if !found {
            r.push(p);
        }
        proof {
            assert forall|q: usize| #[trigger] r@.contains(q) <==> q < p + 1 && !in_cells(all, q) by {
                if before.contains(q) {
                    let i = choose|i: int| 0 <= i < before.len() && before[i] == q;
                    assert(r@[i] == q);
                }
                if r@.contains(q) {
                    let i = choose|i: int| 0 <= i < r.len() && r@[i] == q;
                    if i < before.len() {
                        assert(before[i] == q);
                        assert(before.contains(q));
                    }
                }
                if q == p && !found {
                    assert(r@[before.len() as int] == p);
                }
                if q < p && !in_cells(all, q) {
                    assert(before.contains(q));
                }
            }
        }
        p = p + 1;
    }
    r
}

/// In a consistent layout whose members can face either way, the cells can be built.
pub proof fn lemma_consistent_buildable(
    copies: Seq<PlacedCopy>,
    items: Seq<ItemType>,
    spec: GroupedOrientationSpec,
    dist: Seq<Vec<F32>>,
)
    requires
        copies.len() <= usize::MAX,
        spec.fits(items),
        copies_of_items(copies, items.len()),
        members_turnable(items, spec.groups@),
        consistent(copies, spec.groups@),
    ensures
        all_match(copies, items, spec.groups@),
        cells_flippable(
            copies,
            items,
            all_cells(copies, items, spec.groups@, true, dist, 2 * spec.groups@.len()),
        ),
{
    let groups = spec.groups@;
    lemma_fits_disjoint(spec, items);
    assert forall|g: int| 0 <= g < groups.len() implies stratum_matches(
        copies,
        items,
        (#[trigger] groups[g]).members@,
        Some(false),
    ) && stratum_matches(copies, items, groups[g].members@, Some(true)) by {
        assert(group_consistent(copies, groups[g]));
        assert(members_usable(groups[g].members@, items.len()));
        lemma_garments_match(copies, items, groups[g], false);
        lemma_garments_match(copies, items, groups[g], true);
    }
    lemma_runs_split(copies, items, groups, dist);
    lemma_members_in_cells(copies, items, groups, true, dist);
    let all = all_cells(copies, items, groups, true, dist, 2 * groups.len());
    assert(n_strata(groups, true) == 2 * groups.len());
    assert forall|c: int| 0 <= c < all.len() implies cell_flippable(
        copies,
        items,
        #[trigger] all[c],
    ) by {
        let cell = all[c];
        assert forall|k: int| 0 <= k < cell.len() implies rotation_to(
            items[copies[#[trigger] cell[k] as int].item_id as int],
            !copies[cell[k] as int].dir180,
        ) is Some by {
            assert(all[c].contains(cell[k]));
            assert(in_cells(all, cell[k]));
            assert(turnable(copies, items, cell[k] as int));
        }
    }
}

proof fn lemma_garments_match(
    copies: Seq<PlacedCopy>,
    items: Seq<ItemType>,
    group: OrientationGroup,
    dir: bool,
)
    requires
        group_consistent(copies, group),
        members_usable(group.members@, items.len()),
    ensures
        stratum_matches(copies, items, group.members@, Some(dir)),
{
    let turned = choose|turned: int| garments_turned(copies, group, turned);
    assert(garments_turned(copies, group, turned));
    let n = if dir {
        turned
    } else {
        group.quantity - turned
    };
    let members = group.members@;
    lemma_anchor_member(items, members);
    let a = anchor(items, members);
    let i = choose|i: int| 0 <= i < members.len() && members[i] == a;
    assert(members[i] == a);
    assert(facing(copies, a.0, dir) == n * a.1);
    assert((n * a.1) / (a.1 as int) == n) by (nonlinear_arith)
        requires
            a.1 > 0,
    ;
    assert(whole_cells(copies, items, members, Some(dir)) == n);
    assert forall|m: int| 0 <= m < members.len() && (#[trigger] members[m]).0 != a.0 implies positions(
        copies,
        members[m].0,
        Some(dir),
    ).len() == whole_cells(copies, items, members, Some(dir)) * members[m].1 by {
        assert(facing(copies, members[m].0, dir) == n * members[m].1);
    }
}

/// A re-solve cannot break the group counting invariant: whatever directions the garments of a
/// consistent layout are turned to, the layout stays consistent, as long as the cells could be
/// built, that is, every piece can be turned over.
pub proof fn lemma_resolve_consistent(
    copies: Seq<PlacedCopy>,
    items: Seq<ItemType>,
    spec: GroupedOrientationSpec,
    dist: Seq<Vec<F32>>,
    wants: Seq<bool>,
)
    requires
        copies.len() <= usize::MAX,
        spec.fits(items),
        copies_of_items(copies, items.len()),
        consistent(copies, spec.groups@),
        wants.len() == all_cells(
            copies,
            items,
            spec.groups@,
            true,
            dist,
            2 * spec.groups@.len(),
        ).len(),
        cells_flippable(
            copies,
            items,
            all_cells(copies, items, spec.groups@, true, dist, 2 * spec.groups@.len()),
        ),
    ensures
        consistent(
            after_turns(
                copies,
                items,
                all_turns(
                    copies,
                    items,
                    all_cells(copies, items, spec.groups@, true, dist, 2 * spec.groups@.len()),
                    wants,
                ),
            ),
            spec.groups@,
        ),
{
    let groups = spec.groups@;
    let all = all_cells(copies, items, groups, true, dist, 2 * groups.len());
    lemma_fits_disjoint(spec, items);
    lemma_runs_split(copies, items, groups, dist);
    assert(cells_turnable(copies, items, all, wants)) by {
        assert forall|c: int, p: usize|
            0 <= c < all.len() && #[trigger] all[c].contains(p) && copies[p as int].dir180
                != wants[c] implies turnable(copies, items, p as int) by {
            assert(cell_flippable(copies, items, all[c]));
            let k = choose|k: int| 0 <= k < all[c].len() && all[c][k] == p;
            assert(all[c][k] == p);
        }
    }
    lemma_turned_cells(copies, items, all, wants);
    let after = after_turns(copies, items, all_turns(copies, items, all, wants));
    lemma_uniform_cells_consistent(copies, after, groups, all, wants);
}

/// Garments flip as a whole or not at all: of a garment whose direction changes every piece is
/// turned over, of any other garment none is, and copies that belong to no garment are left
/// alone. What is not turned is as it was.
pub proof fn lemma_resolve_turns_whole_garments(
    copies: Seq<PlacedCopy>,
    items: Seq<ItemType>,
    spec: GroupedOrientationSpec,
    dist: Seq<Vec<F32>>,
    wants: Seq<bool>,
)
    requires
        copies.len() <= usize::MAX,
        spec.fits(items),
        copies_of_items(copies, items.len()),
        wants.len() == all_cells(
            copies,
            items,
            spec.groups@,
            true,
            dist,
            2 * spec.groups@.len(),
        ).len(),
        cells_flippable(
            copies,
            items,
            all_cells(copies, items, spec.groups@, true, dist, 2 * spec.groups@.len()),
        ),
    ensures
        ({
            let all = all_cells(copies, items, spec.groups@, true, dist, 2 * spec.groups@.len());
            let turns = all_turns(copies, items, all, wants);
            let after = after_turns(copies, items, turns);
            &&& turns_distinct(turns)
            &&& forall|c: int, p: usize|
                0 <= c < all.len() && #[trigger] all[c].contains(p) ==> {
                    &&& is_turned(turns, p) <==> wants[c] != copies[all[c][0] as int].dir180
                    &&& after[p as int] == (PlacedCopy { dir180: wants[c], ..copies[p as int] })
                }
            &&& forall|p: usize|
                p < copies.len() && !(#[trigger] in_cells(all, p)) ==> !is_turned(turns, p)
                    && after[p as int] == copies[p as int]
        }),
{
    let groups = spec.groups@;
    let all = all_cells(copies, items, groups, true, dist, 2 * groups.len());
    let turns = all_turns(copies, items, all, wants);
    let after = after_turns(copies, items, turns);
    lemma_fits_disjoint(spec, items);
    lemma_all_cells_disjoint(copies, items, groups, true, dist, 2 * groups.len());
    lemma_cells_face(copies, items, groups, true, dist, 2 * groups.len());
    lemma_all_turns(copies, items, all, wants);
    lemma_after_turns(copies, items, turns);
    assert forall|c: int, p: usize| 0 <= c < all.len() && #[trigger] all[c].contains(p) implies {
        &&& is_turned(turns, p) <==> wants[c] != copies[all[c][0] as int].dir180
        &&& after[p as int] == (PlacedCopy { dir180: wants[c], ..copies[p as int] })
    } by {
        let k = choose|k: int| 0 <= k < all[c].len() && all[c][k] == p;
        assert(cell_uniform(copies, all[c], true));
        assert(all[c][k] < copies.len());
        assert(copies[p as int].dir180 == copies[all[c][0] as int].dir180);
        assert(cell_flippable(copies, items, all[c]));
        assert(turnable(copies, items, p as int));
        if wants[c] != copies[p as int].dir180 {
            let i = choose|i: int| 0 <= i < turns.len() && (#[trigger] turns[i]).copy == p;
            assert(all[c].contains(turns[i].copy));
            assert(is_turned(turns, p));
        } else {
            assert forall|i: int| 0 <= i < turns.len() implies (#[trigger] turns[i]).copy != p by {
                if turns[i].copy == p {
                    assert(all[c].contains(turns[i].copy));
                }
            }
        }
    }
    assert forall|p: usize| p < copies.len() && !(#[trigger] in_cells(all, p)) implies !is_turned(
        turns,
        p,
    ) && after[p as int] == copies[p as int] by {
        assert forall|i: int| 0 <= i < turns.len() implies (#[trigger] turns[i]).copy != p by {
            assert(in_cells(all, turns[i].copy));
        }
    }
}

/// A re-solve turns copies over; it neither adds nor removes any.
pub proof fn lemma_resolve_keeps_copies(
    copies: Seq<PlacedCopy>,
    items: Seq<ItemType>,
    spec: GroupedOrientationSpec,
    dist: Seq<Vec<F32>>,
    wants: Seq<bool>,
)
    requires
        copies.len() <= usize::MAX,
        spec.fits(items),
        copies_of_items(copies, items.len()),
        consistent(copies, spec.groups@),
        wants.len() == all_cells(
            copies,
            items,
            spec.groups@,
            true,
            dist,
            2 * spec.groups@.len(),
        ).len(),
    ensures
        ({
            let after = after_turns(
                copies,
                items,
                all_turns(
                    copies,
                    items,
                    all_cells(copies, items, spec.groups@, true, dist, 2 * spec.groups@.len()),
                    wants,
                ),
            );
            &&& after.len() == copies.len()
            &&& forall|p: int|
                0 <= p < copies.len() ==> (#[trigger] after[p]).item_id == copies[p].item_id
        }),
{
    let groups = spec.groups@;
    let all = all_cells(copies, items, groups, true, dist, 2 * groups.len());
    lemma_fits_disjoint(spec, items);
    lemma_runs_split(copies, items, groups, dist);
    lemma_all_turns(copies, items, all, wants);
    lemma_after_turns(copies, items, all_turns(copies, items, all, wants));
}

/// The number of garments flipped is the number of places in which the two assignments differ.
pub proof fn lemma_n_differ_counts(a: Seq<bool>, b: Seq<bool>)
    requires
        a.len() == b.len(),
    ensures
        Set::new(|k: int| 0 <= k < a.len() && a[k] != b[k]).finite(),
        n_differ(a, b) == Set::new(|k: int| 0 <= k < a.len() && a[k] != b[k]).len(),
    decreases a.len(),
{
    let all = Set::new(|k: int| 0 <= k < a.len() && a[k] != b[k]);
    if a.len() == 0 {
        assert(all =~= Set::empty());
    } else {
        let (c, d) = (a.drop_last(), b.drop_last());
        let last = a.len() - 1;
        lemma_n_differ_counts(c, d);
        let before = Set::new(|k: int| 0 <= k < c.len() && c[k] != d[k]);
        assert(!before.contains(last));
        if a[last] != b[last] {
            assert(all =~= before.insert(last));
        } else {
            assert(all =~= before);
        }
    }
}

/// A re-solve realises the assignment that it chose: once its turns are made, the pieces of
/// garment `c` face 180 degrees exactly if digit `c` of the chosen mask is one. The pieces of the
/// garments that faced the other way are turned, each once and to the first allowed rotation of
/// the other class; nothing else is touched.
pub proof fn lemma_resolution_realised(
    copies: Seq<PlacedCopy>,
    items: Seq<ItemType>,
    cells: Seq<GarmentCell>,
    best: nat,
)
    requires
        copies_of_items(copies, items.len()),
        cells_disjoint(cell_lists(cells)),
        forall|c: int| 0 <= c < cells.len() ==> (#[trigger] cells[c]).valid(copies, items),
    ensures
        ({
            let turns = all_turns(copies, items, cell_lists(cells), bits(best, cells.len()));
            after_turns(copies, items, turns).len() == copies.len() && turns_distinct(turns)
        }),
        forall|c: int, p: usize|
            0 <= c < cells.len() && #[trigger] cells[c].copies@.contains(p) ==> {
                let turns = all_turns(copies, items, cell_lists(cells), bits(best, cells.len()));
                let after = after_turns(copies, items, turns);
                &&& after[p as int].dir180 <==> (best / pow2(c as nat)) % 2 == 1
                &&& after[p as int].item_id == copies[p as int].item_id
                &&& is_turned(turns, p) <==> copies[p as int].dir180 != ((best / pow2(c as nat)) % 2
                    == 1)
            },
        forall|p: usize|
            p < copies.len() && !#[trigger] in_cells(cell_lists(cells), p) ==> {
                let turns = all_turns(copies, items, cell_lists(cells), bits(best, cells.len()));
                !is_turned(turns, p) && after_turns(copies, items, turns)[p as int]
                    == copies[p as int]
            },
        forall|i: int|
            #![trigger all_turns(copies, items, cell_lists(cells), bits(best, cells.len()))[i]]
            0 <= i < all_turns(
                copies,
                items,
                cell_lists(cells),
                bits(best, cells.len()),
            ).len() ==> {
                let t = all_turns(copies, items, cell_lists(cells), bits(best, cells.len()))[i];
                let rotations = items[copies[t.copy as int].item_id as int].rotations->0@;
                &&& t.rotation < rotations.len()
                &&& rotations[t.rotation as int] != copies[t.copy as int].dir180
                &&& forall|j: int|
                    0 <= j < t.rotation ==> rotations[j] == copies[t.copy as int].dir180
            },
{
    let all = cell_lists(cells);
    let wants = bits(best, cells.len());
    let turns = all_turns(copies, items, all, wants);
    let after = after_turns(copies, items, turns);
    assert forall|c: int, k: int| 0 <= c < all.len() && 0 <= k < all[c].len() implies (
    #[trigger] all[c][k]) < copies.len() by {
        assert(cells[c].valid(copies, items));
        assert(cells[c].copies@[k] < copies.len());
    }
    lemma_all_turns(copies, items, all, wants);
    lemma_after_turns(copies, items, turns);
    assert forall|c: int, p: usize|
        0 <= c < cells.len() && #[trigger] cells[c].copies@.contains(p) implies {
        &&& after[p as int].dir180 <==> (best / pow2(c as nat)) % 2 == 1
        &&& after[p as int].item_id == copies[p as int].item_id
        &&& is_turned(turns, p) <==> copies[p as int].dir180 != ((best / pow2(c as nat)) % 2 == 1)
    } by {
        lemma_bit_is_digit(best, c as nat);
        assert(wants[c] == bit(best, c as nat));
        assert(all[c].contains(p));
        let k = choose|k: int| 0 <= k < all[c].len() && all[c][k] == p;
        assert(all[c][k] < copies.len());
        assert(cells[c].valid(copies, items));
        assert(cells[c].copies@[k] == p);
        assert(turnable(copies, items, p as int));
        if is_turned(turns, p) {
            let i = choose|i: int| 0 <= i < turns.len() && (#[trigger] turns[i]).copy == p;
            assert(all[c].contains(turns[i].copy));
            assert(after[turns[i].copy as int].dir180 == turn_class(copies, items, turns[i]));
        } else {
            assert(forall|i: int| 0 <= i < turns.len() ==> (#[trigger] turns[i]).copy != p);
            assert(after[p as int] == copies[p as int]);
        }
    }
    assert forall|p: usize| p < copies.len() && !#[trigger] in_cells(all, p) implies !is_turned(
        turns,
        p,
    ) && after[p as int] == copies[p as int] by {
        assert forall|i: int| 0 <= i < turns.len() implies (#[trigger] turns[i]).copy != p by {
            assert(in_cells(all, turns[i].copy));
        }
    }
    assert forall|i: int| 0 <= i < turns.len() implies {
        let t = #[trigger] turns[i];
        let rotations = items[copies[t.copy as int].item_id as int].rotations->0@;
        &&& t.rotation < rotations.len()
        &&& rotations[t.rotation as int] != copies[t.copy as int].dir180
        &&& forall|j: int| 0 <= j < t.rotation ==> rotations[j] == copies[t.copy as int].dir180
    } by {
        let p = turns[i].copy;
        assert(in_cells(all, p));
        let c = choose|c: int| 0 <= c < all.len() && (#[trigger] all[c]).contains(p);
        assert(all[c].contains(turns[i].copy));
        lemma_rotation_to(items[copies[p as int].item_id as int], wants[c]);
    }
}

/// When the cells can be built, in numbers: for each group and direction in which the anchor has
/// copies, every other piece type has as many copies as the anchor's whole garments take.
pub proof fn lemma_all_match(
    copies: Seq<PlacedCopy>,
    items: Seq<ItemType>,
    groups: Seq<OrientationGroup>,
)
    requires
        groups_usable(groups, items.len()),
    ensures
        all_match(copies, items, groups) <==> forall|g: int, m: int, dir: bool|
            #![trigger groups[g].members@[m], facing(copies, groups[g].members@[m].0, dir)]
            0 <= g < groups.len() && 0 <= m < groups[g].members@.len() ==> {
                let (id, per_garment) = groups[g].members@[m];
                let (seed, seed_pg) = anchor(items, groups[g].members@);
                id != seed && facing(copies, seed, dir) > 0 ==> facing(copies, id, dir) == (facing(
                    copies,
                    seed,
                    dir,
                ) / seed_pg as nat) * per_garment
            },
{
    assert forall|g: int, m: int, dir: bool|
        #![trigger groups[g].members@[m], facing(copies, groups[g].members@[m].0, dir)]
        all_match(copies, items, groups) && 0 <= g < groups.len() && 0 <= m
            < groups[g].members@.len() implies {
        let (id, per_garment) = groups[g].members@[m];
        let (seed, seed_pg) = anchor(items, groups[g].members@);
        id != seed && facing(copies, seed, dir) > 0 ==> facing(copies, id, dir) == (facing(
            copies,
            seed,
            dir,
        ) / seed_pg as nat) * per_garment
    } by {
        assert(stratum_matches(copies, items, groups[g].members@, Some(false)));
        assert(stratum_matches(copies, items, groups[g].members@, Some(true)));
        assert(stratum_matches(copies, items, groups[g].members@, Some(dir)));
    }
    if forall|g: int, m: int, dir: bool|
        #![trigger groups[g].members@[m], facing(copies, groups[g].members@[m].0, dir)]
        0 <= g < groups.len() && 0 <= m < groups[g].members@.len() ==> {
            let (id, per_garment) = groups[g].members@[m];
            let (seed, seed_pg) = anchor(items, groups[g].members@);
            id != seed && facing(copies, seed, dir) > 0 ==> facing(copies, id, dir) == (facing(
                copies,
                seed,
                dir,
            ) / seed_pg as nat) * per_garment
        } {
        assert forall|g: int, dir: bool| 0 <= g < groups.len() implies #[trigger] stratum_matches(
            copies,
            items,
            groups[g].members@,
            Some(dir),
        ) by {
            let members = groups[g].members@;
            assert forall|m: int|
                positions(copies, anchor(items, members).0, Some(dir)).len() > 0 && 0 <= m
                    < members.len() && (#[trigger] members[m]).0 != anchor(
                    items,
                    members,
                ).0 implies positions(copies, members[m].0, Some(dir)).len() == whole_cells(
                copies,
                items,
                members,
                Some(dir),
            ) * members[m].1 by {
                assert(facing(copies, groups[g].members@[m].0, dir) == positions(
                    copies,
                    members[m].0,
                    Some(dir),
                ).len());
            }
        }
        assert forall|g: int| 0 <= g < groups.len() implies stratum_matches(
            copies,
            items,
            (#[trigger] groups[g]).members@,
            Some(false),
        ) && stratum_matches(copies, items, groups[g].members@, Some(true)) by {
            assert(stratum_matches(copies, items, groups[g].members@, Some(false)));
            assert(stratum_matches(copies, items, groups[g].members@, Some(true)));
        }
    }
}

/// What is noted of a garment: all its pieces face its direction, and for each piece the rotation
/// noted is the first allowed one of the other class.
pub proof fn lemma_valid_cell(
    cell: GarmentCell,
    copies: Seq<PlacedCopy>,
    items: Seq<ItemType>,
    k: int,
)
    requires
        cell.valid(copies, items),
        0 <= k < cell.copies@.len(),
    ensures
        cell.opposite@.len() == cell.copies@.len(),
        cell.copies@[k] < copies.len(),
        copies[cell.copies@[k] as int].dir180 == cell.current,
        ({
            let rotations = items[copies[cell.copies@[k] as int].item_id as int].rotations;
            &&& rotations is Some
            &&& cell.opposite@[k] < rotations->0@.len()
            &&& rotations->0@[cell.opposite@[k] as int] != cell.current
            &&& forall|j: int|
                0 <= j < cell.opposite@[k] ==> rotations->0@[j] == cell.current
        }),
{
    let p = cell.copies@[k] as int;
    assert(copies[p].dir180 == cell.current);
    lemma_rotation_to(items[copies[p].item_id as int], !cell.current);
}

/// A piece keeps a cell from being built exactly if its item has no discrete rotations, or none
/// of the class that the piece does not face.
pub proof fn lemma_cell_flippable(
    copies: Seq<PlacedCopy>,
    items: Seq<ItemType>,
    cell: Seq<usize>,
)
    ensures
        cell_flippable(copies, items, cell) <==> forall|k: int|
            0 <= k < cell.len() ==> {
                let copy = copies[#[trigger] cell[k] as int];
                &&& items[copy.item_id as int].rotations is Some
                &&& items[copy.item_id as int].rotations->0@.contains(!copy.dir180)
            },
{
    assert forall|k: int| 0 <= k < cell.len() implies (rotation_to(
        items[copies[#[trigger] cell[k] as int].item_id as int],
        !copies[cell[k] as int].dir180,
    ) is Some <==> {
        let copy = copies[cell[k] as int];
        &&& items[copy.item_id as int].rotations is Some
        &&& items[copy.item_id as int].rotations->0@.contains(!copy.dir180)
    }) by {
        let copy = copies[cell[k] as int];
        lemma_rotation_to(items[copy.item_id as int], !copy.dir180);
    }
}

} // verus!
