//! Soft annealing of garment orientations.
//!
//! While orientations are still free, every pose whose direction disagrees with the current
//! majority of its garment pays a penalty. At the end the copies that still disagree are
//! flipped in place onto the majority of their garment: the projection.
use crate::cluster::all_cells;
use crate::cluster::all_seeds;
use crate::cluster::cell_uniform;
use crate::cluster::garment_cells;
use crate::cluster::groups_usable;
use crate::cluster::lists;
use crate::cluster::n_strata;
use crate::cluster::table_covers;
use crate::garments::cells_disjoint;
use crate::garments::in_cells;
use crate::grouped::GroupedOrientationSpec;
use crate::grouped::ItemType;
use crate::grouped::PlacedCopy;
use crate::grouped::Turn;
use crate::layout::after_turns;
use crate::layout::consistent;
use crate::layout::copies_of_items;
use crate::layout::lemma_after_turns;
use crate::layout::lemma_rotation_to;
use crate::layout::rotation_to;
use crate::layout::turns_distinct;
use crate::partition::demand_placed;
use crate::partition::lemma_all_cells_disjoint;
use crate::partition::lemma_demand_placed;
use crate::partition::lemma_fits_disjoint;
use crate::partition::lemma_members_in_cells;
use crate::partition::lemma_runs_mixed;
use crate::partition::lemma_uniform_cells_consistent;
use crate::partition::members_turnable;
use crate::scalar::F32;
use crate::turning::all_turns;
use crate::turning::cells_of_copies;
use crate::turning::cells_turnable;
use crate::turning::lemma_all_turns;
use crate::turning::lemma_turned_cells;
use crate::turning::turn_cells;
use crate::turning::turn_for;
use crate::turning::turnable;
use crate::util::listener::SearchStats;
use jagua_rs::entities::PItemKey;
use slotmap::KeyData;
use slotmap::SecondaryMap;
use vstd::prelude::*;

verus! {

/// Per-copy anneal data. `penalty[c]` is added to any candidate pose of this copy in class `c`
/// (0 = the 0 degree class, 1 = the 180 degree class); `move_candidate` marks copies that
/// currently disagree with their garment's majority.
#[derive(Debug, Clone, Copy)]
pub struct AnnealEntry {
    pub penalty: [F32; 2],
    pub move_candidate: bool,
}

impl Default for AnnealEntry {
    fn default() -> (r: AnnealEntry)
        ensures
            r.penalty@ == seq![F32 { bits: 0 }, F32 { bits: 0 }],
            !r.move_candidate,
    {
        AnnealEntry { penalty: [F32::zero(), F32::zero()], move_candidate: false }
    }
}

/// Anneal data by placement key, in a `slotmap::SecondaryMap`.
#[verifier::external_body]
pub struct AnnealMap {
    map: SecondaryMap<PItemKey, AnnealEntry>,
}

/// What an [`AnnealMap`] holds, by the keys' integer form (`slotmap::KeyData::as_ffi`).
pub uninterp spec fn anneal_entries(m: AnnealMap) -> Map<u64, AnnealEntry>;

/// The slot that a key names: the low half of its integer form.
pub open spec fn key_slot(key: u64) -> int {
    key as int % 0x1_0000_0000
}

/// Whether an integer is the form of a key that a slot map handed out: the slot is not the null
/// key's, and the version in the high half is odd.
pub open spec fn is_key(key: u64) -> bool {
    key_slot(key) != 0xffff_ffff && (key as int / 0x1_0000_0000) % 2 == 1
}

/// The copies' keys are keys of one layout: each names a slot of its own.
pub open spec fn keys_live(copies: Seq<PlacedCopy>) -> bool {
    &&& forall|p: int| 0 <= p < copies.len() ==> is_key((#[trigger] copies[p]).key)
    &&& forall|p: int, q: int|
        0 <= p < copies.len() && 0 <= q < copies.len() && p != q ==> key_slot(
            (#[trigger] copies[p]).key,
        ) != key_slot((#[trigger] copies[q]).key)
}

/// `slotmap::SecondaryMap::new`: a map without entries.
#[verifier::external_body]
fn map_new() -> (r: AnnealMap)
    ensures
        anneal_entries(r).dom() == Set::<u64>::empty(),
{
    AnnealMap { map: SecondaryMap::new() }
}

/// `slotmap::SecondaryMap::insert`: the entry is stored under the key, in place of one that was
/// there, and nothing else changes. This holds of keys that a slot map handed out, as long as
/// the map holds no entry for an earlier or later occupant of the key's slot.
#[verifier::external_body]
fn map_insert(m: &mut AnnealMap, key: u64, entry: AnnealEntry)
    requires
        is_key(key),
        forall|k: u64|
            #[trigger] anneal_entries(*old(m)).dom().contains(k) && key_slot(k) == key_slot(key)
                ==> k == key,
    ensures
        anneal_entries(*final(m)) == anneal_entries(*old(m)).insert(key, entry),
{
    m.map.insert(PItemKey::from(KeyData::from_ffi(key)), entry);
}

/// `slotmap::SecondaryMap::get`: the entry stored under the key, if there is one.
#[verifier::external_body]
fn map_get(m: &AnnealMap, key: u64) -> (r: Option<AnnealEntry>)
    requires
        is_key(key),
    ensures
        r is Some <==> anneal_entries(*m).dom().contains(key),
        r matches Some(e) ==> e == anneal_entries(*m)[key],
{
    m.map.get(PItemKey::from(KeyData::from_ffi(key))).copied()
}

impl AnnealMap {
    /// The anneal data of the copy with this key, if it is under pressure.
    pub fn entry(&self, key: u64) -> (r: Option<AnnealEntry>)
        ensures
            r is Some <==> is_key(key) && anneal_entries(*self).dom().contains(key),
            r matches Some(e) ==> e == anneal_entries(*self)[key],
    {
        let slot: u64 = key % 0x1_0000_0000;
        let version: u64 = key / 0x1_0000_0000;
        if slot != 0xffff_ffff && version % 2 == 1 {
            map_get(self, key)
        } else {
            None
        }
    }
}

/// The area-weighted vote of a cell on its direction.
#[derive(Debug, Clone, Copy)]
pub struct CellVote {
    /// Sum of the hull areas of the copies at 0 degrees.
    pub at0: F32,
    /// Sum of the hull areas of the copies at 180 degrees.
    pub at180: F32,
    /// Absolute difference of the two sums.
    pub gap: F32,
    /// Largest difference that counts as a tie.
    pub slack: F32,
}

impl CellVote {
    /// The cell has no majority.
    pub open spec fn tied(self) -> bool {
        self.gap.within(self.slack)
    }

    /// The majority is at 180 degrees; equal sums count for 0.
    pub open spec fn majority180(self) -> bool {
        self.at0.below(self.at180)
    }
}

/// What a copy pays and whether it gets a move turn, given its cell's vote: it pays `pressure`
/// in the class that is not the majority's.
pub open spec fn presses(e: AnnealEntry, copy: PlacedCopy, vote: CellVote, pressure: F32) -> bool {
    &&& e.penalty@ == if vote.majority180() {
        seq![pressure, F32 { bits: 0 }]
    } else {
        seq![F32 { bits: 0 }, pressure]
    }
    &&& e.move_candidate == (copy.dir180 != vote.majority180())
}

/// Copy `p` stands in cell `c`, which has a majority.
pub open spec fn pressed(
    cells: Seq<Seq<usize>>,
    votes: Seq<CellVote>,
    c: int,
    p: usize,
) -> bool {
    0 <= c < cells.len() && !votes[c].tied() && cells[c].contains(p)
}

/// The entries are those of the copies in cells with a majority, each by the vote of its cell
/// (of the last one, should it stand in several).
pub open spec fn is_pressure(
    entries: Map<u64, AnnealEntry>,
    copies: Seq<PlacedCopy>,
    cells: Seq<Seq<usize>>,
    votes: Seq<CellVote>,
    pressure: Seq<F32>,
) -> bool {
    &&& forall|key: u64| #[trigger]
        entries.dom().contains(key) <==> exists|c: int, p: usize|
            #[trigger] pressed(cells, votes, c, p) && copies[p as int].key == key
    &&& forall|c: int, p: usize|
        #[trigger] pressed(cells, votes, c, p) && (forall|d: int|
            c < d ==> !pressed(cells, votes, d, p)) ==> presses(
            entries[copies[p as int].key],
            copies[p as int],
            votes[c],
            pressure[p as int],
        )
}

/// One more copy in the last cell.
proof fn lemma_press(
    entries: Map<u64, AnnealEntry>,
    copies: Seq<PlacedCopy>,
    cells: Seq<Seq<usize>>,
    votes: Seq<CellVote>,
    pressure: Seq<F32>,
    p: usize,
    e: AnnealEntry,
)
    requires
        keys_live(copies),
        cells.len() > 0,
        cells_of_copies(cells, copies.len()),
        !votes[cells.len() - 1].tied(),
        p < copies.len(),
        is_pressure(entries, copies, cells, votes, pressure),
        presses(e, copies[p as int], votes[cells.len() - 1], pressure[p as int]),
    ensures
        is_pressure(
            entries.insert(copies[p as int].key, e),
            copies,
            cells.update(cells.len() - 1, cells.last().push(p)),
            votes,
            pressure,
        ),
{
    let last = cells.len() - 1;
    let key = copies[p as int].key;
    let more = cells.update(last, cells.last().push(p));
    let out = entries.insert(key, e);
    assert forall|c: int, q: usize| #[trigger] pressed(more, votes, c, q) <==> pressed(
        cells,
        votes,
        c,
        q,
    ) || (c == last && q == p) by {
        if c == last {
            if cells[last].contains(q) {
                let k = choose|k: int| 0 <= k < cells[last].len() && cells[last][k] == q;
                assert(more[last][k] == q);
            }
            if more[last].contains(q) {
                let k = choose|k: int| 0 <= k < more[last].len() && more[last][k] == q;
                assert(k < cells[last].len() ==> cells[last][k] == q);
            }
            assert(more[last][cells[last].len() as int] == p);
        }
    }
    assert forall|c: int, q: usize| #[trigger] pressed(cells, votes, c, q) implies q
        < copies.len() by {
        let k = choose|k: int| 0 <= k < cells[c].len() && cells[c][k] == q;
        assert(cells[c][k] < copies.len());
    }
    assert forall|k: u64| #[trigger] out.dom().contains(k) <==> exists|c: int, q: usize|
        #[trigger] pressed(more, votes, c, q) && copies[q as int].key == k by {
        if k == key {
            assert(pressed(more, votes, last, p));
        }
        if entries.dom().contains(k) {
            let (c, q) = choose|c: int, q: usize|
                #[trigger] pressed(cells, votes, c, q) && copies[q as int].key == k;
            assert(pressed(more, votes, c, q));
        }
        if exists|c: int, q: usize|
            #[trigger] pressed(more, votes, c, q) && copies[q as int].key == k {
            let (c, q) = choose|c: int, q: usize|
                #[trigger] pressed(more, votes, c, q) && copies[q as int].key == k;
            if pressed(cells, votes, c, q) {
                assert(entries.dom().contains(k));
            }
        }
    }
    assert forall|c: int, q: usize|
        #[trigger] pressed(more, votes, c, q) && (forall|d: int|
            c < d ==> !pressed(more, votes, d, q)) implies presses(
        out[copies[q as int].key],
        copies[q as int],
        votes[c],
        pressure[q as int],
    ) by {
        if q == p {
            assert(pressed(more, votes, last, p));
            assert(c == last);
        } else {
            assert(pressed(cells, votes, c, q));
            assert forall|d: int| c < d implies !pressed(cells, votes, d, q) by {
                assert(!pressed(more, votes, d, q));
            }
            assert(copies[q as int].key != key);
        }
    }
}

/// One more cell, without copies or without a majority.
proof fn lemma_press_nothing(
    entries: Map<u64, AnnealEntry>,
    copies: Seq<PlacedCopy>,
    cells: Seq<Seq<usize>>,
    votes: Seq<CellVote>,
    pressure: Seq<F32>,
    cell: Seq<usize>,
)
    requires
        is_pressure(entries, copies, cells, votes, pressure),
        cell.len() == 0 || votes[cells.len() as int].tied(),
    ensures
        is_pressure(entries, copies, cells.push(cell), votes, pressure),
{
    let more = cells.push(cell);
    assert forall|c: int, q: usize| #[trigger] pressed(more, votes, c, q) <==> pressed(
        cells,
        votes,
        c,
        q,
    ) by {
        assert(0 <= c < cells.len() ==> more[c] == cells[c]);
    }
    assert forall|k: u64| #[trigger] entries.dom().contains(k) <==> exists|c: int, q: usize|
        #[trigger] pressed(more, votes, c, q) && copies[q as int].key == k by {
        if entries.dom().contains(k) {
            let (c, q) = choose|c: int, q: usize|
                #[trigger] pressed(cells, votes, c, q) && copies[q as int].key == k;
            assert(pressed(more, votes, c, q));
        }
        if exists|c: int, q: usize|
            #[trigger] pressed(more, votes, c, q) && copies[q as int].key == k {
            let (c, q) = choose|c: int, q: usize|
                #[trigger] pressed(more, votes, c, q) && copies[q as int].key == k;
            assert(pressed(cells, votes, c, q));
        }
    }
    assert forall|c: int, q: usize|
        #[trigger] pressed(more, votes, c, q) && (forall|d: int|
            c < d ==> !pressed(more, votes, d, q)) implies presses(
        entries[copies[q as int].key],
        copies[q as int],
        votes[c],
        pressure[q as int],
    ) by {
        assert(pressed(cells, votes, c, q));
        assert forall|d: int| c < d implies !pressed(cells, votes, d, q) by {
            assert(!pressed(more, votes, d, q));
        }
    }
}

/// Clusters the group members' copies into physical garments, without regard to direction.
pub fn cluster_cells(
    copies: &Vec<PlacedCopy>,
    items: &Vec<ItemType>,
    spec: &GroupedOrientationSpec,
    dist: &Vec<Vec<F32>>,
) -> (r: Vec<Vec<usize>>)
    requires
        copies_of_items(copies@, items@.len()),
        groups_usable(spec.groups@, items@.len()),
        table_covers(
            dist@,
            all_seeds(copies@, items@, spec.groups@, false, spec.groups@.len()).len(),
            copies@.len(),
        ),
    ensures
        lists(r@) == all_cells(copies@, items@, spec.groups@, false, dist@, spec.groups@.len()),
        cells_of_copies(lists(r@), copies@.len()),
{
    let r: Vec<Vec<usize>> = garment_cells(copies, items, spec, false, dist);
    proof {
        let all = lists(r@);
        assert forall|c: int, k: int| 0 <= c < all.len() && 0 <= k < all[c].len() implies (
        #[trigger] all[c][k]) < copies.len() by {
            assert(all[c] == r[c]@);
            assert(cell_uniform(copies@, r[c]@, false));
        }
    }
    r
}

/// Builds the per-copy penalty map for cells whose votes are counted. `pressure` holds, for
/// every copy, lambda times the copy's hull area. Cells with a tie apply no pressure, and
/// without a positive lambda nothing does.
pub fn build_anneal_map(
    copies: &Vec<PlacedCopy>,
    cells: &Vec<Vec<usize>>,
    votes: &Vec<CellVote>,
    lambda: F32,
    pressure: &Vec<F32>,
) -> (r: AnnealMap)
    requires
        keys_live(copies@),
        cells_of_copies(lists(cells@), copies@.len()),
        votes.len() == cells.len(),
        pressure.len() == copies.len(),
    ensures
        lambda.within(F32 { bits: 0 }) ==> anneal_entries(r).dom() == Set::<u64>::empty(),
        !lambda.within(F32 { bits: 0 }) ==> is_pressure(
            anneal_entries(r),
            copies@,
            lists(cells@),
            votes@,
            pressure@,
        ),
{
    let mut map: AnnealMap = map_new();
    if lambda.le(F32::zero()) {
        return map;
    }
    let ghost all = lists(cells@);
    let mut c: usize = 0;
    proof {
        assert(all.take(0) =~= Seq::<Seq<usize>>::empty());
        assert forall|key: u64| #[trigger] anneal_entries(map).dom().contains(key) implies exists|
            c: int,
            p: usize,
        | #[trigger] pressed(all.take(0), votes@, c, p) && copies@[p as int].key == key by {}
        assert(is_pressure(anneal_entries(map), copies@, all.take(0), votes@, pressure@));
    }
    while c < cells.len()
        invariant
            c <= cells.len(),
            all == lists(cells@),
            keys_live(copies@),
            cells_of_copies(all, copies@.len()),
            votes.len() == cells.len(),
            pressure.len() == copies.len(),
            is_pressure(anneal_entries(map), copies@, all.take(c as int), votes@, pressure@),
        decreases cells.len() - c,
    {
        let cell = &cells[c];
        let vote: CellVote = votes[c];
        let ghost before = all.take(c as int);
        proof {
            assert(all[c as int] == cell@);
            assert(all.take(c + 1) =~= before.push(cell@));
        }
        if vote.gap.le(vote.slack) {
            proof {
                lemma_press_nothing(
                    anneal_entries(map),
                    copies@,
                    before,
                    votes@,
                    pressure@,
                    cell@,
                );
            }
        } else {
            let majority180: bool = vote.at0.lt(vote.at180);
            let mut k: usize = 0;
            proof {
                lemma_press_nothing(
                    anneal_entries(map),
                    copies@,
                    before,
                    votes@,
                    pressure@,
                    Seq::empty(),
                );
                assert(cell@.take(0) =~= Seq::<usize>::empty());
            }
            while k < cell.len()
                invariant
                    k <= cell.len(),
                    c < cells.len(),
                    all == lists(cells@),
                    cell@ == all[c as int],
                    before == all.take(c as int),
                    keys_live(copies@),
                    cells_of_copies(all, copies@.len()),
                    pressure.len() == copies.len(),
                    votes.len() == cells.len(),
                    vote == votes[c as int],
                    !vote.tied(),
                    majority180 == vote.majority180(),
                    is_pressure(
                        anneal_entries(map),
                        copies@,
                        before.push(cell@.take(k as int)),
                        votes@,
                        pressure@,
                    ),
                decreases cell.len() - k,
            {
                let p: usize = cell[k];
                let ghost partial = before.push(cell@.take(k as int));
                proof {
                    assert(all[c as int][k as int] == p);
                    assert forall|d: int, i: int|
                        0 <= d < partial.len() && 0 <= i < partial[d].len() implies (
                    #[trigger] partial[d][i]) < copies.len() by {
                        if d < c {
                            assert(all[d][i] < copies.len());
                        } else {
                            assert(all[c as int][i] < copies.len());
                        }
                    }
                }
                let copy: PlacedCopy = copies[p];
                let unit: F32 = pressure[p];
                let penalty: [F32; 2] = if majority180 {
                    [unit, F32::zero()]
                } else {
                    [F32::zero(), unit]
                };
                let entry = AnnealEntry { penalty, move_candidate: copy.dir180 != majority180 };
                proof {
                    assert(presses(entry, copy, vote, unit)) by {
                        if majority180 {
                            assert(penalty@ =~= seq![unit, F32 { bits: 0 }]);
                        } else {
                            assert(penalty@ =~= seq![F32 { bits: 0 }, unit]);
                        }
                    }
                    assert forall|key: u64| #[trigger]
                        anneal_entries(map).dom().contains(key) && key_slot(key) == key_slot(
                            copy.key,
                        ) implies key == copy.key by {
                        let (d, q) = choose|d: int, q: usize|
                            #[trigger] pressed(partial, votes@, d, q) && copies@[q as int].key
                                == key;
                        let i = choose|i: int| 0 <= i < partial[d].len() && partial[d][i] == q;
                        assert(partial[d][i] < copies.len());
                        if q != p {
                            assert(key_slot(copies@[q as int].key) != key_slot(
                                copies@[p as int].key,
                            ));
                        }
                    }
                    lemma_press(
                        anneal_entries(map),
                        copies@,
                        partial,
                        votes@,
                        pressure@,
                        p,
                        entry,
                    );
                    assert(partial.update(c as int, partial.last().push(p)) =~= before.push(
                        cell@.take(k + 1),
                    )) by {
                        assert(cell@.take(k as int).push(p) =~= cell@.take(k + 1));
                    }
                }
                map_insert(&mut map, copy.key, entry);
                k = k + 1;
            }
            assert(cell@.take(k as int) =~= cell@);
        }
        c = c + 1;
    }
    assert(all.take(c as int) =~= all);
    map
}

/// The directions that the cells' votes are for.
pub open spec fn majorities(votes: Seq<CellVote>) -> Seq<bool> {
    votes.map_values(|v: CellVote| v.majority180())
}

/// The turns that project a layout onto consistency: the copies that face against the vote of
/// their cell are turned to the first allowed rotation of the other class, where there is one.
pub fn project_to_consistency(
    copies: &Vec<PlacedCopy>,
    items: &Vec<ItemType>,
    cells: &Vec<Vec<usize>>,
    votes: &Vec<CellVote>,
) -> (r: Vec<Turn>)
    requires
        copies_of_items(copies@, items@.len()),
        cells_of_copies(lists(cells@), copies@.len()),
        votes.len() == cells.len(),
    ensures
        r@ == all_turns(copies@, items@, lists(cells@), majorities(votes@)),
        cells_disjoint(lists(cells@)) ==> forall|i: int, c: int|
            0 <= i < r.len() && 0 <= c < cells.len() && #[trigger] cells[c]@.contains(
                (#[trigger] r[i]).copy,
            ) ==> {
                let up = !votes[c].at0.nan() && !votes[c].at180.nan() && votes[c].at0.rank()
                    < votes[c].at180.rank();
                &&& copies[r[i].copy as int].dir180 != up
                &&& items[copies[r[i].copy as int].item_id as int].rotations->0@[r[i].rotation as int]
                    == up
            },
{
    let mut wants: Vec<bool> = Vec::new();
    let mut c: usize = 0;
    while c < votes.len()
        invariant
            c <= votes.len(),
            wants.len() == c,
            forall|i: int| 0 <= i < c ==> wants[i] == votes[i].majority180(),
        decreases votes.len() - c,
    {
        wants.push(votes[c].at0.lt(votes[c].at180));
        c = c + 1;
    }
    assert(wants@ =~= majorities(votes@));
    let r: Vec<Turn> = turn_cells(copies, items, cells, &wants);
    proof {
        let all = lists(cells@);
        if cells_disjoint(all) {
            lemma_all_turns(copies@, items@, all, wants@);
            assert(forall|c: int| 0 <= c < cells.len() ==> all[c] == (#[trigger] cells[c])@);
        }
    }
    r
}

/// Projection follows the larger sum of areas. In disjoint cells every copy that can ends up at
/// 180 degrees exactly if the sum at 180 degrees of its cell's vote exceeds the sum at 0, and at 0
/// otherwise, equal sums included. The copies that face that way already are left alone, and so
/// are those without an allowed rotation of that class and those outside the cells; every other
/// one is turned once, to the first allowed rotation of the class.
pub proof fn lemma_projection_follows_larger_sum(
    copies: Seq<PlacedCopy>,
    items: Seq<ItemType>,
    cells: Seq<Seq<usize>>,
    votes: Seq<CellVote>,
)
    requires
        copies_of_items(copies, items.len()),
        cells_disjoint(cells),
        cells_of_copies(cells, copies.len()),
        votes.len() == cells.len(),
    ensures
        after_turns(
            copies,
            items,
            all_turns(copies, items, cells, majorities(votes)),
        ).len() == copies.len(),
        forall|c: int, p: usize|
            0 <= c < cells.len() && #[trigger] cells[c].contains(p) ==> {
                let turns = all_turns(copies, items, cells, majorities(votes));
                let after = after_turns(copies, items, turns);
                let up = !votes[c].at0.nan() && !votes[c].at180.nan() && votes[c].at0.rank()
                    < votes[c].at180.rank();
                let item = items[copies[p as int].item_id as int];
                let can = item.rotations is Some && item.rotations->0@.contains(up);
                &&& turned_copies(turns).contains(p) <==> copies[p as int].dir180 != up && can
                &&& copies[p as int].dir180 == up || can ==> after[p as int].dir180 == up
                &&& copies[p as int].dir180 != up && !can ==> after[p as int].dir180 != up
                &&& after[p as int].item_id == copies[p as int].item_id
            },
        forall|p: usize|
            p < copies.len() && !#[trigger] in_cells(cells, p) ==> {
                let turns = all_turns(copies, items, cells, majorities(votes));
                &&& !turned_copies(turns).contains(p)
                &&& after_turns(copies, items, turns)[p as int] == copies[p as int]
            },
        forall|i: int|
            #![trigger all_turns(copies, items, cells, majorities(votes))[i]]
            0 <= i < all_turns(copies, items, cells, majorities(votes)).len() ==> {
                let t = all_turns(copies, items, cells, majorities(votes))[i];
                let rotations = items[copies[t.copy as int].item_id as int].rotations->0@;
                &&& t.rotation < rotations.len()
                &&& rotations[t.rotation as int] != copies[t.copy as int].dir180
                &&& forall|j: int|
                    0 <= j < t.rotation ==> rotations[j] == copies[t.copy as int].dir180
            },
        turns_distinct(all_turns(copies, items, cells, majorities(votes))),
{
    let wants = majorities(votes);
    let turns = all_turns(copies, items, cells, wants);
    let after = after_turns(copies, items, turns);
    lemma_all_turns(copies, items, cells, wants);
    lemma_after_turns(copies, items, turns);
    assert forall|c: int, p: usize| 0 <= c < cells.len() && #[trigger] cells[c].contains(p) implies {
        let up = !votes[c].at0.nan() && !votes[c].at180.nan() && votes[c].at0.rank()
            < votes[c].at180.rank();
        let item = items[copies[p as int].item_id as int];
        let can = item.rotations is Some && item.rotations->0@.contains(up);
        &&& turned_copies(turns).contains(p) <==> copies[p as int].dir180 != up && can
        &&& copies[p as int].dir180 == up || can ==> after[p as int].dir180 == up
        &&& copies[p as int].dir180 != up && !can ==> after[p as int].dir180 != up
        &&& after[p as int].item_id == copies[p as int].item_id
    } by {
        let up = wants[c];
        let item = items[copies[p as int].item_id as int];
        let k = choose|k: int| 0 <= k < cells[c].len() && cells[c][k] == p;
        assert(cells[c][k] < copies.len());
        lemma_rotation_to(item, up);
        if turned_copies(turns).contains(p) {
            let i = choose|i: int| 0 <= i < turned_copies(turns).len() && turned_copies(turns)[i] == p;
            assert(turns[i].copy == p);
            assert(turn_for(copies, items, p, up) == Some(turns[i]));
        } else {
            assert forall|i: int| 0 <= i < turns.len() implies (#[trigger] turns[i]).copy != p by {
                assert(turned_copies(turns)[i] == turns[i].copy);
            }
            assert(after[p as int] == copies[p as int]);
        }
    }
    assert forall|p: usize| p < copies.len() && !#[trigger] in_cells(cells, p) implies {
        &&& !turned_copies(turns).contains(p)
        &&& after[p as int] == copies[p as int]
    } by {
        assert forall|i: int| 0 <= i < turns.len() implies (#[trigger] turns[i]).copy != p by {
            assert(in_cells(cells, turns[i].copy));
        }
        if turned_copies(turns).contains(p) {
            let i = choose|i: int| 0 <= i < turned_copies(turns).len() && turned_copies(turns)[i] == p;
            assert(turns[i].copy == p);
        }
        assert(after[p as int] == copies[p as int]);
    }
    assert forall|i: int| 0 <= i < turns.len() implies {
        let t = #[trigger] turns[i];
        let rotations = items[copies[t.copy as int].item_id as int].rotations->0@;
        &&& t.rotation < rotations.len()
        &&& rotations[t.rotation as int] != copies[t.copy as int].dir180
        &&& forall|j: int| 0 <= j < t.rotation ==> rotations[j] == copies[t.copy as int].dir180
    } by {
        let p = turns[i].copy;
        assert(in_cells(cells, p));
        let c = choose|c: int| 0 <= c < cells.len() && (#[trigger] cells[c]).contains(p);
        assert(cells[c].contains(turns[i].copy));
        lemma_rotation_to(items[copies[p as int].item_id as int], wants[c]);
    }
}

/// Pressure pushes toward the larger sum of areas. A copy in one of disjoint cells pays in the
/// class of the smaller sum and nothing in the other, where at 0 degrees counts as the larger of
/// equal sums; it is a candidate for a move exactly if it faces the class that it pays in. Where
/// the two sums differ by no more than the slack it pays nothing at all.
pub proof fn lemma_pressure_follows_larger_sum(
    entries: Map<u64, AnnealEntry>,
    copies: Seq<PlacedCopy>,
    cells: Seq<Seq<usize>>,
    votes: Seq<CellVote>,
    pressure: Seq<F32>,
    c: int,
    p: usize,
)
    requires
        keys_live(copies),
        cells_disjoint(cells),
        cells_of_copies(cells, copies.len()),
        is_pressure(entries, copies, cells, votes, pressure),
        0 <= c < cells.len(),
        cells[c].contains(p),
    ensures
        entries.dom().contains(copies[p as int].key) <==> votes[c].gap.nan() || votes[c].slack.nan()
            || votes[c].gap.rank() > votes[c].slack.rank(),
        entries.dom().contains(copies[p as int].key) ==> {
            let e = entries[copies[p as int].key];
            if !votes[c].at0.nan() && !votes[c].at180.nan() && votes[c].at0.rank()
                < votes[c].at180.rank() {
                &&& e.penalty@ == seq![pressure[p as int], F32 { bits: 0 }]
                &&& e.move_candidate <==> !copies[p as int].dir180
            } else {
                &&& e.penalty@ == seq![F32 { bits: 0 }, pressure[p as int]]
                &&& e.move_candidate <==> copies[p as int].dir180
            }
        },
{
    let k = choose|k: int| 0 <= k < cells[c].len() && cells[c][k] == p;
    assert(cells[c][k] < copies.len());
    lemma_pressure_points_at_majority(entries, copies, cells, votes, pressure, p);
    if !votes[c].tied() {
        assert(pressed(cells, votes, c, p));
        assert forall|d: int| c < d implies !pressed(cells, votes, d, p) by {
            if pressed(cells, votes, d, p) {
                assert(cells[d].contains(p));
            }
        }
    }
}

/// Of a copy that stands in several cells the last one that is not tied decides: by that cell's
/// vote it pays in the class of the smaller sum of areas, and nothing in the other.
pub proof fn lemma_last_cell_decides(
    entries: Map<u64, AnnealEntry>,
    copies: Seq<PlacedCopy>,
    cells: Seq<Seq<usize>>,
    votes: Seq<CellVote>,
    pressure: Seq<F32>,
    c: int,
    p: usize,
)
    requires
        is_pressure(entries, copies, cells, votes, pressure),
        0 <= c < cells.len(),
        cells[c].contains(p),
        votes[c].gap.nan() || votes[c].slack.nan() || votes[c].gap.rank() > votes[c].slack.rank(),
        forall|d: int|
            c < d < cells.len() && #[trigger] cells[d].contains(p) ==> !votes[d].gap.nan()
                && !votes[d].slack.nan() && votes[d].gap.rank() <= votes[d].slack.rank(),
    ensures
        entries.dom().contains(copies[p as int].key),
        entries[copies[p as int].key].penalty@ == if !votes[c].at0.nan() && !votes[c].at180.nan()
            && votes[c].at0.rank() < votes[c].at180.rank() {
            seq![pressure[p as int], F32 { bits: 0 }]
        } else {
            seq![F32 { bits: 0 }, pressure[p as int]]
        },
{
    assert(pressed(cells, votes, c, p));
    assert forall|d: int| c < d implies !pressed(cells, votes, d, p) by {
        if pressed(cells, votes, d, p) {
            assert(cells[d].contains(p));
        }
    }
}

/// Counts a projection that turned `n` copies: where there were any, as one flip event with
/// its copies.
pub fn count_projection(stats: &mut SearchStats, n: usize, flip_loss: F32)
    requires
        n > 0 ==> old(stats).n_flips < u64::MAX,
        old(stats).n_garments_flipped + n <= u64::MAX,
    ensures
        n == 0 ==> *final(stats) == *old(stats),
        n > 0 ==> *final(stats) == old(stats).after_flip(n as nat, flip_loss),
        n > 0 ==> final(stats).n_flips == old(stats).n_flips + 1
            && final(stats).n_garments_flipped == old(stats).n_garments_flipped + n
            && final(stats).flip_loss_injected == flip_loss && final(stats).n_disruptions
            == old(stats).n_disruptions,
{
    if n > 0 {
        stats.count_flip(n, flip_loss);
    }
}

/// Projection establishes the group counting invariant, whatever the votes: in a layout with
/// the demand placed, where every copy that faces against the vote of its cell can be turned
/// over, every group is consistent once the projecting turns are made.
pub proof fn lemma_projection_consistent(
    copies: Seq<PlacedCopy>,
    items: Seq<ItemType>,
    spec: GroupedOrientationSpec,
    dist: Seq<Vec<F32>>,
    votes: Seq<CellVote>,
)
    requires
        copies.len() <= usize::MAX,
        items.len() <= usize::MAX,
        spec.fits(items),
        copies_of_items(copies, items.len()),
        demand_placed(copies, items),
        votes.len() == all_cells(
            copies,
            items,
            spec.groups@,
            false,
            dist,
            spec.groups@.len(),
        ).len(),
        cells_turnable(
            copies,
            items,
            all_cells(copies, items, spec.groups@, false, dist, spec.groups@.len()),
            majorities(votes),
        ),
    ensures
        consistent(
            after_turns(
                copies,
                items,
                all_turns(
                    copies,
                    items,
                    all_cells(copies, items, spec.groups@, false, dist, spec.groups@.len()),
                    majorities(votes),
                ),
            ),
            spec.groups@,
        ),
{
    let groups = spec.groups@;
    let all = all_cells(copies, items, groups, false, dist, groups.len());
    let wants = majorities(votes);
    lemma_fits_disjoint(spec, items);
    lemma_demand_placed(copies, items, spec);
    lemma_runs_mixed(copies, items, groups, dist);
    lemma_turned_cells(copies, items, all, wants);
    let after = after_turns(copies, items, all_turns(copies, items, all, wants));
    lemma_uniform_cells_consistent(copies, after, groups, all, wants);
}

/// Pressure points at the majority: of the copies of disjoint cells exactly those in a cell with
/// a majority are under pressure. Such a copy pays in the other class only, and is a candidate
/// for a move exactly if it faces that way; a copy in a tied cell, or in none, pays nothing.
pub proof fn lemma_pressure_points_at_majority(
    entries: Map<u64, AnnealEntry>,
    copies: Seq<PlacedCopy>,
    cells: Seq<Seq<usize>>,
    votes: Seq<CellVote>,
    pressure: Seq<F32>,
    p: usize,
)
    requires
        keys_live(copies),
        cells_disjoint(cells),
        cells_of_copies(cells, copies.len()),
        is_pressure(entries, copies, cells, votes, pressure),
        p < copies.len(),
    ensures
        !in_cells(cells, p) ==> !entries.dom().contains(copies[p as int].key),
        forall|c: int|
            0 <= c < cells.len() && #[trigger] cells[c].contains(p) ==> {
                let key = copies[p as int].key;
                let majority = votes[c].majority180();
                &&& entries.dom().contains(key) <==> !votes[c].tied()
                &&& !votes[c].tied() ==> {
                    &&& entries[key].penalty@[if majority { 1 } else { 0 }] == (F32 { bits: 0 })
                    &&& entries[key].penalty@[if majority { 0 } else { 1 }] == pressure[p as int]
                    &&& entries[key].move_candidate <==> copies[p as int].dir180 != majority
                }
            },
{
    let key = copies[p as int].key;
    if entries.dom().contains(key) {
        let (d, q) = choose|d: int, q: usize|
            #[trigger] pressed(cells, votes, d, q) && copies[q as int].key == key;
        let k = choose|k: int| 0 <= k < cells[d].len() && cells[d][k] == q;
        assert(cells[d][k] < copies.len());
        assert(q == p);
        assert(cells[d].contains(p));
    }
    assert forall|c: int| 0 <= c < cells.len() && #[trigger] cells[c].contains(p) implies {
        let majority = votes[c].majority180();
        &&& entries.dom().contains(key) <==> !votes[c].tied()
        &&& !votes[c].tied() ==> {
            &&& entries[key].penalty@[if majority { 1 } else { 0 }] == (F32 { bits: 0 })
            &&& entries[key].penalty@[if majority { 0 } else { 1 }] == pressure[p as int]
            &&& entries[key].move_candidate <==> copies[p as int].dir180 != majority
        }
    } by {
        if entries.dom().contains(key) {
            let (d, q) = choose|d: int, q: usize|
                #[trigger] pressed(cells, votes, d, q) && copies[q as int].key == key;
            let k = choose|k: int| 0 <= k < cells[d].len() && cells[d][k] == q;
            assert(cells[d][k] < copies.len());
            assert(q == p);
            assert(d == c);
        }
        if !votes[c].tied() {
            assert(pressed(cells, votes, c, p));
            assert forall|d: int| c < d implies !pressed(cells, votes, d, p) by {
                if pressed(cells, votes, d, p) {
                    assert(cells[d].contains(p));
                }
            }
        }
    }
}

/// The copies that the map marks as candidates for a move.
pub open spec fn move_candidates(
    entries: Map<u64, AnnealEntry>,
    copies: Seq<PlacedCopy>,
) -> Set<usize> {
    Set::new(
        |p: usize|
            p < copies.len() && entries.dom().contains(copies[p as int].key)
                && entries[copies[p as int].key].move_candidate,
    )
}

/// The copies that are turned.
pub open spec fn turned_copies(turns: Seq<Turn>) -> Seq<usize> {
    turns.map_values(|t: Turn| t.copy)
}

/// Annealing and projection agree: where no cell is tied, the projection turns those and only
/// those copies that the penalty map marks as candidates for a move and that can be turned over,
/// each once and to the first allowed rotation of the other class. Where the members can face
/// either way these are all candidates, as many as there are turns. This holds of every layout,
/// whether or not the demand is placed.
pub proof fn lemma_projection_turns_candidates(
    entries: Map<u64, AnnealEntry>,
    copies: Seq<PlacedCopy>,
    items: Seq<ItemType>,
    spec: GroupedOrientationSpec,
    dist: Seq<Vec<F32>>,
    votes: Seq<CellVote>,
    pressure: Seq<F32>,
)
    requires
        copies.len() <= usize::MAX,
        spec.fits(items),
        copies_of_items(copies, items.len()),
        keys_live(copies),
        votes.len() == all_cells(
            copies,
            items,
            spec.groups@,
            false,
            dist,
            spec.groups@.len(),
        ).len(),
        forall|c: int| 0 <= c < votes.len() ==> !(#[trigger] votes[c]).tied(),
        is_pressure(
            entries,
            copies,
            all_cells(copies, items, spec.groups@, false, dist, spec.groups@.len()),
            votes,
            pressure,
        ),
    ensures
        ({
            let cells = all_cells(copies, items, spec.groups@, false, dist, spec.groups@.len());
            let turns = all_turns(copies, items, cells, majorities(votes));
            let marked = move_candidates(entries, copies);
            &&& turns_distinct(turns)
            &&& forall|p: usize| #[trigger]
                turned_copies(turns).contains(p) <==> marked.contains(p) && turnable(
                    copies,
                    items,
                    p as int,
                )
            &&& forall|i: int|
                0 <= i < turns.len() ==> Some((#[trigger] turns[i]).rotation) == rotation_to(
                    items[copies[turns[i].copy as int].item_id as int],
                    !copies[turns[i].copy as int].dir180,
                )
            &&& members_turnable(items, spec.groups@) ==> turned_copies(turns).to_set() == marked
                && turns.len() == marked.len()
        }),
{
    let groups = spec.groups@;
    let cells = all_cells(copies, items, groups, false, dist, groups.len());
    let wants = majorities(votes);
    let turns = all_turns(copies, items, cells, wants);
    let turned = turned_copies(turns);
    let marked = move_candidates(entries, copies);
    lemma_fits_disjoint(spec, items);
    assert(n_strata(groups, false) == groups.len());
    lemma_all_cells_disjoint(copies, items, groups, false, dist, groups.len());
    lemma_all_turns(copies, items, cells, wants);
    assert forall|p: usize| #[trigger] turned.contains(p) <==> marked.contains(p) && turnable(
        copies,
        items,
        p as int,
    ) by {
        if turned.contains(p) {
            let i = choose|i: int| 0 <= i < turned.len() && turned[i] == p;
            assert(turns[i].copy == p);
            assert(in_cells(cells, turns[i].copy));
            let c = choose|c: int| 0 <= c < cells.len() && (#[trigger] cells[c]).contains(p);
            assert(cells[c].contains(turns[i].copy));
            lemma_pressure_points_at_majority(entries, copies, cells, votes, pressure, p);
            assert(!votes[c].tied());
            assert(wants[c] == votes[c].majority180());
        }
        if marked.contains(p) && turnable(copies, items, p as int) {
            lemma_pressure_points_at_majority(entries, copies, cells, votes, pressure, p);
            assert(in_cells(cells, p));
            let c = choose|c: int| 0 <= c < cells.len() && (#[trigger] cells[c]).contains(p);
            assert(!votes[c].tied());
            assert(wants[c] == votes[c].majority180());
            let i = choose|i: int| 0 <= i < turns.len() && (#[trigger] turns[i]).copy == p;
            assert(turned[i] == p);
        }
    }
    assert forall|i: int| 0 <= i < turns.len() implies Some((#[trigger] turns[i]).rotation)
        == rotation_to(
        items[copies[turns[i].copy as int].item_id as int],
        !copies[turns[i].copy as int].dir180,
    ) by {
        let p = turns[i].copy;
        assert(in_cells(cells, p));
        let c = choose|c: int| 0 <= c < cells.len() && (#[trigger] cells[c]).contains(p);
        assert(cells[c].contains(turns[i].copy));
        assert(turn_for(copies, items, p, wants[c]) == Some(turns[i]));
    }
    if members_turnable(items, groups) {
        lemma_members_in_cells(copies, items, groups, false, dist);
        assert forall|p: usize| turned.to_set().contains(p) <==> marked.contains(p) by {
            assert(turned.to_set().contains(p) <==> turned.contains(p));
            if marked.contains(p) {
                lemma_pressure_points_at_majority(entries, copies, cells, votes, pressure, p);
                assert(in_cells(cells, p));
            }
        }
        assert(turned.to_set() =~= marked);
        assert(turned.no_duplicates()) by {
            assert forall|i: int, j: int|
                0 <= i < turned.len() && 0 <= j < turned.len() && i != j implies turned[i]
                != turned[j] by {
                assert(turns[i].copy != turns[j].copy);
            }
        }
        turned.unique_seq_to_set();
    }
}

/// Keys of one layout, in halves: no low half is the null key's, every high half is odd, and no
/// two copies share a low half.
pub proof fn lemma_keys_live(copies: Seq<PlacedCopy>)
    ensures
        keys_live(copies) <==> (forall|p: int|
            0 <= p < copies.len() ==> (#[trigger] copies[p]).key % 0x1_0000_0000 != 0xffff_ffff
                && (copies[p].key / 0x1_0000_0000) % 2 == 1) && (forall|p: int, q: int|
            0 <= p < q < copies.len() ==> (#[trigger] copies[p]).key % 0x1_0000_0000 != (
            #[trigger] copies[q]).key % 0x1_0000_0000),
{
    assert forall|p: int| 0 <= p < copies.len() implies key_slot((#[trigger] copies[p]).key)
        == copies[p].key % 0x1_0000_0000 && (is_key(copies[p].key) <==> copies[p].key
        % 0x1_0000_0000 != 0xffff_ffff && (copies[p].key / 0x1_0000_0000) % 2 == 1) by {}
    if forall|p: int, q: int|
        0 <= p < q < copies.len() ==> (#[trigger] copies[p]).key % 0x1_0000_0000 != (
        #[trigger] copies[q]).key % 0x1_0000_0000 {
        assert forall|p: int, q: int|
            0 <= p < copies.len() && 0 <= q < copies.len() && p != q implies key_slot(
            (#[trigger] copies[p]).key,
        ) != key_slot((#[trigger] copies[q]).key) by {
            if p < q {
                assert(copies[p].key % 0x1_0000_0000 != copies[q].key % 0x1_0000_0000);
            } else {
                assert(copies[q].key % 0x1_0000_0000 != copies[p].key % 0x1_0000_0000);
            }
        }
    }
}

/// Whether the copies' keys are keys of one layout.
pub fn keys_distinct(copies: &Vec<PlacedCopy>) -> (r: bool)
    ensures
        r == keys_live(copies@),
{
    let mut p: usize = 0;
    while p < copies.len()
        invariant
            p <= copies.len(),
            forall|i: int| 0 <= i < p ==> is_key((#[trigger] copies@[i]).key),
            forall|i: int, j: int|
                0 <= i < p && 0 <= j < p && i != j ==> key_slot((#[trigger] copies@[i]).key)
                    != key_slot((#[trigger] copies@[j]).key),
        decreases copies.len() - p,
    {
        let key: u64 = copies[p].key;
        let slot: u64 = key % 0x1_0000_0000;
        let version: u64 = key / 0x1_0000_0000;
        if slot == 0xffff_ffff || version % 2 != 1 {
            assert(!is_key(copies@[p as int].key));
            return false;
        }
        let mut q: usize = 0;
        while q < p
            invariant
                q <= p < copies.len(),
                slot == key_slot(copies@[p as int].key),
                forall|i: int| 0 <= i < q ==> key_slot((#[trigger] copies@[i]).key) != slot,
            decreases p - q,
        {
            let other: u64 = copies[q].key % 0x1_0000_0000;
            if other == slot {
                assert(key_slot(copies@[q as int].key) == key_slot(copies@[p as int].key));
                return false;
            }
            q = q + 1;
        }
        p = p + 1;
    }
    true
}

} // verus!
