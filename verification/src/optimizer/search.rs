//! The search invariant: garments stay whole.
//!
//! Once a layout is consistent, everything that the search does to it keeps it so. Regular moves
//! and swaps leave the rotations of locked items alone, a flip turns one whole garment over, and
//! a re-solve turns whole garments only.
use crate::cluster::all_cells;
use crate::grouped::GroupedOrientationSpec;
use crate::grouped::ItemType;
use crate::grouped::PlacedCopy;
use crate::layout::after_turns;
use crate::layout::consistent;
use crate::layout::copies_of_items;
use crate::optimizer::disrupt::lemma_locked_moves_consistent;
use crate::optimizer::disrupt::locks_kept;
use crate::optimizer::disrupt::members_locked;
use crate::optimizer::flip::garment_flips;
use crate::optimizer::flip::garment_turns;
use crate::optimizer::flip::lemma_flip_consistent;
use crate::optimizer::flip::lemma_flip_keeps_copies;
use crate::optimizer::resolve::cells_flippable;
use crate::optimizer::resolve::lemma_resolve_consistent;
use crate::optimizer::resolve::lemma_resolve_keeps_copies;
use crate::scalar::F32;
use crate::turning::all_turns;
use vstd::prelude::*;

verus! {

/// Something that the search does to a layout.
pub enum Step {
    /// Copies are moved about, to the given layout.
    Moves { after: Seq<PlacedCopy> },
    /// A garment of the group is flipped from `src180`, gathered by the given distances.
    Flip { group: int, src180: bool, dist: Seq<F32> },
    /// The garments, clustered by the given distances, are turned to the given directions.
    Resolve { table: Seq<Vec<F32>>, wants: Seq<bool> },
}

/// The garments of all groups, apart for each direction.
pub open spec fn all_garments(
    copies: Seq<PlacedCopy>,
    items: Seq<ItemType>,
    spec: GroupedOrientationSpec,
    dist: Seq<Vec<F32>>,
) -> Seq<Seq<usize>> {
    all_cells(copies, items, spec.groups@, true, dist, 2 * spec.groups@.len())
}

/// The step can be taken: moves keep the rotations of locked items, a flip finds all pieces of
/// a garment, and a re-solve has a direction for every garment and can turn over every piece.
pub open spec fn step_possible(
    copies: Seq<PlacedCopy>,
    items: Seq<ItemType>,
    spec: GroupedOrientationSpec,
    locked: Seq<bool>,
    step: Step,
) -> bool {
    match step {
        Step::Moves { after } => locks_kept(copies, after, locked),
        Step::Flip { group, src180, dist } => 0 <= group < spec.groups@.len() && garment_flips(
            copies,
            items,
            spec.groups@[group].members@,
            src180,
        ),
        Step::Resolve { table, wants } => wants.len() == all_garments(
            copies,
            items,
            spec,
            table,
        ).len() && cells_flippable(copies, items, all_garments(copies, items, spec, table)),
    }
}

/// The layout after a step.
pub open spec fn after_step(
    copies: Seq<PlacedCopy>,
    items: Seq<ItemType>,
    spec: GroupedOrientationSpec,
    step: Step,
) -> Seq<PlacedCopy> {
    match step {
        Step::Moves { after } => after,
        Step::Flip { group, src180, dist } => after_turns(
            copies,
            items,
            garment_turns(copies, items, spec.groups@[group].members@, src180, dist),
        ),
        Step::Resolve { table, wants } => after_turns(
            copies,
            items,
            all_turns(copies, items, all_garments(copies, items, spec, table), wants),
        ),
    }
}

/// The layout after a number of steps.
pub open spec fn after_steps(
    copies: Seq<PlacedCopy>,
    items: Seq<ItemType>,
    spec: GroupedOrientationSpec,
    steps: Seq<Step>,
) -> Seq<PlacedCopy>
    decreases steps.len(),
{
    if steps.len() == 0 {
        copies
    } else {
        after_step(after_steps(copies, items, spec, steps.drop_last()), items, spec, steps.last())
    }
}

/// Every step can be taken when it is its turn.
pub open spec fn steps_possible(
    copies: Seq<PlacedCopy>,
    items: Seq<ItemType>,
    spec: GroupedOrientationSpec,
    locked: Seq<bool>,
    steps: Seq<Step>,
) -> bool
    decreases steps.len(),
{
    steps.len() > 0 ==> steps_possible(copies, items, spec, locked, steps.drop_last())
        && step_possible(
        after_steps(copies, items, spec, steps.drop_last()),
        items,
        spec,
        locked,
        steps.last(),
    )
}

/// However long the search goes on, garments stay whole: from a consistent layout, with the
/// members locked, any sequence of steps leads to a consistent layout of the same copies.
pub proof fn lemma_search_keeps_garments_whole(
    copies: Seq<PlacedCopy>,
    items: Seq<ItemType>,
    spec: GroupedOrientationSpec,
    locked: Seq<bool>,
    steps: Seq<Step>,
)
    requires
        copies.len() <= usize::MAX,
        spec.fits(items),
        copies_of_items(copies, items.len()),
        members_locked(spec.groups@, locked),
        consistent(copies, spec.groups@),
        steps_possible(copies, items, spec, locked, steps),
    ensures
        consistent(after_steps(copies, items, spec, steps), spec.groups@),
        after_steps(copies, items, spec, steps).len() == copies.len(),
        forall|p: int|
            0 <= p < copies.len() ==> (#[trigger] after_steps(
                copies,
                items,
                spec,
                steps,
            )[p]).item_id == copies[p].item_id,
    decreases steps.len(),
{
    if steps.len() > 0 {
        let before = steps.drop_last();
        lemma_search_keeps_garments_whole(copies, items, spec, locked, before);
        let now = after_steps(copies, items, spec, before);
        let out = after_steps(copies, items, spec, steps);
        assert(copies_of_items(now, items.len())) by {
            assert forall|p: int| 0 <= p < now.len() implies (#[trigger] now[p]).item_id
                < items.len() by {
                assert(copies[p].item_id < items.len());
            }
        }
        match steps.last() {
            Step::Moves { after } => {
                lemma_locked_moves_consistent(now, after, spec.groups@, locked);
                assert(out == after);
            },
            Step::Flip { group, src180, dist } => {
                lemma_flip_consistent(now, items, spec, group, src180, dist);
                lemma_flip_keeps_copies(now, items, spec, group, src180, dist);
            },
            Step::Resolve { table, wants } => {
                lemma_resolve_consistent(now, items, spec, table, wants);
                lemma_resolve_keeps_copies(now, items, spec, table, wants);
            },
        }
        assert forall|p: int| 0 <= p < copies.len() implies (#[trigger] out[p]).item_id
            == copies[p].item_id by {
            assert(now[p].item_id == copies[p].item_id);
        }
    }
}

} // verus!
