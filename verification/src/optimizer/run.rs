//! A whole run of the exploration phase, seen as what it does to layouts.
use crate::grouped::GroupedOrientationSpec;
use crate::grouped::ItemType;
use crate::grouped::PlacedCopy;
use crate::layout::consistent;
use crate::layout::copies_of_items;
use crate::optimizer::disrupt::lemma_locked_moves_consistent;
use crate::optimizer::disrupt::locks_kept;
use crate::optimizer::disrupt::members_locked;
use crate::optimizer::explore::lemma_pool_members;
use crate::optimizer::explore::rankable;
use crate::optimizer::explore::ExplorationView;
use crate::optimizer::explore::Outcome;
use crate::optimizer::explore::Stage;
use crate::optimizer::search::after_steps;
use crate::optimizer::search::lemma_search_keeps_garments_whole;
use crate::optimizer::search::steps_possible;
use crate::optimizer::search::Step;
use crate::scalar::F32;
use crate::util::listener::Flipped;
use vstd::prelude::*;

verus! {

/// The books of the phase, over layouts as lists of copies, and the layout at hand.
pub struct Run {
    pub phase: ExplorationView<Seq<PlacedCopy>>,
    pub live: Seq<PlacedCopy>,
}

/// What a run does next.
pub enum Event {
    /// The layout at hand is separated, by moves: `best` is the best layout on the way, and
    /// `after` the one it ends with.
    Separated { best: Seq<PlacedCopy>, after: Seq<PlacedCopy>, loss: F32, next_width: F32 },
    /// The strip was shrunk: the layout is adapted and perhaps re-oriented.
    Reoriented { steps: Seq<Step>, flipped: Option<Flipped> },
    /// A re-solve is counted.
    Resolving,
    /// A layout of the pool takes the place of the one at hand, and is disrupted.
    Disrupted { idx: int, steps: Seq<Step>, flipped: Option<Flipped> },
    /// A swap was made: it is perhaps followed by a flip.
    Forked { steps: Seq<Step>, flipped: Option<Flipped> },
}

/// What a run works on: the instance, its groups, and the items whose rotations are locked.
pub struct Setting {
    pub items: Seq<ItemType>,
    pub spec: GroupedOrientationSpec,
    pub locked: Seq<bool>,
}

impl Setting {
    /// The spec fits the instance, and the members of its groups are locked.
    pub open spec fn valid(self) -> bool {
        self.spec.fits(self.items) && members_locked(self.spec.groups@, self.locked)
    }

    /// A layout of copies of the items in which every group is consistent.
    pub open spec fn whole(self, layout: Seq<PlacedCopy>) -> bool {
        &&& layout.len() <= usize::MAX
        &&& copies_of_items(layout, self.items.len())
        &&& consistent(layout, self.spec.groups@)
    }

    /// The steps can be taken from this layout.
    pub open spec fn possible(self, layout: Seq<PlacedCopy>, steps: Seq<Step>) -> bool {
        steps_possible(layout, self.items, self.spec, self.locked, steps)
    }

    /// The layout after the steps.
    pub open spec fn after(self, layout: Seq<PlacedCopy>, steps: Seq<Step>) -> Seq<PlacedCopy> {
        after_steps(layout, self.items, self.spec, steps)
    }
}

impl Run {
    /// A run at its start, with books opened on the layout at hand.
    pub open spec fn starts(self) -> bool {
        &&& self.phase.feasible_sols == seq![self.live]
        &&& self.phase.infeas_sol_pool.len() == 0
        &&& self.phase.pending_fork is None
    }

    /// The event can happen now.
    pub open spec fn admits(self, s: Setting, event: Event) -> bool {
        match event {
            Event::Separated { best, after, loss, next_width } => {
                &&& self.phase.stage == Stage::Separating
                &&& locks_kept(self.live, best, s.locked)
                &&& locks_kept(self.live, after, s.locked)
                &&& !loss.is_zero() ==> rankable(self.phase.infeas_sol_pool, loss)
            },
            Event::Reoriented { steps, flipped } => {
                &&& self.phase.stage == Stage::Shrunk
                &&& s.possible(self.live, steps)
            },
            Event::Resolving => true,
            Event::Disrupted { idx, steps, flipped } => {
                &&& self.phase.stage == Stage::Stalled
                &&& 0 <= idx < self.phase.infeas_sol_pool.len()
                &&& s.possible(self.phase.infeas_sol_pool[idx].0, steps)
            },
            Event::Forked { steps, flipped } => {
                &&& self.phase.stage == Stage::Swapped
                &&& s.possible(self.live, steps)
            },
        }
    }

    /// The run after the event. A retry takes the swapped-only layout in hand.
    pub open spec fn step(self, s: Setting, event: Event) -> Run {
        match event {
            Event::Separated { best, after, loss, next_width } => Run {
                phase: self.phase.separated(loss, best, next_width),
                live: match self.phase.outcome(loss) {
                    Outcome::Retry(swapped_only) => swapped_only,
                    _ => after,
                },
            },
            Event::Reoriented { steps, flipped } => Run {
                phase: self.phase.after_shrink(flipped),
                live: s.after(self.live, steps),
            },
            Event::Resolving => Run { phase: self.phase.resolving(), live: self.live },
            Event::Disrupted { idx, steps, flipped } => Run {
                phase: self.phase.disrupted(flipped),
                live: s.after(self.phase.infeas_sol_pool[idx].0, steps),
            },
            Event::Forked { steps, flipped } => Run {
                phase: self.phase.forked(
                    match flipped {
                        Some(f) => Some((self.live, f)),
                        None => None,
                    },
                ),
                live: s.after(self.live, steps),
            },
        }
    }

    /// The run after a number of events.
    pub open spec fn after(self, s: Setting, events: Seq<Event>) -> Run
        decreases events.len(),
    {
        if events.len() == 0 {
            self
        } else {
            self.after(s, events.drop_last()).step(s, events.last())
        }
    }

    /// Every event can happen when it is its turn.
    pub open spec fn admits_all(self, s: Setting, events: Seq<Event>) -> bool
        decreases events.len(),
    {
        events.len() > 0 ==> self.admits_all(s, events.drop_last()) && self.after(
            s,
            events.drop_last(),
        ).admits(s, events.last())
    }

    /// Garments are whole in every layout of the run: the one at hand, the feasible ones, those
    /// in the pool and the one that waits for its attempt.
    pub open spec fn all_whole(self, s: Setting) -> bool {
        &&& s.whole(self.live)
        &&& forall|i: int|
            0 <= i < self.phase.feasible_sols.len() ==> s.whole(
                #[trigger] self.phase.feasible_sols[i],
            )
        &&& forall|i: int|
            0 <= i < self.phase.infeas_sol_pool.len() ==> s.whole(
                (#[trigger] self.phase.infeas_sol_pool[i]).0,
            )
        &&& self.phase.pending_fork matches Some(fork) ==> s.whole(fork)
    }
}

proof fn lemma_moves_whole(s: Setting, before: Seq<PlacedCopy>, after: Seq<PlacedCopy>)
    requires
        s.valid(),
        s.whole(before),
        locks_kept(before, after, s.locked),
    ensures
        s.whole(after),
{
    lemma_locked_moves_consistent(before, after, s.spec.groups@, s.locked);
    assert forall|p: int| 0 <= p < after.len() implies (#[trigger] after[p]).item_id
        < s.items.len() by {
        assert(before[p].item_id < s.items.len());
    }
}

proof fn lemma_steps_whole(s: Setting, before: Seq<PlacedCopy>, steps: Seq<Step>)
    requires
        s.valid(),
        s.whole(before),
        s.possible(before, steps),
    ensures
        s.whole(s.after(before, steps)),
{
    lemma_search_keeps_garments_whole(before, s.items, s.spec, s.locked, steps);
    let after = s.after(before, steps);
    assert forall|p: int| 0 <= p < after.len() implies (#[trigger] after[p]).item_id
        < s.items.len() by {
        assert(before[p].item_id < s.items.len());
    }
}

proof fn lemma_step_whole(run: Run, s: Setting, event: Event)
    requires
        s.valid(),
        run.all_whole(s),
        run.admits(s, event),
    ensures
        run.step(s, event).all_whole(s),
        event matches Event::Separated { best, .. } ==> s.whole(best),
{
    let next = run.step(s, event);
    match event {
        Event::Separated { best, after, loss, next_width } => {
            lemma_moves_whole(s, run.live, best);
            lemma_moves_whole(s, run.live, after);
            if !loss.is_zero() {
                let pool = run.phase.infeas_sol_pool;
                let more = next.phase.infeas_sol_pool;
                lemma_pool_members(pool, best, loss);
                assert forall|i: int| 0 <= i < more.len() implies s.whole((#[trigger] more[i]).0) by {
                    if pool.contains(more[i]) {
                        let j = choose|j: int| 0 <= j < pool.len() && pool[j] == more[i];
                        assert(s.whole(pool[j].0));
                    }
                }
            } else {
                let sols = run.phase.feasible_sols;
                let more = next.phase.feasible_sols;
                assert forall|i: int| 0 <= i < more.len() implies s.whole(#[trigger] more[i]) by {
                    if i < sols.len() {
                        assert(s.whole(sols[i]));
                    }
                }
            }
        },
        Event::Reoriented { steps, flipped } => {
            lemma_steps_whole(s, run.live, steps);
        },
        Event::Resolving => {},
        Event::Disrupted { idx, steps, flipped } => {
            assert(s.whole(run.phase.infeas_sol_pool[idx].0));
            lemma_steps_whole(s, run.phase.infeas_sol_pool[idx].0, steps);
        },
        Event::Forked { steps, flipped } => {
            lemma_steps_whole(s, run.live, steps);
        },
    }
}

/// The exploration phase keeps garments whole. Where the spec fits the instance, the members are
/// locked and the initial layout is consistent, every layout is consistent throughout the run:
/// the one at hand at the end, every feasible one that is returned, and every one that was
/// separated and so reported.
pub proof fn lemma_exploration_keeps_garments_whole(run: Run, s: Setting, events: Seq<Event>)
    requires
        s.valid(),
        run.starts(),
        s.whole(run.live),
        run.admits_all(s, events),
    ensures
        run.after(s, events).all_whole(s),
        forall|i: int|
            0 <= i < events.len() && (#[trigger] events[i]) is Separated ==> s.whole(
                events[i]->best,
            ),
    decreases events.len(),
{
    if events.len() == 0 {
        assert(run.phase.feasible_sols[0] == run.live);
    } else {
        let before = events.drop_last();
        lemma_exploration_keeps_garments_whole(run, s, before);
        lemma_step_whole(run.after(s, before), s, events.last());
        assert forall|i: int| 0 <= i < events.len() && (#[trigger] events[i]) is Separated implies s.whole(
            events[i]->best,
        ) by {
            if i < before.len() {
                assert(before[i] == events[i]);
            } else {
                assert(events[i] == events.last());
            }
        }
    }
}

} // verus!
