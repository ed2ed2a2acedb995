//! The exploration phase.
//!
//! The phase separates a layout again and again. Once the layout is free of collisions, the
//! strip shrinks; otherwise the layout joins a pool of infeasible ones, and one from the pool is
//! disrupted, by a flip of garments or a swap of two large items. [`Exploration`] keeps the
//! books and decides what comes next; separating, moving and measuring is up to its driver.
//!
//! A driver calls, in turn, [`Exploration::separated`] with the outcome of a separation and then
//! - after a shrink, [`Exploration::after_shrink`];
//! - after a stall, [`Exploration::disrupted`], and after a swap [`Exploration::forked`];
//!
//! and starts over, until it is told that the attempts are exhausted, or stops by itself. Before
//! every re-solve it calls [`Exploration::resolving`].
use crate::garments::is_member;
use crate::grouped::GroupFlipConfig;
use crate::grouped::GroupedOrientationSpec;
use crate::grouped::OrientationGroup;
use crate::scalar::F32;
use crate::util::listener::Flipped;
use crate::util::listener::ReportType;
use crate::util::listener::SearchStats;
use vstd::prelude::*;

verus! {

/// Which kind of disruption was applied.
#[derive(Debug, Clone, Copy, PartialEq, Eq, Structural)]
pub enum DisruptionKind {
    Swap,
    Flip,
}

/// What the phase waits for.
#[derive(Debug, Clone, Copy, PartialEq, Eq, Structural)]
pub enum Stage {
    /// The outcome of a separation.
    Separating,
    /// Whether an orientation move was made on the shrunk strip.
    Shrunk,
    /// The disruption of a layout from the pool.
    Stalled,
    /// Whether the swap was followed by a flip.
    Swapped,
    /// Nothing: the attempts are exhausted.
    Done,
}

/// What a separation led to.
#[derive(Debug, PartialEq, Eq)]
pub enum Outcome<S> {
    /// A feasible layout on a narrower strip than any before; the strip shrinks.
    Improved,
    /// A feasible layout on a strip that is no narrower; the strip shrinks.
    Repeated,
    /// No feasible layout; one from the pool is to be disrupted.
    Stalled,
    /// No feasible layout; the swapped-only layout gets its attempt.
    Retry(S),
    /// No feasible layout, once too often.
    Exhausted,
}

impl<S> Outcome<S> {
    /// What listeners are told about the separated layout.
    pub open spec fn reported(self) -> Option<ReportType> {
        match self {
            Outcome::Improved => Some(ReportType::ExplFeas),
            Outcome::Repeated => None,
            _ => Some(ReportType::ExplInfeas),
        }
    }

    /// What listeners are told about the separated layout.
    pub fn report(&self) -> (r: Option<ReportType>)
        ensures
            r == self.reported(),
    {
        match self {
            Outcome::Improved => Some(ReportType::ExplFeas),
            Outcome::Repeated => None,
            _ => Some(ReportType::ExplInfeas),
        }
    }
}

/// Which orientation move is due.
#[derive(Debug, Clone, Copy, PartialEq, Eq, Structural)]
pub enum OrientationMove {
    /// None.
    Skip,
    /// The exact re-solve.
    Resolve,
    /// A flip, if a random number in `[0, 1)` lies below the flip probability.
    Draw,
}

/// The state of the exploration phase over layouts of type `S`.
pub struct Exploration<S> {
    /// Width of the strip at present.
    current_width: F32,
    /// Width of the narrowest strip with a feasible layout.
    best_width: F32,
    /// The feasible layouts, the initial one first.
    feasible_sols: Vec<S>,
    /// The infeasible layouts at the present width with their losses, best first.
    infeas_sol_pool: Vec<(S, F32)>,
    /// What the previous disruption was.
    last_disruption: Option<DisruptionKind>,
    /// The swapped-only layout that waits for its own attempt.
    pending_fork: Option<S>,
    /// Statistics of the phase.
    stats: SearchStats,
    /// How orientation moves are made, if garments are grouped.
    flip: Option<GroupFlipConfig>,
    /// How many infeasible layouts in a row end the phase, if there is a limit.
    max_conseq_failed_attempts: Option<usize>,
    /// What the phase waits for.
    stage: Stage,
}

/// [`Exploration`] with its lists as sequences.
#[verifier::ext_equal]
pub struct ExplorationView<S> {
    pub current_width: F32,
    pub best_width: F32,
    pub feasible_sols: Seq<S>,
    pub infeas_sol_pool: Seq<(S, F32)>,
    pub last_disruption: Option<DisruptionKind>,
    pub pending_fork: Option<S>,
    pub stats: SearchStats,
    pub flip: Option<GroupFlipConfig>,
    pub max_conseq_failed_attempts: Option<usize>,
    pub stage: Stage,
}

impl<S> View for Exploration<S> {
    type V = ExplorationView<S>;

    closed spec fn view(&self) -> ExplorationView<S> {
        ExplorationView {
            current_width: self.current_width,
            best_width: self.best_width,
            feasible_sols: self.feasible_sols@,
            infeas_sol_pool: self.infeas_sol_pool@,
            last_disruption: self.last_disruption,
            pending_fork: self.pending_fork,
            stats: self.stats,
            flip: self.flip,
            max_conseq_failed_attempts: self.max_conseq_failed_attempts,
            stage: self.stage,
        }
    }
}

/// The losses rise along the pool.
pub open spec fn pool_sorted<S>(pool: Seq<(S, F32)>) -> bool {
    forall|i: int, j: int|
        0 <= i < j < pool.len() ==> (#[trigger] pool[i]).1.within((#[trigger] pool[j]).1)
}

/// How many layouts of the pool have a lower loss.
pub open spec fn n_better<S>(pool: Seq<(S, F32)>, loss: F32) -> nat
    decreases pool.len(),
{
    if pool.len() == 0 {
        0
    } else {
        n_better(pool.drop_last(), loss) + if pool.last().1.below(loss) {
            1nat
        } else {
            0nat
        }
    }
}

/// The loss can be ranked among those of the pool: there are none, or all are numbers.
pub open spec fn rankable<S>(pool: Seq<(S, F32)>, loss: F32) -> bool {
    pool.len() == 0 || (!loss.nan() && forall|i: int|
        0 <= i < pool.len() ==> !(#[trigger] pool[i]).1.nan())
}

/// No counter of the phase is about to overflow.
pub open spec fn counters_free(stats: SearchStats) -> bool {
    &&& stats.n_shrinks < u64::MAX
    &&& stats.n_disruptions < u64::MAX
    &&& stats.n_swaps < u64::MAX
    &&& stats.n_flips < u64::MAX
    &&& stats.n_resolves < u64::MAX
    &&& stats.post_flip_sep_success < u64::MAX
    &&& stats.post_swap_sep_success < u64::MAX
}

/// A flip event flips at least one garment, and the garments flipped can still be counted.
pub open spec fn countable(stats: SearchStats, flipped: Option<Flipped>) -> bool {
    flipped matches Some(f) ==> f.n > 0 && stats.n_garments_flipped + f.n <= u64::MAX
}

/// The statistics with a flip event counted, if there was one.
pub open spec fn with_flip(stats: SearchStats, flipped: Option<Flipped>) -> SearchStats {
    match flipped {
        Some(f) => stats.after_flip(f.n as nat, f.flip_loss),
        None => stats,
    }
}

/// The statistics after a separation that followed disruption `last`: a success is credited to
/// the disruption.
pub open spec fn credited(
    stats: SearchStats,
    last: Option<DisruptionKind>,
    success: bool,
) -> SearchStats {
    match last {
        Some(DisruptionKind::Swap) if success => SearchStats {
            post_swap_sep_success: (stats.post_swap_sep_success + 1) as u64,
            ..stats
        },
        Some(DisruptionKind::Flip) if success => SearchStats {
            post_flip_sep_success: (stats.post_flip_sep_success + 1) as u64,
            ..stats
        },
        _ => stats,
    }
}

impl<S> ExplorationView<S> {
    /// How many infeasible layouts end the phase.
    pub open spec fn max_failed(self) -> usize {
        match self.max_conseq_failed_attempts {
            Some(n) => n,
            None => usize::MAX,
        }
    }

    /// Whether swaps may be followed by flips.
    pub open spec fn forks(self) -> bool {
        self.flip matches Some(f) && f.fork_at_swap
    }

    /// Whether orientation moves may flip garments: re-solves may, and draws at a flip
    /// probability other than zero.
    pub open spec fn orients(self) -> bool {
        self.flip matches Some(f) && (f.resolve || !f.p_flip.is_zero())
    }

    /// What holds between two calls: there is a feasible layout, and the pool is sorted and
    /// short of its limit as long as the phase goes on. A fork waits only behind a flip, and
    /// the statistics add up.
    pub open spec fn wf(self) -> bool {
        &&& self.feasible_sols.len() >= 1
        &&& pool_sorted(self.infeas_sol_pool)
        &&& self.stage != Stage::Done && self.infeas_sol_pool.len() > 0
            ==> self.infeas_sol_pool.len() < self.max_failed()
        &&& self.pending_fork is Some && self.stage != Stage::Done ==> self.last_disruption == Some(
            DisruptionKind::Flip,
        )
        &&& self.pending_fork is Some ==> self.forks()
        &&& self.stage == Stage::Shrunk ==> self.infeas_sol_pool.len() == 0
            && self.last_disruption is None
        &&& self.stage == Stage::Stalled ==> self.infeas_sol_pool.len() > 0
            && self.last_disruption is None
        &&& self.stage == Stage::Swapped ==> self.last_disruption == Some(DisruptionKind::Swap)
            && self.pending_fork is None
        &&& self.counts_add_up()
    }

    /// The statistics fit together. Every disruption was a swap or a flip, and every flip
    /// outside a fork a disruption. Each success after a swap or a flip, together with the swap
    /// or flip that waits to be judged, was counted as one, and each success as a shrink. A flip
    /// event flips garments. Where neither orientation moves nor forks may flip, as without
    /// groups or at a flip probability of zero, nothing is flipped.
    pub open spec fn counts_add_up(self) -> bool {
        let stats = self.stats;
        &&& stats.post_swap_sep_success + (if self.last_disruption == Some(DisruptionKind::Swap)
            || self.pending_fork is Some {
            1int
        } else {
            0int
        }) <= stats.n_swaps
        &&& stats.post_flip_sep_success + (if self.last_disruption == Some(DisruptionKind::Flip) {
            1int
        } else {
            0int
        }) <= stats.n_flips
        &&& stats.post_flip_sep_success + stats.post_swap_sep_success + (
        if self.last_disruption is Some {
            1int
        } else {
            0int
        }) <= stats.n_disruptions
        &&& stats.post_flip_sep_success + stats.post_swap_sep_success <= stats.n_shrinks
        &&& stats.n_swaps <= stats.n_disruptions <= stats.n_swaps + stats.n_flips
        &&& !self.forks() ==> stats.n_disruptions == stats.n_swaps + stats.n_flips
        &&& stats.n_flips <= stats.n_garments_flipped
        &&& stats.grouped_active == (self.flip is Some)
        &&& !self.orients() && !self.forks() ==> stats.n_flips == 0 && stats.n_garments_flipped
            == 0 && stats.flip_loss_injected == (F32 { bits: 0 })
        &&& !(self.flip matches Some(f) && f.resolve) ==> stats.n_resolves == 0
    }

    /// The state after a separation with the given loss and layout; `next_width` is the width
    /// that the strip shrinks to.
    pub open spec fn separated(
        self,
        loss: F32,
        sol: S,
        next_width: F32,
    ) -> ExplorationView<S> {
        let stats = credited(self.stats, self.last_disruption, loss.is_zero());
        if loss.is_zero() {
            ExplorationView {
                current_width: next_width,
                best_width: if self.current_width.below(self.best_width) {
                    self.current_width
                } else {
                    self.best_width
                },
                feasible_sols: if self.current_width.below(self.best_width) {
                    self.feasible_sols.push(sol)
                } else {
                    self.feasible_sols
                },
                infeas_sol_pool: Seq::empty(),
                last_disruption: None,
                pending_fork: None,
                stats: SearchStats { n_shrinks: (stats.n_shrinks + 1) as u64, ..stats },
                stage: Stage::Shrunk,
                ..self
            }
        } else {
            let pool = self.infeas_sol_pool.insert(
                n_better(self.infeas_sol_pool, loss) as int,
                (sol, loss),
            );
            if pool.len() >= self.max_failed() {
                ExplorationView {
                    infeas_sol_pool: pool,
                    last_disruption: None,
                    stage: Stage::Done,
                    ..self
                }
            } else if self.pending_fork is Some {
                ExplorationView {
                    infeas_sol_pool: pool,
                    last_disruption: Some(DisruptionKind::Swap),
                    pending_fork: None,
                    ..self
                }
            } else {
                ExplorationView {
                    infeas_sol_pool: pool,
                    last_disruption: None,
                    stage: Stage::Stalled,
                    ..self
                }
            }
        }
    }

    /// What the separation led to.
    pub open spec fn outcome(self, loss: F32) -> Outcome<S> {
        if loss.is_zero() {
            if self.current_width.below(self.best_width) {
                Outcome::Improved
            } else {
                Outcome::Repeated
            }
        } else if self.infeas_sol_pool.len() + 1 >= self.max_failed() {
            Outcome::Exhausted
        } else {
            match self.pending_fork {
                Some(fork) => Outcome::Retry(fork),
                None => Outcome::Stalled,
            }
        }
    }

    /// The state after the orientation move that follows a shrink, if one was made.
    pub open spec fn after_shrink(self, flipped: Option<Flipped>) -> ExplorationView<S> {
        if flipped is Some {
            let stats = with_flip(self.stats, flipped);
            ExplorationView {
                stats: SearchStats { n_disruptions: (stats.n_disruptions + 1) as u64, ..stats },
                last_disruption: Some(DisruptionKind::Flip),
                stage: Stage::Separating,
                ..self
            }
        } else {
            ExplorationView { stage: Stage::Separating, ..self }
        }
    }

    /// The state after a disruption: a flip event, or else a swap.
    pub open spec fn disrupted(self, flipped: Option<Flipped>) -> ExplorationView<S> {
        let flips = with_flip(self.stats, flipped);
        let stats = SearchStats { n_disruptions: (flips.n_disruptions + 1) as u64, ..flips };
        if flipped is Some {
            ExplorationView {
                stats,
                last_disruption: Some(DisruptionKind::Flip),
                stage: Stage::Separating,
                ..self
            }
        } else {
            ExplorationView {
                stats: SearchStats { n_swaps: (stats.n_swaps + 1) as u64, ..stats },
                last_disruption: Some(DisruptionKind::Swap),
                stage: Stage::Swapped,
                ..self
            }
        }
    }

    /// The state after a swap that was followed by a flip, with the swapped-only layout, or was
    /// not.
    pub open spec fn forked(self, fork: Option<(S, Flipped)>) -> ExplorationView<S> {
        match fork {
            Some((swapped_only, f)) => ExplorationView {
                stats: with_flip(self.stats, Some(f)),
                pending_fork: Some(swapped_only),
                last_disruption: Some(DisruptionKind::Flip),
                stage: Stage::Separating,
                ..self
            },
            None => ExplorationView { stage: Stage::Separating, ..self },
        }
    }

    /// The state with one more re-solve counted.
    pub open spec fn resolving(self) -> ExplorationView<S> {
        ExplorationView {
            stats: SearchStats { n_resolves: (self.stats.n_resolves + 1) as u64, ..self.stats },
            ..self
        }
    }
}

proof fn lemma_n_better<S>(pool: Seq<(S, F32)>, loss: F32)
    requires
        pool_sorted(pool),
        rankable(pool, loss),
    ensures
        n_better(pool, loss) <= pool.len(),
        forall|i: int|
            0 <= i < pool.len() ==> ((#[trigger] pool[i]).1.below(loss) <==> i < n_better(
                pool,
                loss,
            )),
    decreases pool.len(),
{
    if pool.len() > 0 {
        let shorter = pool.drop_last();
        assert(forall|i: int| 0 <= i < shorter.len() ==> shorter[i] == pool[i]);
        assert(pool[pool.len() - 1] == pool.last());
        assert(pool_sorted(shorter));
        lemma_n_better(shorter, loss);
        if pool.last().1.below(loss) {
            assert forall|i: int| 0 <= i < pool.len() implies (#[trigger] pool[i]).1.below(loss) by {
                if i < shorter.len() {
                    assert(pool[i].1.within(pool[pool.len() - 1].1));
                }
            }
            if shorter.len() > 0 {
                assert(shorter[shorter.len() - 1].1.below(loss));
            }
        }
    }
}

/// Inserting behind the better layouts keeps the pool sorted.
proof fn lemma_pool_insert<S>(pool: Seq<(S, F32)>, sol: S, loss: F32)
    requires
        pool_sorted(pool),
        rankable(pool, loss),
    ensures
        pool_sorted(pool.insert(n_better(pool, loss) as int, (sol, loss))),
{
    lemma_n_better(pool, loss);
    let at = n_better(pool, loss) as int;
    let out = pool.insert(at, (sol, loss));
    assert forall|i: int, j: int| 0 <= i < j < out.len() implies (#[trigger] out[i]).1.within(
        (#[trigger] out[j]).1,
    ) by {
        if j < at {
            assert(pool[i].1.within(pool[j].1));
        } else if i > at {
            assert(pool[i - 1].1.within(pool[j - 1].1));
        } else if j == at {
            assert(pool[i].1.below(loss));
        } else if i == at {
            assert(!pool[j - 1].1.below(loss));
        } else {
            assert(pool[i].1.within(pool[j - 1].1));
        }
    }
}

/// A layout that is added to the pool is the only new one in it.
pub proof fn lemma_pool_members<S>(pool: Seq<(S, F32)>, sol: S, loss: F32)
    ensures
        n_better(pool, loss) <= pool.len(),
        forall|i: int|
            #![trigger pool.insert(n_better(pool, loss) as int, (sol, loss))[i]]
            0 <= i <= pool.len() ==> {
                let entry = pool.insert(n_better(pool, loss) as int, (sol, loss))[i];
                pool.contains(entry) || entry == (sol, loss)
            },
{
    lemma_n_better_bound(pool, loss);
    let at = n_better(pool, loss) as int;
    let out = pool.insert(at, (sol, loss));
    assert forall|i: int| 0 <= i <= pool.len() implies pool.contains(#[trigger] out[i]) || out[i]
        == (sol, loss) by {
        if i < at {
            assert(out[i] == pool[i]);
        } else if i > at {
            assert(out[i] == pool[i - 1]);
        }
    }
}

proof fn lemma_n_better_bound<S>(pool: Seq<(S, F32)>, loss: F32)
    ensures
        n_better(pool, loss) <= pool.len(),
    decreases pool.len(),
{
    if pool.len() > 0 {
        lemma_n_better_bound(pool.drop_last(), loss);
    }
}

/// Finds the place of a loss in the pool.
fn pool_place<S>(pool: &Vec<(S, F32)>, loss: F32) -> (r: usize)
    requires
        pool_sorted(pool@),
        rankable(pool@, loss),
    ensures
        r == n_better(pool@, loss),
        r <= pool.len(),
{
    proof {
        lemma_n_better(pool@, loss);
    }
    let mut low: usize = 0;
    let mut high: usize = pool.len();
    while low < high
        invariant
            low <= high <= pool.len(),
            n_better(pool@, loss) <= pool.len(),
            forall|i: int|
                0 <= i < pool.len() ==> ((#[trigger] pool[i]).1.below(loss) <==> i < n_better(
                    pool@,
                    loss,
                )),
            low <= n_better(pool@, loss) <= high,
        decreases high - low,
    {
        let middle: usize = low + (high - low) / 2;
        if pool[middle].1.lt(loss) {
            low = middle + 1;
        } else {
            high = middle;
        }
    }
    low
}

impl<S> Exploration<S> {
    /// The phase at its start, with a first feasible layout on a strip of the given width.
    pub fn start(
        width: F32,
        initial: S,
        flip: Option<GroupFlipConfig>,
        max_conseq_failed_attempts: Option<usize>,
    ) -> (r: Exploration<S>)
        ensures
            r@.wf(),
            r@ == (ExplorationView {
                current_width: width,
                best_width: width,
                feasible_sols: seq![initial],
                infeas_sol_pool: Seq::empty(),
                last_disruption: None,
                pending_fork: None,
                stats: SearchStats::blank(flip is Some),
                flip,
                max_conseq_failed_attempts,
                stage: Stage::Separating,
            }),
    {
        let mut feasible_sols: Vec<S> = Vec::new();
        feasible_sols.push(initial);
        let mut stats: SearchStats = SearchStats::default();
        stats.grouped_active = flip.is_some();
        let r = Exploration {
            current_width: width,
            best_width: width,
            feasible_sols,
            infeas_sol_pool: Vec::new(),
            last_disruption: None,
            pending_fork: None,
            stats,
            flip,
            max_conseq_failed_attempts,
            stage: Stage::Separating,
        };
        assert(r.feasible_sols@ =~= seq![initial]);
        r
    }

    /// Takes in the outcome of a separation.
    pub fn separated(&mut self, loss: F32, sol: S, next_width: F32) -> (r: Outcome<S>)
        requires
            old(self)@.wf(),
            old(self)@.stage == Stage::Separating,
            !loss.is_zero() ==> rankable(old(self)@.infeas_sol_pool, loss),
            counters_free(old(self)@.stats),
        ensures
            final(self)@ == old(self)@.separated(loss, sol, next_width),
            r == old(self)@.outcome(loss),
            final(self)@.wf(),
    {
        let feasible: bool = loss == F32::zero();
        let last: Option<DisruptionKind> = self.last_disruption;
        self.last_disruption = None;
        match last {
            Some(kind) => {
                if feasible {
                    match kind {
                        DisruptionKind::Swap => {
                            self.stats.post_swap_sep_success = self.stats.post_swap_sep_success + 1;
                        },
                        DisruptionKind::Flip => {
                            self.stats.post_flip_sep_success = self.stats.post_flip_sep_success + 1;
                        },
                    }
                }
            },
            None => {},
        }
        if feasible {
            let improved: bool = self.current_width.lt(self.best_width);
            if improved {
                self.best_width = self.current_width;
                self.feasible_sols.push(sol);
            }
            self.current_width = next_width;
            self.infeas_sol_pool = Vec::new();
            self.pending_fork = None;
            self.stats.n_shrinks = self.stats.n_shrinks + 1;
            self.stage = Stage::Shrunk;
            if improved {
                Outcome::Improved
            } else {
                Outcome::Repeated
            }
        } else {
            let at: usize = pool_place(&self.infeas_sol_pool, loss);
            proof {
                lemma_pool_insert(self.infeas_sol_pool@, sol, loss);
            }
            self.infeas_sol_pool.insert(at, (sol, loss));
            let limit: usize = match self.max_conseq_failed_attempts {
                Some(n) => n,
                None => usize::MAX,
            };
            if self.infeas_sol_pool.len() >= limit {
                self.stage = Stage::Done;
                return Outcome::Exhausted;
            }
            match self.pending_fork.take() {
                Some(fork) => {
                    self.last_disruption = Some(DisruptionKind::Swap);
                    Outcome::Retry(fork)
                },
                None => {
                    self.stage = Stage::Stalled;
                    Outcome::Stalled
                },
            }
        }
    }

    /// Which orientation move is due: none without groups or outside the window, otherwise the
    /// re-solve or a flip by chance.
    pub fn orientation_move(&self, in_window: bool) -> (r: OrientationMove)
        ensures
            r == match self@.flip {
                Some(f) => if !in_window {
                    OrientationMove::Skip
                } else if f.resolve {
                    OrientationMove::Resolve
                } else {
                    OrientationMove::Draw
                },
                None => OrientationMove::Skip,
            },
    {
        match self.flip {
            Some(f) => {
                if !in_window {
                    OrientationMove::Skip
                } else if f.resolve {
                    OrientationMove::Resolve
                } else {
                    OrientationMove::Draw
                }
            },
            None => OrientationMove::Skip,
        }
    }

    /// Takes in what the orientation move on the shrunk strip did, if one was made.
    pub fn after_shrink(&mut self, flipped: Option<Flipped>)
        requires
            old(self)@.wf(),
            old(self)@.stage == Stage::Shrunk,
            flipped is Some ==> old(self)@.orients(),
            counters_free(old(self)@.stats),
            countable(old(self)@.stats, flipped),
        ensures
            final(self)@ == old(self)@.after_shrink(flipped),
            final(self)@.wf(),
    {
        match flipped {
            Some(f) => {
                self.stats.count_flip(f.n, f.flip_loss);
                self.stats.n_disruptions = self.stats.n_disruptions + 1;
                self.last_disruption = Some(DisruptionKind::Flip);
            },
            None => {},
        }
        self.stage = Stage::Separating;
    }

    /// The layout of the pool that is selected for disruption.
    pub fn selected(&self, idx: usize) -> (r: &S)
        requires
            idx < self@.infeas_sol_pool.len(),
        ensures
            *r == self@.infeas_sol_pool[idx as int].0,
    {
        &self.infeas_sol_pool[idx].0
    }

    /// Takes in what the flip event on the selected layout did; without one, it is disrupted by
    /// a swap.
    pub fn disrupted(&mut self, flipped: Option<Flipped>)
        requires
            old(self)@.wf(),
            old(self)@.stage == Stage::Stalled,
            flipped is Some ==> old(self)@.orients(),
            counters_free(old(self)@.stats),
            countable(old(self)@.stats, flipped),
        ensures
            final(self)@ == old(self)@.disrupted(flipped),
            final(self)@.wf(),
    {
        self.stats.n_disruptions = self.stats.n_disruptions + 1;
        match flipped {
            Some(f) => {
                self.stats.count_flip(f.n, f.flip_loss);
                self.last_disruption = Some(DisruptionKind::Flip);
                self.stage = Stage::Separating;
            },
            None => {
                self.stats.n_swaps = self.stats.n_swaps + 1;
                self.last_disruption = Some(DisruptionKind::Swap);
                self.stage = Stage::Swapped;
            },
        }
    }

    /// Whether a swap is to be followed by the flip of a garment that holds a swapped piece, and
    /// of which one: that of the first swapped piece that belongs to a group. `groups` holds the
    /// group of either piece, if it has one.
    pub fn fork_target(
        &self,
        in_window: bool,
        groups: (Option<usize>, Option<usize>),
    ) -> (r: Option<(bool, usize)>)
        ensures
            r == match self@.flip {
                Some(f) => if f.fork_at_swap && in_window {
                    match groups {
                        (Some(g), _) => Some((false, g)),
                        (None, Some(g)) => Some((true, g)),
                        (None, None) => None,
                    }
                } else {
                    None
                },
                None => None,
            },
    {
        match self.flip {
            Some(f) => {
                if f.fork_at_swap && in_window {
                    match groups {
                        (Some(g), _) => Some((false, g)),
                        (None, Some(g)) => Some((true, g)),
                        (None, None) => None,
                    }
                } else {
                    None
                }
            },
            None => None,
        }
    }

    /// Takes in what the flip that followed the swap did, if there was one: then the swapped-only
    /// layout waits for an attempt of its own.
    pub fn forked(&mut self, fork: Option<(S, Flipped)>)
        requires
            old(self)@.wf(),
            old(self)@.stage == Stage::Swapped,
            fork is Some ==> old(self)@.forks(),
            counters_free(old(self)@.stats),
            fork matches Some((_, f)) ==> countable(old(self)@.stats, Some(f)),
        ensures
            final(self)@ == old(self)@.forked(fork),
            final(self)@.wf(),
    {
        match fork {
            Some((swapped_only, f)) => {
                self.stats.count_flip(f.n, f.flip_loss);
                self.pending_fork = Some(swapped_only);
                self.last_disruption = Some(DisruptionKind::Flip);
            },
            None => {},
        }
        self.stage = Stage::Separating;
    }

    /// Whether orientation moves may flip garments.
    pub fn may_flip(&self) -> (r: bool)
        ensures
            r == self@.orients(),
            r <==> (self@.flip matches Some(f) && (f.resolve || f.p_flip.rank() != 0)),
    {
        match self.flip {
            Some(f) => f.resolve || !(f.p_flip == F32::zero()),
            None => false,
        }
    }

    /// Counts a re-solve, whether or not it turns anything.
    pub fn resolving(&mut self)
        requires
            old(self)@.wf(),
            old(self)@.flip matches Some(f) && f.resolve,
            counters_free(old(self)@.stats),
        ensures
            final(self)@ == old(self)@.resolving(),
            final(self)@.wf(),
    {
        self.stats.count_resolve();
    }

    /// Whether the counters have room for the next step, which flips garments or does not.
    pub fn has_room(&self, flipped: Option<Flipped>) -> (r: bool)
        ensures
            r == (counters_free(self@.stats) && countable(self@.stats, flipped)),
    {
        let s: SearchStats = self.stats;
        let counters: bool = s.n_shrinks < u64::MAX && s.n_disruptions < u64::MAX && s.n_swaps
            < u64::MAX && s.n_flips < u64::MAX && s.n_resolves < u64::MAX && s.post_flip_sep_success
            < u64::MAX && s.post_swap_sep_success < u64::MAX;
        let garments: bool = match flipped {
            Some(f) => f.n > 0 && f.n as u64 <= u64::MAX - s.n_garments_flipped,
            None => true,
        };
        counters && garments
    }

    /// Whether a loss can be ranked among those of the pool.
    pub fn can_rank(&self, loss: F32) -> (r: bool)
        ensures
            r == rankable(self@.infeas_sol_pool, loss),
    {
        let pool = &self.infeas_sol_pool;
        if pool.len() == 0 {
            return true;
        }
        if loss.is_nan() {
            return false;
        }
        let mut i: usize = 0;
        while i < pool.len()
            invariant
                i <= pool.len(),
                pool@ == self@.infeas_sol_pool,
                forall|j: int| 0 <= j < i ==> !(#[trigger] pool@[j]).1.nan(),
            decreases pool.len() - i,
        {
            if pool[i].1.is_nan() {
                assert(self@.infeas_sol_pool[i as int].1.nan());
                return false;
            }
            i = i + 1;
        }
        true
    }

    /// Width of the strip at present.
    pub fn current_width(&self) -> (r: F32)
        ensures
            r == self@.current_width,
    {
        self.current_width
    }

    /// Width of the narrowest strip with a feasible layout.
    pub fn best_width(&self) -> (r: F32)
        ensures
            r == self@.best_width,
    {
        self.best_width
    }

    /// The feasible layouts, the initial one first.
    pub fn feasible_sols(&self) -> (r: &Vec<S>)
        ensures
            r@ == self@.feasible_sols,
    {
        &self.feasible_sols
    }

    /// The infeasible layouts at the present width with their losses, best first.
    pub fn infeas_sol_pool(&self) -> (r: &Vec<(S, F32)>)
        ensures
            r@ == self@.infeas_sol_pool,
    {
        &self.infeas_sol_pool
    }

    /// What the previous disruption was, as long as it waits to be judged.
    pub fn last_disruption(&self) -> (r: Option<DisruptionKind>)
        ensures
            r == self@.last_disruption,
    {
        self.last_disruption
    }

    /// The swapped-only layout that waits for its own attempt.
    pub fn pending_fork(&self) -> (r: &Option<S>)
        ensures
            *r == self@.pending_fork,
    {
        &self.pending_fork
    }

    /// Statistics of the phase so far.
    pub fn stats(&self) -> (r: SearchStats)
        ensures
            r == self@.stats,
    {
        self.stats
    }

    /// What the phase waits for.
    pub fn stage(&self) -> (r: Stage)
        ensures
            r == self@.stage,
    {
        self.stage
    }

    /// Ends the phase: the feasible layouts, and the statistics completed by the separator's
    /// totals and the time taken.
    pub fn finish(
        self,
        n_separate_calls: u64,
        total_moves: u64,
        total_evals: u64,
        phase_secs: F32,
    ) -> (r: (Vec<S>, SearchStats))
        ensures
            r.0@ == self@.feasible_sols,
            r.1 == (SearchStats {
                n_separate_calls,
                total_moves,
                total_evals,
                phase_secs,
                ..self@.stats
            }),
    {
        let mut stats: SearchStats = self.stats;
        stats.n_separate_calls = n_separate_calls;
        stats.total_moves = total_moves;
        stats.total_evals = total_evals;
        stats.phase_secs = phase_secs;
        (self.feasible_sols, stats)
    }
}

impl GroupFlipConfig {
    /// Orientation moves are made at this time: always for a window of one or more, otherwise
    /// before the deadline, which is the window's share of the time limit.
    pub open spec fn window_open(self, elapsed: F32, deadline: F32) -> bool {
        F32 { bits: 0x3f80_0000 }.within(self.window) || elapsed.below(deadline)
    }

    /// Whether orientation moves are made at this time.
    pub fn in_window(&self, elapsed: F32, deadline: F32) -> (r: bool)
        ensures
            r == self.window_open(elapsed, deadline),
    {
        F32::one().le(self.window) || elapsed.lt(deadline)
    }

    /// Whether a random number in `[0, 1)` asks for a flip.
    pub fn flips(&self, draw: F32) -> (r: bool)
        ensures
            r == draw.below(self.p_flip),
            r <==> !draw.nan() && !self.p_flip.nan() && draw.rank() < self.p_flip.rank(),
    {
        draw.lt(self.p_flip)
    }
}

/// A flip probability of zero disables flips, and one of one makes every draw a flip.
pub proof fn lemma_flip_probability(flip: GroupFlipConfig, draw: F32)
    requires
        !draw.nan(),
        0 <= draw.rank() < 0x3f80_0000,
    ensures
        flip.p_flip.is_zero() ==> !draw.below(flip.p_flip),
        flip.p_flip == (F32 { bits: 0x3f80_0000 }) ==> draw.below(flip.p_flip),
{
}

/// Which group each item belongs to.
pub fn group_of(grouped: Option<&GroupedOrientationSpec>, n_items: usize) -> (r: Vec<
    Option<usize>,
>)
    requires
        grouped matches Some(spec) ==> members_below(spec.groups@, n_items as nat),
    ensures
        r.len() == n_items,
        grouped is None ==> forall|id: int| 0 <= id < n_items ==> (#[trigger] r[id]) is None,
        grouped matches Some(spec) ==> forall|id: int|
            0 <= id < n_items ==> is_group_of(
                spec.groups@,
                id as usize,
                #[trigger] r[id],
                spec.groups@.len(),
            ),
{
    let mut r: Vec<Option<usize>> = Vec::new();
    while r.len() < n_items
        invariant
            r.len() <= n_items,
            forall|id: int| 0 <= id < r.len() ==> (#[trigger] r[id]) is None,
        decreases n_items - r.len(),
    {
        r.push(None);
    }
    match grouped {
        None => {},
        Some(spec) => {
            let ghost groups = spec.groups@;
            let mut g: usize = 0;
            while g < spec.groups.len()
                invariant
                    g <= spec.groups.len(),
                    groups == spec.groups@,
                    members_below(groups, n_items as nat),
                    r.len() == n_items,
                    forall|id: int|
                        0 <= id < n_items ==> is_group_of(
                            groups,
                            id as usize,
                            #[trigger] r[id],
                            g as nat,
                        ),
                decreases spec.groups.len() - g,
            {
                let members = &spec.groups[g].members;
                let ghost before = r@;
                let mut m: usize = 0;
                while m < members.len()
                    invariant
                        m <= members.len(),
                        g < groups.len(),
                        members@ == groups[g as int].members@,
                        members_below(groups, n_items as nat),
                        r.len() == n_items,
                        before.len() == n_items,
                        forall|id: int|
                            0 <= id < n_items ==> (#[trigger] r[id]) == if is_member(
                                members@.take(m as int),
                                id as usize,
                            ) {
                                Some(g)
                            } else {
                                before[id]
                            },
                    decreases members.len() - m,
                {
                    let id: usize = members[m].0;
                    assert(groups[g as int].members@[m as int].0 < n_items);
                    let ghost had = r@;
                    r[id] = Some(g);
                    proof {
                        let seen = members@.take(m as int);
                        let more = members@.take(m + 1);
                        assert(forall|k: int| 0 <= k < m ==> seen[k] == more[k]);
                        assert(more[m as int].0 == id);
                        assert forall|i: int| 0 <= i < n_items implies (#[trigger] r[i])
                            == if is_member(more, i as usize) {
                            Some(g)
                        } else {
                            before[i]
                        } by {
                            assert(had[i] == if is_member(seen, i as usize) {
                                Some(g)
                            } else {
                                before[i]
                            });
                            if is_member(seen, i as usize) {
                                let k = choose|k: int|
                                    0 <= k < seen.len() && (#[trigger] seen[k]).0 == i as usize;
                                assert(more[k].0 == i as usize);
                            }
                            if i != id && is_member(more, i as usize) {
                                let k = choose|k: int|
                                    0 <= k < more.len() && (#[trigger] more[k]).0 == i as usize;
                                assert(seen[k].0 == i as usize);
                            }
                        }
                    }
                    m = m + 1;
                }
                proof {
                    assert(members@.take(m as int) =~= members@);
                    assert forall|id: int| 0 <= id < n_items implies is_group_of(
                        groups,
                        id as usize,
                        #[trigger] r[id],
                        (g + 1) as nat,
                    ) by {
                        assert(is_group_of(groups, id as usize, before[id], g as nat));
                        if is_member(members@, id as usize) {
                            assert(is_member(groups[g as int].members@, id as usize));
                        }
                    }
                }
                g = g + 1;
            }
        },
    }
    r
}

/// Every member names one of the items.
pub open spec fn members_below(groups: Seq<OrientationGroup>, n_items: nat) -> bool {
    forall|g: int, m: int|
        #![trigger groups[g].members@[m]]
        0 <= g < groups.len() && 0 <= m < groups[g].members@.len() ==> groups[g].members@[m].0
            < n_items
}

/// `r` is the group of item `id` among the first `n`: the last one that it is a member of.
pub open spec fn is_group_of(
    groups: Seq<OrientationGroup>,
    id: usize,
    r: Option<usize>,
    n: nat,
) -> bool {
    match r {
        Some(g) => g < n && is_member(groups[g as int].members@, id) && forall|h: int|
            g < h < n ==> !is_member((#[trigger] groups[h]).members@, id),
        None => forall|h: int| 0 <= h < n ==> !is_member((#[trigger] groups[h]).members@, id),
    }
}

/// The feasible layouts come on ever narrower strips. A layout free of collisions on a strip
/// narrower than the best so far is kept, becomes the new mark and is reported as feasible,
/// whatever disruption led to it; no other layout is kept, and none is ever dropped. A layout
/// free of collisions on a strip that is no narrower goes unreported, and one with collisions is
/// reported as infeasible.
pub proof fn lemma_feasible_narrows<S>(v: ExplorationView<S>, loss: F32, sol: S, next_width: F32)
    ensures
        loss.rank() == 0 && !v.current_width.nan() && !v.best_width.nan() && v.current_width.rank()
            < v.best_width.rank() ==> {
            let w = v.separated(loss, sol, next_width);
            &&& w.feasible_sols == v.feasible_sols.push(sol)
            &&& w.best_width == v.current_width
            &&& v.outcome(loss) is Improved
            &&& v.outcome(loss).reported() == Some(ReportType::ExplFeas)
        },
        loss.rank() != 0 || v.current_width.nan() || v.best_width.nan() || v.current_width.rank()
            >= v.best_width.rank() ==> {
            let w = v.separated(loss, sol, next_width);
            &&& w.feasible_sols == v.feasible_sols
            &&& w.best_width == v.best_width
            &&& v.outcome(loss) !is Improved
            &&& v.outcome(loss).reported() == if loss.rank() == 0 {
                None
            } else {
                Some(ReportType::ExplInfeas)
            }
        },
        loss.rank() == 0 <==> v.outcome(loss) is Improved || v.outcome(loss) is Repeated,
{
}

/// A shrink leaves nothing of the wider strip behind: the pool is empty, no fork and no
/// disruption waits. Without a shrink the strip keeps its width.
pub proof fn lemma_shrink_drops_stale<S>(v: ExplorationView<S>, loss: F32, sol: S, next_width: F32)
    ensures
        loss.rank() == 0 ==> {
            let w = v.separated(loss, sol, next_width);
            &&& w.infeas_sol_pool.len() == 0
            &&& w.pending_fork is None
            &&& w.last_disruption is None
            &&& w.current_width == next_width
            &&& w.stage == Stage::Shrunk
        },
        loss.rank() != 0 ==> v.separated(loss, sol, next_width).current_width == v.current_width,
        loss.rank() != 0 && v.stage != Stage::Shrunk ==> v.separated(loss, sol, next_width).stage
            != Stage::Shrunk,
{
}

/// A separation that frees the layout of collisions counts as one shrink, and as one success of
/// the disruption that it followed: of a swap after a swap, of a flip after a flip, of neither
/// after neither. Any other separation leaves all statistics as they are, and no separation
/// counts disruptions, flips or re-solves.
pub proof fn lemma_success_credited<S>(v: ExplorationView<S>, loss: F32, sol: S, next_width: F32)
    requires
        v.stats.n_shrinks < u64::MAX,
        v.stats.post_swap_sep_success < u64::MAX,
        v.stats.post_flip_sep_success < u64::MAX,
    ensures
        loss.rank() != 0 ==> v.separated(loss, sol, next_width).stats == v.stats,
        loss.rank() == 0 ==> {
            let stats = v.separated(loss, sol, next_width).stats;
            &&& stats.n_shrinks == v.stats.n_shrinks + 1
            &&& stats.post_swap_sep_success - v.stats.post_swap_sep_success == (
            if v.last_disruption == Some(DisruptionKind::Swap) {
                1int
            } else {
                0int
            })
            &&& stats.post_flip_sep_success - v.stats.post_flip_sep_success == (
            if v.last_disruption == Some(DisruptionKind::Flip) {
                1int
            } else {
                0int
            })
            &&& stats.n_disruptions == v.stats.n_disruptions
            &&& stats.n_swaps == v.stats.n_swaps
            &&& stats.n_flips == v.stats.n_flips
            &&& stats.n_resolves == v.stats.n_resolves
            &&& stats.n_garments_flipped == v.stats.n_garments_flipped
            &&& stats.flip_loss_injected == v.stats.flip_loss_injected
            &&& stats.grouped_active == v.stats.grouped_active
        },
{
}

/// A layout with collisions takes its place in the pool by its loss: behind every layout with a
/// lower loss and before every other one, those with the same loss included. Nothing leaves the
/// pool, and the others keep their order.
pub proof fn lemma_pool_ranks_by_loss<S>(
    v: ExplorationView<S>,
    loss: F32,
    sol: S,
    next_width: F32,
) -> (at: int)
    requires
        v.wf(),
        loss.rank() != 0,
        rankable(v.infeas_sol_pool, loss),
    ensures
        0 <= at <= v.infeas_sol_pool.len(),
        v.separated(loss, sol, next_width).infeas_sol_pool == v.infeas_sol_pool.insert(
            at,
            (sol, loss),
        ),
        forall|i: int|
            0 <= i < at ==> (#[trigger] v.infeas_sol_pool[i]).1.rank() < loss.rank(),
        forall|i: int|
            at <= i < v.infeas_sol_pool.len() ==> (#[trigger] v.infeas_sol_pool[i]).1.rank()
                >= loss.rank(),
{
    lemma_n_better(v.infeas_sol_pool, loss);
    n_better(v.infeas_sol_pool, loss) as int
}

/// What a separation with collisions leads to. The phase ends once the pool holds as many layouts
/// as the limit says, and without a limit it never does while the pool can be counted. Before
/// that, a swapped-only layout that waits gets the next attempt, as a swap; otherwise a layout of
/// the pool is to be disrupted, and nothing waits to be judged.
pub proof fn lemma_failure_decides_next<S>(v: ExplorationView<S>, loss: F32, sol: S, next_width: F32)
    requires
        v.wf(),
        loss.rank() != 0,
        rankable(v.infeas_sol_pool, loss),
    ensures
        v.outcome(loss) is Exhausted <==> match v.max_conseq_failed_attempts {
            Some(limit) => v.infeas_sol_pool.len() + 1 >= limit,
            None => v.infeas_sol_pool.len() + 1 >= usize::MAX,
        },
        v.outcome(loss) is Exhausted ==> v.separated(loss, sol, next_width).stage == Stage::Done,
        v.outcome(loss) !is Exhausted ==> match v.pending_fork {
            Some(swapped_only) => {
                let w = v.separated(loss, sol, next_width);
                &&& v.outcome(loss) == Outcome::Retry(swapped_only)
                &&& w.pending_fork is None
                &&& w.last_disruption == Some(DisruptionKind::Swap)
                &&& w.stage == v.stage
            },
            None => {
                let w = v.separated(loss, sol, next_width);
                &&& v.outcome(loss) is Stalled
                &&& w.pending_fork is None
                &&& w.last_disruption is None
                &&& w.stage == Stage::Stalled
            },
        },
{
    lemma_n_better(v.infeas_sol_pool, loss);
}

/// A flip event counts as one flip and adds the garments it flipped; outside a fork it is a
/// disruption as well, and it is the one judged next. Without a flip event, a stalled layout is
/// disrupted by a swap, which counts as one swap and one disruption and is judged next, while on
/// a shrunk strip and after a swap nothing is counted. A fork keeps the swapped-only layout.
pub proof fn lemma_disruptions_counted<S>(
    v: ExplorationView<S>,
    flipped: Flipped,
    swapped_only: S,
)
    requires
        v.stats.n_disruptions < u64::MAX,
        v.stats.n_swaps < u64::MAX,
        v.stats.n_flips < u64::MAX,
        v.stats.n_garments_flipped + flipped.n <= u64::MAX,
    ensures
        ({
            let w = v.after_shrink(Some(flipped));
            &&& w.stats.n_disruptions == v.stats.n_disruptions + 1
            &&& w.stats.n_flips == v.stats.n_flips + 1
            &&& w.stats.n_garments_flipped == v.stats.n_garments_flipped + flipped.n
            &&& w.stats.flip_loss_injected == flipped.flip_loss
            &&& w.stats.n_swaps == v.stats.n_swaps
            &&& w.last_disruption == Some(DisruptionKind::Flip)
            &&& w.pending_fork == v.pending_fork
        }),
        ({
            let w = v.after_shrink(None);
            &&& w.stats == v.stats
            &&& w.last_disruption == v.last_disruption
            &&& w.pending_fork == v.pending_fork
        }),
        ({
            let w = v.disrupted(Some(flipped));
            &&& w.stats.n_disruptions == v.stats.n_disruptions + 1
            &&& w.stats.n_flips == v.stats.n_flips + 1
            &&& w.stats.n_garments_flipped == v.stats.n_garments_flipped + flipped.n
            &&& w.stats.flip_loss_injected == flipped.flip_loss
            &&& w.stats.n_swaps == v.stats.n_swaps
            &&& w.last_disruption == Some(DisruptionKind::Flip)
            &&& w.pending_fork == v.pending_fork
            &&& w.stage == Stage::Separating
        }),
        ({
            let w = v.disrupted(None);
            &&& w.stats.n_disruptions == v.stats.n_disruptions + 1
            &&& w.stats.n_swaps == v.stats.n_swaps + 1
            &&& w.stats.n_flips == v.stats.n_flips
            &&& w.stats.n_garments_flipped == v.stats.n_garments_flipped
            &&& w.stats.flip_loss_injected == v.stats.flip_loss_injected
            &&& w.last_disruption == Some(DisruptionKind::Swap)
            &&& w.pending_fork == v.pending_fork
            &&& w.stage == Stage::Swapped
        }),
        ({
            let w = v.forked(Some((swapped_only, flipped)));
            &&& w.stats.n_disruptions == v.stats.n_disruptions
            &&& w.stats.n_flips == v.stats.n_flips + 1
            &&& w.stats.n_garments_flipped == v.stats.n_garments_flipped + flipped.n
            &&& w.stats.flip_loss_injected == flipped.flip_loss
            &&& w.stats.n_swaps == v.stats.n_swaps
            &&& w.last_disruption == Some(DisruptionKind::Flip)
            &&& w.pending_fork == Some(swapped_only)
        }),
        ({
            let w = v.forked(None);
            &&& w.stats == v.stats
            &&& w.last_disruption == v.last_disruption
            &&& w.pending_fork == v.pending_fork
        }),
{
}

/// Disrupting, forking and re-solving touch neither the widths nor the layouts kept, and no count
/// but their own.
pub proof fn lemma_disruptions_keep_layouts<S>(
    v: ExplorationView<S>,
    flipped: Option<Flipped>,
    fork: Option<(S, Flipped)>,
)
    requires
        v.stats.n_resolves < u64::MAX,
    ensures
        forall|w: ExplorationView<S>|
            w == v.after_shrink(flipped) || w == v.disrupted(flipped) || w == v.forked(fork) || w
                == v.resolving() ==> {
                &&& w.current_width == v.current_width
                &&& w.best_width == v.best_width
                &&& #[trigger] w.feasible_sols == v.feasible_sols
                &&& w.infeas_sol_pool == v.infeas_sol_pool
                &&& w.flip == v.flip
                &&& w.max_conseq_failed_attempts == v.max_conseq_failed_attempts
                &&& w.stats.n_shrinks == v.stats.n_shrinks
                &&& w.stats.post_swap_sep_success == v.stats.post_swap_sep_success
                &&& w.stats.post_flip_sep_success == v.stats.post_flip_sep_success
                &&& w.stats.grouped_active == v.stats.grouped_active
            },
        v.resolving().stats.n_resolves == v.stats.n_resolves + 1,
        v.resolving().stats.n_disruptions == v.stats.n_disruptions,
        v.resolving().stats.n_flips == v.stats.n_flips,
        v.resolving().stats.n_swaps == v.stats.n_swaps,
        v.resolving().stage == v.stage,
        v.resolving().last_disruption == v.last_disruption,
        v.resolving().pending_fork == v.pending_fork,
        v.after_shrink(flipped).stats.n_resolves == v.stats.n_resolves,
        v.disrupted(flipped).stats.n_resolves == v.stats.n_resolves,
        v.forked(fork).stats.n_resolves == v.stats.n_resolves,
        v.after_shrink(flipped).stage == Stage::Separating,
        v.forked(fork).stage == Stage::Separating,
{
}

/// Orientation moves are made at any time where the window is one or more, and otherwise exactly
/// before the deadline; what is no number opens no window.
pub proof fn lemma_window(flip: GroupFlipConfig, elapsed: F32, deadline: F32)
    ensures
        !flip.window.nan() && flip.window.rank() >= 0x3f80_0000 ==> flip.window_open(
            elapsed,
            deadline,
        ),
        flip.window.nan() || flip.window.rank() < 0x3f80_0000 ==> (flip.window_open(
            elapsed,
            deadline,
        ) <==> !elapsed.nan() && !deadline.nan() && elapsed.rank() < deadline.rank()),
{
}

/// An item that belongs to one group is given that group, and an item without a group none.
pub proof fn lemma_group_of(groups: Seq<OrientationGroup>, id: usize, r: Option<usize>)
    requires
        is_group_of(groups, id, r, groups.len()),
        groups.len() <= usize::MAX,
        forall|g: int, h: int, m: int, n: int|
            #![trigger groups[g].members@[m], groups[h].members@[n]]
            0 <= g < groups.len() && 0 <= h < groups.len() && 0 <= m < groups[g].members@.len() && 0
                <= n < groups[h].members@.len() && groups[g].members@[m].0
                == groups[h].members@[n].0 ==> g == h,
    ensures
        forall|g: int, m: int|
            0 <= g < groups.len() && 0 <= m < groups[g].members@.len() && (
            #[trigger] groups[g].members@[m]).0 == id ==> r == Some(g as usize),
        (forall|g: int, m: int|
            0 <= g < groups.len() && 0 <= m < groups[g].members@.len() ==> (
            #[trigger] groups[g].members@[m]).0 != id) ==> r is None,
{
    assert forall|g: int, m: int|
        0 <= g < groups.len() && 0 <= m < groups[g].members@.len() && (
        #[trigger] groups[g].members@[m]).0 == id implies r == Some(g as usize) by {
        assert(is_member(groups[g].members@, id));
        if let Some(h) = r {
            let n = choose|n: int|
                0 <= n < groups[h as int].members@.len() && (#[trigger] groups[h as int].members@[n]).0
                    == id;
            assert(groups[g].members@[m].0 == groups[h as int].members@[n].0);
        }
    }
    if let Some(h) = r {
        let n = choose|n: int|
            0 <= n < groups[h as int].members@.len() && (#[trigger] groups[h as int].members@[n]).0
                == id;
        assert(groups[h as int].members@[n].0 == id);
    }
}

/// The swapped-only layout of a fork gets exactly one attempt: it is handed out when the flipped
/// one fails, and not again after that; a shrink drops it.
pub proof fn lemma_fork_attempted_once<S>(
    v: ExplorationView<S>,
    swapped_only: S,
    flipped: Flipped,
    loss: F32,
    sol: S,
    next_width: F32,
    later_loss: F32,
)
    requires
        v.wf(),
        v.stage == Stage::Swapped,
        v.forks(),
        rankable(v.infeas_sol_pool, loss),
    ensures
        ({
            let forked = v.forked(Some((swapped_only, flipped)));
            let after = forked.separated(loss, sol, next_width);
            &&& forked.outcome(loss) is Retry <==> !loss.is_zero() && v.infeas_sol_pool.len() + 1
                < v.max_failed()
            &&& forked.outcome(loss) matches Outcome::Retry(s) ==> s == swapped_only
                && after.last_disruption == Some(DisruptionKind::Swap)
            &&& after.stage != Stage::Done ==> after.pending_fork is None && after.outcome(
                later_loss,
            ) !is Retry
        }),
{
    lemma_n_better(v.infeas_sol_pool, loss);
}

/// Failed attempts pile up until the limit is reached, and only that exhausts the phase.
pub proof fn lemma_exhausted_at_limit<S>(v: ExplorationView<S>, loss: F32, sol: S, next_width: F32)
    requires
        v.wf(),
        rankable(v.infeas_sol_pool, loss),
    ensures
        v.outcome(loss) is Exhausted <==> !loss.is_zero() && v.infeas_sol_pool.len() + 1
            >= v.max_failed(),
        !loss.is_zero() ==> v.separated(loss, sol, next_width).infeas_sol_pool.len()
            == v.infeas_sol_pool.len() + 1,
        !loss.is_zero() ==> v.separated(loss, sol, next_width).infeas_sol_pool.contains((sol, loss)),
{
    lemma_n_better(v.infeas_sol_pool, loss);
    if !loss.is_zero() {
        let at = n_better(v.infeas_sol_pool, loss) as int;
        assert(v.separated(loss, sol, next_width).infeas_sol_pool[at] == (sol, loss));
    }
}

/// The statistics add up. Successes after swaps are at most the swaps, counting a swap that waits
/// to be judged; successes after flips at most the flips; and all of them at most the shrinks,
/// and at most the disruptions. Every swap is a disruption; without forks, the disruptions are
/// the swaps and the flips.
pub proof fn lemma_counts_add_up<S>(v: ExplorationView<S>)
    requires
        v.wf(),
    ensures
        v.stats.post_swap_sep_success <= v.stats.n_swaps,
        v.last_disruption == Some(DisruptionKind::Swap) ==> v.stats.post_swap_sep_success + 1
            <= v.stats.n_swaps,
        v.stats.post_flip_sep_success <= v.stats.n_flips <= v.stats.n_garments_flipped,
        v.stats.post_flip_sep_success + v.stats.post_swap_sep_success <= v.stats.n_shrinks,
        v.stats.post_flip_sep_success + v.stats.post_swap_sep_success <= v.stats.n_disruptions,
        v.stats.n_swaps <= v.stats.n_disruptions <= v.stats.n_swaps + v.stats.n_flips,
        !v.forks() ==> v.stats.n_disruptions == v.stats.n_swaps + v.stats.n_flips,
{
}

/// A flip probability of zero disables flips: where neither the re-solve nor the fork is switched
/// on, every disruption is a swap, no flip is counted, and none waits to be judged.
pub proof fn lemma_zero_probability_counts_no_flips<S>(v: ExplorationView<S>)
    requires
        v.wf(),
        v.flip matches Some(f) && f.p_flip.is_zero() && !f.resolve && !f.fork_at_swap,
    ensures
        v.stats.n_flips == 0,
        v.stats.n_garments_flipped == 0,
        v.stats.flip_loss_injected == (F32 { bits: 0 }),
        v.stats.n_disruptions == v.stats.n_swaps,
        v.stats.n_resolves == 0,
        v.stats.post_flip_sep_success == 0,
        v.last_disruption != Some(DisruptionKind::Flip),
        v.pending_fork is None,
{
}

/// Without groups the phase is one of swaps alone: every disruption is a swap, nothing is flipped
/// or re-solved, and no layout is kept back.
pub proof fn lemma_ungrouped_never_flips<S>(v: ExplorationView<S>)
    requires
        v.wf(),
        v.flip is None,
    ensures
        v.last_disruption != Some(DisruptionKind::Flip),
        v.pending_fork is None,
        v.stats.n_disruptions == v.stats.n_swaps,
        v.stats.n_flips == 0,
        v.stats.n_garments_flipped == 0,
        v.stats.flip_loss_injected == (F32 { bits: 0 }),
        v.stats.n_resolves == 0,
        v.stats.post_flip_sep_success == 0,
        !v.stats.grouped_active,
{
}

} // verus!
