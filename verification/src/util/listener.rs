//! What a caller of the optimizer gets to see while it runs.
use crate::scalar::F32;
use jagua_rs::probs::spp::entities::SPInstance;
use jagua_rs::probs::spp::entities::SPSolution;
use vstd::prelude::*;

verus! {

/// `jagua_rs::probs::spp::entities::SPInstance`, handed on to listeners unread.
#[verifier::external_type_specification]
#[verifier::external_body]
pub struct ExSPInstance(SPInstance);

/// `jagua_rs::probs::spp::entities::SPSolution`, handed on to listeners unread.
#[verifier::external_type_specification]
#[verifier::external_body]
pub struct ExSPSolution(SPSolution);

/// Trait for listeners that can receive solutions during the optimization process.
pub trait SolutionListener {
    fn report(&mut self, report: ReportType, solution: &SPSolution, instance: &SPInstance);

    /// Called once at the end of each optimization phase with that phase's cumulative
    /// search statistics. By default nothing happens.
    fn on_search_stats(&mut self, _phase: StatsPhase, _stats: &SearchStats)
        default_ensures
            &*final(self) == &*old(self),
    {
    }
}

/// Which optimization phase a `SearchStats` report covers.
#[derive(Debug, Clone, Copy, PartialEq, Eq, Structural)]
pub enum StatsPhase {
    Exploration,
    Compression,
}

/// Cumulative search statistics for one optimization phase.
#[derive(Debug, Clone, Copy, PartialEq)]
pub struct SearchStats {
    /// Number of separation calls performed.
    pub n_separate_calls: u64,
    /// Total item moves across all separation calls (summed over workers).
    pub total_moves: u64,
    /// Total sample evaluations across all separation calls (summed over workers).
    pub total_evals: u64,
    /// Exploration: successful strip shrinks. Compression: successful compressions.
    pub n_shrinks: u64,
    /// Number of disruption events (exploration only).
    pub n_disruptions: u64,
    /// Disruptions that were swap-two-large-items.
    pub n_swaps: u64,
    /// Group flip events: disruptions that were flips, and flips that followed a swap.
    pub n_flips: u64,
    /// Orientation re-solves attempted.
    pub n_resolves: u64,
    /// Total garments flipped across all flip events.
    pub n_garments_flipped: u64,
    /// Sum of collision loss measured directly after each flip (repair burden proxy).
    pub flip_loss_injected: F32,
    /// Separations that reached feasibility directly after a flip disruption.
    pub post_flip_sep_success: u64,
    /// Separations that reached feasibility directly after a swap disruption.
    pub post_swap_sep_success: u64,
    /// Whether a grouped-orientation spec was active.
    pub grouped_active: bool,
    /// Wall-clock seconds of the phase (measured once at the phase boundary).
    pub phase_secs: F32,
}

/// What a flip event did.
#[derive(Debug, Clone, Copy)]
pub struct Flipped {
    /// How many garments were flipped.
    pub n: usize,
    /// The loss that flips have injected since the start of the phase.
    pub flip_loss: F32,
}

impl SearchStats {
    /// The statistics of a phase that has not started: every count and sum is zero.
    pub open spec fn blank(grouped_active: bool) -> SearchStats {
        SearchStats {
            n_separate_calls: 0,
            total_moves: 0,
            total_evals: 0,
            n_shrinks: 0,
            n_disruptions: 0,
            n_swaps: 0,
            n_flips: 0,
            n_resolves: 0,
            n_garments_flipped: 0,
            flip_loss_injected: F32 { bits: 0 },
            post_flip_sep_success: 0,
            post_swap_sep_success: 0,
            grouped_active,
            phase_secs: F32 { bits: 0 },
        }
    }

    /// The statistics after one more flip event, which flipped `n`; `flip_loss` is the loss
    /// that flips have injected so far.
    pub open spec fn after_flip(self, n: nat, flip_loss: F32) -> SearchStats {
        SearchStats {
            n_flips: (self.n_flips + 1) as u64,
            n_garments_flipped: (self.n_garments_flipped + n) as u64,
            flip_loss_injected: flip_loss,
            ..self
        }
    }

    /// Counts a flip event.
    pub fn count_flip(&mut self, n: usize, flip_loss: F32)
        requires
            old(self).n_flips < u64::MAX,
            old(self).n_garments_flipped + n <= u64::MAX,
        ensures
            *final(self) == old(self).after_flip(n as nat, flip_loss),
            final(self).n_flips == old(self).n_flips + 1,
            final(self).n_garments_flipped == old(self).n_garments_flipped + n,
            final(self).flip_loss_injected == flip_loss,
    {
        self.n_flips = self.n_flips + 1;
        self.n_garments_flipped = self.n_garments_flipped + n as u64;
        self.flip_loss_injected = flip_loss;
    }

    /// Counts an orientation re-solve.
    pub fn count_resolve(&mut self)
        requires
            old(self).n_resolves < u64::MAX,
        ensures
            *final(self) == (SearchStats {
                n_resolves: (old(self).n_resolves + 1) as u64,
                ..*old(self)
            }),
    {
        self.n_resolves = self.n_resolves + 1;
    }
}

impl Default for SearchStats {
    fn default() -> (r: SearchStats)
        ensures
            r == SearchStats::blank(false),
    {
        SearchStats {
            n_separate_calls: 0,
            total_moves: 0,
            total_evals: 0,
            n_shrinks: 0,
            n_disruptions: 0,
            n_swaps: 0,
            n_flips: 0,
            n_resolves: 0,
            n_garments_flipped: 0,
            flip_loss_injected: F32::zero(),
            post_flip_sep_success: 0,
            post_swap_sep_success: 0,
            grouped_active: false,
            phase_secs: F32::zero(),
        }
    }
}

/// What a reported solution is.
#[derive(Debug, Clone, Copy, PartialEq, Eq, Structural)]
pub enum ReportType {
    /// Report contains a feasible solution reached by the exploration phase.
    ExplFeas,
    /// Report contains an infeasible solution reached by the exploration phase.
    ExplInfeas,
    /// Report contains an intermediate solution from the exploration phase that is closer to
    /// feasibility than the previous one.
    ExplImproving,
    /// Report contains a feasible solution from the compression phase.
    CmprFeas,
    /// Report contains the final solution.
    Final,
}

/// A dummy implementation of the `SolutionListener` trait that does nothing.
#[derive(Debug, Clone, Copy, PartialEq, Eq, Structural)]
pub struct DummySolListener;

impl SolutionListener for DummySolListener {
    fn report(&mut self, _report: ReportType, _solution: &SPSolution, _instance: &SPInstance)
        ensures
            *final(self) == *old(self),
    {
    }
}

} // verus!
