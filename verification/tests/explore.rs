use garment_orient::grouped::GroupFlipConfig;
use garment_orient::grouped::GroupedOrientationSpec;
use garment_orient::grouped::OrientationGroup;
use garment_orient::optimizer::explore::group_of;
use garment_orient::optimizer::explore::DisruptionKind;
use garment_orient::optimizer::explore::Exploration;
use garment_orient::optimizer::explore::OrientationMove;
use garment_orient::optimizer::explore::Outcome;
use garment_orient::optimizer::explore::Stage;
use garment_orient::scalar::F32;
use garment_orient::util::listener::Flipped;
use garment_orient::util::listener::ReportType;
use garment_orient::util::listener::SearchStats;

fn f(x: f32) -> F32 {
    F32 { bits: x.to_bits() }
}

fn flip(p_flip: f32) -> GroupFlipConfig {
    GroupFlipConfig {
        p_flip: f(p_flip),
        n_garments_per_flip: 1,
        window: f(1.0),
        resolve: false,
        fork_at_swap: true,
    }
}

fn flipped(n: usize, flip_loss: f32) -> Option<Flipped> {
    Some(Flipped { n, flip_loss: f(flip_loss) })
}

#[test]
fn the_initial_layout_is_feasible() {
    let e = Exploration::start(f(100.0), "initial", None, None);
    assert_eq!(*e.feasible_sols(), vec!["initial"]);
    assert_eq!(e.stage(), Stage::Separating);
    assert_eq!(e.stats(), SearchStats::default());
    let e = Exploration::start(f(100.0), "initial", Some(flip(0.5)), None);
    assert!(e.stats().grouped_active);
}

#[test]
fn feasible_layouts_are_kept_on_narrower_strips_only() {
    let mut e = Exploration::start(f(100.0), 0, None, None);
    let r = e.separated(f(0.0), 1, f(90.0));
    assert_eq!(r, Outcome::Repeated);
    assert_eq!(r.report(), None);
    e.after_shrink(None);
    let r = e.separated(f(-0.0), 2, f(81.0));
    assert_eq!(r, Outcome::Improved);
    assert_eq!(r.report(), Some(ReportType::ExplFeas));
    e.after_shrink(None);
    assert_eq!(*e.feasible_sols(), vec![0, 2]);
    assert_eq!(e.best_width().bits, f(90.0).bits);
    assert_eq!(e.current_width().bits, f(81.0).bits);
    let (sols, stats) = e.finish(5, 6, 7, f(1.5));
    assert_eq!(sols, vec![0, 2]);
    assert_eq!(stats.n_shrinks, 2);
    assert_eq!(stats.n_separate_calls, 5);
    assert_eq!(stats.total_moves, 6);
    assert_eq!(stats.total_evals, 7);
    assert_eq!(stats.phase_secs.bits, f(1.5).bits);
}

#[test]
fn the_pool_is_sorted_by_loss_and_cleared_by_a_shrink() {
    let mut e = Exploration::start(f(100.0), 0, None, None);
    for (sol, loss) in [(1, 5.0), (2, 1.0), (3, 3.0), (4, 3.0)] {
        let r = e.separated(f(loss), sol, f(90.0));
        assert_eq!(r, Outcome::Stalled);
        assert_eq!(r.report(), Some(ReportType::ExplInfeas));
        e.disrupted(None);
        e.forked(None);
    }
    let losses: Vec<f32> = e.infeas_sol_pool().iter().map(|(_, l)| f32::from_bits(l.bits)).collect();
    assert_eq!(losses, vec![1.0, 3.0, 3.0, 5.0]);
    assert_eq!(*e.selected(0), 2);
    assert_eq!(*e.selected(3), 1);
    assert_eq!(e.stats().n_swaps, 4);
    assert_eq!(e.stats().n_disruptions, 4);
    e.separated(f(0.0), 9, f(90.0));
    assert!(e.infeas_sol_pool().is_empty());
    assert_eq!(e.stats().post_swap_sep_success, 1);
}

#[test]
fn the_limit_of_failed_attempts_ends_the_phase() {
    let mut e = Exploration::start(f(100.0), 0, None, Some(2));
    assert_eq!(e.separated(f(2.0), 1, f(90.0)), Outcome::Stalled);
    e.disrupted(None);
    e.forked(None);
    let r = e.separated(f(1.0), 2, f(90.0));
    assert_eq!(r, Outcome::Exhausted);
    assert_eq!(r.report(), Some(ReportType::ExplInfeas));
    assert_eq!(e.stage(), Stage::Done);
    assert_eq!(e.infeas_sol_pool().len(), 2);
}

#[test]
fn a_fork_gets_one_attempt_of_its_own() {
    let mut e = Exploration::start(f(100.0), 0, Some(flip(0.5)), None);
    assert_eq!(e.separated(f(2.0), 1, f(90.0)), Outcome::Stalled);
    e.disrupted(None);
    assert_eq!(e.stage(), Stage::Swapped);
    e.forked(Some((77, Flipped { n: 1, flip_loss: f(2.5) })));
    assert_eq!(e.last_disruption(), Some(DisruptionKind::Flip));
    let r = e.separated(f(3.0), 2, f(90.0));
    assert_eq!(r, Outcome::Retry(77));
    assert_eq!(r.report(), Some(ReportType::ExplInfeas));
    assert_eq!(e.last_disruption(), Some(DisruptionKind::Swap));
    assert_eq!(e.separated(f(4.0), 3, f(90.0)), Outcome::Stalled);
    assert_eq!(e.stats().n_disruptions, 1);
}

#[test]
fn a_shrink_drops_the_fork() {
    let mut e = Exploration::start(f(100.0), 0, Some(flip(0.5)), None);
    e.separated(f(2.0), 1, f(90.0));
    e.disrupted(None);
    e.forked(Some((77, Flipped { n: 1, flip_loss: f(2.5) })));
    assert_eq!(e.separated(f(0.0), 2, f(90.0)), Outcome::Repeated);
    assert_eq!(*e.pending_fork(), None);
    assert_eq!(e.stats().post_flip_sep_success, 1);
    assert_eq!(e.stats().post_swap_sep_success, 0);
}

#[test]
fn an_orientation_move_after_a_shrink_counts_as_a_flip() {
    let mut e = Exploration::start(f(100.0), 0, Some(flip(0.5)), None);
    e.separated(f(0.0), 1, f(90.0));
    e.after_shrink(flipped(2, 4.0));
    assert_eq!(e.stats().n_disruptions, 1);
    e.separated(f(0.0), 2, f(81.0));
    assert_eq!(e.stats().post_flip_sep_success, 1);
    e.after_shrink(None);
    assert_eq!(e.separated(f(1.0), 3, f(70.0)), Outcome::Stalled);
    e.disrupted(flipped(1, 5.5));
    assert_eq!(e.stage(), Stage::Separating);
    assert_eq!(e.stats().n_swaps, 0);
    assert_eq!(e.stats().n_disruptions, 2);
    assert_eq!(e.stats().n_flips, 2);
    assert_eq!(e.stats().n_garments_flipped, 3);
    assert_eq!(e.stats().flip_loss_injected.bits, f(5.5).bits);
}

#[test]
fn without_forks_disruptions_are_swaps_and_flips() {
    let plain = GroupFlipConfig { fork_at_swap: false, ..flip(0.5) };
    let mut e = Exploration::start(f(100.0), 0, Some(plain), None);
    for round in 0..6 {
        assert_eq!(e.separated(f(1.0 + round as f32), round, f(90.0)), Outcome::Stalled);
        if round % 3 == 0 {
            e.disrupted(flipped(2, 1.0));
        } else {
            e.disrupted(None);
            e.forked(None);
        }
        let s = e.stats();
        assert_eq!(s.n_disruptions, s.n_swaps + s.n_flips);
    }
    assert_eq!((e.stats().n_swaps, e.stats().n_flips), (4, 2));
    e.separated(f(0.0), 9, f(90.0));
    assert_eq!(e.stats().post_swap_sep_success, 1);
    assert!(e.stats().post_swap_sep_success <= e.stats().n_shrinks);
}

#[test]
fn re_solves_are_counted_whether_or_not_they_flip() {
    let resolving = GroupFlipConfig { resolve: true, ..flip(0.5) };
    let mut e = Exploration::start(f(100.0), 0, Some(resolving), None);
    e.separated(f(0.0), 1, f(90.0));
    e.resolving();
    e.after_shrink(None);
    assert_eq!(e.stats().n_resolves, 1);
    assert_eq!(e.stats().n_disruptions, 0);
}

#[test]
fn losses_that_are_no_numbers_cannot_be_ranked() {
    let mut e = Exploration::start(f(100.0), 0, None, None);
    assert!(e.can_rank(f(f32::NAN)));
    e.separated(f(1.0), 1, f(90.0));
    assert!(e.can_rank(f(2.0)));
    assert!(!e.can_rank(f(f32::NAN)));
}

#[test]
fn counters_have_room_for_what_can_be_counted() {
    let e = Exploration::start(f(100.0), 0, Some(flip(0.5)), None);
    assert!(e.has_room(None));
    assert!(e.has_room(flipped(3, 0.0)));
    assert!(!e.has_room(flipped(0, 0.0)));
}

#[test]
fn orientation_moves_need_groups_and_an_open_window() {
    let e = Exploration::start(f(1.0), 0, None, None);
    assert_eq!(e.orientation_move(true), OrientationMove::Skip);
    assert_eq!(e.fork_target(true, (Some(1), Some(2))), None);
    let e = Exploration::start(f(1.0), 0, Some(flip(0.5)), None);
    assert_eq!(e.orientation_move(false), OrientationMove::Skip);
    assert_eq!(e.orientation_move(true), OrientationMove::Draw);
    let resolving = GroupFlipConfig { resolve: true, ..flip(0.5) };
    let e = Exploration::start(f(1.0), 0, Some(resolving), None);
    assert_eq!(e.orientation_move(true), OrientationMove::Resolve);
}

#[test]
fn a_fork_flips_the_first_swapped_piece_with_a_group() {
    let e = Exploration::start(f(1.0), 0, Some(flip(0.5)), None);
    assert_eq!(e.fork_target(true, (Some(4), Some(5))), Some((false, 4)));
    assert_eq!(e.fork_target(true, (None, Some(5))), Some((true, 5)));
    assert_eq!(e.fork_target(true, (None, None)), None);
    assert_eq!(e.fork_target(false, (Some(4), None)), None);
    let plain = GroupFlipConfig { fork_at_swap: false, ..flip(0.5) };
    let e = Exploration::start(f(1.0), 0, Some(plain), None);
    assert_eq!(e.fork_target(true, (Some(4), None)), None);
}

#[test]
fn the_window_is_a_share_of_the_time_limit() {
    let half = GroupFlipConfig { window: f(0.5), ..flip(0.5) };
    assert!(half.in_window(f(4.9), f(5.0)));
    assert!(!half.in_window(f(5.0), f(5.0)));
    assert!(flip(0.5).in_window(f(99.0), f(5.0)));
}

#[test]
fn zero_probability_never_flips_and_one_always_does() {
    for draw in [0.0, 0.25, 0.99999994] {
        assert!(!flip(0.0).flips(f(draw)));
        assert!(flip(1.0).flips(f(draw)));
    }
    assert!(flip(0.5).flips(f(0.25)));
    assert!(!flip(0.5).flips(f(0.5)));
}

#[test]
fn items_know_their_group() {
    let spec = GroupedOrientationSpec {
        groups: vec![
            OrientationGroup { members: vec![(0, 1), (3, 2)], quantity: 1 },
            OrientationGroup { members: vec![(1, 1)], quantity: 1 },
        ],
        flip: flip(0.5),
    };
    assert_eq!(group_of(Some(&spec), 5), vec![Some(0), Some(1), None, Some(0), None]);
    assert_eq!(group_of(None, 3), vec![None, None, None]);
}

#[test]
fn a_phase_flips_only_where_it_is_asked_to() {
    let off = GroupFlipConfig { fork_at_swap: false, ..flip(0.0) };
    let mut e = Exploration::start(f(100.0), 0, Some(off), None);
    assert!(!e.may_flip());
    e.separated(f(0.0), 1, f(90.0));
    e.after_shrink(None);
    e.separated(f(1.0), 2, f(90.0));
    e.disrupted(None);
    e.forked(None);
    let s = e.stats();
    assert_eq!((s.n_flips, s.n_garments_flipped, s.n_disruptions, s.n_swaps), (0, 0, 1, 1));
    assert!(!Exploration::start(f(1.0), 0, None, None).may_flip());
    assert!(Exploration::start(f(1.0), 0, Some(flip(0.5)), None).may_flip());
    let resolving = GroupFlipConfig { resolve: true, ..flip(0.0) };
    assert!(Exploration::start(f(1.0), 0, Some(resolving), None).may_flip());
}
