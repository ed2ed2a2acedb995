use garment_orient::scalar::F32;
use garment_orient::util::listener::DummySolListener;
use garment_orient::util::listener::ReportType;
use garment_orient::util::listener::SearchStats;
use garment_orient::util::listener::SolutionListener;
use garment_orient::util::listener::StatsPhase;
use jagua_rs::probs::spp::entities::SPInstance;
use jagua_rs::probs::spp::entities::SPSolution;

/// A listener that keeps the default for statistics.
struct Counting {
    n_reports: usize,
}

impl SolutionListener for Counting {
    fn report(&mut self, _report: ReportType, _solution: &SPSolution, _instance: &SPInstance) {
        self.n_reports += 1;
    }
}

#[test]
fn statistics_start_at_zero() {
    let s = SearchStats::default();
    assert_eq!(s.n_shrinks + s.n_disruptions + s.n_swaps + s.n_flips + s.n_resolves, 0);
    assert_eq!(s.n_separate_calls + s.total_moves + s.total_evals + s.n_garments_flipped, 0);
    assert_eq!(s.flip_loss_injected.bits, 0);
    assert!(!s.grouped_active);
}

#[test]
fn flips_and_resolves_are_counted() {
    let mut s = SearchStats::default();
    s.count_flip(3, F32 { bits: 2.5f32.to_bits() });
    s.count_flip(1, F32 { bits: 4.0f32.to_bits() });
    s.count_resolve();
    assert_eq!(s.n_flips, 2);
    assert_eq!(s.n_garments_flipped, 4);
    assert_eq!(f32::from_bits(s.flip_loss_injected.bits), 4.0);
    assert_eq!(s.n_resolves, 1);
    assert_eq!(s.n_disruptions, 0);
}

#[test]
fn statistics_compare_as_numbers() {
    let mut a = SearchStats::default();
    let mut b = SearchStats::default();
    a.phase_secs = F32 { bits: (-0.0f32).to_bits() };
    assert_eq!(a, b);
    b.phase_secs = F32 { bits: f32::NAN.to_bits() };
    assert!(b != b);
}

#[test]
fn the_dummy_listener_takes_statistics_silently() {
    let mut l = DummySolListener;
    l.on_search_stats(StatsPhase::Exploration, &SearchStats::default());
    l.on_search_stats(StatsPhase::Compression, &SearchStats::default());
    assert_eq!(l, DummySolListener);
}

#[test]
fn by_default_statistics_change_nothing() {
    let mut l = Counting { n_reports: 3 };
    l.on_search_stats(StatsPhase::Exploration, &SearchStats::default());
    assert_eq!(l.n_reports, 3);
}
