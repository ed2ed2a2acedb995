use garment_orient::cluster::seed_cells;
use garment_orient::grouped::GroupFlipConfig;
use garment_orient::grouped::GroupedOrientationSpec;
use garment_orient::grouped::ItemType;
use garment_orient::grouped::OrientationGroup;
use garment_orient::grouped::PlacedCopy;
use garment_orient::grouped::Turn;
use garment_orient::optimizer::anneal::build_anneal_map;
use garment_orient::optimizer::anneal::cluster_cells;
use garment_orient::optimizer::anneal::count_projection;
use garment_orient::optimizer::anneal::keys_distinct;
use garment_orient::optimizer::anneal::project_to_consistency;
use garment_orient::optimizer::anneal::AnnealEntry;
use garment_orient::optimizer::anneal::CellVote;
use garment_orient::partition::invariant_holds;
use garment_orient::scalar::F32;
use garment_orient::util::listener::SearchStats;

fn f(x: f32) -> F32 {
    F32 { bits: x.to_bits() }
}

fn item(demand: usize, area: f32, rotations: Option<Vec<bool>>) -> ItemType {
    ItemType { demand, area: f(area), hull_area: f(area), rotations }
}

fn copy(slot: u64, item_id: usize, dir180: bool, x: f32) -> PlacedCopy {
    PlacedCopy { key: (1 << 32) | slot, item_id, dir180, x: f(x), hull_area: f(1.0) }
}

fn spec(groups: Vec<(Vec<(usize, usize)>, usize)>) -> GroupedOrientationSpec {
    GroupedOrientationSpec {
        groups: groups
            .into_iter()
            .map(|(members, quantity)| OrientationGroup { members, quantity })
            .collect(),
        flip: GroupFlipConfig {
            p_flip: f(0.5),
            n_garments_per_flip: 1,
            window: f(1.0),
            resolve: false,
            fork_at_swap: false,
        },
    }
}

/// Distances along x between the seed cells' centres and the copies.
fn distances(copies: &Vec<PlacedCopy>, seeds: &Vec<Vec<usize>>) -> Vec<Vec<F32>> {
    let x = |p: usize| f32::from_bits(copies[p].x.bits);
    seeds
        .iter()
        .map(|cell| {
            let c = cell.iter().map(|&p| x(p)).sum::<f32>() / cell.len() as f32;
            (0..copies.len()).map(|p| f((x(p) - c).powi(2))).collect()
        })
        .collect()
}

fn vote(at0: f32, at180: f32) -> CellVote {
    CellVote {
        at0: f(at0),
        at180: f(at180),
        gap: f((at0 - at180).abs()),
        slack: f(f32::EPSILON * (at0 + at180)),
    }
}

fn both() -> Option<Vec<bool>> {
    Some(vec![false, true])
}

/// Two garments of one front and two sleeves, plus a piece of its own.
fn two_garments() -> (Vec<PlacedCopy>, Vec<ItemType>, GroupedOrientationSpec) {
    let copies = vec![
        copy(0, 0, false, 10.0),
        copy(1, 1, true, 11.0),
        copy(2, 2, true, 5.0),
        copy(3, 0, true, 0.0),
        copy(4, 1, true, 1.0),
        copy(5, 1, false, 9.0),
        copy(6, 1, true, -1.0),
    ];
    let items = vec![item(2, 5.0, both()), item(4, 2.0, both()), item(1, 1.0, None)];
    (copies, items, spec(vec![(vec![(0, 1), (1, 2)], 2)]))
}

#[test]
fn copies_are_clustered_into_garments() {
    let (copies, items, spec) = two_garments();
    let seeds = seed_cells(&copies, &items, &spec, false);
    assert_eq!(seeds, vec![vec![3], vec![0]]);
    let dist = distances(&copies, &seeds);
    let cells = cluster_cells(&copies, &items, &spec, &dist);
    assert_eq!(cells, vec![vec![3, 6, 4], vec![0, 5, 1]]);
}

#[test]
fn full_cells_send_copies_on_to_the_next_nearest() {
    let copies = vec![
        copy(0, 0, false, 0.0),
        copy(1, 0, false, 100.0),
        copy(2, 1, false, 1.0),
        copy(3, 1, false, 2.0),
    ];
    let items = vec![item(2, 5.0, both()), item(2, 2.0, both())];
    let spec = spec(vec![(vec![(0, 1), (1, 1)], 2)]);
    let seeds = seed_cells(&copies, &items, &spec, false);
    let cells = cluster_cells(&copies, &items, &spec, &distances(&copies, &seeds));
    assert_eq!(cells, vec![vec![0, 2], vec![1, 3]]);
}

#[test]
fn the_anchor_is_the_rarest_and_then_the_largest_piece() {
    let copies = vec![copy(0, 0, false, 3.0), copy(1, 1, false, 2.0), copy(2, 2, false, 1.0)];
    let items = vec![item(1, 4.0, both()), item(1, 9.0, both()), item(1, 9.0, both())];
    let spec = spec(vec![(vec![(0, 1), (1, 1), (2, 1)], 1)]);
    assert_eq!(seed_cells(&copies, &items, &spec, false), vec![vec![1]]);
}

#[test]
fn a_group_without_anchor_copies_has_no_cells() {
    let copies = vec![copy(0, 1, false, 3.0)];
    let items = vec![item(1, 4.0, both()), item(1, 1.0, both())];
    let spec = spec(vec![(vec![(0, 1), (1, 1)], 1)]);
    assert!(seed_cells(&copies, &items, &spec, false).is_empty());
    assert!(cluster_cells(&copies, &items, &spec, &vec![]).is_empty());
}

#[test]
fn pressure_points_at_the_majority() {
    let (copies, _, _) = two_garments();
    let cells = vec![vec![3, 6, 4], vec![0, 5, 1]];
    let votes = vec![vote(0.0, 3.0), vote(2.0, 1.0)];
    let pressure: Vec<F32> = (0..copies.len()).map(|p| f(10.0 + p as f32)).collect();
    let map = build_anneal_map(&copies, &cells, &votes, f(0.1), &pressure);
    let e = map.entry(copies[4].key).unwrap();
    assert_eq!(e.penalty[0].bits, f(14.0).bits);
    assert_eq!(e.penalty[1].bits, 0);
    assert!(!e.move_candidate);
    let e = map.entry(copies[1].key).unwrap();
    assert_eq!(e.penalty[0].bits, 0);
    assert_eq!(e.penalty[1].bits, f(11.0).bits);
    assert!(e.move_candidate);
    let e = map.entry(copies[0].key).unwrap();
    assert!(!e.move_candidate);
    assert!(map.entry(copies[2].key).is_none());
}

#[test]
fn tied_cells_apply_no_pressure() {
    let (copies, _, _) = two_garments();
    let cells = vec![vec![3, 6], vec![0]];
    let pressure = vec![f(1.0); copies.len()];
    let votes = vec![vote(1.5, 1.5), vote(1.0, 0.0)];
    let map = build_anneal_map(&copies, &cells, &votes, f(1.0), &pressure);
    assert!(map.entry(copies[3].key).is_none());
    assert!(map.entry(copies[6].key).is_none());
    assert!(map.entry(copies[0].key).is_some());
}

#[test]
fn without_a_positive_lambda_there_is_no_pressure() {
    let (copies, _, _) = two_garments();
    let pressure = vec![f(1.0); copies.len()];
    for lambda in [0.0, -0.0, -1.0] {
        let map = build_anneal_map(&copies, &vec![vec![0]], &vec![vote(1.0, 0.0)], f(lambda), &pressure);
        assert!(map.entry(copies[0].key).is_none());
    }
}

#[test]
fn the_last_cell_of_a_copy_decides() {
    let (copies, _, _) = two_garments();
    let pressure = vec![f(1.0); copies.len()];
    let votes = vec![vote(0.0, 1.0), vote(1.0, 0.0)];
    let map = build_anneal_map(&copies, &vec![vec![0], vec![0]], &votes, f(1.0), &pressure);
    let e = map.entry(copies[0].key).unwrap();
    assert_eq!(e.penalty[0].bits, 0);
    assert_eq!(e.penalty[1].bits, f(1.0).bits);
}

#[test]
fn other_versions_of_a_slot_have_no_entry() {
    let (copies, _, _) = two_garments();
    let pressure = vec![f(1.0); copies.len()];
    let map = build_anneal_map(&copies, &vec![vec![0]], &vec![vote(1.0, 0.0)], f(1.0), &pressure);
    assert!(map.entry((1 << 32) | 0).is_some());
    assert!(map.entry((3 << 32) | 0).is_none());
    assert!(map.entry((2 << 32) | 0).is_none());
    assert!(map.entry((1 << 32) | 0xffff_ffff).is_none());
}

#[test]
fn a_blank_entry_costs_nothing() {
    let e = AnnealEntry::default();
    assert_eq!((e.penalty[0].bits, e.penalty[1].bits, e.move_candidate), (0, 0, false));
}

/// The layout after the turns.
fn turned(copies: &Vec<PlacedCopy>, items: &Vec<ItemType>, turns: &Vec<Turn>) -> Vec<PlacedCopy> {
    let mut after = copies.clone();
    for t in turns {
        let rotations = items[after[t.copy].item_id].rotations.as_ref().unwrap();
        after[t.copy].dir180 = rotations[t.rotation];
    }
    after
}

#[test]
fn projection_makes_a_layout_consistent() {
    let (copies, items, spec) = two_garments();
    assert_eq!(spec.validate(&items), Ok(()));
    assert!(!invariant_holds(&copies, items.len(), &spec));
    let seeds = seed_cells(&copies, &items, &spec, false);
    let cells = cluster_cells(&copies, &items, &spec, &distances(&copies, &seeds));
    let votes = vec![vote(0.0, 3.0), vote(2.0, 1.0)];
    let turns = project_to_consistency(&copies, &items, &cells, &votes);
    assert_eq!(turns, vec![Turn { copy: 1, rotation: 0 }]);
    let after = turned(&copies, &items, &turns);
    assert!(invariant_holds(&after, items.len(), &spec));
    assert!(project_to_consistency(&after, &items, &cells, &votes).is_empty());
    for votes in [vec![vote(1.0, 0.0), vote(0.0, 1.0)], vec![vote(1.0, 1.0), vote(1.0, 1.0)]] {
        let turns = project_to_consistency(&copies, &items, &cells, &votes);
        assert!(invariant_holds(&turned(&copies, &items, &turns), items.len(), &spec));
    }
}

#[test]
fn ties_are_projected_to_zero_degrees() {
    let copies = vec![copy(0, 0, false, 0.0), copy(1, 0, true, 1.0)];
    let items = vec![item(2, 1.0, both())];
    let turns = project_to_consistency(&copies, &items, &vec![vec![0, 1]], &vec![vote(1.0, 1.0)]);
    assert_eq!(turns, vec![Turn { copy: 1, rotation: 0 }]);
}

#[test]
fn copies_without_a_rotation_to_turn_to_are_left_alone() {
    let copies = vec![
        copy(0, 0, false, 0.0),
        copy(1, 1, false, 1.0),
        copy(2, 2, false, 2.0),
    ];
    let items = vec![
        item(1, 1.0, None),
        item(1, 1.0, Some(vec![false])),
        item(1, 1.0, Some(vec![false, false, true, true])),
    ];
    let turns = project_to_consistency(&copies, &items, &vec![vec![0, 1, 2]], &vec![vote(0.0, 1.0)]);
    assert_eq!(turns, vec![Turn { copy: 2, rotation: 2 }]);
}

#[test]
fn a_projection_counts_its_copies_as_one_event() {
    let mut stats = SearchStats::default();
    count_projection(&mut stats, 0, f(9.0));
    assert_eq!(stats, SearchStats::default());
    count_projection(&mut stats, 4, f(9.0));
    assert_eq!((stats.n_flips, stats.n_garments_flipped), (1, 4));
    assert_eq!(stats.flip_loss_injected.bits, f(9.0).bits);
}

#[test]
fn the_projection_turns_exactly_the_move_candidates() {
    let (mut copies, items, spec) = two_garments();
    copies.pop();
    let seeds = seed_cells(&copies, &items, &spec, false);
    let cells = cluster_cells(&copies, &items, &spec, &distances(&copies, &seeds));
    let votes = vec![vote(0.0, 2.0), vote(2.0, 1.0)];
    let pressure = vec![f(1.0); copies.len()];
    let map = build_anneal_map(&copies, &cells, &votes, f(1.0), &pressure);
    let turns = project_to_consistency(&copies, &items, &cells, &votes);
    for p in 0..copies.len() {
        let marked = map.entry(copies[p].key).map_or(false, |e| e.move_candidate);
        assert_eq!(marked, turns.iter().any(|t| t.copy == p), "copy {}", p);
    }
    assert_eq!(turns.len(), 1);
}

#[test]
fn keys_of_one_layout_name_different_slots() {
    let (mut copies, _, _) = two_garments();
    assert!(keys_distinct(&copies));
    copies[1].key = (3 << 32) | 0;
    assert!(!keys_distinct(&copies));
    copies[1].key = (2 << 32) | 9;
    assert!(!keys_distinct(&copies));
    copies[1].key = (1 << 32) | 0xffff_ffff;
    assert!(!keys_distinct(&copies));
}
