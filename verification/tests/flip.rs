use garment_orient::grouped::GroupFlipConfig;
use garment_orient::grouped::GroupedOrientationSpec;
use garment_orient::grouped::ItemType;
use garment_orient::grouped::OrientationGroup;
use garment_orient::grouped::PlacedCopy;
use garment_orient::grouped::Turn;
use garment_orient::optimizer::flip::flip_candidates;
use garment_orient::optimizer::flip::flip_garment_at;
use garment_orient::optimizer::flip::flip_one_garment;
use garment_orient::optimizer::flip::FlipEvent;
use garment_orient::partition::invariant_holds;
use garment_orient::scalar::F32;
use rand::rngs::SmallRng;
use rand::SeedableRng;

fn f(x: f32) -> F32 {
    F32 { bits: x.to_bits() }
}

fn item(demand: usize, area: f32) -> ItemType {
    ItemType { demand, area: f(area), hull_area: f(area), rotations: Some(vec![false, true]) }
}

fn copy(slot: u64, item_id: usize, dir180: bool, x: f32) -> PlacedCopy {
    PlacedCopy { key: (1 << 32) | slot, item_id, dir180, x: f(x), hull_area: f(1.0) }
}

fn spec(groups: Vec<(Vec<(usize, usize)>, usize)>) -> GroupedOrientationSpec {
    GroupedOrientationSpec {
        groups: groups
            .into_iter()
            .map(|(members, quantity)| OrientationGroup { members, quantity })
            .collect(),
        flip: GroupFlipConfig {
            p_flip: f(0.5),
            n_garments_per_flip: 1,
            window: f(1.0),
            resolve: false,
            fork_at_swap: false,
        },
    }
}

fn distances(copies: &Vec<PlacedCopy>, x: f32) -> Vec<F32> {
    copies.iter().map(|c| f((f32::from_bits(c.x.bits) - x).powi(2))).collect()
}

/// Two garments of one front and two sleeves (one of them turned over), and one of a hat.
fn layout() -> (Vec<PlacedCopy>, Vec<ItemType>, GroupedOrientationSpec) {
    let copies = vec![
        copy(0, 0, false, 0.0),
        copy(1, 1, false, 1.0),
        copy(2, 1, false, 9.0),
        copy(3, 0, true, 5.0),
        copy(4, 1, true, 6.0),
        copy(5, 1, true, 4.0),
        copy(6, 2, false, 2.0),
    ];
    let items = vec![item(2, 5.0), item(4, 2.0), item(1, 3.0)];
    let spec = spec(vec![(vec![(0, 1), (1, 2)], 2), (vec![(2, 1)], 1)]);
    (copies, items, spec)
}

fn turned(copies: &Vec<PlacedCopy>, items: &Vec<ItemType>, turns: &Vec<Turn>) -> Vec<PlacedCopy> {
    let mut after = copies.clone();
    for t in turns {
        let rotations = items[after[t.copy].item_id].rotations.as_ref().unwrap();
        after[t.copy].dir180 = rotations[t.rotation];
    }
    after
}

fn at180(copies: &Vec<PlacedCopy>, item_id: usize) -> usize {
    copies.iter().filter(|c| c.item_id == item_id && c.dir180).count()
}

#[test]
fn candidates_are_the_directions_that_garments_face() {
    let (mut copies, items, spec) = layout();
    let all = flip_candidates(&copies, items.len(), &spec);
    assert_eq!(all, vec![(0, false), (0, true), (1, false)]);
    copies[6].dir180 = true;
    let all = flip_candidates(&copies, items.len(), &spec);
    assert_eq!(all, vec![(0, false), (0, true), (1, true)]);
}

#[test]
fn a_pick_is_a_candidate_with_an_anchor_of_the_largest_piece() {
    let (copies, items, spec) = layout();
    let mut rng = SmallRng::seed_from_u64(7);
    let mut seen = vec![];
    for _ in 0..200 {
        let start = flip_one_garment(&copies, &items, &spec, &mut rng).unwrap();
        let wanted = match (start.group, start.src180) {
            (0, false) => 0,
            (0, true) => 3,
            (1, false) => 6,
            other => panic!("{:?} is no candidate", other),
        };
        assert_eq!(start.anchor, wanted);
        if !seen.contains(&wanted) {
            seen.push(wanted);
        }
    }
    assert_eq!(seen.len(), 3);
}

#[test]
fn the_last_of_equally_large_pieces_is_the_anchor() {
    let copies = vec![copy(0, 0, false, 0.0), copy(1, 1, false, 1.0)];
    let items = vec![item(1, 5.0), item(1, 5.0)];
    let spec = spec(vec![(vec![(0, 1), (1, 1)], 1)]);
    let mut rng = SmallRng::seed_from_u64(1);
    assert_eq!(flip_one_garment(&copies, &items, &spec, &mut rng).unwrap().anchor, 1);
}

#[test]
fn nothing_is_picked_where_the_anchor_is_missing() {
    let copies = vec![copy(0, 1, false, 0.0)];
    let items = vec![item(1, 5.0), item(1, 2.0)];
    let spec = spec(vec![(vec![(1, 1), (0, 1)], 1)]);
    let mut rng = SmallRng::seed_from_u64(1);
    assert!(flip_one_garment(&copies, &items, &spec, &mut rng).is_none());
}

#[test]
fn a_flip_takes_the_nearest_pieces() {
    let (copies, items, spec) = layout();
    let turns = flip_garment_at(&copies, &items, &spec, 0, true, &distances(&copies, 5.0)).unwrap();
    assert_eq!(
        turns,
        vec![
            Turn { copy: 3, rotation: 0 },
            Turn { copy: 4, rotation: 0 },
            Turn { copy: 5, rotation: 0 },
        ]
    );
    let turns = flip_garment_at(&copies, &items, &spec, 0, false, &distances(&copies, 10.0)).unwrap();
    assert_eq!(
        turns,
        vec![
            Turn { copy: 0, rotation: 1 },
            Turn { copy: 2, rotation: 1 },
            Turn { copy: 1, rotation: 1 },
        ]
    );
}

#[test]
fn only_as_many_pieces_as_a_garment_needs_are_taken() {
    let copies = vec![
        copy(0, 0, false, 0.0),
        copy(1, 0, false, 3.0),
        copy(2, 0, false, 1.0),
    ];
    let items = vec![item(3, 1.0)];
    let spec = spec(vec![(vec![(0, 1)], 3)]);
    let turns = flip_garment_at(&copies, &items, &spec, 0, false, &distances(&copies, 0.9)).unwrap();
    assert_eq!(turns, vec![Turn { copy: 2, rotation: 1 }]);
}

#[test]
fn a_flip_turns_exactly_one_garment() {
    let (copies, items, spec) = layout();
    assert!(invariant_holds(&copies, items.len(), &spec));
    for (group, src180) in flip_candidates(&copies, items.len(), &spec) {
        for x in [0.0, 3.5, 8.0] {
            let dist = distances(&copies, x);
            let turns = flip_garment_at(&copies, &items, &spec, group, src180, &dist).unwrap();
            let after = turned(&copies, &items, &turns);
            assert!(invariant_holds(&after, items.len(), &spec));
            let fronts = if group == 0 && src180 { 0 } else if group == 0 { 2 } else { 1 };
            assert_eq!(at180(&after, 0), fronts);
            assert_eq!(at180(&after, 1), 2 * fronts);
            assert_eq!(at180(&after, 2), if group == 1 { 1 } else { 0 });
        }
    }
}

#[test]
fn a_flip_fails_without_enough_pieces() {
    let (mut copies, items, spec) = layout();
    copies[5].dir180 = false;
    let dist = distances(&copies, 5.0);
    assert!(flip_garment_at(&copies, &items, &spec, 0, true, &dist).is_none());
    assert!(flip_garment_at(&copies, &items, &spec, 0, false, &dist).is_some());
}

#[test]
fn a_flip_fails_without_an_opposite_rotation() {
    let (copies, mut items, spec) = layout();
    let dist = distances(&copies, 5.0);
    items[1].rotations = Some(vec![false]);
    assert!(flip_garment_at(&copies, &items, &spec, 0, false, &dist).is_none());
    assert!(flip_garment_at(&copies, &items, &spec, 0, true, &dist).is_some());
    items[1].rotations = None;
    assert!(flip_garment_at(&copies, &items, &spec, 0, true, &dist).is_none());
}

#[test]
fn a_flip_event_takes_its_number_of_garments() {
    let config = GroupFlipConfig { n_garments_per_flip: 3, ..layout().2.flip };
    let mut event = FlipEvent::start(&config);
    let mut tried = 0;
    while event.goes_on() {
        event.flipped(tried != 1);
        tried += 1;
    }
    assert_eq!(tried, 3);
    let result = event.result(f(1.5)).unwrap();
    assert_eq!(result.n, 2);
    assert_eq!(result.flip_loss.bits, f(1.5).bits);
}

#[test]
fn a_flip_event_without_a_garment_comes_to_nothing() {
    let config = GroupFlipConfig { n_garments_per_flip: 2, ..layout().2.flip };
    let mut event = FlipEvent::start(&config);
    event.flipped(false);
    event.flipped(false);
    assert!(!event.goes_on());
    assert!(event.result(f(0.0)).is_none());
}

#[test]
fn flipping_the_only_garment_there_and_back_changes_nothing() {
    let copies = vec![
        copy(0, 0, true, 0.0),
        copy(1, 1, true, 1.0),
        copy(2, 2, false, 5.0),
        copy(3, 1, true, 4.0),
    ];
    let items = vec![item(1, 5.0), item(2, 2.0), item(1, 1.0)];
    let spec = spec(vec![(vec![(0, 1), (1, 2)], 1), (vec![(2, 1)], 1)]);
    for (x, back_x) in [(0.0, 9.0), (4.0, 0.0)] {
        let dist = distances(&copies, x);
        let turns = flip_garment_at(&copies, &items, &spec, 0, true, &dist).unwrap();
        let there = turned(&copies, &items, &turns);
        assert_eq!((at180(&there, 0), at180(&there, 1)), (0, 0));
        let dist = distances(&there, back_x);
        let turns = flip_garment_at(&there, &items, &spec, 0, false, &dist).unwrap();
        assert!(turns.iter().all(|t| t.rotation == 1));
        let back = turned(&there, &items, &turns);
        for p in 0..copies.len() {
            assert_eq!(back[p].dir180, copies[p].dir180);
        }
    }
}
