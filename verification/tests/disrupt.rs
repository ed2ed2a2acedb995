use garment_orient::grouped::GroupFlipConfig;
use garment_orient::grouped::GroupedOrientationSpec;
use garment_orient::grouped::ItemType;
use garment_orient::grouped::OrientationGroup;
use garment_orient::grouped::PlacedCopy;
use garment_orient::optimizer::disrupt::carried_items;
use garment_orient::optimizer::disrupt::choose_first;
use garment_orient::optimizer::disrupt::choose_second;
use garment_orient::optimizer::disrupt::hull_cutoff;
use garment_orient::optimizer::disrupt::hull_order;
use garment_orient::optimizer::disrupt::large_copies;
use garment_orient::optimizer::disrupt::pose_rule;
use garment_orient::optimizer::disrupt::practically_contained_items;
use garment_orient::optimizer::disrupt::swap_plan;
use garment_orient::optimizer::disrupt::Exchange;
use garment_orient::optimizer::disrupt::Hit;
use garment_orient::optimizer::disrupt::PoseRule;
use garment_orient::optimizer::disrupt::SwapStart;
use garment_orient::partition::invariant_holds;
use garment_orient::scalar::F32;
use rand::rngs::SmallRng;
use rand::SeedableRng;

fn f(x: f32) -> F32 {
    F32 { bits: x.to_bits() }
}

fn item(hull_area: f32) -> ItemType {
    ItemType { demand: 1, area: f(1.0), hull_area: f(hull_area), rotations: None }
}

fn copy(slot: u64, hull_area: f32) -> PlacedCopy {
    PlacedCopy {
        key: (1 << 32) | slot,
        item_id: 0,
        dir180: false,
        x: f(0.0),
        hull_area: f(hull_area),
    }
}

#[test]
fn items_are_ordered_by_falling_hull_area() {
    let items = vec![item(1.0), item(3.0), item(2.0), item(3.0), item(0.5)];
    assert_eq!(hull_order(&items), vec![1, 3, 2, 0, 4]);
}

#[test]
fn hull_areas_that_are_no_numbers_come_first() {
    let items = vec![item(1.0), item(f32::NAN), item(f32::INFINITY), item(-f32::NAN)];
    assert_eq!(hull_order(&items), vec![1, 3, 2, 0]);
}

#[test]
fn the_cutoff_is_where_the_sum_exceeds_the_threshold() {
    let items = vec![item(1.0), item(3.0), item(2.0)];
    let order = vec![1, 2, 0];
    let sums = vec![f(3.0), f(5.0), f(6.0)];
    assert_eq!(hull_cutoff(&items, &order, &sums, f(2.0)).bits, f(3.0).bits);
    assert_eq!(hull_cutoff(&items, &order, &sums, f(3.0)).bits, f(2.0).bits);
    assert_eq!(hull_cutoff(&items, &order, &sums, f(5.5)).bits, f(1.0).bits);
    assert_eq!(hull_cutoff(&items, &order, &sums, f(6.0)).bits, 0);
}

#[test]
fn large_copies_reach_the_cutoff() {
    let copies = vec![copy(0, 1.0), copy(1, 2.0), copy(2, 3.0), copy(3, f32::NAN)];
    assert_eq!(large_copies(&copies, f(2.0)), vec![1, 2]);
    assert_eq!(large_copies(&copies, f(0.0)), vec![0, 1, 2]);
    assert!(large_copies(&copies, f(4.0)).is_empty());
}

#[test]
fn the_first_item_is_large() {
    let copies = vec![copy(0, 1.0), copy(1, 2.0), copy(2, 3.0)];
    let mut rng = SmallRng::seed_from_u64(3);
    let mut seen = [false; 3];
    for _ in 0..100 {
        match choose_first(&copies, f(2.0), &mut rng) {
            SwapStart::First(p) => seen[p] = true,
            other => panic!("{:?}", other),
        }
    }
    assert_eq!(seen, [false, true, true]);
    assert_eq!(choose_first(&copies, f(9.0), &mut rng), SwapStart::NoneLarge);
}

#[test]
fn a_swap_takes_two_items() {
    let mut rng = SmallRng::seed_from_u64(3);
    assert_eq!(choose_first(&vec![], f(0.0), &mut rng), SwapStart::TooFew);
    assert_eq!(choose_first(&vec![copy(0, 1.0)], f(0.0), &mut rng), SwapStart::TooFew);
    assert_eq!(swap_plan(&None, &vec![copy(0, 1.0)], 0, 0), None);
    assert_eq!(swap_plan(&None, &vec![], 0, 0), None);
}

#[test]
fn each_swapped_item_takes_the_place_of_the_other() {
    let mut copies = vec![copy(0, 1.0), copy(1, 2.0), copy(2, 3.0)];
    copies[2].item_id = 1;
    let locked = Some(vec![false, true]);
    let (one, other) = swap_plan(&locked, &copies, 2, 0).unwrap();
    assert_eq!(one, Exchange { copy: 2, place_of: 0, rule: PoseRule::KeepRotation });
    assert_eq!(other, Exchange { copy: 0, place_of: 2, rule: PoseRule::ClosestFeasible });
}

#[test]
fn the_second_item_is_large_and_different() {
    let copies = vec![copy(0, 1.0), copy(1, 2.0), copy(2, 3.0), copy(3, 2.0)];
    let mut rng = SmallRng::seed_from_u64(3);
    for _ in 0..50 {
        let differs = vec![true, false, true, false];
        assert_eq!(choose_second(&copies, f(2.0), &differs, 1, &mut rng), Some(2));
    }
}

#[test]
fn any_other_item_is_the_fallback() {
    let copies = vec![copy(0, 1.0), copy(1, 2.0), copy(2, 3.0)];
    let differs = vec![true, false, false];
    let mut rng = SmallRng::seed_from_u64(3);
    let mut seen = [false; 3];
    for _ in 0..100 {
        seen[choose_second(&copies, f(2.0), &differs, 1, &mut rng).unwrap()] = true;
    }
    assert_eq!(seen, [true, false, true]);
    let alone = vec![copy(0, 1.0)];
    assert_eq!(choose_second(&alone, f(0.0), &vec![false], 0, &mut rng), None);
}

#[test]
fn locked_items_keep_their_rotation() {
    let locked = Some(vec![true, false]);
    assert_eq!(pose_rule(&locked, 0), PoseRule::KeepRotation);
    assert_eq!(pose_rule(&locked, 1), PoseRule::ClosestFeasible);
    assert_eq!(pose_rule(&None, 0), PoseRule::ClosestFeasible);
}

#[test]
fn moves_of_locked_items_keep_the_counts() {
    let spec = GroupedOrientationSpec {
        groups: vec![OrientationGroup { members: vec![(0, 1)], quantity: 2 }],
        flip: GroupFlipConfig {
            p_flip: f(0.5),
            n_garments_per_flip: 1,
            window: f(1.0),
            resolve: false,
            fork_at_swap: false,
        },
    };
    let mut copies = vec![copy(0, 1.0), copy(1, 1.0), copy(2, 1.0)];
    copies[1].dir180 = true;
    copies[2].item_id = 1;
    assert!(invariant_holds(&copies, 2, &spec));
    let locked = Some(vec![true, false]);
    for p in 0..copies.len() {
        if pose_rule(&locked, copies[p].item_id) == PoseRule::ClosestFeasible {
            copies[p].dir180 = !copies[p].dir180;
        }
        copies[p].x = f(p as f32);
    }
    assert!(copies[2].dir180);
    assert!(invariant_holds(&copies, 2, &spec));
}

#[test]
fn contained_items_are_those_with_their_pole_inside() {
    let hits = vec![
        Hit::Placed { key: 5, poi_inside: true },
        Hit::Other,
        Hit::Placed { key: 1, poi_inside: true },
        Hit::Placed { key: 7, poi_inside: false },
        Hit::Placed { key: 3, poi_inside: true },
    ];
    assert_eq!(practically_contained_items(&hits, 1), vec![5, 3]);
    assert_eq!(carried_items(&hits, 1, 5), vec![3]);
    assert_eq!(carried_items(&hits, 1, 9), vec![5, 3]);
    assert!(practically_contained_items(&vec![], 1).is_empty());
}
