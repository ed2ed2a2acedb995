use garment_orient::grouped::GroupFlipConfig;
use garment_orient::grouped::GroupedOrientationSpec;
use garment_orient::grouped::ItemType;
use garment_orient::grouped::OrientationGroup;
use garment_orient::grouped::SpecError;
use garment_orient::scalar::F32;

fn f(x: f32) -> F32 {
    F32 { bits: x.to_bits() }
}

fn item(demand: usize) -> ItemType {
    ItemType { demand, area: f(1.0), hull_area: f(1.0), rotations: Some(vec![false, true]) }
}

fn config(p_flip: f32, n: usize) -> GroupFlipConfig {
    GroupFlipConfig {
        p_flip: f(p_flip),
        n_garments_per_flip: n,
        window: f(1.0),
        resolve: false,
        fork_at_swap: false,
    }
}

fn group(members: Vec<(usize, usize)>, quantity: usize) -> OrientationGroup {
    OrientationGroup { members, quantity }
}

fn spec(groups: Vec<OrientationGroup>) -> GroupedOrientationSpec {
    GroupedOrientationSpec { groups, flip: config(0.5, 1) }
}

fn problem(s: &GroupedOrientationSpec, items: &Vec<ItemType>) -> (SpecError, String) {
    let e = s.validate(items).unwrap_err();
    let p_flip = format!("{}", f32::from_bits(s.flip.p_flip.bits));
    (e, e.message(&p_flip))
}

#[test]
fn a_fitting_spec_is_accepted() {
    let items = vec![item(6), item(3), item(4)];
    let s = spec(vec![group(vec![(0, 2), (1, 1)], 3), group(vec![(2, 2)], 2)]);
    assert_eq!(s.validate(&items), Ok(()));
}

#[test]
fn probability_bounds_are_closed() {
    let items = vec![item(1)];
    let groups = vec![group(vec![(0, 1)], 1)];
    for p in [0.0, -0.0, 1.0] {
        let s = GroupedOrientationSpec { groups: groups.clone(), flip: config(p, 1) };
        assert_eq!(s.validate(&items), Ok(()));
    }
    for p in [-0.1, 1.0000001, f32::NAN, f32::INFINITY] {
        let s = GroupedOrientationSpec { groups: groups.clone(), flip: config(p, 1) };
        assert_eq!(s.validate(&items), Err(SpecError::FlipProbability));
    }
    let s = GroupedOrientationSpec { groups, flip: config(1.5, 0) };
    let (e, text) = problem(&s, &items);
    assert_eq!(e, SpecError::FlipProbability);
    assert_eq!(text, "p_flip must be in [0, 1], got 1.5");
}

#[test]
fn zero_garments_per_flip_is_rejected() {
    let s = GroupedOrientationSpec { groups: vec![], flip: config(0.5, 0) };
    let (e, text) = problem(&s, &vec![]);
    assert_eq!(e, SpecError::NoGarmentsPerFlip);
    assert_eq!(text, "n_garments_per_flip must be >= 1");
}

#[test]
fn a_spec_without_groups_is_rejected() {
    let (e, text) = problem(&spec(vec![]), &vec![item(1)]);
    assert_eq!(e, SpecError::NoGroups);
    assert_eq!(text, "spec contains no groups");
}

#[test]
fn a_group_without_members_is_rejected() {
    let s = spec(vec![group(vec![(0, 1)], 1), group(vec![], 0)]);
    let (e, text) = problem(&s, &vec![item(1)]);
    assert_eq!(e, SpecError::NoMembers { group: 1 });
    assert_eq!(text, "group 1 has no members");
}

#[test]
fn a_group_without_garments_is_rejected() {
    let (e, text) = problem(&spec(vec![group(vec![(9, 0)], 0)]), &vec![item(1)]);
    assert_eq!(e, SpecError::NoQuantity { group: 0 });
    assert_eq!(text, "group 0 has quantity 0");
}

#[test]
fn an_unknown_item_is_rejected() {
    let (e, text) = problem(&spec(vec![group(vec![(0, 1), (12, 1)], 1)]), &vec![item(1), item(1)]);
    assert_eq!(e, SpecError::ItemOutOfRange { group: 0, item: 12, n_items: 2 });
    assert_eq!(text, "group 0: item id 12 out of range (instance has 2 items)");
}

#[test]
fn an_item_in_two_groups_is_rejected() {
    let s = spec(vec![group(vec![(0, 1)], 1), group(vec![(0, 1)], 1)]);
    let (e, text) = problem(&s, &vec![item(1)]);
    assert_eq!(e, SpecError::ItemRepeated { item: 0 });
    assert_eq!(text, "item id 0 appears in more than one group (groups must be disjoint)");
}

#[test]
fn an_item_twice_in_one_group_is_rejected() {
    let s = spec(vec![group(vec![(0, 1), (0, 1)], 1)]);
    assert_eq!(s.validate(&vec![item(1)]), Err(SpecError::ItemRepeated { item: 0 }));
}

#[test]
fn zero_copies_per_garment_are_rejected() {
    let (e, text) = problem(&spec(vec![group(vec![(1, 0)], 1)]), &vec![item(1), item(0)]);
    assert_eq!(e, SpecError::NoPerGarment { group: 0, item: 1 });
    assert_eq!(text, "group 0: item 1 has per_garment 0");
}

#[test]
fn a_wrong_demand_is_rejected() {
    let (e, text) = problem(&spec(vec![group(vec![(0, 20)], 30)]), &vec![item(601)]);
    assert_eq!(
        e,
        SpecError::Demand { group: 0, item: 0, demand: 601, quantity: 30, per_garment: 20 }
    );
    assert_eq!(text, "group 0: item 0 demand 601 != quantity 30 x per_garment 20");
}

#[test]
fn a_product_beyond_the_range_matches_no_demand() {
    let s = spec(vec![group(vec![(0, 2)], usize::MAX)]);
    let wrapped = usize::MAX.wrapping_mul(2);
    assert!(matches!(s.validate(&vec![item(wrapped)]), Err(SpecError::Demand { .. })));
}

#[test]
fn the_first_problem_is_the_one_reported() {
    let s = spec(vec![group(vec![(0, 1), (7, 0)], 2), group(vec![], 0)]);
    assert!(matches!(s.validate(&vec![item(1)]), Err(SpecError::Demand { item: 0, .. })));
}
