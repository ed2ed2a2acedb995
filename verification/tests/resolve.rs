use garment_orient::cluster::seed_cells;
use garment_orient::grouped::GroupFlipConfig;
use garment_orient::grouped::GroupedOrientationSpec;
use garment_orient::grouped::ItemType;
use garment_orient::grouped::OrientationGroup;
use garment_orient::grouped::PlacedCopy;
use garment_orient::grouped::Turn;
use garment_orient::optimizer::assignment::best_assignment;
use garment_orient::optimizer::assignment::pack;
use garment_orient::optimizer::assignment::unpack;
use garment_orient::optimizer::assignment::Energy;
use garment_orient::optimizer::resolve::build_cells;
use garment_orient::optimizer::resolve::current_mask;
use garment_orient::optimizer::resolve::fixed_copies;
use garment_orient::optimizer::resolve::orientation_resolve;
use garment_orient::optimizer::resolve::resolvable;
use garment_orient::optimizer::resolve::GarmentCell;
use garment_orient::partition::invariant_holds;
use garment_orient::scalar::F32;

fn f(x: f32) -> F32 {
    F32 { bits: x.to_bits() }
}

fn item(demand: usize, area: f32, rotations: Option<Vec<bool>>) -> ItemType {
    ItemType { demand, area: f(area), hull_area: f(area), rotations }
}

fn copy(slot: u64, item_id: usize, dir180: bool, x: f32) -> PlacedCopy {
    PlacedCopy { key: (1 << 32) | slot, item_id, dir180, x: f(x), hull_area: f(1.0) }
}

fn spec(groups: Vec<(Vec<(usize, usize)>, usize)>) -> GroupedOrientationSpec {
    GroupedOrientationSpec {
        groups: groups
            .into_iter()
            .map(|(members, quantity)| OrientationGroup { members, quantity })
            .collect(),
        flip: GroupFlipConfig {
            p_flip: f(0.5),
            n_garments_per_flip: 1,
            window: f(1.0),
            resolve: true,
            fork_at_swap: false,
        },
    }
}

fn distances(copies: &Vec<PlacedCopy>, seeds: &Vec<Vec<usize>>) -> Vec<Vec<F32>> {
    let x = |p: usize| f32::from_bits(copies[p].x.bits);
    seeds
        .iter()
        .map(|cell| {
            let c = cell.iter().map(|&p| x(p)).sum::<f32>() / cell.len() as f32;
            (0..copies.len()).map(|p| f((x(p) - c).powi(2))).collect()
        })
        .collect()
}

fn cells_of(
    copies: &Vec<PlacedCopy>,
    items: &Vec<ItemType>,
    spec: &GroupedOrientationSpec,
) -> Option<Vec<GarmentCell>> {
    let dist = distances(copies, &seed_cells(copies, items, spec, true));
    build_cells(copies, items, spec, &dist)
}

/// Three garments of one front and one back, one of them turned over, and a loose piece.
fn three_garments() -> (Vec<PlacedCopy>, Vec<ItemType>, GroupedOrientationSpec) {
    let copies = vec![
        copy(0, 1, false, 21.0),
        copy(1, 0, false, 0.0),
        copy(2, 0, true, 10.0),
        copy(3, 2, false, 7.0),
        copy(4, 0, false, 20.0),
        copy(5, 1, true, 11.0),
        copy(6, 1, false, 1.0),
    ];
    let items = vec![
        item(3, 5.0, Some(vec![false, true])),
        item(3, 4.0, Some(vec![true, false])),
        item(1, 1.0, None),
    ];
    (copies, items, spec(vec![(vec![(0, 1), (1, 1)], 3)]))
}

fn energies(values: &[f32]) -> Vec<Energy> {
    values.iter().map(|&e| Energy { e: f(e), floor: f(e - f32::EPSILON) }).collect()
}

#[test]
fn cells_are_built_apart_for_each_direction() {
    let (copies, items, spec) = three_garments();
    let cells = cells_of(&copies, &items, &spec).unwrap();
    let lists: Vec<Vec<usize>> = cells.iter().map(|c| c.copies.clone()).collect();
    assert_eq!(lists, vec![vec![1, 6], vec![4, 0], vec![2, 5]]);
    let current: Vec<bool> = cells.iter().map(|c| c.current).collect();
    assert_eq!(current, vec![false, false, true]);
    assert_eq!(cells[0].opposite, vec![1, 0]);
    assert_eq!(cells[2].opposite, vec![0, 1]);
    assert_eq!(current_mask(&cells), 4);
    assert_eq!(fixed_copies(copies.len(), &cells), vec![3]);
}

#[test]
fn broken_counts_build_no_cells() {
    let (mut copies, items, spec) = three_garments();
    assert!(invariant_holds(&copies, items.len(), &spec));
    copies[5].dir180 = false;
    assert!(!invariant_holds(&copies, items.len(), &spec));
    assert!(cells_of(&copies, &items, &spec).is_none());
}

#[test]
fn pieces_without_an_opposite_build_no_cells() {
    let (copies, mut items, spec) = three_garments();
    items[1].rotations = None;
    assert!(cells_of(&copies, &items, &spec).is_none());
    items[1].rotations = Some(vec![false]);
    assert!(cells_of(&copies, &items, &spec).is_none());
    items[1].rotations = Some(vec![false, true]);
    assert!(cells_of(&copies, &items, &spec).is_some());
}

#[test]
fn a_class_without_anchors_is_passed_over() {
    let copies = vec![copy(0, 0, false, 0.0), copy(1, 1, false, 1.0), copy(2, 1, true, 2.0)];
    let items = vec![
        item(1, 5.0, Some(vec![false, true])),
        item(1, 4.0, Some(vec![false, true])),
    ];
    let spec = spec(vec![(vec![(0, 1), (1, 1)], 1)]);
    let cells = cells_of(&copies, &items, &spec).unwrap();
    assert_eq!(cells.len(), 1);
    assert_eq!(fixed_copies(3, &cells), vec![2]);
}

#[test]
fn masks_pack_and_unpack() {
    assert_eq!(pack(&vec![true, false, true]), 5);
    assert_eq!(pack(&vec![]), 0);
    assert_eq!(unpack(5, 4), vec![true, false, true, false]);
    for mask in 0..64 {
        assert_eq!(pack(&unpack(mask, 6)), mask);
    }
}

#[test]
fn the_lowest_energy_wins() {
    assert_eq!(best_assignment(&energies(&[3.0, 2.0, 0.5, 1.0]), 0), 2);
    assert_eq!(best_assignment(&energies(&[3.0, 2.0, 0.5, 1.0]), 2), 2);
    assert_eq!(best_assignment(&energies(&[0.5, 0.5, 0.5, 0.5]), 3), 3);
    assert_eq!(best_assignment(&energies(&[1.0, 0.5, 0.5, 0.5]), 0), 1);
}

#[test]
fn ties_keep_the_current_assignment() {
    for current in 0..4 {
        let mut values = [1.0, 1.0, 1.0, 1.0];
        assert_eq!(best_assignment(&energies(&values), current), current);
        values[current] = 0.25;
        assert_eq!(best_assignment(&energies(&values), current), current);
    }
}

#[test]
fn differences_within_the_tolerance_do_not_count() {
    let close = 1.0 - f32::EPSILON / 2.0;
    assert_eq!(best_assignment(&energies(&[1.0, close]), 0), 0);
    assert_eq!(best_assignment(&energies(&[1.0, 1.0 - 2.0 * f32::EPSILON]), 0), 1);
}

#[test]
fn infinite_energies_change_nothing() {
    assert_eq!(best_assignment(&energies(&[f32::INFINITY, f32::INFINITY]), 1), 1);
    assert_eq!(best_assignment(&energies(&[f32::NAN, f32::NAN]), 1), 1);
}

#[test]
fn small_numbers_of_garments_are_resolvable() {
    assert!(!resolvable(0));
    assert!(resolvable(1));
    assert!(resolvable(14));
    assert!(!resolvable(15));
}

#[test]
fn an_optimal_assignment_is_left_alone() {
    let (copies, items, spec) = three_garments();
    let cells = cells_of(&copies, &items, &spec).unwrap();
    let mut values = [2.0f32; 8];
    values[4] = 1.0;
    assert!(orientation_resolve(&copies, &items, &cells, &energies(&values)).is_none());
    assert!(orientation_resolve(&copies, &items, &cells, &energies(&[2.0; 8])).is_none());
}

#[test]
fn the_layout_is_turned_to_the_best_assignment() {
    let (copies, items, spec) = three_garments();
    let cells = cells_of(&copies, &items, &spec).unwrap();
    let mut values = [2.0f32; 8];
    values[1] = 1.0;
    let r = orientation_resolve(&copies, &items, &cells, &energies(&values)).unwrap();
    assert_eq!(r.n_changed, 2);
    assert_eq!(
        r.turns,
        vec![
            Turn { copy: 1, rotation: 1 },
            Turn { copy: 6, rotation: 0 },
            Turn { copy: 2, rotation: 0 },
            Turn { copy: 5, rotation: 1 },
        ]
    );
}

#[test]
fn every_assignment_is_consistent() {
    let (copies, items, spec) = three_garments();
    let cells = cells_of(&copies, &items, &spec).unwrap();
    for best in 0..8 {
        let mut values = [2.0f32; 8];
        values[best] = 1.0;
        let mut after = copies.clone();
        match orientation_resolve(&copies, &items, &cells, &energies(&values)) {
            Some(r) => {
                for t in &r.turns {
                    let rotations = items[after[t.copy].item_id].rotations.as_ref().unwrap();
                    after[t.copy].dir180 = rotations[t.rotation];
                }
            }
            None => assert_eq!(best, 4),
        }
        assert!(invariant_holds(&after, items.len(), &spec));
        for (k, cell) in cells.iter().enumerate() {
            for &p in &cell.copies {
                assert_eq!(after[p].dir180, (best >> k) & 1 == 1);
            }
        }
    }
}

#[test]
fn no_garments_or_too_many_are_left_alone() {
    assert!(orientation_resolve(&vec![], &vec![], &vec![], &vec![]).is_none());
    let copies: Vec<PlacedCopy> = (0..15).map(|i| copy(i, 0, false, i as f32)).collect();
    let items = vec![item(15, 1.0, Some(vec![false, true]))];
    let spec = spec(vec![(vec![(0, 1)], 15)]);
    let cells = cells_of(&copies, &items, &spec).unwrap();
    assert_eq!(cells.len(), 15);
    assert!(orientation_resolve(&copies, &items, &cells, &vec![]).is_none());
}
