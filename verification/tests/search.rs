use garment_orient::cluster::seed_cells;
use garment_orient::grouped::GroupFlipConfig;
use garment_orient::grouped::GroupedOrientationSpec;
use garment_orient::grouped::ItemType;
use garment_orient::grouped::OrientationGroup;
use garment_orient::grouped::PlacedCopy;
use garment_orient::grouped::Turn;
use garment_orient::optimizer::assignment::Energy;
use garment_orient::optimizer::flip::flip_garment_at;
use garment_orient::optimizer::flip::flip_one_garment;
use garment_orient::optimizer::resolve::build_cells;
use garment_orient::optimizer::resolve::orientation_resolve;
use garment_orient::partition::invariant_holds;
use garment_orient::scalar::F32;
use rand::rngs::SmallRng;
use rand::RngExt;
use rand::SeedableRng;

fn f(x: f32) -> F32 {
    F32 { bits: x.to_bits() }
}

fn x(c: &PlacedCopy) -> f32 {
    f32::from_bits(c.x.bits)
}

fn distances(copies: &Vec<PlacedCopy>, to: f32) -> Vec<F32> {
    copies.iter().map(|c| f((x(c) - to).powi(2))).collect()
}

fn apply(copies: &mut Vec<PlacedCopy>, items: &Vec<ItemType>, turns: &Vec<Turn>) {
    for t in turns {
        let rotations = items[copies[t.copy].item_id].rotations.as_ref().unwrap();
        copies[t.copy].dir180 = rotations[t.rotation];
    }
}

#[test]
fn garments_stay_whole_throughout_a_search() {
    let item = |demand: usize, area: f32| ItemType {
        demand,
        area: f(area),
        hull_area: f(area),
        rotations: Some(vec![true, false]),
    };
    let items = vec![item(3, 2.0), item(6, 3.0), item(4, 1.0), item(2, 9.0)];
    let spec = GroupedOrientationSpec {
        groups: vec![
            OrientationGroup { members: vec![(0, 1), (1, 2)], quantity: 3 },
            OrientationGroup { members: vec![(2, 2)], quantity: 2 },
        ],
        flip: GroupFlipConfig {
            p_flip: f(0.5),
            n_garments_per_flip: 1,
            window: f(1.0),
            resolve: true,
            fork_at_swap: false,
        },
    };
    assert_eq!(spec.validate(&items), Ok(()));
    let mut rng = SmallRng::seed_from_u64(11);
    let mut copies: Vec<PlacedCopy> = Vec::new();
    for (item_id, item) in items.iter().enumerate() {
        for _ in 0..item.demand {
            let key = (1 << 32) | copies.len() as u64;
            let x = f(rng.random::<f32>());
            copies.push(PlacedCopy { key, item_id, dir180: false, x, hull_area: item.hull_area });
        }
    }
    for round in 0..60 {
        for c in copies.iter_mut() {
            c.x = f(rng.random::<f32>());
        }
        if round % 3 == 0 {
            let dist: Vec<Vec<F32>> = seed_cells(&copies, &items, &spec, true)
                .iter()
                .map(|cell| {
                    let sum: f32 = cell.iter().map(|&p| x(&copies[p])).sum();
                    distances(&copies, sum / cell.len() as f32)
                })
                .collect();
            let cells = build_cells(&copies, &items, &spec, &dist).unwrap();
            assert_eq!(cells.len(), 5);
            let energies: Vec<Energy> = (0..32)
                .map(|_| {
                    let e = rng.random::<f32>();
                    Energy { e: f(e), floor: f(e - f32::EPSILON) }
                })
                .collect();
            if let Some(r) = orientation_resolve(&copies, &items, &cells, &energies) {
                assert!(r.n_changed > 0);
                apply(&mut copies, &items, &r.turns);
            }
        } else {
            let start = flip_one_garment(&copies, &items, &spec, &mut rng).unwrap();
            let dist = distances(&copies, x(&copies[start.anchor]));
            let turns =
                flip_garment_at(&copies, &items, &spec, start.group, start.src180, &dist).unwrap();
            assert_eq!(turns.len(), if start.group == 0 { 3 } else { 2 });
            apply(&mut copies, &items, &turns);
        }
        assert!(invariant_holds(&copies, items.len(), &spec));
    }
}
