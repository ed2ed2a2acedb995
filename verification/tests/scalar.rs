use garment_orient::scalar::F32;
use ordered_float::OrderedFloat;

fn f(x: f32) -> F32 {
    F32 { bits: x.to_bits() }
}

fn samples() -> Vec<f32> {
    vec![
        f32::NEG_INFINITY,
        f32::MIN,
        -2.5,
        -1.0,
        -f32::MIN_POSITIVE,
        -1.0e-44,
        -0.0,
        0.0,
        1.0e-44,
        f32::MIN_POSITIVE,
        0.999,
        1.0,
        1.0000001,
        2.5,
        f32::MAX,
        f32::INFINITY,
        f32::NAN,
        -f32::NAN,
    ]
}

#[test]
fn comparisons_agree_with_the_numbers() {
    for a in samples() {
        assert_eq!(f(a).is_nan(), a.is_nan());
        for b in samples() {
            assert_eq!(f(a).lt(f(b)), a < b, "{} < {}", a, b);
            assert_eq!(f(a).le(f(b)), a <= b, "{} <= {}", a, b);
            assert_eq!(f(a) == f(b), a == b, "{} == {}", a, b);
        }
    }
}

#[test]
fn total_rank_orders_as_total_cmp() {
    for a in samples() {
        for b in samples() {
            assert_eq!(f(a).total_rank().cmp(&f(b).total_rank()), a.total_cmp(&b), "{} ? {}", a, b);
        }
    }
}

#[test]
fn nan_last_rank_orders_as_ordered_float() {
    for a in samples() {
        for b in samples() {
            let ranks = f(a).nan_last_rank().cmp(&f(b).nan_last_rank());
            assert_eq!(ranks, OrderedFloat(a).cmp(&OrderedFloat(b)), "{} ? {}", a, b);
        }
    }
}

#[test]
fn constants_are_what_they_say() {
    assert_eq!(F32::zero().bits, 0.0f32.to_bits());
    assert_eq!(F32::one().bits, 1.0f32.to_bits());
    assert_eq!(F32::infinity().bits, f32::INFINITY.to_bits());
}
