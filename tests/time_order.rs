use scheduler_benchmark::time::{finite, first_earliest, later, latest, not_later, order_key};

fn b(x: f64) -> u64 {
    x.to_bits()
}

#[test]
fn total_order_matches_total_cmp() {
    let values = [
        f64::NEG_INFINITY,
        -2.5,
        -0.0,
        0.0,
        1e-300,
        0.0158125,
        13.541666666666666,
        f64::INFINITY,
    ];
    for x in values.iter() {
        for y in values.iter() {
            let expected = x.total_cmp(y) != std::cmp::Ordering::Greater;
            assert_eq!(not_later(b(*x), b(*y)), expected, "{} {}", x, y);
        }
    }
    assert!(order_key(b(-0.0)) < order_key(b(0.0)));
}

#[test]
fn finite_rejects_infinity_and_nan() {
    assert!(finite(b(0.0)));
    assert!(finite(b(-3.0)));
    assert!(finite(b(f64::MAX)));
    assert!(!finite(b(f64::INFINITY)));
    assert!(!finite(b(f64::NEG_INFINITY)));
    assert!(!finite(b(f64::NAN)));
}

#[test]
fn latest_of_empty_is_zero() {
    assert_eq!(latest(&vec![]), b(0.0));
}

#[test]
fn latest_picks_largest() {
    let times = vec![b(0.01), b(0.0158125), b(0.0153125)];
    assert_eq!(latest(&times), b(0.0158125));
    assert_eq!(later(b(2.0), b(1.0)), b(2.0));
    assert_eq!(later(b(1.0), b(2.0)), b(2.0));
}

#[test]
fn first_earliest_breaks_ties_by_index() {
    let times = vec![b(3.0), b(1.5), b(2.0), b(1.5)];
    assert_eq!(first_earliest(&times), 1);
    let single = vec![b(7.0)];
    assert_eq!(first_earliest(&single), 0);
}
