use cronos_ctc::addr::{Epoch, SpacetimeAddr};

#[test]
fn spacetime_ordering_is_lexicographic() {
    let a = SpacetimeAddr::new(1, 5);
    let b = SpacetimeAddr::new(1, 6);
    let c = SpacetimeAddr::new(2, 0);
    assert!(a < b);
    assert!(b < c);
    assert!(a.precedes_on_worldline(b));
    assert!(!a.precedes_on_worldline(c));
}

#[test]
fn address_order_is_total_and_strict() {
    let xs = [
        SpacetimeAddr::new(0, -3),
        SpacetimeAddr::new(0, 7),
        SpacetimeAddr::new(3, i64::MIN),
        SpacetimeAddr::new(3, i64::MAX),
        SpacetimeAddr::new(u64::MAX, 0),
    ];
    for i in 0..xs.len() {
        for j in 0..xs.len() {
            let lt = xs[i] < xs[j];
            let gt = xs[j] < xs[i];
            if i == j {
                assert!(!lt && !gt);
            } else {
                assert!(lt != gt);
                assert_eq!(lt, i < j);
            }
        }
    }
}

#[test]
fn epoch_steps_saturate_at_the_ends() {
    assert_eq!(Epoch(5).succ(), Epoch(6));
    assert_eq!(Epoch(5).pred(), Epoch(4));
    assert_eq!(Epoch(i64::MAX).succ(), Epoch(i64::MAX));
    assert_eq!(Epoch(i64::MIN).pred(), Epoch(i64::MIN));
    assert_eq!(Epoch(3).delta(Epoch(-4)), 7);
    assert_eq!(Epoch::origin(), Epoch(0));
}

#[test]
fn at_epoch_keeps_the_worldline() {
    let a = SpacetimeAddr::new(9, 1);
    let b = a.at_epoch(Epoch(4));
    assert_eq!(b, SpacetimeAddr::new(9, 4));
    assert!(a.precedes_on_worldline(b));
    assert!(!b.precedes_on_worldline(a));
    assert!(!a.precedes_on_worldline(a));
}
