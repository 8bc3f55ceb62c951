use cronos_ctc::continuum::{check_admission, check_link, is_admitted, ContinuumConfig, ContinuumError};

/// Admits `name` into `admitted` when the federation rules allow it.
fn join_region(admitted: &mut Vec<String>, cfg: &ContinuumConfig, name: &str) -> Result<(), ContinuumError> {
    check_admission(admitted, name, cfg.max_regions)?;
    admitted.push(name.to_string());
    Ok(())
}

#[test]
fn duplicate_region_rejected() {
    let cfg = ContinuumConfig::default();
    let mut admitted = Vec::new();
    join_region(&mut admitted, &cfg, "solo").unwrap();
    assert!(join_region(&mut admitted, &cfg, "solo").is_err());
}

#[test]
fn duplicate_region_names_the_region() {
    let admitted = vec!["solo".to_string()];
    match check_admission(&admitted, "solo", 8) {
        Err(ContinuumError::DuplicateRegion(n)) => assert_eq!(n, "solo"),
        other => panic!("unexpected {other:?}"),
    }
}

#[test]
fn default_config_values() {
    let cfg = ContinuumConfig::default();
    assert_eq!(cfg.max_regions, 8);
    assert_eq!(cfg.portal_capacity, 16);
    assert_eq!(cfg.federation_ticks, 4);
}

#[test]
fn region_budget_exhausted() {
    let admitted = vec!["a".to_string(), "b".to_string()];
    match check_admission(&admitted, "c", 2) {
        Err(ContinuumError::TickBudget(b)) => assert_eq!(b, 2),
        other => panic!("unexpected {other:?}"),
    }
    assert!(check_admission(&admitted, "c", 3).is_ok());
}

#[test]
fn duplicate_checked_before_budget() {
    let admitted = vec!["a".to_string(), "b".to_string()];
    assert!(matches!(check_admission(&admitted, "a", 2), Err(ContinuumError::DuplicateRegion(_))));
}

#[test]
fn link_requires_both_regions() {
    let admitted = vec!["alpha".to_string(), "beta".to_string()];
    assert!(check_link(&admitted, "alpha", "beta").is_ok());
    match check_link(&admitted, "gamma", "delta") {
        Err(ContinuumError::UnknownRegion(n)) => assert_eq!(n, "gamma"),
        other => panic!("unexpected {other:?}"),
    }
    match check_link(&admitted, "alpha", "delta") {
        Err(ContinuumError::UnknownRegion(n)) => assert_eq!(n, "delta"),
        other => panic!("unexpected {other:?}"),
    }
}

#[test]
fn admission_membership() {
    let admitted = vec!["sol".to_string(), "proxima".to_string()];
    assert!(is_admitted(&admitted, "proxima"));
    assert!(!is_admitted(&admitted, "prox"));
    assert!(!is_admitted(&Vec::new(), "sol"));
}

use cronos_ctc::continuum::{Federation, RegionCounters};

#[test]
fn federation_joins_and_links() {
    let mut f = Federation::new(ContinuumConfig::default());
    f.join_region("alpha").unwrap();
    f.join_region("beta").unwrap();
    f.join_region("gamma").unwrap();
    assert_eq!(f.region_count(), 3);
    assert!(matches!(f.join_region("beta"), Err(ContinuumError::DuplicateRegion(_))));
    let pid = f.link("alpha", "beta").unwrap();
    assert_eq!(pid, 1);
    assert_eq!(f.link("beta", "gamma").unwrap(), 2);
    assert!(matches!(f.link("alpha", "omega"), Err(ContinuumError::UnknownRegion(n)) if n == "omega"));
    assert_eq!(f.portal_count(), 2);
}

#[test]
fn federation_budget_refuses_extra_region() {
    let cfg = ContinuumConfig { max_regions: 1, portal_capacity: 4, federation_ticks: 1 };
    let mut f = Federation::new(cfg);
    f.join_region("solo").unwrap();
    assert!(matches!(f.join_region("other"), Err(ContinuumError::TickBudget(1))));
}

#[test]
fn empty_federation_cannot_tick() {
    let mut f = Federation::new(ContinuumConfig::default());
    assert!(matches!(f.begin_tick(), Err(ContinuumError::EmptyFederation)));
    assert_eq!(f.tick(), 0);
}

#[test]
fn endpoint_pairs_by_portal_then_region() {
    let mut f = Federation::new(ContinuumConfig::default());
    for n in ["sol", "alpha-centauri", "proxima"] {
        f.join_region(n).unwrap();
    }
    f.link("alpha-centauri", "sol").unwrap();
    f.link("alpha-centauri", "proxima").unwrap();
    assert_eq!(f.endpoint_pairs(), vec![(0, 0), (0, 1), (1, 1), (1, 2)]);
}

#[test]
fn tick_books_packets_and_stamps_regions() {
    let mut f = Federation::new(ContinuumConfig::default());
    f.join_region("a").unwrap();
    f.join_region("b").unwrap();
    f.link("a", "b").unwrap();
    assert_eq!(f.begin_tick().unwrap(), 1);
    for (_, r) in f.endpoint_pairs() {
        f.record_send(r);
    }
    f.record_receive(1);
    f.finish_tick();
    assert_eq!(f.counters()[0], RegionCounters { tick: 1, packets_sent: 1, packets_recv: 0 });
    assert_eq!(f.counters()[1], RegionCounters { tick: 1, packets_sent: 1, packets_recv: 1 });
    assert_eq!(f.total_packets(), 3);
    assert_eq!(f.begin_tick().unwrap(), 2);
    f.finish_tick();
    assert_eq!(f.counters()[0].tick, 2);
    assert_eq!(f.names(), &vec!["a".to_string(), "b".to_string()]);
}

#[test]
fn admit_link_and_tick() {
    let cfg = ContinuumConfig::default();
    let mut f = Federation::new(cfg);
    f.join_region("alpha").unwrap();
    f.join_region("beta").unwrap();
    f.join_region("gamma").unwrap();
    let pid = f.link("alpha", "beta").unwrap();
    assert!(pid >= 1);
    let mut ticks = Vec::new();
    for _ in 0..cfg.federation_ticks {
        let t = f.begin_tick().unwrap();
        let pairs = f.endpoint_pairs();
        // Every heartbeat is delivered.
        for &(_, r) in &pairs {
            f.record_send(r);
        }
        for &(_, r) in &pairs {
            f.record_receive(r);
        }
        f.finish_tick();
        ticks.push(t);
    }
    assert_eq!(ticks.len(), 4);
    assert_eq!(f.region_count(), 3);
    assert!(f.total_packets() > 0);
}
