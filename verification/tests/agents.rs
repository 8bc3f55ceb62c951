use cronos_ctc::agents::{check_navigation, AgentError, AgentId, AgentRole, AgentRoster};

#[test]
fn spawn_assigns_dense_identities_and_seeds() {
    let mut r = AgentRoster::new();
    assert!(r.is_empty());
    let a = r.spawn(AgentRole::ParadoxWarden, 7);
    let b = r.spawn(AgentRole::FutureScout, 9);
    assert_eq!(a, AgentId(1));
    assert_eq!(b, AgentId(2));
    assert_eq!(r.len(), 2);
    let active = r.active_agents();
    assert_eq!(active.len(), 2);
    assert_eq!(active[0].seed, 2654435761);
    assert_eq!(active[1].seed, 2 * 2654435761);
    assert_eq!(active[1].home, 9);
    assert_eq!(active[1].role, AgentRole::FutureScout);
    assert!(active[0].active);
}

#[test]
fn triad_deploys_three_roles_per_home() {
    let mut r = AgentRoster::new();
    let ids = r.deploy_triad(&[10, 20]);
    assert_eq!(ids, vec![AgentId(1), AgentId(2), AgentId(3), AgentId(4), AgentId(5), AgentId(6)]);
    let active = r.active_agents();
    let roles: Vec<AgentRole> = active.iter().map(|e| e.role).collect();
    assert_eq!(
        roles,
        vec![
            AgentRole::ParadoxWarden,
            AgentRole::ConvergenceAuditor,
            AgentRole::FutureScout,
            AgentRole::ParadoxWarden,
            AgentRole::ConvergenceAuditor,
            AgentRole::FutureScout,
        ]
    );
    let homes: Vec<u64> = active.iter().map(|e| e.home).collect();
    assert_eq!(homes, vec![10, 10, 10, 20, 20, 20]);
}

#[test]
fn decommission_retires_and_is_idempotent() {
    let mut r = AgentRoster::new();
    r.deploy_triad(&[1]);
    r.decommission(AgentId(2)).unwrap();
    let ids: Vec<AgentId> = r.active_agents().iter().map(|e| e.id).collect();
    assert_eq!(ids, vec![AgentId(1), AgentId(3)]);
    r.decommission(AgentId(2)).unwrap();
    assert_eq!(r.active_agents().len(), 2);
    assert_eq!(r.len(), 3);
}

#[test]
fn decommission_unknown_agent() {
    let mut r = AgentRoster::new();
    r.spawn(AgentRole::ConvergenceAuditor, 0);
    match r.decommission(AgentId(5)) {
        Err(AgentError::UnknownAgent(id)) => assert_eq!(id, 5),
        other => panic!("unexpected {other:?}"),
    }
    assert!(matches!(r.decommission(AgentId(0)), Err(AgentError::UnknownAgent(0))));
}

#[test]
fn seed_wraps_around() {
    let mut r = AgentRoster::new();
    r.spawn(AgentRole::FutureScout, 0);
    let e = r.active_agents()[0];
    assert_eq!(e.seed, 1u64.wrapping_mul(2654435761));
}

#[test]
fn navigation_needs_an_active_agent_and_a_live_universe() {
    assert!(check_navigation(true, 1, 7, Some(true)).is_ok());
    assert!(matches!(check_navigation(false, 1, 7, Some(true)), Err(AgentError::Decommissioned(1))));
    assert!(matches!(check_navigation(true, 1, 7, Some(false)), Err(AgentError::UnnavigableUniverse(7))));
    assert!(matches!(check_navigation(true, 1, 7, None), Err(AgentError::UnnavigableUniverse(7))));
}
