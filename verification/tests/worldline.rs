use cronos_ctc::addr::SpacetimeAddr;
use cronos_ctc::graph::DependencyKind;
use cronos_ctc::node::{NodeId, NodeState};
use cronos_ctc::worldline::{CascadeScheduler, DagError, WorldlineDag};

fn scalar(x: f64) -> NodeState<Vec<f64>, f64> {
    NodeState::new(vec![x], 1.0)
}

#[test]
fn cascade_marks_transitive_dependents_dirty() {
    let mut dag = WorldlineDag::new();
    let a = dag.allocate(SpacetimeAddr::new(0, 0), scalar(0.0)).unwrap();
    let b = dag.allocate(SpacetimeAddr::new(0, 1), scalar(0.0)).unwrap();
    let c = dag.allocate(SpacetimeAddr::new(0, 2), scalar(0.0)).unwrap();
    dag.add_dependency(a, b, DependencyKind::Causal).unwrap();
    dag.add_dependency(b, c, DependencyKind::Retrocausal).unwrap();

    let report = CascadeScheduler::default().propagate(&mut dag, a).unwrap();
    assert_eq!(report.invalidated.len(), 3);
    assert!(dag.node(c).unwrap().dirty);
}

#[test]
fn retro_write_cascades_and_revises() {
    let mut dag = WorldlineDag::new();
    let a0 = dag.allocate(SpacetimeAddr::new(1, 0), scalar(0.0)).unwrap();
    let a1 = dag.allocate(SpacetimeAddr::new(1, 1), scalar(1.0)).unwrap();
    dag.add_dependency(a1, a0, DependencyKind::Retrocausal).unwrap();

    let report = dag.retro_write(SpacetimeAddr::new(1, 1), vec![0.5]).unwrap();
    assert!(report.invalidated.contains(&a1));
    assert!(report.invalidated.contains(&a0));
    assert!((dag.node(a1).unwrap().state.value[0] - 0.5).abs() < 1e-12);
    assert_eq!(dag.node(a1).unwrap().state.revision, 1);
}

#[test]
fn causal_cycle_without_ctc_is_rejected() {
    let mut dag = WorldlineDag::new();
    let a = dag.allocate(SpacetimeAddr::new(0, 0), scalar(0.0)).unwrap();
    let b = dag.allocate(SpacetimeAddr::new(0, 1), scalar(0.0)).unwrap();
    dag.add_dependency(a, b, DependencyKind::Causal).unwrap();
    let err = dag.add_dependency(b, a, DependencyKind::Causal).unwrap_err();
    assert!(matches!(err, DagError::StructuralCycle { .. }));
}

#[test]
fn retrocausal_edge_may_close_a_loop() {
    let mut dag = WorldlineDag::new();
    let a = dag.allocate(SpacetimeAddr::new(0, 0), scalar(0.0)).unwrap();
    let b = dag.allocate(SpacetimeAddr::new(0, 1), scalar(0.0)).unwrap();
    dag.add_dependency(a, b, DependencyKind::Causal).unwrap();
    dag.add_dependency(b, a, DependencyKind::Retrocausal).unwrap();
    dag.add_dependency(b, a, DependencyKind::Algebraic).unwrap();
    assert_eq!(dag.retrocausal_edges(), vec![(b, a)]);
    assert_eq!(dag.dependents(b), vec![a, a]);
}

#[test]
fn missing_nodes_are_reported() {
    let mut dag: WorldlineDag<Vec<f64>, f64> = WorldlineDag::new();
    let a = dag.allocate(SpacetimeAddr::new(0, 0), scalar(0.0)).unwrap();
    let ghost = NodeId(7);
    assert!(matches!(
        dag.add_dependency(a, ghost, DependencyKind::Causal),
        Err(DagError::MissingNode(NodeId(7)))
    ));
    assert!(matches!(
        dag.add_dependency(ghost, a, DependencyKind::Causal),
        Err(DagError::MissingNode(NodeId(7)))
    ));
    assert!(matches!(
        CascadeScheduler::default().propagate(&mut dag, ghost),
        Err(DagError::MissingNode(NodeId(7)))
    ));
    assert!(matches!(
        dag.retro_write(SpacetimeAddr::new(5, 5), vec![1.0]),
        Err(DagError::UnmappedAddress(_))
    ));
}

#[test]
fn sealed_cells_refuse_retro_writes() {
    let mut dag = WorldlineDag::new();
    let a = dag.allocate(SpacetimeAddr::new(2, 3), scalar(0.25)).unwrap();
    dag.seal(SpacetimeAddr::new(2, 3)).unwrap();
    let err = dag.retro_write(SpacetimeAddr::new(2, 3), vec![9.0]).unwrap_err();
    assert!(matches!(err, DagError::SealedEpoch { revision: 0, .. }));
    assert_eq!(dag.node(a).unwrap().state.value, vec![0.25]);
    // A sealed address refuses re-allocation and keeps its cell.
    let err = dag.allocate(SpacetimeAddr::new(2, 3), scalar(0.5)).unwrap_err();
    assert!(matches!(err, DagError::SealedEpoch { revision: 0, .. }));
    assert_eq!(dag.node_id(SpacetimeAddr::new(2, 3)), Some(a));
    assert_eq!(dag.node(a).unwrap().state.value, vec![0.25]);
    assert_eq!(dag.len(), 1);
}

#[test]
fn sealed_cells_keep_their_state_under_solutions() {
    let mut dag = WorldlineDag::new();
    let a = dag.allocate(SpacetimeAddr::new(0, 0), scalar(0.0)).unwrap();
    let b = dag.allocate(SpacetimeAddr::new(0, 1), scalar(0.0)).unwrap();
    dag.seal(SpacetimeAddr::new(0, 0)).unwrap();
    dag.apply_solution(&[a, b], &[vec![0.7], vec![0.8]]).unwrap();
    assert_eq!(dag.node(a).unwrap().state.value, vec![0.0]);
    assert_eq!(dag.node(a).unwrap().state.revision, 0);
    assert_eq!(dag.node(b).unwrap().state.value, vec![0.8]);
    assert_eq!(dag.node(b).unwrap().state.revision, 1);
}

#[test]
fn cascade_depth_is_breadth_first() {
    let mut dag = WorldlineDag::new();
    let a = dag.allocate(SpacetimeAddr::new(0, 0), scalar(0.0)).unwrap();
    let b = dag.allocate(SpacetimeAddr::new(0, 1), scalar(0.0)).unwrap();
    let c = dag.allocate(SpacetimeAddr::new(0, 2), scalar(0.0)).unwrap();
    dag.add_dependency(a, b, DependencyKind::Causal).unwrap();
    dag.add_dependency(a, c, DependencyKind::Causal).unwrap();
    dag.add_dependency(c, b, DependencyKind::Causal).unwrap();
    let r = CascadeScheduler::new(1).propagate(&mut dag, a).unwrap();
    assert_eq!(r.invalidated[0], a);
    assert_eq!(r.invalidated.len(), 3);
    assert!(r.invalidated.contains(&b) && r.invalidated.contains(&c));
    assert_eq!(r.depth_reached, 1);
    let err = CascadeScheduler::new(0).propagate(&mut dag, a).unwrap_err();
    assert!(matches!(err, DagError::CascadeOverflow { limit: 0, .. }));
}

#[test]
fn reallocating_an_open_cell_overwrites_it() {
    let mut dag = WorldlineDag::new();
    let a = dag.allocate(SpacetimeAddr::new(4, 0), scalar(1.0)).unwrap();
    let again = dag.allocate(SpacetimeAddr::new(4, 0), scalar(2.0)).unwrap();
    assert_eq!(a, again);
    assert_eq!(dag.len(), 1);
    assert!(dag.node(a).unwrap().dirty);
    assert_eq!(dag.node(a).unwrap().state.value, vec![2.0]);
}

#[test]
fn cascade_depth_limit_overflows() {
    let mut dag = WorldlineDag::new().with_cascade_limit(1);
    let a = dag.allocate(SpacetimeAddr::new(0, 0), scalar(0.0)).unwrap();
    let b = dag.allocate(SpacetimeAddr::new(0, 1), scalar(0.0)).unwrap();
    let c = dag.allocate(SpacetimeAddr::new(0, 2), scalar(0.0)).unwrap();
    dag.add_dependency(a, b, DependencyKind::Causal).unwrap();
    dag.add_dependency(b, c, DependencyKind::Causal).unwrap();
    let err = dag.retro_write(SpacetimeAddr::new(0, 0), vec![1.0]).unwrap_err();
    assert!(matches!(err, DagError::CascadeOverflow { limit: 1, .. }));
}

#[test]
fn snapshot_is_sorted_and_skips_pruned_cells() {
    let mut dag = WorldlineDag::new();
    let x = dag.allocate(SpacetimeAddr::new(3, 0), scalar(3.0)).unwrap();
    let _y = dag.allocate(SpacetimeAddr::new(1, 5), scalar(1.5)).unwrap();
    let _z = dag.allocate(SpacetimeAddr::new(1, 2), scalar(1.2)).unwrap();
    dag.prune_nodes(&[x]);
    let snap = dag.snapshot().unwrap();
    let addrs: Vec<SpacetimeAddr> = snap.nodes.iter().map(|(a, _, _)| *a).collect();
    assert_eq!(addrs, vec![SpacetimeAddr::new(1, 2), SpacetimeAddr::new(1, 5)]);
    assert!(dag.node(x).unwrap().state.pruned);

    let mut empty: WorldlineDag<Vec<f64>, f64> = WorldlineDag::default();
    assert!(matches!(empty.snapshot(), Err(DagError::EmptySnapshot)));
    let only = empty.allocate(SpacetimeAddr::new(0, 0), scalar(0.0)).unwrap();
    empty.prune_nodes(&[only]);
    assert!(matches!(empty.snapshot(), Err(DagError::EmptySnapshot)));
}

#[test]
fn dirty_nodes_clear_and_solutions_apply() {
    let mut dag = WorldlineDag::new();
    let a = dag.allocate(SpacetimeAddr::new(0, 0), scalar(0.0)).unwrap();
    let b = dag.allocate(SpacetimeAddr::new(0, 1), scalar(0.0)).unwrap();
    dag.add_dependency(a, b, DependencyKind::Causal).unwrap();
    CascadeScheduler::new(8).propagate(&mut dag, a).unwrap();
    assert_eq!(dag.dirty_nodes(), vec![a, b]);
    dag.apply_solution(&[a, b], &[vec![0.1], vec![0.2]]).unwrap();
    assert_eq!(dag.node(b).unwrap().state.value, vec![0.2]);
    assert_eq!(dag.node(b).unwrap().state.revision, 1);
    assert!(dag.dirty_nodes().is_empty());
    assert!(matches!(
        dag.apply_solution(&[NodeId(40)], &[vec![1.0]]),
        Err(DagError::MissingNode(NodeId(40)))
    ));
    dag.clear_dirty(&[a]);
    assert!(!dag.node(a).unwrap().dirty);
}
