use cronos_ctc::addr::SpacetimeAddr;
use cronos_ctc::checkpoint::CheckpointStore;
use cronos_ctc::collect::compact_history;
use cronos_ctc::gc::{collect_compressable, debris_nodes, max_epoch, RetrocausalPinSet};
use cronos_ctc::graph::DependencyKind;
use cronos_ctc::node::{NodeId, NodeState};
use cronos_ctc::worldline::WorldlineDag;

fn scalar(x: f64) -> NodeState<Vec<f64>, f64> {
    NodeState::new(vec![x], 1.0)
}

#[test]
fn pins_follow_retrocausal_edges() {
    let mut dag = WorldlineDag::new();
    let a0 = dag.allocate(SpacetimeAddr::new(0, 0), scalar(0.1)).unwrap();
    let a1 = dag.allocate(SpacetimeAddr::new(0, 1), scalar(0.2)).unwrap();
    let a2 = dag.allocate(SpacetimeAddr::new(0, 2), scalar(0.3)).unwrap();
    dag.add_dependency(a2, a1, DependencyKind::Retrocausal).unwrap();
    dag.add_dependency(a0, a1, DependencyKind::Causal).unwrap();
    let mut pins = RetrocausalPinSet::default();
    pins.pin(a0);
    pins.refresh_from_dag(&dag);
    assert!(!pins.is_pinned(a0));
    assert!(pins.is_pinned(a1));
    assert!(pins.is_pinned(a2));
    pins.unpin(a1);
    assert!(!pins.is_pinned(a1));
}

#[test]
fn compression_candidates_skip_pins_and_recent_epochs() {
    let mut dag = WorldlineDag::new();
    let a0 = dag.allocate(SpacetimeAddr::new(0, 0), scalar(0.1)).unwrap();
    let a1 = dag.allocate(SpacetimeAddr::new(0, 1), scalar(0.2)).unwrap();
    let a2 = dag.allocate(SpacetimeAddr::new(0, 2), scalar(0.3)).unwrap();
    dag.add_dependency(a2, a1, DependencyKind::Retrocausal).unwrap();
    let mut pins = RetrocausalPinSet::new();
    pins.refresh_from_dag(&dag);
    assert_eq!(max_epoch(&dag), 2);
    // Horizon 2 - 0: everything is old enough, but a1 and a2 are pinned.
    assert_eq!(collect_compressable(&dag, 2, &pins), vec![a0]);
    assert_eq!(collect_compressable(&dag, -1, &pins), Vec::<NodeId>::new());
}

#[test]
fn debris_lists_dirty_live_nodes_once() {
    let mut dag = WorldlineDag::new();
    let a = dag.allocate(SpacetimeAddr::new(0, 0), scalar(0.0)).unwrap();
    let b = dag.allocate(SpacetimeAddr::new(0, 1), scalar(0.0)).unwrap();
    let _again = dag.allocate(SpacetimeAddr::new(0, 1), scalar(1.0)).unwrap();
    assert_eq!(debris_nodes(&dag), vec![b]);
    dag.prune_nodes(&[b]);
    assert!(debris_nodes(&dag).is_empty());
    assert_eq!(max_epoch(&dag), 0);
    dag.prune_nodes(&[a]);
    assert_eq!(max_epoch(&dag), 0);
}

#[test]
fn gc_compresses_old_epochs_while_preserving_retrocausal_pins() {
    let mut dag = WorldlineDag::new();
    let a0 = dag.allocate(SpacetimeAddr::new(0, 0), scalar(0.1)).unwrap();
    let a1 = dag.allocate(SpacetimeAddr::new(0, 1), scalar(0.2)).unwrap();
    let a2 = dag.allocate(SpacetimeAddr::new(0, 2), scalar(0.3)).unwrap();
    dag.add_dependency(a2, a1, DependencyKind::Retrocausal).unwrap();
    let mut pins = RetrocausalPinSet::new();
    pins.refresh_from_dag(&dag);
    let mut store = CheckpointStore::new(256);

    let (stats, ids) = compact_history(&mut dag, &pins, &mut store, 0).unwrap();
    assert!(stats.checkpoints_created >= 1 || stats.nodes_pruned >= 1);
    assert_eq!(ids, vec![1]);
    assert_eq!(stats.checkpoints_created, 1);
    assert_eq!(stats.nodes_sealed, 1);
    assert_eq!(stats.nodes_pruned, 1);
    // 8 value bytes against ceil(0.45 * 24) = 11 compressed bytes.
    assert_eq!(stats.bytes_reclaimed_est, 0);
    let a0n = dag.node(a0).unwrap();
    assert!(a0n.state.pruned && a0n.sealed);
    assert!(!dag.node(a1).unwrap().state.pruned);
    assert!(!dag.node(a2).unwrap().state.pruned);
    let restored = store.expand(1).unwrap();
    assert_eq!(restored, vec![(SpacetimeAddr::new(0, 0), vec![0.1])]);

    // A full archive leaves the fabric alone.
    let mut full: CheckpointStore<f64> = CheckpointStore::new(0);
    let mut fresh = WorldlineDag::new();
    let b = fresh.allocate(SpacetimeAddr::new(5, 0), scalar(1.0)).unwrap();
    let _c = fresh.allocate(SpacetimeAddr::new(5, 9), scalar(1.0)).unwrap();
    let err = compact_history(&mut fresh, &RetrocausalPinSet::new(), &mut full, 1).unwrap_err();
    assert!(matches!(err, cronos_ctc::gc::GcError::CheckpointOverflow(0)));
    assert!(!fresh.node(b).unwrap().state.pruned);
}

#[test]
fn compaction_prunes_unpinned_debris() {
    let mut dag = WorldlineDag::new();
    let a = dag.allocate(SpacetimeAddr::new(1, 3), scalar(0.0)).unwrap();
    let b = dag.allocate(SpacetimeAddr::new(2, 3), scalar(0.0)).unwrap();
    dag.add_dependency(a, b, DependencyKind::Causal).unwrap();
    // Both dirty after a retro-write; nothing is old enough to compress.
    dag.retro_write(SpacetimeAddr::new(1, 3), vec![1.0]).unwrap();
    let mut pins = RetrocausalPinSet::new();
    pins.pin(b);
    let mut store: CheckpointStore<f64> = CheckpointStore::new(4);
    let (stats, ids) = compact_history(&mut dag, &pins, &mut store, 4).unwrap();
    assert!(ids.is_empty());
    assert_eq!(stats.nodes_pruned, 1);
    assert!(dag.node(a).unwrap().state.pruned);
    assert!(!dag.node(b).unwrap().state.pruned);
    assert!(store.is_empty());
}
