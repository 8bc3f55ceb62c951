use cronos_ctc::addr::{Epoch, SpacetimeAddr};
use cronos_ctc::checkpoint::CheckpointStore;
use cronos_ctc::gc::GcError;

#[test]
fn compress_and_expand_roundtrip_addresses() {
    let mut store = CheckpointStore::new(8);
    let cells = vec![
        (SpacetimeAddr::new(1, 0), vec![0.25f64]),
        (SpacetimeAddr::new(1, 1), vec![0.5f64]),
    ];
    let id = store.compress(cells).unwrap();
    let cp = store.get(id).unwrap();
    assert!(cp.bytes_compressed < cp.bytes_raw);
    let expanded = store.expand(cp.id).unwrap();
    assert_eq!(expanded.len(), 2);
    assert_eq!(expanded[0].0, SpacetimeAddr::new(1, 0));
}

#[test]
fn checkpoints_pack_sorted_cells_and_size_them() {
    let mut store = CheckpointStore::new(2);
    let cells = vec![
        (SpacetimeAddr::new(2, 7), vec![1.0f64, 2.0]),
        (SpacetimeAddr::new(1, 9), vec![3.0f64]),
        (SpacetimeAddr::new(1, -4), vec![]),
    ];
    let id = store.compress(cells).unwrap();
    assert_eq!(id, 1);
    let cp = store.get(1).unwrap();
    assert_eq!(cp.bytes_raw, 16 + 8 + 16 + 16 + 16);
    assert_eq!(cp.bytes_compressed, 33);
    assert_eq!((cp.tau_lo, cp.tau_hi), (-4, 9));
    let coords: Vec<(u64, i64)> = cp.cells.iter().map(|(a, t, _)| (*a, *t)).collect();
    assert_eq!(coords, vec![(1, -4), (1, 9), (2, 7)]);
    assert_eq!(store.total_compressed_bytes(), 33);
    assert_eq!(store.epochs_covered(), vec![(Epoch(-4), Epoch(9))]);

    let second = store.compress(vec![]).unwrap();
    assert_eq!(second, 2);
    assert_eq!(store.get(2).unwrap().bytes_compressed, 0);
    assert!(matches!(store.compress(vec![]), Err(GcError::CheckpointOverflow(2))));
    assert_eq!(store.len(), 2);
}

#[test]
fn missing_checkpoint_is_reported_by_id() {
    let store: CheckpointStore<f64> = CheckpointStore::new(1);
    assert!(store.is_empty());
    assert!(store.get(0).is_none());
    match store.expand(42) {
        Err(GcError::Dag(m)) => assert_eq!(m, "missing checkpoint 42"),
        other => panic!("unexpected {:?}", other),
    }
}

#[test]
fn equal_cells_keep_their_input_order() {
    let mut store: CheckpointStore<u8> = CheckpointStore::new(4);
    let id = store
        .compress(vec![
            (SpacetimeAddr::new(2, 1), vec![1]),
            (SpacetimeAddr::new(1, 0), vec![9]),
            (SpacetimeAddr::new(2, 1), vec![2]),
            (SpacetimeAddr::new(2, 1), vec![3]),
        ])
        .unwrap();
    let cells: Vec<(u64, i64, Vec<u8>)> = store.get(id).unwrap().cells.clone();
    assert_eq!(cells, vec![(1, 0, vec![9]), (2, 1, vec![1]), (2, 1, vec![2]), (2, 1, vec![3])]);
}
