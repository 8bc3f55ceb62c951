use vstd::prelude::*;
use crate::addr::SpacetimeAddr;
use crate::checkpoint::{CheckpointStore, checkpoint_of, compressed_size, packed_input, raw_bytes};
use crate::gc::{
    CollectionStats, GcError, RetrocausalPinSet, collect_compressable, compressable_from, debris_nodes, debris_prefix,
    max_epoch, max_unpruned_tau, retro_endpoints,
};
use crate::node::{NodeId, NodeState, WorldlineNode, sat_inc};
use crate::worldline::{WorldlineDag, flags_set, newest_index, retro_prefix, sorted_unpruned, lemma_newest_index};

verus! {

/// Footprint of a cell: 8 bytes per value and 16 bytes of coordinates.
pub open spec fn cell_bytes<T, W>(nd: WorldlineNode<Vec<T>, W>) -> int {
    (nd.state.value@.len() * 8 + 16) as int
}

/// Largest cell footprint in a fabric.
pub open spec fn max_cell_bytes<T, W>(s: Seq<WorldlineNode<Vec<T>, W>>) -> int
    decreases s.len(),
{
    if s.len() == 0 {
        0
    } else if cell_bytes(s.last()) > max_cell_bytes(s.drop_last()) {
        cell_bytes(s.last())
    } else {
        max_cell_bytes(s.drop_last())
    }
}

/// The packed cells of the listed nodes, in list order.
pub open spec fn cells_of<T, W>(s: Seq<WorldlineNode<Vec<T>, W>>, ids: Seq<NodeId>) -> Seq<(u64, i64, Seq<T>)> {
    ids.map_values(
        |id: NodeId| (s[id.0 - 1].addr.address.0, s[id.0 - 1].addr.tau.0, s[id.0 - 1].state.value@),
    )
}

/// Payload bytes of the listed nodes (8 per value).
pub open spec fn value_bytes<T, W>(s: Seq<WorldlineNode<Vec<T>, W>>, ids: Seq<NodeId>) -> int
    decreases ids.len(),
{
    if ids.len() == 0 {
        0
    } else {
        value_bytes(s, ids.drop_last()) + s[ids.last().0 - 1].state.value@.len() * 8
    }
}

/// The fabric with the listed nodes sealed, pruned and clean.
pub open spec fn retired<V, W>(s: Seq<WorldlineNode<V, W>>, ids: Seq<NodeId>) -> Seq<WorldlineNode<V, W>> {
    Seq::new(
        s.len(),
        |j: int|
            if ids.contains(NodeId((j + 1) as u64)) {
                WorldlineNode {
                    sealed: true,
                    dirty: false,
                    state: NodeState { pruned: true, ..s[j].state },
                    ..s[j]
                }
            } else {
                s[j]
            },
    )
}

/// The identities that no pin holds, in order.
pub open spec fn unpinned(ids: Seq<NodeId>, pins: Set<NodeId>) -> Seq<NodeId>
    decreases ids.len(),
{
    if ids.len() == 0 {
        Seq::empty()
    } else if pins.contains(ids.last()) {
        unpinned(ids.drop_last(), pins)
    } else {
        unpinned(ids.drop_last(), pins).push(ids.last())
    }
}

/// Debris that no pin holds, ascending.
pub open spec fn unpinned_debris<V, W>(s: Seq<WorldlineNode<V, W>>, pins: Set<NodeId>) -> Seq<NodeId> {
    unpinned(debris_prefix(s, s.len() as int), pins)
}

/// The compression horizon: the newest live epoch minus the seal horizon.
pub open spec fn horizon_of<V, W>(s: Seq<WorldlineNode<V, W>>, seal_horizon: i64) -> int {
    (match max_unpruned_tau(s, s.len() as int) {
        Some(m) => m as int,
        None => 0,
    }) - seal_horizon
}

proof fn lemma_max_cell<T, W>(s: Seq<WorldlineNode<Vec<T>, W>>, i: int)
    requires
        0 <= i < s.len(),
    ensures
        cell_bytes(s[i]) <= max_cell_bytes(s),
    decreases s.len(),
{
    if i < s.len() - 1 {
        lemma_max_cell(s.drop_last(), i);
        assert(s.drop_last()[i] == s[i]);
    }
}

proof fn lemma_max_cell_nonneg<T, W>(s: Seq<WorldlineNode<Vec<T>, W>>)
    ensures
        max_cell_bytes(s) >= 0,
    decreases s.len(),
{
    if s.len() > 0 {
        lemma_max_cell_nonneg(s.drop_last());
    }
}

/// A sorted snapshot order lists no more positions than the fabric has.
proof fn lemma_order_len<V, W>(s: Seq<WorldlineNode<V, W>>, order: Seq<int>)
    requires
        sorted_unpruned(s, order),
    ensures
        order.len() <= s.len(),
{
    order.unique_seq_to_set();
    vstd::set_lib::lemma_int_range(0, s.len() as int);
    assert(order.to_set().subset_of(vstd::set_lib::set_int_range(0, s.len() as int))) by {
        assert forall|x: int| order.to_set().contains(x) implies vstd::set_lib::set_int_range(
            0,
            s.len() as int,
        ).contains(x) by {
            assert(order.contains(x));
        }
    }
    vstd::set_lib::lemma_len_subset(order.to_set(), vstd::set_lib::set_int_range(0, s.len() as int));
}

proof fn lemma_candidates_len<V, W>(
    s: Seq<WorldlineNode<V, W>>,
    order: Seq<int>,
    k: int,
    horizon: i64,
    pins: Set<NodeId>,
)
    requires
        0 <= k,
    ensures
        compressable_from(s, order, k, horizon, pins).len() <= k,
    decreases k,
{
    if k > 0 {
        lemma_candidates_len(s, order, k - 1, horizon, pins);
    }
}

proof fn lemma_unpinned_len(ids: Seq<NodeId>, pins: Set<NodeId>)
    ensures
        unpinned(ids, pins).len() <= ids.len(),
    decreases ids.len(),
{
    if ids.len() > 0 {
        lemma_unpinned_len(ids.drop_last(), pins);
    }
}

proof fn lemma_debris_len<V, W>(s: Seq<WorldlineNode<V, W>>, k: int)
    requires
        0 <= k,
    ensures
        debris_prefix(s, k).len() <= k,
    decreases k,
{
    if k > 0 {
        lemma_debris_len(s, k - 1);
    }
}

/// The packed payload's size bound: each cell at most the largest one.
proof fn lemma_raw_bound<T, W>(s: Seq<WorldlineNode<Vec<T>, W>>, ids: Seq<NodeId>)
    requires
        forall|q: int| 0 <= q < ids.len() ==> 1 <= (#[trigger] ids[q]).0 <= s.len(),
    ensures
        0 <= value_bytes(s, ids) <= raw_bytes(cells_of(s, ids)) <= ids.len() * max_cell_bytes(s),
    decreases ids.len(),
{
    if ids.len() > 0 {
        lemma_raw_bound(s, ids.drop_last());
        assert(cells_of(s, ids).drop_last() =~= cells_of(s, ids.drop_last()));
        lemma_max_cell(s, ids.last().0 - 1);
        assert(ids.len() * max_cell_bytes(s) == (ids.len() - 1) * max_cell_bytes(s) + max_cell_bytes(s)) by (
        nonlinear_arith);
    } else {
        assert(cells_of(s, ids) =~= Seq::<(u64, i64, Seq<T>)>::empty());
    }
}

/// A copy of a value vector.
fn copy_values<T: Copy>(v: &Vec<T>) -> (r: Vec<T>)
    ensures
        r@ == v@,
{
    let mut out: Vec<T> = Vec::new();
    let mut i: usize = 0;
    while i < v.len()
        invariant
            i <= v@.len(),
            out@ == v@.take(i as int),
        decreases v@.len() - i,
    {
        out.push(v[i]);
        assert(out@ =~= v@.take(i + 1));
        i = i + 1;
    }
    assert(v@.take(v@.len() as int) =~= v@);
    out
}

/// The fabric with the first `k` listed nodes sealed.
pub open spec fn sealed_upto<V, W>(s: Seq<WorldlineNode<V, W>>, ids: Seq<NodeId>, k: int) -> Seq<
    WorldlineNode<V, W>,
> {
    Seq::new(
        s.len(),
        |j: int|
            if ids.take(k).contains(NodeId((j + 1) as u64)) {
                WorldlineNode { sealed: true, ..s[j] }
            } else {
                s[j]
            },
    )
}

/// Resolution by address depends only on the addresses.
proof fn lemma_same_addrs<V, W>(s: Seq<WorldlineNode<V, W>>, t: Seq<WorldlineNode<V, W>>, a: SpacetimeAddr, k: int)
    requires
        s.len() == t.len(),
        forall|j: int| 0 <= j < s.len() ==> (#[trigger] t[j]).addr == s[j].addr,
        k <= s.len(),
    ensures
        newest_index(t, a, k) == newest_index(s, a, k),
    decreases k,
{
    if k > 0 {
        lemma_same_addrs(s, t, a, k - 1);
    }
}

/// Each candidate is a valid, unpinned node that its own address resolves to.
proof fn lemma_candidates_newest<V, W>(
    s: Seq<WorldlineNode<V, W>>,
    order: Seq<int>,
    k: int,
    horizon: i64,
    pins: Set<NodeId>,
)
    requires
        0 <= k <= order.len(),
        s.len() + 1 <= u64::MAX,
        forall|a: int| 0 <= a < order.len() ==> 0 <= #[trigger] order[a] < s.len(),
    ensures
        forall|q: int|
            0 <= q < compressable_from(s, order, k, horizon, pins).len() ==> {
                let id = #[trigger] compressable_from(s, order, k, horizon, pins)[q];
                &&& 1 <= id.0 <= s.len()
                &&& newest_index(s, s[id.0 - 1].addr, s.len() as int) == Some(id.0 - 1)
                &&& !pins.contains(id)
            },
    decreases k,
{
    if k > 0 {
        lemma_candidates_newest(s, order, k - 1, horizon, pins);
        let addr = s[order[k - 1]].addr;
        lemma_newest_index(s, addr, s.len() as int);
        if let Some(i) = newest_index(s, addr, s.len() as int) {
            assert(s[i].addr == addr);
            assert(NodeId((i + 1) as u64).0 - 1 == i);
        }
    }
}

/// No candidate is pinned.
proof fn lemma_candidates_unpinned<V, W>(
    s: Seq<WorldlineNode<V, W>>,
    order: Seq<int>,
    k: int,
    horizon: i64,
    pins: Set<NodeId>,
)
    ensures
        forall|q: int|
            0 <= q < compressable_from(s, order, k, horizon, pins).len() ==> !pins.contains(
                #[trigger] compressable_from(s, order, k, horizon, pins)[q],
            ),
    decreases k,
{
    if k > 0 {
        lemma_candidates_unpinned(s, order, k - 1, horizon, pins);
        let rest = compressable_from(s, order, k - 1, horizon, pins);
        assert forall|q: int|
            0 <= q < compressable_from(s, order, k, horizon, pins).len() implies !pins.contains(
                #[trigger] compressable_from(s, order, k, horizon, pins)[q],
            ) by {
            if q < rest.len() {
                assert(compressable_from(s, order, k, horizon, pins)[q] == rest[q]);
            }
        }
    }
}

/// What compaction did with candidates `cand` on fabric `s0`.
pub open spec fn compaction_outcome<T, W>(
    s0: Seq<WorldlineNode<Vec<T>, W>>,
    gen0: u64,
    cand: Seq<NodeId>,
    store0: Seq<crate::checkpoint::EpochCheckpoint<T>>,
    capacity: usize,
    pins: Set<NodeId>,
    s: Seq<WorldlineNode<Vec<T>, W>>,
    gen: u64,
    store: Seq<crate::checkpoint::EpochCheckpoint<T>>,
    r: Result<(CollectionStats, Vec<u64>), GcError>,
) -> bool {
    if cand.len() > 0 && store0.len() >= capacity {
        &&& r matches Err(GcError::CheckpointOverflow(c)) && c == capacity
        &&& s == s0
        &&& gen == gen0
        &&& store == store0
    } else {
        let compressing = cand.len() > 0;
        let s1 = if compressing {
            retired(s0, cand)
        } else {
            s0
        };
        let gen1 = if compressing {
            sat_inc(gen0)
        } else {
            gen0
        };
        let ud = unpinned_debris(s1, pins);
        let id = (store0.len() + 1) as u64;
        let raw = raw_bytes(cells_of(s0, cand));
        &&& r matches Ok((stats, ids)) && {
            &&& stats.branches_culled == 0
            &&& stats.checkpoints_created == (if compressing {
                1usize
            } else {
                0usize
            })
            &&& stats.nodes_sealed == (if compressing {
                cand.len()
            } else {
                0
            })
            &&& stats.nodes_pruned == (if compressing {
                cand.len()
            } else {
                0
            }) + ud.len()
            &&& stats.bytes_reclaimed_est == (if compressing && value_bytes(s0, cand) > compressed_size(raw) {
                value_bytes(s0, cand) - compressed_size(raw)
            } else {
                0
            })
            &&& ids@ == (if compressing {
                seq![id]
            } else {
                Seq::empty()
            })
        }
        &&& flags_set(s1, s, ud, true)
        &&& gen == (if ud.len() > 0 {
            sat_inc(gen1)
        } else {
            gen1
        })
        &&& if compressing {
            &&& store.drop_last() == store0
            &&& store.len() == store0.len() + 1
            &&& checkpoint_of(store.last(), id, cells_of(s0, cand))
        } else {
            store == store0
        }
    }
}

/// The fabric steps of a collection cycle.
///
/// The cold history — live cells at or before the newest live epoch minus
/// `seal_horizon`, resolved to their newest nodes, unpinned, and sealed or
/// clean — is packed into one checkpoint, then sealed and pruned from the
/// fabric; afterwards every unpinned node of paradox debris is pruned. A full
/// checkpoint archive stops the cycle before the fabric is touched.
pub fn compact_history<T: Copy, W>(
    dag: &mut WorldlineDag<Vec<T>, W>,
    pins: &RetrocausalPinSet,
    checkpoints: &mut CheckpointStore<T>,
    seal_horizon: i64,
) -> (r: Result<(CollectionStats, Vec<u64>), GcError>)
    requires
        old(dag).wf(),
        old(checkpoints).wf(),
        i64::MIN <= horizon_of(old(dag).nodes_view(), seal_horizon) <= i64::MAX,
        old(dag).node_count() * max_cell_bytes(old(dag).nodes_view()) <= usize::MAX,
        old(checkpoints).entries_view().len() + 2 <= u64::MAX,
    ensures
        final(dag).wf(),
        final(dag).adjacency() == old(dag).adjacency(),
        final(dag).cascade_limit() == old(dag).cascade_limit(),
        final(checkpoints).wf(),
        final(checkpoints).capacity_view() == old(checkpoints).capacity_view(),
        exists|order: Seq<int>|
            {
                &&& sorted_unpruned(old(dag).nodes_view(), order)
                &&& compaction_outcome(
                    old(dag).nodes_view(),
                    old(dag).generation(),
                    compressable_from(
                        old(dag).nodes_view(),
                        order,
                        order.len() as int,
                        horizon_of(old(dag).nodes_view(), seal_horizon) as i64,
                        pins@,
                    ),
                    old(checkpoints).entries_view(),
                    old(checkpoints).capacity_view(),
                    pins@,
                    final(dag).nodes_view(),
                    final(dag).generation(),
                    final(checkpoints).entries_view(),
                    r,
                )
            },
{
    let ghost s0 = dag.nodes_view();
    let ghost gen0 = dag.generation();
    let ghost store0 = checkpoints.entries_view();
    let ghost n = s0.len();
    proof {
        dag.lemma_wf_structure();
        lemma_max_cell_nonneg(s0);
        if n > 0 {
            lemma_max_cell(s0, 0);
            assert(n * 16 <= n * max_cell_bytes(s0)) by (nonlinear_arith)
                requires
                    16 <= max_cell_bytes(s0),
                    n >= 0,
            ;
        }
    }
    let mut stats = CollectionStats {
        nodes_pruned: 0,
        nodes_sealed: 0,
        checkpoints_created: 0,
        bytes_reclaimed_est: 0,
        branches_culled: 0,
    };
    let mut checkpoint_ids: Vec<u64> = Vec::new();
    let max_tau = max_epoch(dag);
    let horizon = max_tau - seal_horizon;
    let compressable = collect_compressable(dag, horizon, pins);
    let ghost order = choose|order: Seq<int>|
        sorted_unpruned(s0, order) && compressable@ == compressable_from(
            s0,
            order,
            order.len() as int,
            horizon,
            pins@,
        );
    let ghost cand = compressable@;
    proof {
        lemma_order_len(s0, order);
        lemma_candidates_len(s0, order, order.len() as int, horizon, pins@);
        assert forall|a: int| 0 <= a < order.len() implies 0 <= #[trigger] order[a] < s0.len() by {
            assert(order.contains(order[a]));
        }
        lemma_candidates_newest(s0, order, order.len() as int, horizon, pins@);
        assert(cand.len() * max_cell_bytes(s0) <= n * max_cell_bytes(s0)) by (nonlinear_arith)
            requires
                cand.len() <= n,
                max_cell_bytes(s0) >= 0,
        ;
    }
    if compressable.len() > 0 {
        let mut cells: Vec<(SpacetimeAddr, Vec<T>)> = Vec::new();
        let mut bytes_raw: usize = 0;
        let mut k: usize = 0;
        assert(cells_of(s0, cand.take(0)) =~= packed_input(cells@));
        while k < compressable.len()
            invariant
                dag.wf(),
                dag.nodes_view() == s0,
                n == s0.len(),
                cand == compressable@,
                cand.len() * max_cell_bytes(s0) <= usize::MAX,
                forall|q: int|
                    0 <= q < cand.len() ==> 1 <= (#[trigger] cand[q]).0 <= n && newest_index(
                        s0,
                        s0[cand[q].0 - 1].addr,
                        n as int,
                    ) == Some(cand[q].0 - 1) && !pins@.contains(cand[q]),
                k <= cand.len(),
                packed_input(cells@) == cells_of(s0, cand.take(k as int)),
                bytes_raw == value_bytes(s0, cand.take(k as int)),
            decreases cand.len() - k,
        {
            let nid = compressable[k];
            let node = dag.node(nid).unwrap();
            let ghost prev = cells@;
            cells.push((node.addr, copy_values(&node.state.value)));
            proof {
                let t = cand.take(k + 1);
                assert(t.drop_last() =~= cand.take(k as int));
                assert(forall|q: int| 0 <= q < t.len() ==> t[q] == cand[q]);
                lemma_raw_bound(s0, t);
                assert(t.len() * max_cell_bytes(s0) <= cand.len() * max_cell_bytes(s0)) by (nonlinear_arith)
                    requires
                        t.len() <= cand.len(),
                        max_cell_bytes(s0) >= 0,
                ;
                assert(packed_input(cells@) =~= packed_input(prev).push(
                    (s0[nid.0 - 1].addr.address.0, s0[nid.0 - 1].addr.tau.0, s0[nid.0 - 1].state.value@),
                ));
                assert(cells_of(s0, t) =~= cells_of(s0, cand.take(k as int)).push(
                    (s0[nid.0 - 1].addr.address.0, s0[nid.0 - 1].addr.tau.0, s0[nid.0 - 1].state.value@),
                ));
            }
            bytes_raw = bytes_raw + node.state.value.len() * 8;
            k = k + 1;
        }
        proof {
            assert(cand.take(cand.len() as int) =~= cand);
            lemma_raw_bound(s0, cand);
        }
        let id = match checkpoints.compress(cells) {
            Ok(id) => id,
            Err(e) => {
                return Err(e);
            },
        };
        let compressed = checkpoints.get(id).unwrap().bytes_compressed;
        checkpoint_ids.push(id);
        stats.checkpoints_created = 1;
        stats.bytes_reclaimed_est = if bytes_raw > compressed {
            bytes_raw - compressed
        } else {
            0
        };
        let ghost old_stats = stats;
        let mut k: usize = 0;
        assert(sealed_upto(s0, cand, 0) =~= s0);
        while k < compressable.len()
            invariant
                dag.wf(),
                n == s0.len(),
                cand == compressable@,
                cand.len() <= n,
                forall|q: int|
                    0 <= q < cand.len() ==> 1 <= (#[trigger] cand[q]).0 <= n && newest_index(
                        s0,
                        s0[cand[q].0 - 1].addr,
                        n as int,
                    ) == Some(cand[q].0 - 1) && !pins@.contains(cand[q]),
                k <= cand.len(),
                dag.nodes_view() == sealed_upto(s0, cand, k as int),
                n + 1 <= u64::MAX,
                dag.adjacency() == old(dag).adjacency(),
                dag.cascade_limit() == old(dag).cascade_limit(),
                dag.generation() == gen0,
                stats.nodes_sealed == k,
                stats.branches_culled == 0,
                stats.checkpoints_created == 1,
                stats.nodes_pruned == 0,
                stats.bytes_reclaimed_est == old_stats.bytes_reclaimed_est,
            decreases cand.len() - k,
        {
            let nid = compressable[k];
            let addr = dag.node(nid).unwrap().addr;
            proof {
                assert forall|j: int| 0 <= j < s0.len() implies (#[trigger] dag.nodes_view()[j]).addr == s0[j].addr by {
                    assert(dag.nodes_view()[j] == sealed_upto(s0, cand, k as int)[j]);
                }
                lemma_same_addrs(s0, dag.nodes_view(), addr, n as int);
                assert(addr == s0[nid.0 - 1].addr);
                assert(newest_index(dag.nodes_view(), addr, n as int) == Some(nid.0 - 1));
                assert(dag.lookup_id(addr) == Some(nid));
            }
            let ghost cur = dag.nodes_view();
            let _ = dag.seal(addr);
            proof {
                let t1 = cand.take(k + 1);
                let t0 = cand.take(k as int);
                assert(t1 =~= t0.push(nid));
                assert(dag.nodes_view() =~= sealed_upto(s0, cand, k + 1)) by {
                    assert forall|j: int| 0 <= j < n implies dag.nodes_view()[j] == sealed_upto(s0, cand, k + 1)[j] by {
                        let me = NodeId((j + 1) as u64);
                        assert(me.0 == j + 1);
                        assert(t1.contains(me) <==> (t0.contains(me) || me == nid)) by {
                            if t1.contains(me) {
                                let q = choose|q: int| 0 <= q < t1.len() && #[trigger] t1[q] == me;
                                if q < k {
                                    assert(t0[q] == t1[q]);
                                }
                            }
                            if t0.contains(me) {
                                let q = choose|q: int| 0 <= q < t0.len() && #[trigger] t0[q] == me;
                                assert(t1[q] == t0[q]);
                            }
                            if me == nid {
                                assert(t1[k as int] == nid);
                            }
                        }
                        assert(cur[j] == sealed_upto(s0, cand, k as int)[j]);
                    }
                }
            }
            stats.nodes_sealed = stats.nodes_sealed + 1;
            k = k + 1;
        }
        assert(cand.take(cand.len() as int) =~= cand);
        let ghost sealed = dag.nodes_view();
        dag.prune_nodes(compressable.as_slice());
        proof {
            assert(dag.nodes_view() =~= retired(s0, cand)) by {
                assert forall|j: int| 0 <= j < n implies dag.nodes_view()[j] == retired(s0, cand)[j] by {
                    assert(sealed[j] == sealed_upto(s0, cand, cand.len() as int)[j]);
                }
            }
        }
        stats.nodes_pruned = compressable.len();
    }
    let ghost s1 = dag.nodes_view();
    let ghost gen1 = dag.generation();
    let debris = debris_nodes(dag);
    let ghost dv = debris@;
    let mut loose: Vec<NodeId> = Vec::new();
    let mut i: usize = 0;
    proof {
        lemma_debris_len(s1, n as int);
    }
    while i < debris.len()
        invariant
            dv == debris@,
            i <= dv.len(),
            loose@ == unpinned(dv.take(i as int), pins@),
        decreases dv.len() - i,
    {
        assert(dv.take(i + 1).drop_last() =~= dv.take(i as int));
        if !pins.is_pinned(debris[i]) {
            loose.push(debris[i]);
        }
        i = i + 1;
    }
    proof {
        assert(dv.take(dv.len() as int) =~= dv);
        lemma_unpinned_len(dv, pins@);
    }
    if loose.len() > 0 {
        stats.nodes_pruned = stats.nodes_pruned + loose.len();
        dag.prune_nodes(loose.as_slice());
    } else {
        assert(flags_set(s1, dag.nodes_view(), loose@, true));
    }
    let result = Ok((stats, checkpoint_ids));
    proof {
        assert(horizon_of(s0, seal_horizon) as i64 == horizon);
        assert(loose@ == unpinned_debris(s1, pins@));
        assert(compressable_from(s0, order, order.len() as int, horizon_of(s0, seal_horizon) as i64, pins@) == cand);
        assert(compaction_outcome(
            s0,
            gen0,
            cand,
            store0,
            old(checkpoints).capacity_view(),
            pins@,
            dag.nodes_view(),
            dag.generation(),
            checkpoints.entries_view(),
            result,
        ));
    }
    result
}

proof fn lemma_unpinned_free(ids: Seq<NodeId>, pins: Set<NodeId>)
    ensures
        forall|q: int| 0 <= q < unpinned(ids, pins).len() ==> !pins.contains(#[trigger] unpinned(ids, pins)[q]),
    decreases ids.len(),
{
    if ids.len() > 0 {
        lemma_unpinned_free(ids.drop_last(), pins);
        let prev = unpinned(ids.drop_last(), pins);
        assert forall|q: int| 0 <= q < unpinned(ids, pins).len() implies !pins.contains(
            #[trigger] unpinned(ids, pins)[q],
        ) by {
            if q < prev.len() {
                assert(unpinned(ids, pins)[q] == prev[q]);
            }
        }
    }
}

/// Compaction spares pinned nodes: a pinned node is left exactly as it was
/// (neither sealed nor pruned nor otherwise changed), whatever became of the
/// cycle.
pub proof fn lemma_pins_survive<T, W>(
    s0: Seq<WorldlineNode<Vec<T>, W>>,
    gen0: u64,
    order: Seq<int>,
    horizon: i64,
    store0: Seq<crate::checkpoint::EpochCheckpoint<T>>,
    capacity: usize,
    pins: Set<NodeId>,
    s: Seq<WorldlineNode<Vec<T>, W>>,
    gen: u64,
    store: Seq<crate::checkpoint::EpochCheckpoint<T>>,
    r: Result<(CollectionStats, Vec<u64>), GcError>,
    id: NodeId,
)
    requires
        compaction_outcome(
            s0,
            gen0,
            compressable_from(s0, order, order.len() as int, horizon, pins),
            store0,
            capacity,
            pins,
            s,
            gen,
            store,
            r,
        ),
        pins.contains(id),
        1 <= id.0 <= s0.len(),
    ensures
        s[id.0 - 1] == s0[id.0 - 1],
{
    let cand = compressable_from(s0, order, order.len() as int, horizon, pins);
    lemma_candidates_unpinned(s0, order, order.len() as int, horizon, pins);
    let j = id.0 - 1;
    assert(NodeId((j + 1) as u64) == id);
    if !(cand.len() > 0 && store0.len() >= capacity) {
        let s1 = if cand.len() > 0 {
            retired(s0, cand)
        } else {
            s0
        };
        if cand.contains(id) {
            let q = choose|q: int| 0 <= q < cand.len() && cand[q] == id;
            assert(!pins.contains(cand[q]));
        }
        assert(s1[j] == s0[j]);
        let ud = unpinned_debris(s1, pins);
        lemma_unpinned_free(debris_prefix(s1, s1.len() as int), pins);
        if ud.contains(id) {
            let q = choose|q: int| 0 <= q < ud.len() && ud[q] == id;
            assert(!pins.contains(ud[q]));
        }
        assert(s[j] == s1[j]);
    }
}

/// A collection whose pins were refreshed from the fabric never seals,
/// prunes or otherwise changes an endpoint of a retrocausal edge, never
/// fails on a pin, and creates at most one checkpoint, whose identity it
/// reports.
pub proof fn lemma_collection_spares_retro_endpoints<T, W>(
    s0: Seq<WorldlineNode<Vec<T>, W>>,
    g: crate::graph::Adjacency,
    gen0: u64,
    order: Seq<int>,
    horizon: i64,
    store0: Seq<crate::checkpoint::EpochCheckpoint<T>>,
    capacity: usize,
    s: Seq<WorldlineNode<Vec<T>, W>>,
    gen: u64,
    store: Seq<crate::checkpoint::EpochCheckpoint<T>>,
    r: Result<(CollectionStats, Vec<u64>), GcError>,
    id: NodeId,
)
    requires
        compaction_outcome(
            s0,
            gen0,
            compressable_from(
                s0,
                order,
                order.len() as int,
                horizon,
                retro_endpoints(retro_prefix(g, s0.len() as int)),
            ),
            store0,
            capacity,
            retro_endpoints(retro_prefix(g, s0.len() as int)),
            s,
            gen,
            store,
            r,
        ),
        retro_endpoints(retro_prefix(g, s0.len() as int)).contains(id),
        1 <= id.0 <= s0.len(),
    ensures
        s[id.0 - 1] == s0[id.0 - 1],
        !(r matches Err(GcError::PinnedNode(_))),
        r matches Ok((stats, ids)) ==> stats.checkpoints_created == ids@.len() && ids@.len() <= 1,
{
    lemma_pins_survive(
        s0,
        gen0,
        order,
        horizon,
        store0,
        capacity,
        retro_endpoints(retro_prefix(g, s0.len() as int)),
        s,
        gen,
        store,
        r,
        id,
    );
}

/// The newest live epoch of the first `k` nodes is the epoch of one of
/// them, and no live one is newer.
proof fn lemma_max_live<V, W>(s: Seq<WorldlineNode<V, W>>, k: int)
    requires
        0 <= k <= s.len(),
    ensures
        match max_unpruned_tau(s, k) {
            Some(m) => (exists|w: int| 0 <= w < k && !s[w].state.pruned && #[trigger] s[w].addr.tau.0 == m)
                && forall|j: int| 0 <= j < k && !(#[trigger] s[j]).state.pruned ==> s[j].addr.tau.0 <= m,
            None => forall|j: int| 0 <= j < k ==> (#[trigger] s[j]).state.pruned,
        },
    decreases k,
{
    if k > 0 {
        lemma_max_live(s, k - 1);
    }
}

proof fn lemma_candidates_behind<V, W>(
    s: Seq<WorldlineNode<V, W>>,
    order: Seq<int>,
    k: int,
    horizon: i64,
    pins: Set<NodeId>,
)
    requires
        0 <= k <= order.len(),
        s.len() + 1 <= u64::MAX,
        forall|a: int| 0 <= a < order.len() ==> 0 <= #[trigger] order[a] < s.len(),
    ensures
        forall|q: int|
            0 <= q < compressable_from(s, order, k, horizon, pins).len() ==> {
                let c = #[trigger] compressable_from(s, order, k, horizon, pins)[q];
                &&& 1 <= c.0 <= s.len()
                &&& s[c.0 - 1].addr.tau.0 <= horizon
            },
    decreases k,
{
    if k > 0 {
        lemma_candidates_behind(s, order, k - 1, horizon, pins);
        let rest = compressable_from(s, order, k - 1, horizon, pins);
        let addr = s[order[k - 1]].addr;
        lemma_newest_index(s, addr, s.len() as int);
        if let Some(i) = newest_index(s, addr, s.len() as int) {
            assert(s[i].addr == addr);
            assert(NodeId((i + 1) as u64).0 - 1 == i);
        }
        assert forall|q: int| 0 <= q < compressable_from(s, order, k, horizon, pins).len() implies {
            let c = #[trigger] compressable_from(s, order, k, horizon, pins)[q];
            &&& 1 <= c.0 <= s.len()
            &&& s[c.0 - 1].addr.tau.0 <= horizon
        } by {
            if q < rest.len() {
                assert(compressable_from(s, order, k, horizon, pins)[q] == rest[q]);
            }
        }
    }
}

/// Compaction only reaches back past the seal horizon: every compression
/// candidate of a fabric lies at least `seal_horizon` epochs behind some
/// live cell, that is, no later than the newest live epoch minus
/// `seal_horizon`.
pub proof fn lemma_candidates_behind_seal_horizon<V, W>(
    d: WorldlineDag<V, W>,
    order: Seq<int>,
    seal_horizon: i64,
    pins: Set<NodeId>,
)
    requires
        d.wf(),
        sorted_unpruned(d.nodes_view(), order),
        i64::MIN <= horizon_of(d.nodes_view(), seal_horizon) <= i64::MAX,
    ensures
        forall|q: int|
            0 <= q < compressable_from(
                d.nodes_view(),
                order,
                order.len() as int,
                horizon_of(d.nodes_view(), seal_horizon) as i64,
                pins,
            ).len() ==> {
                let c = #[trigger] compressable_from(
                    d.nodes_view(),
                    order,
                    order.len() as int,
                    horizon_of(d.nodes_view(), seal_horizon) as i64,
                    pins,
                )[q];
                &&& 1 <= c.0 <= d.node_count()
                &&& exists|w: int|
                    0 <= w < d.node_count() && !d.nodes_view()[w].state.pruned && d.nodes_view()[c.0 - 1].addr.tau.0
                        + seal_horizon <= (#[trigger] d.nodes_view()[w]).addr.tau.0
            },
{
    let s = d.nodes_view();
    let h = horizon_of(s, seal_horizon) as i64;
    d.lemma_wf_structure();
    assert forall|a: int| 0 <= a < order.len() implies 0 <= #[trigger] order[a] < s.len() by {
        assert(order.contains(order[a]));
    }
    lemma_candidates_behind(s, order, order.len() as int, h, pins);
    lemma_max_live(s, s.len() as int);
    let cand = compressable_from(s, order, order.len() as int, h, pins);
    assert forall|q: int| 0 <= q < cand.len() implies {
        let c = #[trigger] cand[q];
        &&& 1 <= c.0 <= d.node_count()
        &&& exists|w: int|
            0 <= w < d.node_count() && !s[w].state.pruned && s[c.0 - 1].addr.tau.0 + seal_horizon <= (#[trigger] s[w]).addr.tau.0
    } by {
        if order.len() > 0 {
            assert(order.contains(order[0]));
            assert(!s[order[0]].state.pruned);
        }
        match max_unpruned_tau(s, s.len() as int) {
            Some(m) => {
                let w = choose|w: int| 0 <= w < s.len() && !s[w].state.pruned && #[trigger] s[w].addr.tau.0 == m;
                assert(s[w].addr.tau.0 == m);
            },
            None => {
                assert(cand.len() > 0);
                assert(false) by {
                    lemma_candidates_nonempty_order(s, order, order.len() as int, h, pins);
                }
            },
        }
    }
}

proof fn lemma_candidates_nonempty_order<V, W>(
    s: Seq<WorldlineNode<V, W>>,
    order: Seq<int>,
    k: int,
    horizon: i64,
    pins: Set<NodeId>,
)
    requires
        0 <= k <= order.len(),
    ensures
        compressable_from(s, order, k, horizon, pins).len() <= k,
    decreases k,
{
    if k > 0 {
        lemma_candidates_nonempty_order(s, order, k - 1, horizon, pins);
    }
}

} // verus!
