use vstd::prelude::*;
use crate::addr::{SpacetimeAddr, addr_lt};
use crate::graph::{is_walk, reach_count, reach_vector, lemma_count_strict, lemma_closed_walk, Adjacency, Edge, DependencyKind, valid_id, out_edges, has_edge, follows, reaches, targets_valid, causal_acyclic, count_true, add_edge, lemma_push_isolated, lemma_single_walk, lemma_count_mono, lemma_count_set, lemma_count_le_len, lemma_reach_step, lemma_closed_unreachable, lemma_add_edge_acyclic, within, spans, lemma_within_zero, lemma_within_reaches, lemma_within_extend, lemma_within_last_step, lemma_spans_mono};
use crate::node::{NodeId, NodeState, WorldlineNode, sat_inc, sat_add};

verus! {

/// Errors raised by the worldline fabric.
#[derive(Clone, Copy, Debug, PartialEq, Eq, Structural)]
pub enum DagError {
    /// The spacetime address is not allocated in the fabric.
    UnmappedAddress(SpacetimeAddr),
    /// The node is not present in the fabric.
    MissingNode(NodeId),
    /// A causal edge `from → to` would close a causal cycle.
    StructuralCycle { from: NodeId, to: NodeId },
    /// A retro-write or an allocation targeted a sealed cell.
    SealedEpoch { addr: SpacetimeAddr, revision: u64 },
    /// Cascade depth exceeded its limit.
    CascadeOverflow { origin: SpacetimeAddr, limit: usize },
    /// No unpruned cell to snapshot.
    EmptySnapshot,
}

/// Index of the newest node among the first `k` whose address is `addr`.
pub open spec fn newest_index<V, W>(s: Seq<WorldlineNode<V, W>>, addr: SpacetimeAddr, k: int) -> Option<int>
    decreases k,
{
    if k <= 0 {
        None
    } else if s[k - 1].addr == addr {
        Some(k - 1)
    } else {
        newest_index(s, addr, k - 1)
    }
}

/// What `newest_index` picks: the last matching position, if any.
pub proof fn lemma_newest_index<V, W>(s: Seq<WorldlineNode<V, W>>, addr: SpacetimeAddr, k: int)
    requires
        0 <= k <= s.len(),
    ensures
        newest_index(s, addr, k) matches Some(i) ==> 0 <= i < k && s[i].addr == addr && forall|j: int|
            i < j < k ==> #[trigger] s[j].addr != addr,
        newest_index(s, addr, k) is None ==> forall|j: int| 0 <= j < k ==> #[trigger] s[j].addr != addr,
    decreases k,
{
    if k > 0 {
        lemma_newest_index(s, addr, k - 1);
    }
}


/// `after` differs from `before` only in dirty flags, which turn on only for
/// nodes reachable from `origin`.
pub open spec fn dirty_only_within<V, W>(
    before: Seq<WorldlineNode<V, W>>,
    after: Seq<WorldlineNode<V, W>>,
    g: Adjacency,
    origin: NodeId,
) -> bool {
    &&& after.len() == before.len()
    &&& forall|i: int|
        0 <= i < before.len() ==> (#[trigger] after[i]) == (WorldlineNode { dirty: after[i].dirty, ..before[i] })
            && (after[i].dirty ==> before[i].dirty || reaches(g, origin, NodeId((i + 1) as u64), false))
}

/// `after` is `before` with every node reachable from `origin` marked dirty.
pub open spec fn cascade_marks<V, W>(
    before: Seq<WorldlineNode<V, W>>,
    after: Seq<WorldlineNode<V, W>>,
    g: Adjacency,
    origin: NodeId,
) -> bool {
    &&& after.len() == before.len()
    &&& forall|i: int|
        0 <= i < before.len() ==> (#[trigger] after[i]) == (WorldlineNode {
            dirty: before[i].dirty || reaches(g, origin, NodeId((i + 1) as u64), false),
            ..before[i]
        })
}

/// A cascade report for `origin`: the invalidated list starts at `origin`
/// and holds each node reachable from it exactly once, in breadth-first
/// order (a node within some distance of `origin` is preceded only by nodes
/// within that distance), and the depth reached
/// is the breadth-first depth of `origin`, the least bound within which every
/// reachable node lies.
pub open spec fn report_matches(
    rep: CascadeReport,
    g: Adjacency,
    origin: NodeId,
    origin_addr: SpacetimeAddr,
) -> bool {
    &&& rep.origin == Some(origin_addr)
    &&& rep.invalidated@.len() > 0
    &&& rep.invalidated@[0] == origin
    &&& rep.invalidated@.no_duplicates()
    &&& forall|v: NodeId| #[trigger]
        rep.invalidated@.contains(v) <==> (valid_id(g, v) && reaches(g, origin, v, false))
    &&& rep.invalidated@.len() == reach_count(g, origin, false)
    &&& forall|i: int, j: int, d: nat|
        #![trigger rep.invalidated@[i], within(g, origin, rep.invalidated@[j], d)]
        0 <= i < j < rep.invalidated@.len() && within(g, origin, rep.invalidated@[j], d) ==> within(
            g,
            origin,
            rep.invalidated@[i],
            d,
        )
    &&& spans(g, origin, rep.depth_reached as nat)
    &&& forall|d: nat| d < rep.depth_reached ==> !#[trigger] spans(g, origin, d)
}

/// What a breadth-first cascade from `origin` with depth bound `limit` does
/// to a fabric whose nodes were `before` and are now `after`.
///
/// It succeeds exactly when every reachable node lies within `limit` edges
/// of `origin`. On success every reachable node is dirty and the report
/// lists them; on overflow some of them may already be dirty.
pub open spec fn cascade_outcome<V, W>(
    before: Seq<WorldlineNode<V, W>>,
    after: Seq<WorldlineNode<V, W>>,
    g: Adjacency,
    origin: NodeId,
    limit: usize,
    r: Result<CascadeReport, DagError>,
) -> bool {
    &&& (r is Ok <==> spans(g, origin, limit as nat))
    &&& match r {
        Ok(rep) => cascade_marks(before, after, g, origin) && report_matches(
            rep,
            g,
            origin,
            before[origin.0 - 1].addr,
        ),
        Err(e) => {
            &&& e == DagError::CascadeOverflow { origin: before[origin.0 - 1].addr, limit }
            &&& dirty_only_within(before, after, g, origin)
        },
    }
}


/// `s` with node `x` carrying `value` as a new revision, marked dirty.
pub open spec fn revised_at<V, W>(s: Seq<WorldlineNode<V, W>>, x: NodeId, value: V) -> Seq<WorldlineNode<V, W>> {
    s.update(
        x.0 - 1,
        WorldlineNode {
            state: NodeState { value: value, revision: sat_inc(s[x.0 - 1].state.revision), ..s[x.0 - 1].state },
            dirty: true,
            ..s[x.0 - 1]
        },
    )
}

/// Identities of the dirty, unpruned nodes among the first `k`, ascending.
pub open spec fn dirty_prefix<V, W>(s: Seq<WorldlineNode<V, W>>, k: int) -> Seq<NodeId>
    decreases k,
{
    if k <= 0 {
        Seq::empty()
    } else if s[k - 1].dirty && !s[k - 1].state.pruned {
        dirty_prefix(s, k - 1).push(NodeId(k as u64))
    } else {
        dirty_prefix(s, k - 1)
    }
}

/// Retrocausal edges `(from, e.to)` among the first `k` edges leaving `from`.
pub open spec fn retro_from(from: NodeId, es: Seq<Edge>, k: int) -> Seq<(NodeId, NodeId)>
    decreases k,
{
    if k <= 0 {
        Seq::empty()
    } else if es[k - 1].kind == DependencyKind::Retrocausal {
        retro_from(from, es, k - 1).push((from, es[k - 1].to))
    } else {
        retro_from(from, es, k - 1)
    }
}

/// Retrocausal edges leaving the first `k` nodes, by source then insertion order.
pub open spec fn retro_prefix(g: Adjacency, k: int) -> Seq<(NodeId, NodeId)>
    decreases k,
{
    if k <= 0 {
        Seq::empty()
    } else {
        retro_prefix(g, k - 1) + retro_from(NodeId(k as u64), g[k - 1], g[k - 1].len() as int)
    }
}

/// Number of occurrences of `id` among the first `k` entries.
pub open spec fn occurrences(ids: Seq<NodeId>, id: NodeId, k: int) -> nat
    decreases k,
{
    if k <= 0 {
        0
    } else {
        occurrences(ids, id, k - 1) + if ids[k - 1] == id {
            1nat
        } else {
            0nat
        }
    }
}

/// Position of the last occurrence of `id` among the first `k` entries.
pub open spec fn last_occurrence(ids: Seq<NodeId>, id: NodeId, k: int) -> int
    decreases k,
{
    if k <= 0 {
        -1
    } else if ids[k - 1] == id {
        k - 1
    } else {
        last_occurrence(ids, id, k - 1)
    }
}

/// `after` is `before` with the first `k` solution entries applied: each
/// listed node is revised once per listing, holds a clone of the value of
/// its last listing, and is clean.
pub open spec fn applied_upto<V: Clone, W>(
    before: Seq<WorldlineNode<V, W>>,
    after: Seq<WorldlineNode<V, W>>,
    ids: Seq<NodeId>,
    values: Seq<V>,
    k: int,
) -> bool {
    &&& after.len() == before.len()
    &&& forall|j: int|
        0 <= j < before.len() ==> {
            let c = occurrences(ids, NodeId((j + 1) as u64), k);
            if c == 0 || before[j].sealed {
                #[trigger] after[j] == before[j]
            } else {
                &&& after[j] == WorldlineNode {
                    state: NodeState {
                        value: after[j].state.value,
                        revision: sat_add(before[j].state.revision, c),
                        ..before[j].state
                    },
                    dirty: false,
                    ..before[j]
                }
                &&& cloned(values[last_occurrence(ids, NodeId((j + 1) as u64), k)], after[j].state.value)
            }
        }
}

/// `after` is `before` with the flags of the listed nodes rewritten by `f`.
pub open spec fn flags_set<V, W>(
    before: Seq<WorldlineNode<V, W>>,
    after: Seq<WorldlineNode<V, W>>,
    ids: Seq<NodeId>,
    prune: bool,
) -> bool {
    &&& after.len() == before.len()
    &&& forall|j: int|
        0 <= j < before.len() ==> #[trigger] after[j] == (if ids.contains(NodeId((j + 1) as u64)) {
            if prune {
                WorldlineNode {
                    state: NodeState { pruned: true, ..before[j].state },
                    dirty: false,
                    ..before[j]
                }
            } else {
                WorldlineNode { dirty: false, ..before[j] }
            }
        } else {
            before[j]
        })
}


/// Snapshot order: by address, ties broken by allocation order.
pub open spec fn key_lt<V, W>(s: Seq<WorldlineNode<V, W>>, x: int, y: int) -> bool {
    addr_lt(s[x].addr, s[y].addr) || (s[x].addr == s[y].addr && x < y)
}

/// `order` lists the positions of the unpruned nodes of `s`, each once,
/// sorted by address with ties in allocation order.
pub open spec fn sorted_unpruned<V, W>(s: Seq<WorldlineNode<V, W>>, order: Seq<int>) -> bool {
    &&& order.no_duplicates()
    &&& forall|i: int| #[trigger] order.contains(i) <==> (0 <= i < s.len() && !s[i].state.pruned)
    &&& forall|a: int, b: int| 0 <= a < b < order.len() ==> key_lt(s, #[trigger] order[a], #[trigger] order[b])
}

/// `snap` lists every unpruned node of `s` once, as its address, a clone of
/// its value and its weight, sorted by address (ties in allocation order).
pub open spec fn snapshot_of<V: Clone, W>(s: Seq<WorldlineNode<V, W>>, snap: Seq<(SpacetimeAddr, V, W)>) -> bool {
    exists|order: Seq<int>|
        {
            &&& order.len() == snap.len()
            &&& sorted_unpruned(s, order)
            &&& forall|a: int|
                0 <= a < order.len() ==> {
                    &&& (#[trigger] snap[a]).0 == s[order[a]].addr
                    &&& cloned(s[order[a]].state.value, snap[a].1)
                    &&& snap[a].2 == s[order[a]].state.weight
                }
        }
}

/// Report emitted after a retro-write cascade completes.
#[derive(Clone, Debug)]
pub struct CascadeReport {
    pub origin: Option<SpacetimeAddr>,
    /// Invalidated nodes, in visiting order, each once.
    pub invalidated: Vec<NodeId>,
    /// Largest traversal depth visited.
    pub depth_reached: usize,
}

/// Schedules dirty-bit propagation across worldline dependency edges, with a
/// bound on traversal depth against runaway paradox feedback.
#[derive(Clone, Copy, Debug)]
pub struct CascadeScheduler {
    pub max_depth: usize,
}

impl CascadeScheduler {
    pub fn new(max_depth: usize) -> (s: Self)
        ensures
            s.max_depth == max_depth,
    {
        CascadeScheduler { max_depth }
    }

    /// Invalidate `origin` and every node reachable from it along dependency
    /// edges of any kind, by breadth-first traversal, layer by layer. The
    /// cascade overflows when some reachable node lies more than `max_depth`
    /// edges from `origin`.
    pub fn propagate<V, W>(&self, dag: &mut WorldlineDag<V, W>, origin: NodeId) -> (r: Result<
        CascadeReport,
        DagError,
    >)
        requires
            old(dag).wf(),
        ensures
            final(dag).wf(),
            final(dag).adjacency() == old(dag).adjacency(),
            final(dag).cascade_limit() == old(dag).cascade_limit(),
            final(dag).generation() == old(dag).generation(),
            !old(dag).contains(origin) ==> r == Err::<CascadeReport, DagError>(DagError::MissingNode(origin))
                && final(dag).nodes_view() == old(dag).nodes_view(),
            old(dag).contains(origin) ==> cascade_outcome(
                old(dag).nodes_view(),
                final(dag).nodes_view(),
                old(dag).adjacency(),
                origin,
                self.max_depth,
                r,
            ),
    {
        let origin_addr = match dag.node(origin) {
            Some(nd) => nd.addr,
            None => {
                return Err(DagError::MissingNode(origin));
            },
        };
        let ghost g = dag.adjacency();
        let ghost before = dag.nodes_view();
        let ghost rv = reach_vector(g, origin, false);
        let n = dag.nodes.len();
        let mut seen: Vec<bool> = Vec::new();
        let mut i: usize = 0;
        while i < n
            invariant
                i <= n,
                seen@.len() == i,
                forall|j: int| 0 <= j < i ==> !seen@[j],
            decreases n - i,
        {
            seen.push(false);
            i = i + 1;
        }
        let oidx = (origin.0 - 1) as usize;
        proof {
            lemma_count_all_false(seen@);
            lemma_count_set(seen@, oidx as int);
        }
        seen.set(oidx, true);
        dag.nodes[oidx].dirty = true;
        let mut visited: usize = 1;
        let mut report = CascadeReport { origin: Some(origin_addr), invalidated: Vec::new(), depth_reached: 0 };
        report.invalidated.push(origin);
        let mut current: Vec<NodeId> = Vec::new();
        current.push(origin);
        let mut depth: usize = 0;
        proof {
            assert forall|j: int| 0 <= j < n implies (seen@[j] <==> within(
                g,
                origin,
                NodeId((j + 1) as u64),
                0,
            )) by {
                lemma_within_zero(g, origin, NodeId((j + 1) as u64));
            }
            assert forall|v: NodeId| #[trigger]
                report.invalidated@.contains(v) <==> (valid_id(g, v) && seen@[v.0 - 1]) by {
                if valid_id(g, v) && seen@[v.0 - 1] {
                    assert(v.0 - 1 == oidx);
                    assert(report.invalidated@[0] == v);
                }
            }
            assert forall|v: NodeId|
                valid_id(g, v) && within(g, origin, v, 0) && (0 == 0 || !within(g, origin, v, 0)) implies #[trigger] current@.contains(
                v,
            ) by {
                lemma_within_zero(g, origin, v);
                assert(current@[0] == v);
            }
            lemma_within_zero(g, origin, origin);
            assert(dag.adjacency() =~= g);
        }
        loop
            invariant
                dag.wf(),
                g == dag.adjacency(),
                g == old(dag).adjacency(),
                before == old(dag).nodes_view(),
                old(dag).contains(origin),
                valid_id(g, origin),
                g.len() == n,
                n == dag.nodes@.len(),
                before.len() == n,
                rv == reach_vector(g, origin, false),
                rv.len() == n,
                origin_addr == before[origin.0 - 1].addr,
                dag.cascade_limit() == old(dag).cascade_limit(),
                dag.generation() == old(dag).generation(),
                depth <= self.max_depth,
                seen@.len() == n,
                visited >= 1,
                visited == count_true(seen@),
                forall|j: int|
                    0 <= j < n ==> (#[trigger] seen@[j] <==> within(g, origin, NodeId((j + 1) as u64), depth as nat)),
                forall|j: int|
                    0 <= j < n ==> (#[trigger] dag.nodes_view()[j]) == (WorldlineNode {
                        dirty: before[j].dirty || seen@[j],
                        ..before[j]
                    }),
                current@.len() > 0,
                forall|k: int|
                    0 <= k < current@.len() ==> valid_id(g, #[trigger] current@[k]) && within(
                        g,
                        origin,
                        current@[k],
                        depth as nat,
                    ) && (depth == 0 || !within(g, origin, current@[k], (depth - 1) as nat)),
                forall|v: NodeId|
                    valid_id(g, v) && within(g, origin, v, depth as nat) && (depth == 0 || !within(
                        g,
                        origin,
                        v,
                        (depth - 1) as nat,
                    )) ==> #[trigger] current@.contains(v),
                forall|d: nat| d < depth ==> !#[trigger] spans(g, origin, d),
                report.origin == Some(origin_addr),
                report.invalidated@.len() == visited,
                report.invalidated@[0] == origin,
                report.invalidated@.no_duplicates(),
                forall|v: NodeId| #[trigger]
                    report.invalidated@.contains(v) <==> (valid_id(g, v) && seen@[v.0 - 1]),
                report.depth_reached == depth,
                forall|k: int| 0 <= k < report.invalidated@.len() ==> within(g, origin, #[trigger] report.invalidated@[k], depth as nat),
                forall|i: int, j: int, d: nat|
                    #![trigger report.invalidated@[i], within(g, origin, report.invalidated@[j], d)]
                    0 <= i < j < report.invalidated@.len() && within(g, origin, report.invalidated@[j], d) ==> within(
                        g,
                        origin,
                        report.invalidated@[i],
                        d,
                    ),
            decreases n - visited,
        {
            proof {
                lemma_count_le_len(seen@);
            }
            let ghost vis0 = visited as int;
            let mut next: Vec<NodeId> = Vec::new();
            let mut ci: usize = 0;
            while ci < current.len()
                invariant
                    dag.wf(),
                    g == dag.adjacency(),
                    before == old(dag).nodes_view(),
                    valid_id(g, origin),
                    g.len() == n,
                    n == dag.nodes@.len(),
                    before.len() == n,
                    dag.cascade_limit() == old(dag).cascade_limit(),
                    dag.generation() == old(dag).generation(),
                    seen@.len() == n,
                    vis0 >= 1,
                    report.depth_reached == depth,
                    visited == count_true(seen@),
                    visited == vis0 + next@.len(),
                    ci <= current@.len(),
                    forall|k: int|
                        0 <= k < current@.len() ==> valid_id(g, #[trigger] current@[k]) && within(
                            g,
                            origin,
                            current@[k],
                            depth as nat,
                        ),
                    forall|j: int|
                        0 <= j < n ==> (#[trigger] seen@[j] <==> (within(g, origin, NodeId((j + 1) as u64), depth as nat)
                            || next@.contains(NodeId((j + 1) as u64)))),
                    forall|k: int|
                        0 <= k < next@.len() ==> valid_id(g, #[trigger] next@[k]) && within(
                            g,
                            origin,
                            next@[k],
                            (depth + 1) as nat,
                        ) && !within(g, origin, next@[k], depth as nat),
                    forall|j: int|
                        0 <= j < n ==> (#[trigger] dag.nodes_view()[j]) == (WorldlineNode {
                            dirty: before[j].dirty || seen@[j],
                            ..before[j]
                        }),
                    forall|q: int, v: NodeId|
                        0 <= q < ci && #[trigger] has_edge(g, current@[q], v, false) ==> seen@[v.0 - 1],
                    report.origin == Some(origin_addr),
                    report.invalidated@.len() == visited,
                    report.invalidated@[0] == origin,
                    report.invalidated@.no_duplicates(),
                    forall|v: NodeId| #[trigger]
                        report.invalidated@.contains(v) <==> (valid_id(g, v) && seen@[v.0 - 1]),
                    forall|k: int| 0 <= k < report.invalidated@.len() ==> within(g, origin, #[trigger] report.invalidated@[k], (depth + 1) as nat),
                    forall|i: int, j: int, d: nat|
                    #![trigger report.invalidated@[i], within(g, origin, report.invalidated@[j], d)]
                    0 <= i < j < report.invalidated@.len() && within(g, origin, report.invalidated@[j], d) ==> within(
                        g,
                        origin,
                        report.invalidated@[i],
                        d,
                    ),
                decreases current@.len() - ci,
            {
                let u = current[ci];
                let uidx = (u.0 - 1) as usize;
                let es = &dag.edges[uidx];
                assert(es@ == out_edges(g, u));
                let mut k: usize = 0;
                while k < es.len()
                    invariant
                        dag.wf(),
                        g == dag.adjacency(),
                        before == old(dag).nodes_view(),
                        g.len() == n,
                        n == dag.nodes@.len(),
                        before.len() == n,
                        dag.cascade_limit() == old(dag).cascade_limit(),
                        dag.generation() == old(dag).generation(),
                        es@ == out_edges(g, u),
                        valid_id(g, u),
                        u == current@[ci as int],
                        ci < current@.len(),
                        within(g, origin, u, depth as nat),
                        seen@.len() == n,
                        vis0 >= 1,
                        report.depth_reached == depth,
                        visited == count_true(seen@),
                        visited == vis0 + next@.len(),
                        k <= es@.len(),
                        forall|j: int|
                            0 <= j < n ==> (#[trigger] seen@[j] <==> (within(
                                g,
                                origin,
                                NodeId((j + 1) as u64),
                                depth as nat,
                            ) || next@.contains(NodeId((j + 1) as u64)))),
                        forall|kk: int|
                            0 <= kk < next@.len() ==> valid_id(g, #[trigger] next@[kk]) && within(
                                g,
                                origin,
                                next@[kk],
                                (depth + 1) as nat,
                            ) && !within(g, origin, next@[kk], depth as nat),
                        forall|j: int|
                            0 <= j < n ==> (#[trigger] dag.nodes_view()[j]) == (WorldlineNode {
                                dirty: before[j].dirty || seen@[j],
                                ..before[j]
                            }),
                        forall|q: int, v: NodeId|
                            0 <= q < ci && #[trigger] has_edge(g, current@[q], v, false) ==> seen@[v.0 - 1],
                        forall|kk: int| 0 <= kk < k ==> seen@[(#[trigger] es@[kk]).to.0 - 1],
                        report.origin == Some(origin_addr),
                        report.invalidated@.len() == visited,
                        report.invalidated@[0] == origin,
                        report.invalidated@.no_duplicates(),
                        forall|v: NodeId| #[trigger]
                            report.invalidated@.contains(v) <==> (valid_id(g, v) && seen@[v.0 - 1]),
                        forall|kk: int| 0 <= kk < report.invalidated@.len() ==> within(g, origin, #[trigger] report.invalidated@[kk], (depth + 1) as nat),
                        forall|i: int, j: int, d: nat|
                    #![trigger report.invalidated@[i], within(g, origin, report.invalidated@[j], d)]
                    0 <= i < j < report.invalidated@.len() && within(g, origin, report.invalidated@[j], d) ==> within(
                        g,
                        origin,
                        report.invalidated@[i],
                        d,
                    ),
                    decreases es@.len() - k,
                {
                    let v = es[k].to;
                    proof {
                        assert(valid_id(g, g[u.0 - 1][k as int].to));
                        assert(has_edge(g, u, v, false));
                    }
                    let vidx = (v.0 - 1) as usize;
                    assert(NodeId((vidx + 1) as u64) == v);
                    if !seen[vidx] {
                        let ghost old_seen = seen@;
                        let ghost old_next = next@;
                        let ghost old_inv = report.invalidated@;
                        let ghost old_nodes = dag.nodes_view();
                        proof {
                            lemma_count_set(seen@, vidx as int);
                            lemma_count_le_len(seen@.update(vidx as int, true));
                            lemma_within_extend(g, origin, u, v, depth as nat);
                        }
                        seen.set(vidx, true);
                        visited = visited + 1;
                        dag.nodes[vidx].dirty = true;
                        report.invalidated.push(v);
                        next.push(v);
                        proof {
                            assert(!within(g, origin, v, depth as nat));
                            assert forall|j: int|
                                0 <= j < n implies (#[trigger] seen@[j] <==> (within(
                                    g,
                                    origin,
                                    NodeId((j + 1) as u64),
                                    depth as nat,
                                ) || next@.contains(NodeId((j + 1) as u64)))) by {
                                if j == vidx {
                                    assert(next@[next@.len() - 1] == v);
                                } else {
                                    assert(NodeId((j + 1) as u64) != v);
                                    if next@.contains(NodeId((j + 1) as u64)) {
                                        let t = choose|t: int| 0 <= t < next@.len() && next@[t] == NodeId((j + 1) as u64);
                                        assert(old_next[t] == next@[t]);
                                    }
                                    if old_next.contains(NodeId((j + 1) as u64)) {
                                        let t = choose|t: int| 0 <= t < old_next.len() && old_next[t] == NodeId((j + 1) as u64);
                                        assert(next@[t] == old_next[t]);
                                    }
                                }
                            }
                            assert forall|kk: int|
                                0 <= kk < next@.len() implies valid_id(g, #[trigger] next@[kk]) && within(
                                    g,
                                    origin,
                                    next@[kk],
                                    (depth + 1) as nat,
                                ) && !within(g, origin, next@[kk], depth as nat) by {
                                if kk < old_next.len() {
                                    assert(next@[kk] == old_next[kk]);
                                }
                            }
                            assert forall|j: int|
                                0 <= j < n implies (#[trigger] dag.nodes_view()[j]) == (WorldlineNode {
                                    dirty: before[j].dirty || seen@[j],
                                    ..before[j]
                                }) by {
                                if j != vidx {
                                    assert(old_seen[j] == seen@[j]);
                                    assert(dag.nodes_view()[j] == old_nodes[j]);
                                }
                            }
                            assert(report.invalidated@[0] == origin);
                            assert forall|w: NodeId| #[trigger]
                                report.invalidated@.contains(w) <==> (valid_id(g, w) && seen@[w.0 - 1]) by {
                                if w == v {
                                    assert(report.invalidated@[report.invalidated@.len() - 1] == v);
                                } else {
                                    if report.invalidated@.contains(w) {
                                        let t = choose|t: int| 0 <= t < report.invalidated@.len() && report.invalidated@[t] == w;
                                        assert(old_inv[t] == w);
                                        assert(old_inv.contains(w));
                                    }
                                    if valid_id(g, w) && seen@[w.0 - 1] {
                                        assert(w.0 - 1 != vidx as int);
                                        assert(old_seen[w.0 - 1]);
                                        assert(old_inv.contains(w));
                                        let t = choose|t: int| 0 <= t < old_inv.len() && old_inv[t] == w;
                                        assert(report.invalidated@[t] == w);
                                    }
                                }
                            }
                            assert forall|kk: int| 0 <= kk < report.invalidated@.len() implies within(
                                g,
                                origin,
                                #[trigger] report.invalidated@[kk],
                                (depth + 1) as nat,
                            ) by {
                                if kk < old_inv.len() {
                                    assert(report.invalidated@[kk] == old_inv[kk]);
                                }
                            }
                            assert forall|i: int, j: int, d: nat|
                                #![trigger report.invalidated@[i], within(g, origin, report.invalidated@[j], d)]
                                0 <= i < j < report.invalidated@.len() && within(g, origin, report.invalidated@[j], d)
                                implies within(g, origin, report.invalidated@[i], d) by {
                                assert(report.invalidated@[i] == old_inv[i]);
                                if j < old_inv.len() {
                                    assert(report.invalidated@[j] == old_inv[j]);
                                } else {
                                    assert(report.invalidated@[j] == v);
                                    if d <= depth {
                                        lemma_within_reaches(g, origin, v, d, depth as nat);
                                    }
                                    assert(within(g, origin, old_inv[i], (depth + 1) as nat));
                                    lemma_within_reaches(g, origin, old_inv[i], (depth + 1) as nat, d);
                                }
                            }
                            assert(report.invalidated@.no_duplicates()) by {
                                assert(!old_inv.contains(v));
                                assert forall|a: int, b: int|
                                    0 <= a < report.invalidated@.len() && 0 <= b < report.invalidated@.len() && a != b
                                    implies report.invalidated@[a] != report.invalidated@[b] by {
                                    if a < old_inv.len() && b < old_inv.len() {
                                        assert(report.invalidated@[a] == old_inv[a] && report.invalidated@[b] == old_inv[b]);
                                    } else if a < old_inv.len() {
                                        assert(report.invalidated@[a] == old_inv[a]);
                                    } else if b < old_inv.len() {
                                        assert(report.invalidated@[b] == old_inv[b]);
                                    }
                                }
                            }
                            assert forall|q: int, w: NodeId|
                                0 <= q < ci && #[trigger] has_edge(g, current@[q], w, false) implies seen@[w.0 - 1] by {
                                assert(old_seen[w.0 - 1]);
                            }
                            assert forall|kk: int| 0 <= kk < k + 1 implies seen@[(#[trigger] es@[kk]).to.0 - 1] by {
                                if kk < k {
                                    assert(old_seen[es@[kk].to.0 - 1]);
                                }
                            }
                            assert(dag.wf()) by {
                                assert forall|j: int| 0 <= j < dag.nodes@.len() implies (#[trigger] dag.nodes@[j]).id
                                    == NodeId((j + 1) as u64) by {
                                    assert(dag.nodes_view()[j].id == before[j].id);
                                    assert(old(dag).nodes@[j].id == NodeId((j + 1) as u64));
                                }
                                assert(dag.adjacency() =~= g);
                            }
                        }
                    }
                    k = k + 1;
                }
                proof {
                    assert forall|q: int, w: NodeId|
                        0 <= q < ci + 1 && #[trigger] has_edge(g, current@[q], w, false) implies seen@[w.0 - 1] by {
                        if q == ci {
                            let t = choose|t: int|
                                0 <= t < out_edges(g, u).len() && #[trigger] out_edges(g, u)[t].to == w && follows(
                                    out_edges(g, u)[t],
                                    false,
                                );
                            assert(es@[t].to == w);
                        }
                    }
                }
                ci = ci + 1;
            }
            // Every node within one more edge has now been seen.
            proof {
                assert forall|j: int| 0 <= j < n implies (seen@[j] <==> within(
                    g,
                    origin,
                    NodeId((j + 1) as u64),
                    (depth + 1) as nat,
                )) by {
                    let w = NodeId((j + 1) as u64);
                    if seen@[j] {
                        if within(g, origin, w, depth as nat) {
                            lemma_within_reaches(g, origin, w, depth as nat, (depth + 1) as nat);
                        } else {
                            let t = choose|t: int| 0 <= t < next@.len() && next@[t] == w;
                            assert(within(g, origin, next@[t], (depth + 1) as nat));
                        }
                    }
                    if within(g, origin, w, (depth + 1) as nat) {
                        lemma_within_last_step(g, origin, w, depth as nat);
                        if w == origin {
                            lemma_within_zero(g, origin, origin);
                            lemma_within_reaches(g, origin, origin, 0, depth as nat);
                        } else {
                            let x = choose|x: NodeId| within(g, origin, x, depth as nat) && #[trigger] has_edge(
                                g,
                                x,
                                w,
                                false,
                            );
                            lemma_within_reaches(g, origin, x, depth as nat, depth as nat);
                            if depth > 0 && within(g, origin, x, (depth - 1) as nat) {
                                lemma_within_extend(g, origin, x, w, (depth - 1) as nat);
                                assert(within(g, origin, w, depth as nat));
                            } else {
                                assert(current@.contains(x));
                                let q = choose|q: int| 0 <= q < current@.len() && current@[q] == x;
                                assert(has_edge(g, current@[q], w, false));
                                assert(NodeId((w.0 - 1 + 1) as u64) == w);
                            }
                        }
                    }
                }
            }
            if next.len() == 0 {
                proof {
                    assert forall|j: int| 0 <= j < n implies (seen@[j] <==> within(
                        g,
                        origin,
                        NodeId((j + 1) as u64),
                        depth as nat,
                    )) by {
                        if seen@[j] && !within(g, origin, NodeId((j + 1) as u64), depth as nat) {
                            assert(next@.contains(NodeId((j + 1) as u64)));
                        }
                    }
                    assert forall|x: NodeId, w: NodeId|
                        valid_id(g, x) && seen@[x.0 - 1] && #[trigger] has_edge(g, x, w, false) implies seen@[w.0 - 1] by {
                        assert(NodeId((x.0 - 1 + 1) as u64) == x);
                        assert(NodeId((w.0 - 1 + 1) as u64) == w);
                        assert(valid_id(g, w)) by {
                            let t = choose|t: int|
                                0 <= t < out_edges(g, x).len() && #[trigger] out_edges(g, x)[t].to == w && follows(
                                    out_edges(g, x)[t],
                                    false,
                                );
                            assert(valid_id(g, g[x.0 - 1][t].to));
                        }
                        lemma_within_extend(g, origin, x, w, depth as nat);
                    }
                    lemma_within_zero(g, origin, origin);
                    lemma_within_reaches(g, origin, origin, 0, depth as nat);
                    assert(NodeId((origin.0 - 1 + 1) as u64) == origin);
                    assert(seen@[origin.0 - 1]);
                    assert forall|j: int| 0 <= j < n implies seen@[j] == rv[j] by {
                        let w = NodeId((j + 1) as u64);
                        if rv[j] && !seen@[j] {
                            lemma_closed_unreachable(g, seen@, origin, w, false);
                        }
                        if seen@[j] {
                            lemma_within_reaches(g, origin, w, depth as nat, depth as nat);
                        }
                    }
                    assert(seen@ =~= rv);
                    assert forall|w: NodeId| #[trigger] reaches(g, origin, w, false) implies within(
                        g,
                        origin,
                        w,
                        depth as nat,
                    ) by {
                        let p = choose|p: Seq<NodeId>| #[trigger] is_walk(g, p, false) && p[0] == origin && p.last() == w;
                        assert(valid_id(g, p[p.len() - 1]));
                        assert(rv[w.0 - 1] == reaches(g, origin, NodeId((w.0 - 1 + 1) as u64), false));
                        assert(NodeId((w.0 - 1 + 1) as u64) == w);
                    }
                    assert(spans(g, origin, depth as nat));
                    lemma_spans_mono(g, origin, depth as nat, self.max_depth as nat);
                    assert forall|w: NodeId| #[trigger]
                        report.invalidated@.contains(w) <==> (valid_id(g, w) && reaches(g, origin, w, false)) by {
                        if valid_id(g, w) {
                            assert(rv[w.0 - 1] == reaches(g, origin, NodeId((w.0 - 1 + 1) as u64), false));
                            assert(NodeId((w.0 - 1 + 1) as u64) == w);
                        }
                        if reaches(g, origin, w, false) {
                            let p = choose|p: Seq<NodeId>| #[trigger] is_walk(g, p, false) && p[0] == origin && p.last() == w;
                            assert(valid_id(g, p[p.len() - 1]));
                        }
                    }
                    assert forall|j: int|
                        0 <= j < n implies (#[trigger] dag.nodes_view()[j]) == (WorldlineNode {
                            dirty: before[j].dirty || reaches(g, origin, NodeId((j + 1) as u64), false),
                            ..before[j]
                        }) by {
                        assert(seen@[j] == rv[j]);
                    }
                }
                return Ok(report);
            }
            let ghost x = next@[0];
            proof {
                lemma_within_reaches(g, origin, x, (depth + 1) as nat, (depth + 1) as nat);
                assert(!within(g, origin, x, depth as nat));
                assert(!spans(g, origin, depth as nat));
            }
            if depth >= self.max_depth {
                proof {
                    assert forall|j: int|
                        0 <= j < before.len() implies (#[trigger] dag.nodes_view()[j]) == (WorldlineNode {
                            dirty: dag.nodes_view()[j].dirty,
                            ..before[j]
                        }) && (dag.nodes_view()[j].dirty ==> before[j].dirty || reaches(
                            g,
                            origin,
                            NodeId((j + 1) as u64),
                            false,
                        )) by {
                        if seen@[j] {
                            lemma_within_reaches(g, origin, NodeId((j + 1) as u64), (depth + 1) as nat, (depth + 1) as nat);
                        }
                    }
                }
                return Err(DagError::CascadeOverflow { origin: origin_addr, limit: self.max_depth });
            }
            proof {
                lemma_count_le_len(seen@);
                assert forall|d: nat| d < depth + 1 implies !#[trigger] spans(g, origin, d) by {
                    if d == depth {
                    }
                }
                assert forall|w: NodeId|
                    valid_id(g, w) && within(g, origin, w, (depth + 1) as nat) && !within(
                        g,
                        origin,
                        w,
                        depth as nat,
                    ) implies #[trigger] next@.contains(w) by {
                    assert(NodeId((w.0 - 1 + 1) as u64) == w);
                    assert(seen@[w.0 - 1]);
                }
            }
            depth = depth + 1;
            report.depth_reached = depth;
            current = next;
        }
    }
}

impl Default for CascadeScheduler {
    /// The default depth bound, 10 000.
    fn default() -> (s: Self)
        ensures
            s.max_depth == 10_000,
    {
        CascadeScheduler { max_depth: 10_000 }
    }
}

/// Snapshot of chronal register values for kernel handoff, sorted by address.
#[derive(Clone, Debug)]
pub struct WorldlineSnapshot<V, W> {
    pub nodes: Vec<(SpacetimeAddr, V, W)>,
}

/// Append-only DAG of spacetime execution frames.
///
/// Nodes are kept in allocation order (node `k` at position `k − 1`); each
/// node owns the list of its outgoing dependency edges. An address resolves
/// to the newest node allocated at it.
pub struct WorldlineDag<V, W> {
    next_id: u64,
    nodes: Vec<WorldlineNode<V, W>>,
    edges: Vec<Vec<Edge>>,
    cascade: CascadeScheduler,
    /// Generation counter for branch identity (consumed by the paradox pruner).
    pub branch_generation: u64,
}

impl<V, W> WorldlineDag<V, W> {
    /// The nodes, in allocation order.
    pub closed spec fn nodes_view(&self) -> Seq<WorldlineNode<V, W>> {
        self.nodes@
    }

    /// Outgoing edges of each node, in insertion order.
    pub closed spec fn adjacency(&self) -> Adjacency {
        Seq::new(self.edges@.len(), |i: int| self.edges@[i]@)
    }

    /// The branch generation counter.
    pub closed spec fn generation(&self) -> u64 {
        self.branch_generation
    }

    /// Depth bound used by retro-write cascades.
    pub closed spec fn cascade_limit(&self) -> usize {
        self.cascade.max_depth
    }

    /// Internal consistency: dense identities, one edge list per node, valid
    /// edge targets, and no causal cycle.
    pub closed spec fn wf(&self) -> bool {
        &&& self.nodes@.len() == self.edges@.len()
        &&& self.next_id == self.nodes@.len() + 1
        &&& forall|i: int| 0 <= i < self.nodes@.len() ==> (#[trigger] self.nodes@[i]).id == NodeId((i + 1) as u64)
        &&& targets_valid(self.adjacency())
        &&& causal_acyclic(self.adjacency())
    }

    pub open spec fn node_count(&self) -> nat {
        self.nodes_view().len()
    }

    pub open spec fn contains(&self, id: NodeId) -> bool {
        1 <= id.0 <= self.node_count()
    }

    pub open spec fn node_spec(&self, id: NodeId) -> WorldlineNode<V, W> {
        self.nodes_view()[id.0 - 1]
    }

    /// The node that an address resolves to: the newest one allocated there.
    pub open spec fn lookup_id(&self, addr: SpacetimeAddr) -> Option<NodeId> {
        match newest_index(self.nodes_view(), addr, self.node_count() as int) {
            Some(i) => Some(NodeId((i + 1) as u64)),
            None => None,
        }
    }

    /// The fabric's dependency structure has no causal cycle, and every edge
    /// points at a node of the fabric.
    pub proof fn lemma_wf_structure(&self)
        requires
            self.wf(),
        ensures
            causal_acyclic(self.adjacency()),
            targets_valid(self.adjacency()),
            self.adjacency().len() == self.node_count(),
            self.node_count() + 1 <= u64::MAX,
            forall|i: int| 0 <= i < self.node_count() ==> (#[trigger] self.nodes_view()[i]).id == NodeId((i + 1) as u64),
    {
    }

    /// An empty fabric with the default cascade limit.
    pub fn new() -> (d: Self)
        ensures
            d.wf(),
            d.node_count() == 0,
            d.adjacency().len() == 0,
            d.cascade_limit() == 10_000,
            d.generation() == 0,
    {
        let d = WorldlineDag {
            next_id: 1,
            nodes: Vec::new(),
            edges: Vec::new(),
            cascade: CascadeScheduler::default(),
            branch_generation: 0,
        };
        assert(d.adjacency() =~= Seq::<Seq<Edge>>::empty());
        d
    }

    /// The same fabric with another cascade depth bound.
    pub fn with_cascade_limit(self, max_depth: usize) -> (d: Self)
        ensures
            d.nodes_view() == self.nodes_view(),
            d.adjacency() == self.adjacency(),
            d.cascade_limit() == max_depth,
            d.generation() == self.generation(),
            self.wf() ==> d.wf(),
    {
        WorldlineDag { cascade: CascadeScheduler::new(max_depth), ..self }
    }

    pub fn len(&self) -> (n: usize)
        ensures
            n == self.node_count(),
    {
        self.nodes.len()
    }

    pub fn is_empty(&self) -> (b: bool)
        ensures
            b == (self.node_count() == 0),
    {
        self.nodes.len() == 0
    }

    pub fn node(&self, id: NodeId) -> (r: Option<&WorldlineNode<V, W>>)
        ensures
            r == (if self.contains(id) {
                Some(&self.node_spec(id))
            } else {
                None
            }),
    {
        if id.0 >= 1 && id.0 <= self.nodes.len() as u64 {
            Some(&self.nodes[(id.0 - 1) as usize])
        } else {
            None
        }
    }

    /// Mutable access to a node. The fabric stays well formed as long as the
    /// caller leaves the node's identity as it is.
    pub fn node_mut(&mut self, id: NodeId) -> (r: Option<&mut WorldlineNode<V, W>>)
        requires
            old(self).wf(),
        ensures
            match r {
                Some(nd) => {
                    &&& old(self).contains(id)
                    &&& *nd == old(self).node_spec(id)
                    &&& final(self).nodes_view() == old(self).nodes_view().update(id.0 - 1, *final(nd))
                    &&& final(self).adjacency() == old(self).adjacency()
                    &&& final(self).cascade_limit() == old(self).cascade_limit()
                    &&& final(self).generation() == old(self).generation()
                    &&& (final(nd).id == id ==> final(self).wf())
                },
                None => !old(self).contains(id) && *final(self) == *old(self),
            },
    {
        if id.0 >= 1 && id.0 <= self.nodes.len() as u64 {
            Some(&mut self.nodes[(id.0 - 1) as usize])
        } else {
            None
        }
    }

    fn newest_position(&self, addr: SpacetimeAddr) -> (r: Option<usize>)
        ensures
            r matches Some(i) ==> newest_index(self.nodes_view(), addr, self.node_count() as int) == Some(i as int)
                && (i as int) < self.node_count(),
            r is None ==> newest_index(self.nodes_view(), addr, self.node_count() as int) is None,
    {
        let mut k = self.nodes.len();
        while k > 0
            invariant
                k <= self.nodes@.len(),
                newest_index(self.nodes_view(), addr, self.node_count() as int) == newest_index(
                    self.nodes_view(),
                    addr,
                    k as int,
                ),
            decreases k,
        {
            if self.nodes[k - 1].addr == addr {
                proof {
                    lemma_newest_index(self.nodes_view(), addr, self.node_count() as int);
                }
                return Some(k - 1);
            }
            k = k - 1;
        }
        None
    }

    /// The node an address resolves to.
    pub fn lookup(&self, addr: SpacetimeAddr) -> (r: Option<&WorldlineNode<V, W>>)
        requires
            self.wf(),
        ensures
            r == (match self.lookup_id(addr) {
                Some(id) => Some(&self.node_spec(id)),
                None => None,
            }),
    {
        match self.newest_position(addr) {
            Some(i) => Some(&self.nodes[i]),
            None => None,
        }
    }

    /// The identity an address resolves to.
    pub fn node_id(&self, addr: SpacetimeAddr) -> (r: Option<NodeId>)
        requires
            self.wf(),
        ensures
            r == self.lookup_id(addr),
    {
        match self.newest_position(addr) {
            Some(i) => Some(self.nodes[i].id),
            None => None,
        }
    }

    /// Allocate a spacetime cell. If the address already resolves to a node,
    /// that node takes the new state and turns dirty, unless it is sealed:
    /// a sealed cell refuses the allocation and the fabric stays as it was.
    /// An address that resolves to no node gets a fresh node.
    pub fn allocate(&mut self, addr: SpacetimeAddr, state: NodeState<V, W>) -> (r: Result<NodeId, DagError>)
        requires
            old(self).wf(),
            old(self).node_count() + 2 <= u64::MAX,
        ensures
            final(self).wf(),
            final(self).cascade_limit() == old(self).cascade_limit(),
            final(self).generation() == old(self).generation(),
            match old(self).lookup_id(addr) {
                Some(x) => if old(self).node_spec(x).sealed {
                    &&& r == Err::<NodeId, DagError>(
                        DagError::SealedEpoch { addr, revision: old(self).node_spec(x).state.revision },
                    )
                    &&& final(self).nodes_view() == old(self).nodes_view()
                    &&& final(self).adjacency() == old(self).adjacency()
                } else {
                    &&& r == Ok::<NodeId, DagError>(x)
                    &&& final(self).nodes_view() == old(self).nodes_view().update(
                        x.0 - 1,
                        WorldlineNode { state: state, dirty: true, ..old(self).node_spec(x) },
                    )
                    &&& final(self).adjacency() == old(self).adjacency()
                },
                None => {
                    &&& r == Ok::<NodeId, DagError>(NodeId((old(self).node_count() + 1) as u64))
                    &&& final(self).nodes_view() == old(self).nodes_view().push(
                        WorldlineNode {
                            id: NodeId((old(self).node_count() + 1) as u64),
                            addr: addr,
                            state: state,
                            sealed: false,
                            dirty: false,
                        },
                    )
                    &&& final(self).adjacency() == old(self).adjacency().push(Seq::empty())
                },
            },
    {
        let pos = self.newest_position(addr);
        if let Some(i) = pos {
            if self.nodes[i].sealed {
                return Err(DagError::SealedEpoch { addr, revision: self.nodes[i].state.revision });
            }
            let existing = self.nodes[i].id;
            self.nodes[i].state = state;
            self.nodes[i].dirty = true;
            assert(self.adjacency() =~= old(self).adjacency());
            return Ok(existing);
        }
        proof {
            lemma_push_isolated(old(self).adjacency());
        }
        let id = NodeId(self.next_id);
        self.next_id = self.next_id + 1;
        self.nodes.push(WorldlineNode::new(id, addr, state));
        self.edges.push(Vec::new());
        assert(self.adjacency() =~= old(self).adjacency().push(Seq::empty()));
        Ok(id)
    }

    /// Whether `target` is reachable from `from` along causal edges.
    fn reaches_causal(&self, from: NodeId, target: NodeId) -> (b: bool)
        requires
            self.wf(),
            self.contains(from),
            self.contains(target),
        ensures
            b == reaches(self.adjacency(), from, target, true),
    {
        let ghost g = self.adjacency();
        let n = self.nodes.len();
        let mut seen: Vec<bool> = Vec::new();
        let mut i: usize = 0;
        while i < n
            invariant
                i <= n,
                seen@.len() == i,
                forall|j: int| 0 <= j < i ==> !seen@[j],
            decreases n - i,
        {
            seen.push(false);
            i = i + 1;
        }
        proof {
            assert(count_true(seen@) == 0) by {
                lemma_count_mono(seen@, Seq::new(n as nat, |j: int| false));
                assert(count_true(Seq::new(n as nat, |j: int| false)) == 0) by {
                    lemma_count_all_false(Seq::new(n as nat, |j: int| false));
                }
            }
            lemma_single_walk(g, from, true);
        }
        let mut stack: Vec<NodeId> = Vec::new();
        stack.push(from);
        assert(stack@[0] == from);
        let mut visited: usize = 0;
        while stack.len() > 0
            invariant
                self.wf(),
                g == self.adjacency(),
                n == self.nodes@.len(),
                g.len() == n,
                seen@.len() == n,
                self.contains(from),
                self.contains(target),
                visited == count_true(seen@),
                visited <= n,
                forall|j: int| 0 <= j < n && #[trigger] seen@[j] ==> reaches(g, from, NodeId((j + 1) as u64), true),
                forall|j: int|
                    0 <= j < stack@.len() ==> valid_id(g, #[trigger] stack@[j]) && reaches(
                        g,
                        from,
                        stack@[j],
                        true,
                    ),
                !seen@[target.0 - 1],
                seen@[from.0 - 1] || stack@.contains(from),
                forall|u: NodeId, v: NodeId|
                    valid_id(g, u) && seen@[u.0 - 1] && #[trigger] has_edge(g, u, v, true) ==> seen@[v.0 - 1]
                        || stack@.contains(v),
            decreases n - visited, stack@.len(),
        {
            let ghost old_stack = stack@;
            let ghost old_seen = seen@;
            let m = stack.pop().unwrap();
            assert(old_stack == stack@.push(m));
            assert(valid_id(g, m) && reaches(g, from, m, true)) by {
                assert(old_stack[old_stack.len() - 1] == m);
            }
            if m == target {
                return true;
            }
            let idx = (m.0 - 1) as usize;
            assert(idx as int == m.0 - 1);
            if seen[idx] {
                assert forall|u: NodeId, v: NodeId|
                    valid_id(g, u) && seen@[u.0 - 1] && #[trigger] has_edge(g, u, v, true) implies seen@[v.0 - 1]
                        || stack@.contains(v) by {
                    if !seen@[v.0 - 1] {
                        assert(old_stack.contains(v));
                        let j = choose|j: int| 0 <= j < old_stack.len() && old_stack[j] == v;
                        if j < stack@.len() {
                            assert(stack@[j] == v);
                        }
                    }
                }
                assert(seen@[from.0 - 1] || stack@.contains(from)) by {
                    if !seen@[from.0 - 1] {
                        let j = choose|j: int| 0 <= j < old_stack.len() && old_stack[j] == from;
                        if j < stack@.len() {
                            assert(stack@[j] == from);
                        }
                    }
                }
                assert forall|j: int| 0 <= j < stack@.len() implies valid_id(g, #[trigger] stack@[j]) && reaches(
                    g,
                    from,
                    stack@[j],
                    true,
                ) by {
                    assert(stack@[j] == old_stack[j]);
                }
                continue;
            }
            proof {
                lemma_count_set(seen@, idx as int);
                lemma_count_le_len(seen@.update(idx as int, true));
            }
            seen.set(idx, true);
            visited = visited + 1;
            let ghost base = stack@;
            let es = &self.edges[idx];
            assert(es@ == g[idx as int]);
            assert(out_edges(g, m) == es@);
            let mut k: usize = 0;
            while k < es.len()
                invariant
                    self.wf(),
                    g == self.adjacency(),
                    es@ == out_edges(g, m),
                    valid_id(g, m),
                    reaches(g, from, m, true),
                    k <= es@.len(),
                    stack@.len() >= base.len(),
                    forall|j: int| 0 <= j < base.len() ==> stack@[j] == base[j],
                    forall|j: int|
                        0 <= j < stack@.len() ==> valid_id(g, #[trigger] stack@[j]) && reaches(
                            g,
                            from,
                            stack@[j],
                            true,
                        ),
                    forall|q: int|
                        0 <= q < k && follows(es@[q], true) ==> stack@.contains(#[trigger] es@[q].to),
                decreases es@.len() - k,
            {
                let e = es[k];
                if e.kind == DependencyKind::Causal {
                    proof {
                        assert(targets_valid(g));
                        assert(valid_id(g, g[m.0 - 1][k as int].to));
                        assert(has_edge(g, m, e.to, true));
                        lemma_reach_step(g, from, m, e.to, true);
                    }
                    let ghost before = stack@;
                    stack.push(e.to);
                    assert forall|q: int| 0 <= q < k + 1 && follows(es@[q], true) implies stack@.contains(
                        #[trigger] es@[q].to,
                    ) by {
                        if q < k {
                            let j = choose|j: int| 0 <= j < before.len() && before[j] == es@[q].to;
                            assert(stack@[j] == before[j]);
                        } else {
                            assert(stack@[stack@.len() - 1] == e.to);
                        }
                    }
                }
                k = k + 1;
            }
            proof {
                assert forall|u: NodeId, v: NodeId|
                    valid_id(g, u) && seen@[u.0 - 1] && #[trigger] has_edge(g, u, v, true) implies seen@[v.0 - 1]
                        || stack@.contains(v) by {
                    if u == m {
                        let q = choose|q: int|
                            0 <= q < out_edges(g, u).len() && #[trigger] out_edges(g, u)[q].to == v
                                && follows(out_edges(g, u)[q], true);
                        assert(es@[q].to == v);
                    } else if !seen@[v.0 - 1] {
                        assert(old_seen[u.0 - 1]);
                        assert(old_stack.contains(v));
                        let j = choose|j: int| 0 <= j < old_stack.len() && old_stack[j] == v;
                        if j < base.len() {
                            assert(stack@[j] == base[j]);
                        } else {
                            assert(v == m);
                        }
                    }
                }
                assert(seen@[from.0 - 1] || stack@.contains(from)) by {
                    if !seen@[from.0 - 1] {
                        let j = choose|j: int| 0 <= j < old_stack.len() && old_stack[j] == from;
                        if j < base.len() {
                            assert(stack@[j] == base[j]);
                        } else {
                            assert(from == m);
                        }
                    }
                }
                assert forall|j: int| 0 <= j < n && #[trigger] seen@[j] implies reaches(
                    g,
                    from,
                    NodeId((j + 1) as u64),
                    true,
                ) by {
                    if j != idx {
                        assert(old_seen[j]);
                    } else {
                        assert(m == NodeId((j + 1) as u64));
                    }
                }
            }
        }
        proof {
            assert forall|u: NodeId, v: NodeId|
                valid_id(g, u) && seen@[u.0 - 1] && #[trigger] has_edge(g, u, v, true) implies seen@[v.0 - 1] by {
                if !seen@[v.0 - 1] {
                    assert(stack@.contains(v));
                }
            }
            assert(seen@[from.0 - 1]);
            lemma_closed_unreachable(g, seen@, from, target, true);
        }
        false
    }

    /// Declare a dependency edge `from → to`.
    ///
    /// Retrocausal and algebraic edges are always accepted; a causal edge is
    /// refused when `from` is already causally reachable from `to`, since it
    /// would close a causal cycle outside a declared CTC region.
    pub fn add_dependency(&mut self, from: NodeId, to: NodeId, kind: DependencyKind) -> (r: Result<(), DagError>)
        requires
            old(self).wf(),
        ensures
            final(self).wf(),
            final(self).nodes_view() == old(self).nodes_view(),
            final(self).cascade_limit() == old(self).cascade_limit(),
            final(self).generation() == old(self).generation(),
            !old(self).contains(from) ==> r == Err::<(), DagError>(DagError::MissingNode(from)),
            old(self).contains(from) && !old(self).contains(to) ==> r == Err::<(), DagError>(
                DagError::MissingNode(to),
            ),
            old(self).contains(from) && old(self).contains(to) && kind == DependencyKind::Causal && reaches(
                old(self).adjacency(),
                to,
                from,
                true,
            ) ==> r == Err::<(), DagError>(DagError::StructuralCycle { from, to }),
            r is Ok <==> (old(self).contains(from) && old(self).contains(to) && !(kind
                == DependencyKind::Causal && reaches(old(self).adjacency(), to, from, true))),
            r is Ok ==> final(self).adjacency() == add_edge(old(self).adjacency(), from, Edge { to, kind }),
            r is Err ==> final(self).adjacency() == old(self).adjacency(),
    {
        if !(from.0 >= 1 && from.0 <= self.nodes.len() as u64) {
            return Err(DagError::MissingNode(from));
        }
        if !(to.0 >= 1 && to.0 <= self.nodes.len() as u64) {
            return Err(DagError::MissingNode(to));
        }
        if kind == DependencyKind::Causal && self.reaches_causal(to, from) {
            return Err(DagError::StructuralCycle { from, to });
        }
        let ghost g = self.adjacency();
        proof {
            lemma_add_edge_acyclic(g, from, Edge { to, kind });
        }
        let idx = (from.0 - 1) as usize;
        self.edges[idx].push(Edge { to, kind });
        assert(self.adjacency() =~= add_edge(g, from, Edge { to, kind }));
        Ok(())
    }

    /// Retroactive write: revise the payload at `addr` and cascade dirty bits
    /// to everything that depends on it.
    ///
    /// Sealed cells refuse the write; an unmapped address is an error.
    pub fn retro_write(&mut self, addr: SpacetimeAddr, value: V) -> (r: Result<CascadeReport, DagError>)
        requires
            old(self).wf(),
        ensures
            final(self).wf(),
            final(self).adjacency() == old(self).adjacency(),
            final(self).cascade_limit() == old(self).cascade_limit(),
            final(self).generation() == old(self).generation(),
            match old(self).lookup_id(addr) {
                None => r == Err::<CascadeReport, DagError>(DagError::UnmappedAddress(addr))
                    && final(self).nodes_view() == old(self).nodes_view(),
                Some(x) => if old(self).node_spec(x).sealed {
                    &&& r == Err::<CascadeReport, DagError>(
                        DagError::SealedEpoch { addr, revision: old(self).node_spec(x).state.revision },
                    )
                    &&& final(self).nodes_view() == old(self).nodes_view()
                } else {
                    &&& old(self).contains(x)
                    &&& cascade_outcome(
                        revised_at(old(self).nodes_view(), x, value),
                        final(self).nodes_view(),
                        old(self).adjacency(),
                        x,
                        old(self).cascade_limit(),
                        r,
                    )
                },
            },
    {
        let pos = self.newest_position(addr);
        let i = match pos {
            Some(i) => i,
            None => {
                return Err(DagError::UnmappedAddress(addr));
            },
        };
        if self.nodes[i].sealed {
            return Err(DagError::SealedEpoch { addr, revision: self.nodes[i].state.revision });
        }
        let id = self.nodes[i].id;
        let rev = self.nodes[i].state.revision.saturating_add(1);
        self.nodes[i].state.value = value;
        self.nodes[i].state.revision = rev;
        self.nodes[i].dirty = true;
        proof {
            assert(id == NodeId((i + 1) as u64));
            assert(self.nodes_view() =~= revised_at(old(self).nodes_view(), id, value));
            assert(self.adjacency() =~= old(self).adjacency());
        }
        let cascade = CascadeScheduler::new(self.cascade.max_depth);
        cascade.propagate(self, id)
    }

    /// Seal the cell an address resolves to against further revision.
    pub fn seal(&mut self, addr: SpacetimeAddr) -> (r: Result<(), DagError>)
        requires
            old(self).wf(),
        ensures
            final(self).wf(),
            final(self).adjacency() == old(self).adjacency(),
            final(self).cascade_limit() == old(self).cascade_limit(),
            final(self).generation() == old(self).generation(),
            match old(self).lookup_id(addr) {
                None => r == Err::<(), DagError>(DagError::UnmappedAddress(addr))
                    && final(self).nodes_view() == old(self).nodes_view(),
                Some(x) => r is Ok && final(self).nodes_view() == old(self).nodes_view().update(
                    x.0 - 1,
                    WorldlineNode { sealed: true, ..old(self).node_spec(x) },
                ),
            },
    {
        let pos = self.newest_position(addr);
        let i = match pos {
            Some(i) => i,
            None => {
                return Err(DagError::UnmappedAddress(addr));
            },
        };
        self.nodes[i].sealed = true;
        assert(self.adjacency() =~= old(self).adjacency());
        Ok(())
    }

    /// Dirty, unpruned nodes awaiting a kernel re-solve, by ascending identity.
    pub fn dirty_nodes(&self) -> (r: Vec<NodeId>)
        requires
            self.wf(),
        ensures
            r@ == dirty_prefix(self.nodes_view(), self.node_count() as int),
    {
        let mut out: Vec<NodeId> = Vec::new();
        let mut i: usize = 0;
        while i < self.nodes.len()
            invariant
                self.wf(),
                i <= self.nodes@.len(),
                out@ == dirty_prefix(self.nodes_view(), i as int),
            decreases self.nodes@.len() - i,
        {
            if self.nodes[i].dirty && !self.nodes[i].state.pruned {
                out.push(self.nodes[i].id);
            }
            i = i + 1;
        }
        out
    }

    /// Clear the dirty flags of the listed nodes after a fixed-point lock;
    /// identities that name no node are ignored.
    pub fn clear_dirty(&mut self, ids: &[NodeId])
        requires
            old(self).wf(),
        ensures
            final(self).wf(),
            final(self).adjacency() == old(self).adjacency(),
            final(self).cascade_limit() == old(self).cascade_limit(),
            final(self).generation() == old(self).generation(),
            flags_set(old(self).nodes_view(), final(self).nodes_view(), ids@, false),
    {
        self.set_flags(ids, false);
    }

    /// Mark the listed nodes pruned (and clean), then open a new branch
    /// generation; identities that name no node are ignored.
    pub fn prune_nodes(&mut self, ids: &[NodeId])
        requires
            old(self).wf(),
        ensures
            final(self).wf(),
            final(self).adjacency() == old(self).adjacency(),
            final(self).cascade_limit() == old(self).cascade_limit(),
            final(self).generation() == sat_inc(old(self).generation()),
            flags_set(old(self).nodes_view(), final(self).nodes_view(), ids@, true),
    {
        self.set_flags(ids, true);
        self.branch_generation = self.branch_generation.saturating_add(1);
    }

    fn set_flags(&mut self, ids: &[NodeId], prune: bool)
        requires
            old(self).wf(),
        ensures
            final(self).wf(),
            final(self).adjacency() == old(self).adjacency(),
            final(self).cascade_limit() == old(self).cascade_limit(),
            final(self).generation() == old(self).generation(),
            flags_set(old(self).nodes_view(), final(self).nodes_view(), ids@, prune),
    {
        let ghost before = self.nodes_view();
        let mut k: usize = 0;
        while k < ids.len()
            invariant
                self.wf(),
                k <= ids@.len(),
                self.adjacency() == old(self).adjacency(),
                self.cascade_limit() == old(self).cascade_limit(),
                self.generation() == old(self).generation(),
                before == old(self).nodes_view(),
                flags_set(before, self.nodes_view(), ids@.subrange(0, k as int), prune),
            decreases ids@.len() - k,
        {
            let id = ids[k];
            let ghost prev = self.nodes_view();
            if id.0 >= 1 && id.0 <= self.nodes.len() as u64 {
                let i = (id.0 - 1) as usize;
                if prune {
                    self.nodes[i].state.pruned = true;
                }
                self.nodes[i].dirty = false;
                assert(self.adjacency() =~= old(self).adjacency());
            }
            proof {
                let done = ids@.subrange(0, k + 1);
                assert forall|j: int| 0 <= j < before.len() implies #[trigger] self.nodes_view()[j] == (
                if done.contains(NodeId((j + 1) as u64)) {
                    if prune {
                        WorldlineNode {
                            state: NodeState { pruned: true, ..before[j].state },
                            dirty: false,
                            ..before[j]
                        }
                    } else {
                        WorldlineNode { dirty: false, ..before[j] }
                    }
                } else {
                    before[j]
                }) by {
                    let nid = NodeId((j + 1) as u64);
                    let prior = ids@.subrange(0, k as int);
                    assert(done == prior.push(id));
                    assert(prev[j] == (if prior.contains(nid) {
                        if prune {
                            WorldlineNode {
                                state: NodeState { pruned: true, ..before[j].state },
                                dirty: false,
                                ..before[j]
                            }
                        } else {
                            WorldlineNode { dirty: false, ..before[j] }
                        }
                    } else {
                        before[j]
                    }));
                    if prior.contains(nid) {
                        let q = choose|q: int| 0 <= q < prior.len() && prior[q] == nid;
                        assert(done[q] == nid);
                    }
                    if done.contains(nid) && !prior.contains(nid) {
                        let q = choose|q: int| 0 <= q < done.len() && done[q] == nid;
                        if q < prior.len() {
                            assert(prior[q] == nid);
                        }
                        assert(id == nid);
                    }
                    if id == nid {
                        assert(done[done.len() - 1] == nid);
                    }
                }
            }
            k = k + 1;
        }
        assert(ids@.subrange(0, ids@.len() as int) =~= ids@);
    }

    /// All retrocausal edges, by source identity then insertion order: the
    /// CTC region surface for the compiler.
    pub fn retrocausal_edges(&self) -> (r: Vec<(NodeId, NodeId)>)
        requires
            self.wf(),
        ensures
            r@ == retro_prefix(self.adjacency(), self.node_count() as int),
    {
        let ghost g = self.adjacency();
        let mut out: Vec<(NodeId, NodeId)> = Vec::new();
        let mut i: usize = 0;
        while i < self.edges.len()
            invariant
                self.wf(),
                g == self.adjacency(),
                g.len() == self.edges@.len(),
                i <= self.edges@.len(),
                out@ == retro_prefix(g, i as int),
            decreases self.edges@.len() - i,
        {
            let es = &self.edges[i];
            let from = self.nodes[i].id;
            assert(from == NodeId((i + 1) as u64));
            assert(es@ == g[i as int]);
            let ghost base = out@;
            let mut k: usize = 0;
            while k < es.len()
                invariant
                    k <= es@.len(),
                    out@ == base + retro_from(from, es@, k as int),
                decreases es@.len() - k,
            {
                if es[k].kind == DependencyKind::Retrocausal {
                    out.push((from, es[k].to));
                    assert(out@ =~= base + retro_from(from, es@, (k + 1) as int));
                } else {
                    assert(retro_from(from, es@, (k + 1) as int) == retro_from(from, es@, k as int));
                }
                k = k + 1;
            }
            i = i + 1;
        }
        out
    }

    /// Nodes that depend on `id` (targets of its outgoing edges, in order).
    pub fn dependents(&self, id: NodeId) -> (r: Vec<NodeId>)
        requires
            self.wf(),
        ensures
            self.contains(id) ==> r@ == out_edges(self.adjacency(), id).map_values(|e: Edge| e.to),
            !self.contains(id) ==> r@.len() == 0,
    {
        let mut out: Vec<NodeId> = Vec::new();
        if !(id.0 >= 1 && id.0 <= self.nodes.len() as u64) {
            return out;
        }
        let idx = (id.0 - 1) as usize;
        let es = &self.edges[idx];
        let ghost want = out_edges(self.adjacency(), id).map_values(|e: Edge| e.to);
        assert(es@ == out_edges(self.adjacency(), id));
        let mut k: usize = 0;
        while k < es.len()
            invariant
                k <= es@.len(),
                es@ == out_edges(self.adjacency(), id),
                want == es@.map_values(|e: Edge| e.to),
                out@ == want.subrange(0, k as int),
            decreases es@.len() - k,
        {
            out.push(es[k].to);
            k = k + 1;
            assert(out@ =~= want.subrange(0, k as int));
        }
        assert(out@ =~= want);
        out
    }
}

impl<V, W> WorldlineDag<V, W> {
    fn key_less(&self, x: usize, y: usize) -> (b: bool)
        requires
            x < self.nodes@.len(),
            y < self.nodes@.len(),
        ensures
            b == key_lt(self.nodes_view(), x as int, y as int),
    {
        let ax = self.nodes[x].addr;
        let ay = self.nodes[y].addr;
        if ax.address.0 < ay.address.0 {
            true
        } else if ax.address.0 > ay.address.0 {
            false
        } else if ax.tau.0 < ay.tau.0 {
            true
        } else if ax.tau.0 > ay.tau.0 {
            false
        } else {
            x < y
        }
    }

    /// Positions of the unpruned nodes, sorted by address with ties in
    /// allocation order (the order of a snapshot).
    pub fn snapshot_positions(&self) -> (r: Vec<usize>)
        requires
            self.wf(),
        ensures
            sorted_unpruned(self.nodes_view(), r@.map_values(|x: usize| x as int)),
            forall|a: int| 0 <= a < r@.len() ==> (#[trigger] r@[a]) < self.node_count(),
    {
        let ghost s = self.nodes_view();
        let n = self.nodes.len();
        let mut order: Vec<usize> = Vec::new();
        let mut i: usize = 0;
        while i < n
            invariant
                n == s.len(),
                s == self.nodes_view(),
                i <= n,
                forall|a: int| 0 <= a < order@.len() ==> (#[trigger] order@[a]) < i,
                forall|a: int, b: int| 0 <= a < b < order@.len() ==> #[trigger] order@[a] < #[trigger] order@[b],
                forall|x: int| 0 <= x < i ==> (!s[x].state.pruned <==> order@.contains(#[trigger] (x as usize))),
                forall|a: int| 0 <= a < order@.len() ==> !s[#[trigger] order@[a] as int].state.pruned,
            decreases n - i,
        {
            if !self.nodes[i].state.pruned {
                let ghost prev = order@;
                order.push(i);
                assert forall|x: int| 0 <= x < i + 1 implies (!s[x].state.pruned <==> order@.contains(
                    #[trigger] (x as usize),
                )) by {
                    if x < i && prev.contains(x as usize) {
                        let a = choose|a: int| 0 <= a < prev.len() && prev[a] == x as usize;
                        assert(order@[a] == x as usize);
                    }
                    if x < i && order@.contains(x as usize) {
                        let a = choose|a: int| 0 <= a < order@.len() && order@[a] == x as usize;
                        assert(a < prev.len());
                    }
                    if x == i {
                        assert(order@[order@.len() - 1] == i);
                    }
                }
            } else {
                assert forall|x: int| 0 <= x < i + 1 implies (!s[x].state.pruned <==> order@.contains(
                    #[trigger] (x as usize),
                )) by {
                    if x == i && order@.contains(x as usize) {
                        let a = choose|a: int| 0 <= a < order@.len() && order@[a] == x as usize;
                    }
                }
            }
            i = i + 1;
        }
        let ghost elems = order@;
        // insertion sort by (address, identity)
        let m = order.len();
        let mut i: usize = 1;
        while i < m
            invariant
                n == s.len(),
                s == self.nodes_view(),
                m == order@.len(),
                m == 0 || 1 <= i <= m,
                forall|a: int| 0 <= a < m ==> (#[trigger] order@[a]) < n,
                order@.no_duplicates(),
                forall|x: usize| #[trigger] order@.contains(x) <==> elems.contains(x),
                forall|a: int, b: int|
                    0 <= a < b < i ==> key_lt(s, #[trigger] order@[a] as int, #[trigger] order@[b] as int),
            decreases m - i,
        {
            let mut j = i;
            while j > 0 && self.key_less(order[j], order[j - 1])
                invariant
                    n == s.len(),
                    s == self.nodes_view(),
                    m == order@.len(),
                    0 <= j <= i < m,
                    forall|a: int| 0 <= a < m ==> (#[trigger] order@[a]) < n,
                    order@.no_duplicates(),
                    forall|x: usize| #[trigger] order@.contains(x) <==> elems.contains(x),
                    forall|a: int, b: int|
                        0 <= a < b <= i && a != j && b != j ==> key_lt(
                            s,
                            #[trigger] order@[a] as int,
                            #[trigger] order@[b] as int,
                        ),
                    forall|b: int| j < b <= i ==> key_lt(s, order@[j as int] as int, #[trigger] order@[b] as int),
                decreases j,
            {
                let ghost prev = order@;
                let x = order[j];
                let y = order[j - 1];
                order.set(j, y);
                order.set(j - 1, x);
                proof {
                    assert forall|z: usize| #[trigger] order@.contains(z) <==> prev.contains(z) by {
                        if order@.contains(z) {
                            let a = choose|a: int| 0 <= a < order@.len() && order@[a] == z;
                            if a == j {
                                assert(prev[j - 1] == z);
                            } else if a == j - 1 {
                                assert(prev[j as int] == z);
                            } else {
                                assert(prev[a] == z);
                            }
                        }
                        if prev.contains(z) {
                            let a = choose|a: int| 0 <= a < prev.len() && prev[a] == z;
                            if a == j {
                                assert(order@[j - 1] == z);
                            } else if a == j - 1 {
                                assert(order@[j as int] == z);
                            } else {
                                assert(order@[a] == z);
                            }
                        }
                    }
                    assert forall|a: int, b: int| 0 <= a < b < order@.len() implies order@[a] != order@[b] by {
                        let pa = if a == j { j - 1 } else if a == j - 1 { j as int } else { a };
                        let pb = if b == j { j - 1 } else if b == j - 1 { j as int } else { b };
                        assert(order@[a] == prev[pa] && order@[b] == prev[pb]);
                    }
                    assert forall|a: int, b: int|
                        0 <= a < b <= i && a != j - 1 && b != j - 1 implies key_lt(
                            s,
                            #[trigger] order@[a] as int,
                            #[trigger] order@[b] as int,
                        ) by {
                        if a == j {
                            assert(order@[a] == prev[j - 1]);
                            assert(order@[b] == prev[b]);
                            assert(key_lt(s, prev[j - 1] as int, prev[j as int] as int) || true);
                            assert(key_lt(s, prev[j - 1] as int, prev[b] as int));
                        } else if b == j {
                            assert(order@[b] == prev[j - 1]);
                            assert(order@[a] == prev[a]);
                            assert(key_lt(s, prev[a] as int, prev[j - 1] as int));
                        } else {
                            assert(order@[a] == prev[a] && order@[b] == prev[b]);
                        }
                    }
                    assert forall|b: int| j - 1 < b <= i implies key_lt(s, order@[j - 1] as int, #[trigger] order@[b] as int) by {
                        assert(order@[j - 1] == prev[j as int]);
                        if b == j {
                            assert(order@[b] == prev[j - 1]);
                        } else {
                            assert(order@[b] == prev[b]);
                        }
                    }
                }
                j = j - 1;
            }
            proof {
                assert forall|a: int, b: int|
                    0 <= a < b < i + 1 implies key_lt(s, #[trigger] order@[a] as int, #[trigger] order@[b] as int) by {
                    if b == j {
                        // order[a] < order[j - 1] < order[j] (or a == j - 1)
                        let pj = order@[j as int] as int;
                        let pjm = order@[j - 1] as int;
                        assert(!key_lt(s, pj, pjm));
                        assert(pj != pjm);
                        if a < j - 1 {
                            assert(key_lt(s, order@[a] as int, pjm));
                        }
                    } else if a == j {
                        assert(key_lt(s, order@[j as int] as int, order@[b] as int));
                    }
                }
            }
            i = i + 1;
        }
        proof {
            let ord = order@.map_values(|x: usize| x as int);
            assert forall|x: int| #[trigger] ord.contains(x) <==> (0 <= x < s.len() && !s[x].state.pruned) by {
                if ord.contains(x) {
                    let a = choose|a: int| 0 <= a < ord.len() && ord[a] == x;
                    assert(order@.contains(order@[a]));
                    assert(elems.contains(order@[a]));
                    assert(s[x] == s[order@[a] as int]);
                    let b = choose|b: int| 0 <= b < elems.len() && elems[b] == order@[a];
                }
                if 0 <= x < s.len() && !s[x].state.pruned {
                    assert(elems.contains(x as usize));
                    assert(order@.contains(x as usize));
                    let a = choose|a: int| 0 <= a < order@.len() && order@[a] == x as usize;
                    assert(ord[a] == x);
                }
            }
            assert(ord.no_duplicates()) by {
                assert forall|a: int, b: int| 0 <= a < b < ord.len() implies ord[a] != ord[b] by {
                    assert(order@[a] != order@[b]);
                }
            }
            assert forall|a: int, b: int| 0 <= a < b < ord.len() implies key_lt(s, #[trigger] ord[a], #[trigger] ord[b]) by {
                assert(ord[a] == order@[a] as int && ord[b] == order@[b] as int);
            }
        }
        order
    }

}

impl<V: Clone, W> WorldlineDag<V, W> {
    /// Apply a converged solution: `values[k]` becomes the payload of node
    /// `ids[k]` as a new, clean revision, unless that node is sealed: a
    /// sealed cell is frozen and keeps its state. Unequal lengths are refused up
    /// front (reported against identity 0); an identity naming no node stops
    /// the application there, leaving the earlier entries applied.
    pub fn apply_solution(&mut self, ids: &[NodeId], values: &[V]) -> (r: Result<(), DagError>)
        requires
            old(self).wf(),
        ensures
            final(self).wf(),
            final(self).adjacency() == old(self).adjacency(),
            final(self).cascade_limit() == old(self).cascade_limit(),
            final(self).generation() == old(self).generation(),
            ids@.len() != values@.len() ==> r == Err::<(), DagError>(DagError::MissingNode(NodeId(0)))
                && final(self).nodes_view() == old(self).nodes_view(),
            ids@.len() == values@.len() ==> (r is Ok <==> forall|q: int|
                0 <= q < ids@.len() ==> old(self).contains(#[trigger] ids@[q])),
            r is Ok ==> applied_upto(old(self).nodes_view(), final(self).nodes_view(), ids@, values@, ids@.len() as int),
            ids@.len() == values@.len() && r is Err ==> exists|k: int|
                0 <= k < ids@.len() && r == Err::<(), DagError>(DagError::MissingNode(ids@[k])) && !old(
                    self,
                ).contains(ids@[k]) && (forall|q: int| 0 <= q < k ==> old(self).contains(#[trigger] ids@[q]))
                    && applied_upto(old(self).nodes_view(), final(self).nodes_view(), ids@, values@, k),
    {
        if ids.len() != values.len() {
            return Err(DagError::MissingNode(NodeId(0)));
        }
        let ghost before = self.nodes_view();
        let mut k: usize = 0;
        while k < ids.len()
            invariant
                self.wf(),
                k <= ids@.len(),
                ids@.len() == values@.len(),
                self.adjacency() == old(self).adjacency(),
                self.cascade_limit() == old(self).cascade_limit(),
                self.generation() == old(self).generation(),
                before == old(self).nodes_view(),
                forall|q: int| 0 <= q < k ==> old(self).contains(#[trigger] ids@[q]),
                applied_upto(before, self.nodes_view(), ids@, values@, k as int),
            decreases ids@.len() - k,
        {
            let id = ids[k];
            if !(id.0 >= 1 && id.0 <= self.nodes.len() as u64) {
                return Err(DagError::MissingNode(id));
            }
            let ghost prev = self.nodes_view();
            let i = (id.0 - 1) as usize;
            if self.nodes[i].sealed {
                proof {
                    assert forall|j: int| 0 <= j < before.len() implies {
                        let c = occurrences(ids@, NodeId((j + 1) as u64), k + 1);
                        if c == 0 || before[j].sealed {
                            #[trigger] self.nodes_view()[j] == before[j]
                        } else {
                            &&& self.nodes_view()[j] == WorldlineNode {
                                state: NodeState {
                                    value: self.nodes_view()[j].state.value,
                                    revision: sat_add(before[j].state.revision, c),
                                    ..before[j].state
                                },
                                dirty: false,
                                ..before[j]
                            }
                            &&& cloned(
                                values@[last_occurrence(ids@, NodeId((j + 1) as u64), k + 1)],
                                self.nodes_view()[j].state.value,
                            )
                        }
                    } by {
                        let nid = NodeId((j + 1) as u64);
                        if j == i {
                            assert(nid == id);
                            assert(prev[j].sealed == before[j].sealed);
                        } else {
                            assert(nid != id);
                            assert(occurrences(ids@, nid, k + 1) == occurrences(ids@, nid, k as int));
                            assert(last_occurrence(ids@, nid, k + 1) == last_occurrence(ids@, nid, k as int));
                        }
                    }
                }
                k = k + 1;
                continue;
            }
            let v = values[k].clone();
            let rev = self.nodes[i].state.revision.saturating_add(1);
            self.nodes[i].state.value = v;
            self.nodes[i].state.revision = rev;
            self.nodes[i].dirty = false;
            proof {
                assert(self.adjacency() =~= old(self).adjacency());
                assert forall|j: int| 0 <= j < before.len() implies {
                    let c = occurrences(ids@, NodeId((j + 1) as u64), k + 1);
                    if c == 0 || before[j].sealed {
                        #[trigger] self.nodes_view()[j] == before[j]
                    } else {
                        &&& self.nodes_view()[j] == WorldlineNode {
                            state: NodeState {
                                value: self.nodes_view()[j].state.value,
                                revision: sat_add(before[j].state.revision, c),
                                ..before[j].state
                            },
                            dirty: false,
                            ..before[j]
                        }
                        &&& cloned(
                            values@[last_occurrence(ids@, NodeId((j + 1) as u64), k + 1)],
                            self.nodes_view()[j].state.value,
                        )
                    }
                } by {
                    let nid = NodeId((j + 1) as u64);
                    let c0 = occurrences(ids@, nid, k as int);
                    if j == i {
                        assert(nid == id);
                        assert(prev[j].sealed == before[j].sealed);
                        assert(occurrences(ids@, nid, k + 1) == c0 + 1);
                        assert(last_occurrence(ids@, nid, k + 1) == k);
                        if c0 == 0 {
                            assert(prev[j] == before[j]);
                        }
                    } else {
                        assert(nid != id);
                        assert(occurrences(ids@, nid, k + 1) == c0);
                        assert(last_occurrence(ids@, nid, k + 1) == last_occurrence(ids@, nid, k as int));
                        assert(self.nodes_view()[j] == prev[j]);
                    }
                }
            }
            k = k + 1;
        }
        Ok(())
    }
}

impl<V: Clone, W: Copy> WorldlineDag<V, W> {
    /// Commit the current unpruned state into a kernel-consumable snapshot,
    /// sorted by address; an all-pruned (or empty) fabric has none.
    pub fn snapshot(&self) -> (r: Result<WorldlineSnapshot<V, W>, DagError>)
        requires
            self.wf(),
        ensures
            r is Err <==> forall|i: int| 0 <= i < self.node_count() ==> (#[trigger] self.nodes_view()[i]).state.pruned,
            r matches Err(e) ==> e == DagError::EmptySnapshot,
            r matches Ok(snap) ==> snapshot_of(self.nodes_view(), snap.nodes@),
    {
        let ghost s = self.nodes_view();
        let n = self.nodes.len();
        let order = self.snapshot_positions();
        let m = order.len();
        let ghost ord = order@.map_values(|x: usize| x as int);
        if m == 0 {
            assert forall|x: int| 0 <= x < self.node_count() implies (#[trigger] self.nodes_view()[x]).state.pruned by {
                if !s[x].state.pruned {
                    assert(ord.contains(x));
                    let a = choose|a: int| 0 <= a < ord.len() && ord[a] == x;
                }
            }
            return Err(DagError::EmptySnapshot);
        }
        assert(ord.contains(ord[0]));
        let mut out: Vec<(SpacetimeAddr, V, W)> = Vec::new();
        let mut k: usize = 0;
        while k < m
            invariant
                n == s.len(),
                s == self.nodes_view(),
                m == order@.len(),
                k <= m,
                forall|a: int| 0 <= a < m ==> (#[trigger] order@[a]) < n,
                out@.len() == k,
                forall|a: int|
                    0 <= a < k ==> {
                        &&& (#[trigger] out@[a]).0 == s[order@[a] as int].addr
                        &&& cloned(s[order@[a] as int].state.value, out@[a].1)
                        &&& out@[a].2 == s[order@[a] as int].state.weight
                    },
            decreases m - k,
        {
            let idx = order[k];
            let v = self.nodes[idx].state.value.clone();
            out.push((self.nodes[idx].addr, v, self.nodes[idx].state.weight));
            k = k + 1;
        }
        proof {
            assert(!self.nodes_view()[ord[0]].state.pruned);
            assert(snapshot_of(s, out@)) by {
                assert(ord.len() == out@.len());
                assert forall|a: int| 0 <= a < ord.len() implies {
                    &&& (#[trigger] out@[a]).0 == s[ord[a]].addr
                    &&& cloned(s[ord[a]].state.value, out@[a].1)
                    &&& out@[a].2 == s[ord[a]].state.weight
                } by {
                    assert(ord[a] == order@[a] as int);
                }
            }
        }
        Ok(WorldlineSnapshot { nodes: out })
    }
}

pub proof fn lemma_count_all_false(s: Seq<bool>)
    requires
        forall|i: int| 0 <= i < s.len() ==> !s[i],
    ensures
        count_true(s) == 0,
    decreases s.len(),
{
    if s.len() > 0 {
        lemma_count_all_false(s.drop_last());
    }
}

impl<V, W> Default for WorldlineDag<V, W> {
    /// An empty fabric with the default cascade limit.
    fn default() -> (d: Self)
        ensures
            d.wf(),
            d.node_count() == 0,
            d.adjacency().len() == 0,
            d.cascade_limit() == 10_000,
            d.generation() == 0,
    {
        WorldlineDag::new()
    }
}

} // verus!
