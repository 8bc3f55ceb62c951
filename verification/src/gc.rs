use vstd::prelude::*;
use std::collections::HashSet;
use crate::addr::SpacetimeAddr;
use crate::node::NodeId;
use crate::worldline::{WorldlineDag, retro_prefix, newest_index, sorted_unpruned, lemma_newest_index};
use crate::node::WorldlineNode;

verus! {

broadcast use vstd::std_specs::hash::group_hash_axioms;

/// Counters of one collection cycle.
#[derive(Clone, Copy, Debug, Default)]
pub struct CollectionStats {
    pub nodes_pruned: usize,
    pub nodes_sealed: usize,
    pub checkpoints_created: usize,
    pub bytes_reclaimed_est: usize,
    pub branches_culled: usize,
}

/// Errors of the timeline collector.
#[derive(Clone, Debug)]
pub enum GcError {
    /// A retrocausal IPC pin is held on the node.
    PinnedNode(u64),
    /// The checkpoint store is full.
    CheckpointOverflow(usize),
    /// Worldline fabric error during collection.
    Dag(String),
    /// The branch is active and cannot be culled.
    ActiveBranchProtected(u64),
}

/// Pins protect nodes that take part in active retrocausal IPC channels.
#[derive(Debug)]
pub struct RetrocausalPinSet {
    pins: HashSet<u64>,
}

impl View for RetrocausalPinSet {
    type V = Set<NodeId>;

    closed spec fn view(&self) -> Set<NodeId> {
        Set::new(|id: NodeId| self.pins@.contains(id.0))
    }
}

/// Endpoints of the retrocausal edges of a fabric.
pub open spec fn retro_endpoints(edges: Seq<(NodeId, NodeId)>) -> Set<NodeId> {
    Set::new(|id: NodeId| exists|k: int| 0 <= k < edges.len() && (#[trigger] edges[k].0 == id || edges[k].1 == id))
}

impl RetrocausalPinSet {
    /// No pins.
    pub fn new() -> (p: Self)
        ensures
            p@ == Set::<NodeId>::empty(),
    {
        let p = RetrocausalPinSet { pins: HashSet::new() };
        assert(p@ =~= Set::<NodeId>::empty());
        p
    }

    pub fn pin(&mut self, id: NodeId)
        ensures
            final(self)@ == old(self)@.insert(id),
    {
        self.pins.insert(id.0);
        assert(self@ =~= old(self)@.insert(id));
    }

    pub fn unpin(&mut self, id: NodeId)
        ensures
            final(self)@ == old(self)@.remove(id),
    {
        self.pins.remove(&id.0);
        assert(self@ =~= old(self)@.remove(id));
    }

    pub fn is_pinned(&self, id: NodeId) -> (b: bool)
        ensures
            b == self@.contains(id),
    {
        self.pins.contains(&id.0)
    }

    /// Pin exactly the endpoints of the fabric's retrocausal edges.
    pub fn refresh_from_dag<V, W>(&mut self, dag: &WorldlineDag<V, W>)
        requires
            dag.wf(),
        ensures
            final(self)@ == retro_endpoints(retro_prefix(dag.adjacency(), dag.node_count() as int)),
    {
        self.pins.clear();
        let edges = dag.retrocausal_edges();
        let ghost es = edges@;
        let mut k: usize = 0;
        while k < edges.len()
            invariant
                es == edges@,
                k <= es.len(),
                self@ == retro_endpoints(es.take(k as int)),
            decreases es.len() - k,
        {
            let (a, b) = edges[k];
            self.pins.insert(a.0);
            self.pins.insert(b.0);
            proof {
                let now = retro_endpoints(es.take(k + 1));
                let before = retro_endpoints(es.take(k as int));
                assert forall|id: NodeId| self@.contains(id) <==> now.contains(id) by {
                    if before.contains(id) {
                        let q = choose|q: int| 0 <= q < es.take(k as int).len() && (#[trigger] es.take(k as int)[q].0 == id
                            || es.take(k as int)[q].1 == id);
                        assert(es.take(k + 1)[q] == es.take(k as int)[q]);
                    }
                    if now.contains(id) {
                        let q = choose|q: int| 0 <= q < es.take(k + 1).len() && (#[trigger] es.take(k + 1)[q].0 == id
                            || es.take(k + 1)[q].1 == id);
                        assert(0 <= q < k + 1);
                        assert(es.take(k + 1)[q] == es[q]);
                        if q < k {
                            assert(es.take(k as int)[q] == es[q]);
                            assert(before.contains(id));
                        }
                    }
                    if id == a || id == b {
                        assert(es.take(k + 1)[k as int] == es[k as int]);
                    }
                }
                assert(self@ =~= now);
            }
            k = k + 1;
        }
        assert(es.take(es.len() as int) =~= es);
    }
}

impl Default for RetrocausalPinSet {
    fn default() -> (p: Self)
        ensures
            p@ == Set::<NodeId>::empty(),
    {
        RetrocausalPinSet::new()
    }
}


/// Largest epoch among the unpruned nodes of `s[..k]`, if any.
pub open spec fn max_unpruned_tau<V, W>(s: Seq<WorldlineNode<V, W>>, k: int) -> Option<i64>
    decreases k,
{
    if k <= 0 {
        None
    } else {
        let rest = max_unpruned_tau(s, k - 1);
        if s[k - 1].state.pruned {
            rest
        } else {
            match rest {
                None => Some(s[k - 1].addr.tau.0),
                Some(t) => Some(if t >= s[k - 1].addr.tau.0 { t } else { s[k - 1].addr.tau.0 }),
            }
        }
    }
}

/// The newest epoch of the live (unpruned) fabric, or 0 when nothing is live.
pub fn max_epoch<V, W>(dag: &WorldlineDag<V, W>) -> (t: i64)
    requires
        dag.wf(),
    ensures
        t == match max_unpruned_tau(dag.nodes_view(), dag.node_count() as int) {
            Some(m) => m,
            None => 0,
        },
{
    let mut best: Option<i64> = None;
    let n = dag.len();
    let mut k: usize = 0;
    while k < n
        invariant
            dag.wf(),
            n == dag.node_count(),
            k <= n,
            best == max_unpruned_tau(dag.nodes_view(), k as int),
        decreases n - k,
    {
        let nd = dag.node(NodeId((k + 1) as u64)).unwrap();
        assert(*nd == dag.nodes_view()[k as int]);
        if !nd.state.pruned {
            let t = nd.addr.tau.0;
            best = match best {
                None => Some(t),
                Some(b) => Some(if b >= t { b } else { t }),
            };
        }
        k = k + 1;
    }
    match best {
        Some(m) => m,
        None => 0,
    }
}

/// The compression candidates among the first `k` positions of a snapshot
/// order: for each live cell at or before `horizon`, the node its address
/// resolves to, when that node is unpinned and either sealed or clean.
pub open spec fn compressable_from<V, W>(
    s: Seq<WorldlineNode<V, W>>,
    order: Seq<int>,
    k: int,
    horizon: i64,
    pins: Set<NodeId>,
) -> Seq<NodeId>
    decreases k,
{
    if k <= 0 {
        Seq::empty()
    } else {
        let rest = compressable_from(s, order, k - 1, horizon, pins);
        let addr = s[order[k - 1]].addr;
        if addr.tau.0 > horizon {
            rest
        } else {
            match newest_index(s, addr, s.len() as int) {
                Some(i) => {
                    let id = NodeId((i + 1) as u64);
                    if pins.contains(id) {
                        rest
                    } else if s[i].sealed || !s[i].dirty {
                        rest.push(id)
                    } else {
                        rest
                    }
                },
                None => rest,
            }
        }
    }
}

/// Nodes the collector may compress into a checkpoint, in snapshot order.
pub fn collect_compressable<V, W>(dag: &WorldlineDag<V, W>, horizon: i64, pins: &RetrocausalPinSet) -> (r: Vec<NodeId>)
    requires
        dag.wf(),
    ensures
        exists|order: Seq<int>|
            sorted_unpruned(dag.nodes_view(), order) && r@ == compressable_from(
                dag.nodes_view(),
                order,
                order.len() as int,
                horizon,
                pins@,
            ),
{
    proof {
        dag.lemma_wf_structure();
    }
    let order = dag.snapshot_positions();
    let ghost ord = order@.map_values(|x: usize| x as int);
    let ghost s = dag.nodes_view();
    let mut out: Vec<NodeId> = Vec::new();
    let mut k: usize = 0;
    while k < order.len()
        invariant
            dag.wf(),
            s == dag.nodes_view(),
            ord == order@.map_values(|x: usize| x as int),
            forall|a: int| 0 <= a < order@.len() ==> (#[trigger] order@[a]) < dag.node_count(),
            k <= order@.len(),
            out@ == compressable_from(s, ord, k as int, horizon, pins@),
            dag.node_count() + 1 <= u64::MAX,
        decreases order@.len() - k,
    {
        let p = order[k];
        let nd = dag.node(NodeId(p as u64 + 1)).unwrap();
        assert(*nd == s[ord[k as int]]);
        let addr = nd.addr;
        if addr.tau.0 <= horizon {
            match dag.node_id(addr) {
                Some(id) => {
                    proof {
                        lemma_newest_index(s, addr, s.len() as int);
                    }
                    if !pins.is_pinned(id) {
                        let m = dag.node(id).unwrap();
                        if m.sealed || !m.dirty {
                            out.push(id);
                        }
                    }
                },
                None => {},
            }
        }
        k = k + 1;
    }
    out
}

/// Debris: a live dirty node, or a pruned node that some live cell's
/// address still resolves to.
pub open spec fn is_debris<V, W>(s: Seq<WorldlineNode<V, W>>, j: int) -> bool {
    ||| s[j].dirty && !s[j].state.pruned
    ||| s[j].state.pruned && newest_index(s, s[j].addr, s.len() as int) == Some(j) && exists|u: int|
        0 <= u < s.len() && !s[u].state.pruned && #[trigger] s[u].addr == s[j].addr
}

/// Identities of the debris nodes among the first `k`, ascending.
pub open spec fn debris_prefix<V, W>(s: Seq<WorldlineNode<V, W>>, k: int) -> Seq<NodeId>
    decreases k,
{
    if k <= 0 {
        Seq::empty()
    } else if is_debris(s, k - 1) {
        debris_prefix(s, k - 1).push(NodeId(k as u64))
    } else {
        debris_prefix(s, k - 1)
    }
}

/// Paradox debris awaiting a re-prune, by ascending identity, each once.
pub fn debris_nodes<V, W>(dag: &WorldlineDag<V, W>) -> (r: Vec<NodeId>)
    requires
        dag.wf(),
    ensures
        r@ == debris_prefix(dag.nodes_view(), dag.node_count() as int),
{
    let ghost s = dag.nodes_view();
    let n = dag.len();
    let mut out: Vec<NodeId> = Vec::new();
    let mut j: usize = 0;
    while j < n
        invariant
            dag.wf(),
            s == dag.nodes_view(),
            n == s.len(),
            j <= n,
            out@ == debris_prefix(s, j as int),
        decreases n - j,
    {
        let id = NodeId((j + 1) as u64);
        let nd = dag.node(id).unwrap();
        assert(*nd == s[j as int]);
        let mut debris = nd.dirty && !nd.state.pruned;
        if !debris && nd.state.pruned {
            let is_newest = match dag.node_id(nd.addr) {
                Some(x) => x == id,
                None => false,
            };
            proof {
                dag.lemma_wf_structure();
                lemma_newest_index(s, nd.addr, s.len() as int);
            }
            assert(is_newest <==> newest_index(s, s[j as int].addr, s.len() as int) == Some(j as int));
            if is_newest {
                let mut u: usize = 0;
                let mut live = false;
                while u < n
                    invariant
                        dag.wf(),
                        s == dag.nodes_view(),
                        n == s.len(),
                        u <= n,
                        *nd == s[j as int],
                        live <==> exists|q: int| 0 <= q < u && !s[q].state.pruned && #[trigger] s[q].addr == nd.addr,
                    decreases n - u,
                {
                    let other = dag.node(NodeId((u + 1) as u64)).unwrap();
                    assert(*other == s[u as int]);
                    if !other.state.pruned && other.addr == nd.addr {
                        live = true;
                    }
                    u = u + 1;
                }
                debris = live;
            }
        }
        if debris {
            out.push(id);
        }
        j = j + 1;
    }
    out
}

} // verus!
