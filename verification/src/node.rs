use vstd::prelude::*;
use crate::addr::SpacetimeAddr;

verus! {

/// Stable identity of a worldline node within a worldline DAG.
///
/// Identities are handed out densely, starting at 1, in allocation order.
#[derive(Clone, Copy, Debug, PartialEq, Eq, Structural, Hash, PartialOrd, Ord)]
pub struct NodeId(pub u64);

/// Payload carried by a spacetime cell.
///
/// `value` is the chronal register payload and `weight` the probability mass
/// when the node is one of several fixed points; both are carried opaquely by
/// the fabric. `revision` counts retro-write revisions and `pruned` marks
/// nodes invalidated by the paradox pruner.
#[derive(Clone, Debug)]
pub struct NodeState<V, W> {
    pub value: V,
    pub weight: W,
    pub revision: u64,
    pub pruned: bool,
}

impl<V, W> NodeState<V, W> {
    /// A fresh, unrevised, unpruned state.
    pub fn new(value: V, weight: W) -> (s: Self)
        ensures
            s.value == value,
            s.weight == weight,
            s.revision == 0,
            !s.pruned,
    {
        NodeState { value, weight, revision: 0, pruned: false }
    }

    /// The same state with its weight replaced.
    pub fn with_weight(self, weight: W) -> (s: Self)
        ensures
            s.value == self.value,
            s.weight == weight,
            s.revision == self.revision,
            s.pruned == self.pruned,
    {
        NodeState { value: self.value, weight, revision: self.revision, pruned: self.pruned }
    }
}

/// `x + 1`, saturating at `u64::MAX`.
pub open spec fn sat_inc(x: u64) -> u64 {
    if x == u64::MAX { x } else { (x + 1) as u64 }
}

/// `x + c`, saturating at `u64::MAX`.
pub open spec fn sat_add(x: u64, c: nat) -> u64 {
    if x + c >= u64::MAX { u64::MAX } else { (x + c) as u64 }
}

/// Worldline node at spacetime coordinate `(a, τ)`.
#[derive(Clone, Debug)]
pub struct WorldlineNode<V, W> {
    pub id: NodeId,
    pub addr: SpacetimeAddr,
    pub state: NodeState<V, W>,
    /// When sealed, further in-place revision is forbidden; only successor
    /// epochs may be allocated.
    pub sealed: bool,
    /// Dirty flag set by cascade propagation pending kernel re-solve.
    pub dirty: bool,
}

impl<V, W> WorldlineNode<V, W> {
    pub fn new(id: NodeId, addr: SpacetimeAddr, state: NodeState<V, W>) -> (n: Self)
        ensures
            n.id == id,
            n.addr == addr,
            n.state == state,
            !n.sealed,
            !n.dirty,
    {
        WorldlineNode { id, addr, state, sealed: false, dirty: false }
    }
}

impl<V, W: Copy> WorldlineNode<V, W> {
    /// Produce a successor revision with an updated payload; the node it came
    /// from is left untouched.
    pub fn revise(&self, value: V) -> (n: Self)
        ensures
            n.id == self.id,
            n.addr == self.addr,
            n.state.value == value,
            n.state.weight == self.state.weight,
            n.state.revision == sat_inc(self.state.revision),
            n.state.pruned == self.state.pruned,
            n.sealed == self.sealed,
            !n.dirty,
    {
        WorldlineNode {
            id: self.id,
            addr: self.addr,
            state: NodeState {
                value,
                weight: self.state.weight,
                revision: self.state.revision.saturating_add(1),
                pruned: self.state.pruned,
            },
            sealed: self.sealed,
            dirty: false,
        }
    }
}

} // verus!
