use vstd::prelude::*;
use crate::node::NodeId;

verus! {

/// Classification of a worldline edge.
#[derive(Clone, Copy, Debug, PartialEq, Eq, Structural, Hash)]
pub enum DependencyKind {
    /// Forward-in-time dataflow.
    Causal,
    /// Backward-in-time dataflow across a CTC.
    Retrocausal,
    /// Intra-epoch algebraic coupling inside a nonlinear block.
    Algebraic,
}

/// Outgoing dependency edge.
#[derive(Clone, Copy, Debug, PartialEq, Eq, Structural)]
pub struct Edge {
    pub to: NodeId,
    pub kind: DependencyKind,
}

/// Adjacency of a fabric: entry `i` lists the outgoing edges of node `i + 1`.
pub type Adjacency = Seq<Seq<Edge>>;

pub open spec fn valid_id(g: Adjacency, id: NodeId) -> bool {
    1 <= id.0 <= g.len()
}

/// The edges that a traversal follows: all of them, or the causal ones only.
pub open spec fn follows(e: Edge, causal_only: bool) -> bool {
    !causal_only || e.kind == DependencyKind::Causal
}

pub open spec fn out_edges(g: Adjacency, u: NodeId) -> Seq<Edge> {
    g[u.0 - 1]
}

/// There is a followed edge `u → v`.
pub open spec fn has_edge(g: Adjacency, u: NodeId, v: NodeId, causal_only: bool) -> bool {
    &&& valid_id(g, u)
    &&& exists|k: int|
        0 <= k < out_edges(g, u).len() && #[trigger] out_edges(g, u)[k].to == v && follows(
            out_edges(g, u)[k],
            causal_only,
        )
}

/// A non-empty sequence of nodes linked by followed edges.
pub open spec fn is_walk(g: Adjacency, p: Seq<NodeId>, causal_only: bool) -> bool {
    &&& p.len() >= 1
    &&& forall|i: int| 0 <= i < p.len() ==> valid_id(g, #[trigger] p[i])
    &&& forall|i: int| 0 <= i < p.len() - 1 ==> has_edge(g, #[trigger] p[i], p[i + 1], causal_only)
}

/// `b` is reachable from `a` (every valid node reaches itself).
pub open spec fn reaches(g: Adjacency, a: NodeId, b: NodeId, causal_only: bool) -> bool {
    exists|p: Seq<NodeId>| #[trigger] is_walk(g, p, causal_only) && p[0] == a && p.last() == b
}

/// No causal cycle: for every causal edge `u → v`, `u` is not causally
/// reachable from `v`.
pub open spec fn causal_acyclic(g: Adjacency) -> bool {
    forall|u: NodeId, v: NodeId| #[trigger]
        has_edge(g, u, v, true) ==> !reaches(g, v, u, true)
}

/// Every edge target is a node of the fabric.
pub open spec fn targets_valid(g: Adjacency) -> bool {
    forall|i: int, k: int|
        0 <= i < g.len() && 0 <= k < g[i].len() ==> valid_id(g, #[trigger] g[i][k].to)
}

/// Number of `true` entries.
pub open spec fn count_true(s: Seq<bool>) -> nat
    decreases s.len(),
{
    if s.len() == 0 {
        0
    } else {
        count_true(s.drop_last()) + if s.last() {
            1nat
        } else {
            0nat
        }
    }
}

/// Membership vector of the nodes reachable from `origin`.
pub open spec fn reach_vector(g: Adjacency, origin: NodeId, causal_only: bool) -> Seq<bool> {
    Seq::new(g.len(), |i: int| reaches(g, origin, NodeId((i + 1) as u64), causal_only))
}

/// Number of nodes reachable from `origin` (including itself).
pub open spec fn reach_count(g: Adjacency, origin: NodeId, causal_only: bool) -> nat {
    count_true(reach_vector(g, origin, causal_only))
}

pub proof fn lemma_single_walk(g: Adjacency, a: NodeId, causal_only: bool)
    requires
        valid_id(g, a),
    ensures
        reaches(g, a, a, causal_only),
{
    let p = seq![a];
    assert(is_walk(g, p, causal_only));
}

/// A walk extended by one followed edge is a walk.
pub proof fn lemma_reach_step(g: Adjacency, a: NodeId, b: NodeId, c: NodeId, causal_only: bool)
    requires
        reaches(g, a, b, causal_only),
        has_edge(g, b, c, causal_only),
        valid_id(g, c),
    ensures
        reaches(g, a, c, causal_only),
{
    let p = choose|p: Seq<NodeId>| #[trigger] is_walk(g, p, causal_only) && p[0] == a && p.last() == b;
    let q = p.push(c);
    assert forall|i: int| 0 <= i < q.len() - 1 implies has_edge(g, #[trigger] q[i], q[i + 1], causal_only) by {
        if i < p.len() - 1 {
            assert(q[i] == p[i] && q[i + 1] == p[i + 1]);
        }
    }
    assert(is_walk(g, q, causal_only));
}

/// A followed edge preceded by a walk: `a → b ⇝ c` gives `a ⇝ c`.
pub proof fn lemma_reach_prepend(g: Adjacency, a: NodeId, b: NodeId, c: NodeId, causal_only: bool)
    requires
        has_edge(g, a, b, causal_only),
        reaches(g, b, c, causal_only),
    ensures
        reaches(g, a, c, causal_only),
{
    let p = choose|p: Seq<NodeId>| #[trigger] is_walk(g, p, causal_only) && p[0] == b && p.last() == c;
    let q = seq![a] + p;
    assert forall|i: int| 0 <= i < q.len() implies valid_id(g, #[trigger] q[i]) by {
        if i > 0 {
            assert(q[i] == p[i - 1]);
        }
    }
    assert forall|i: int| 0 <= i < q.len() - 1 implies has_edge(g, #[trigger] q[i], q[i + 1], causal_only) by {
        if i > 0 {
            assert(q[i] == p[i - 1] && q[i + 1] == p[i]);
        }
    }
    assert(is_walk(g, q, causal_only));
    assert(q.last() == p.last());
}

/// Reachability is transitive.
pub proof fn lemma_reach_trans(g: Adjacency, a: NodeId, b: NodeId, c: NodeId, causal_only: bool)
    requires
        reaches(g, a, b, causal_only),
        reaches(g, b, c, causal_only),
    ensures
        reaches(g, a, c, causal_only),
{
    let p = choose|p: Seq<NodeId>| #[trigger] is_walk(g, p, causal_only) && p[0] == a && p.last() == b;
    lemma_reach_trans_walk(g, p, c, causal_only);
}

proof fn lemma_reach_trans_walk(g: Adjacency, p: Seq<NodeId>, c: NodeId, causal_only: bool)
    requires
        is_walk(g, p, causal_only),
        reaches(g, p.last(), c, causal_only),
    ensures
        reaches(g, p[0], c, causal_only),
    decreases p.len(),
{
    if p.len() > 1 {
        let r = p.drop_last();
        assert(is_walk(g, r, causal_only)) by {
            assert forall|i: int| 0 <= i < r.len() - 1 implies has_edge(g, #[trigger] r[i], r[i + 1], causal_only) by {
                assert(r[i] == p[i] && r[i + 1] == p[i + 1]);
            }
        }
        assert(has_edge(g, p[p.len() - 2], p[p.len() - 1], causal_only));
        lemma_reach_prepend(g, p[p.len() - 2], p.last(), c, causal_only);
        assert(r.last() == p[p.len() - 2]);
        lemma_reach_trans_walk(g, r, c, causal_only);
    }
}

/// A walk that starts inside a set closed under followed edges stays inside it.
pub proof fn lemma_closed_walk(g: Adjacency, inside: Seq<bool>, p: Seq<NodeId>, causal_only: bool)
    requires
        inside.len() == g.len(),
        is_walk(g, p, causal_only),
        inside[p[0].0 - 1],
        forall|u: NodeId, v: NodeId|
            valid_id(g, u) && inside[u.0 - 1] && #[trigger] has_edge(g, u, v, causal_only) ==> inside[v.0 - 1],
    ensures
        forall|i: int| 0 <= i < p.len() ==> inside[#[trigger] p[i].0 - 1],
    decreases p.len(),
{
    if p.len() > 1 {
        let r = p.drop_last();
        assert(is_walk(g, r, causal_only)) by {
            assert forall|i: int| 0 <= i < r.len() - 1 implies has_edge(g, #[trigger] r[i], r[i + 1], causal_only) by {
                assert(r[i] == p[i] && r[i + 1] == p[i + 1]);
            }
        }
        lemma_closed_walk(g, inside, r, causal_only);
        assert forall|i: int| 0 <= i < p.len() implies inside[#[trigger] p[i].0 - 1] by {
            if i < p.len() - 1 {
                assert(p[i] == r[i]);
            } else {
                assert(r[i - 1] == p[i - 1]);
                assert(has_edge(g, p[i - 1], p[i], causal_only));
            }
        }
    }
}

/// Nothing outside a closed set that contains `a` is reachable from `a`.
pub proof fn lemma_closed_unreachable(
    g: Adjacency,
    inside: Seq<bool>,
    a: NodeId,
    b: NodeId,
    causal_only: bool,
)
    requires
        inside.len() == g.len(),
        valid_id(g, a),
        valid_id(g, b),
        inside[a.0 - 1],
        !inside[b.0 - 1],
        forall|u: NodeId, v: NodeId|
            valid_id(g, u) && inside[u.0 - 1] && #[trigger] has_edge(g, u, v, causal_only) ==> inside[v.0 - 1],
    ensures
        !reaches(g, a, b, causal_only),
{
    if reaches(g, a, b, causal_only) {
        let p = choose|p: Seq<NodeId>| #[trigger] is_walk(g, p, causal_only) && p[0] == a && p.last() == b;
        lemma_closed_walk(g, inside, p, causal_only);
        assert(inside[p[p.len() - 1].0 - 1]);
    }
}

/// Counting `true` entries: bounded by the length.
pub proof fn lemma_count_le_len(s: Seq<bool>)
    ensures
        count_true(s) <= s.len(),
    decreases s.len(),
{
    if s.len() > 0 {
        lemma_count_le_len(s.drop_last());
    }
}

/// Setting one `false` entry to `true` raises the count by one.
pub proof fn lemma_count_set(s: Seq<bool>, i: int)
    requires
        0 <= i < s.len(),
        !s[i],
    ensures
        count_true(s.update(i, true)) == count_true(s) + 1,
    decreases s.len(),
{
    let t = s.update(i, true);
    if i == s.len() - 1 {
        assert(t.drop_last() =~= s.drop_last());
    } else {
        assert(t.drop_last() =~= s.drop_last().update(i, true));
        lemma_count_set(s.drop_last(), i);
    }
}

/// If `a` implies `b` pointwise and `b` has a `true` where `a` has not,
/// `b` counts strictly more.
pub proof fn lemma_count_strict(a: Seq<bool>, b: Seq<bool>, j: int)
    requires
        a.len() == b.len(),
        forall|i: int| 0 <= i < a.len() && #[trigger] a[i] ==> b[i],
        0 <= j < a.len(),
        b[j],
        !a[j],
    ensures
        count_true(b) >= count_true(a) + 1,
    decreases a.len(),
{
    lemma_count_mono(a.update(j, true), b);
    lemma_count_set(a, j);
}

/// Pointwise implication gives a smaller or equal count.
pub proof fn lemma_count_mono(a: Seq<bool>, b: Seq<bool>)
    requires
        a.len() == b.len(),
        forall|i: int| 0 <= i < a.len() && #[trigger] a[i] ==> b[i],
    ensures
        count_true(a) <= count_true(b),
    decreases a.len(),
{
    if a.len() > 0 {
        let a2 = a.drop_last();
        let b2 = b.drop_last();
        assert forall|i: int| 0 <= i < a2.len() && #[trigger] a2[i] implies b2[i] by {
            assert(a2[i] == a[i] && b2[i] == b[i]);
        }
        lemma_count_mono(a2, b2);
    }
}

/// Walks of a fabric extended by a fresh node without edges are the old
/// walks, as long as they start at an old node.
pub proof fn lemma_push_isolated_walk(g: Adjacency, p: Seq<NodeId>, causal_only: bool)
    requires
        targets_valid(g),
        is_walk(g.push(Seq::empty()), p, causal_only),
        valid_id(g, p[0]),
    ensures
        is_walk(g, p, causal_only),
    decreases p.len(),
{
    let h = g.push(Seq::empty());
    if p.len() > 1 {
        let r = p.drop_last();
        assert(is_walk(h, r, causal_only)) by {
            assert forall|i: int| 0 <= i < r.len() - 1 implies has_edge(h, #[trigger] r[i], r[i + 1], causal_only) by {
                assert(r[i] == p[i] && r[i + 1] == p[i + 1]);
            }
        }
        lemma_push_isolated_walk(g, r, causal_only);
        let u = p[p.len() - 2];
        let v = p[p.len() - 1];
        assert(has_edge(h, u, v, causal_only));
        assert(u == r[r.len() - 1]);
        assert(valid_id(g, u));
        assert(out_edges(h, u) == out_edges(g, u));
        let k = choose|k: int|
            0 <= k < out_edges(h, u).len() && #[trigger] out_edges(h, u)[k].to == v && follows(
                out_edges(h, u)[k],
                causal_only,
            );
        assert(valid_id(g, g[u.0 - 1][k].to));
        assert(has_edge(g, u, v, causal_only));
        assert forall|i: int| 0 <= i < p.len() implies valid_id(g, #[trigger] p[i]) by {
            if i < p.len() - 1 {
                assert(p[i] == r[i]);
            }
        }
        assert forall|i: int| 0 <= i < p.len() - 1 implies has_edge(g, #[trigger] p[i], p[i + 1], causal_only) by {
            if i < p.len() - 2 {
                assert(p[i] == r[i] && p[i + 1] == r[i + 1]);
            }
        }
    }
}

/// Adding a node without edges keeps the causal order acyclic and every
/// edge target valid.
pub proof fn lemma_push_isolated(g: Adjacency)
    requires
        targets_valid(g),
        causal_acyclic(g),
    ensures
        targets_valid(g.push(Seq::empty())),
        causal_acyclic(g.push(Seq::empty())),
{
    let h = g.push(Seq::empty());
    assert forall|i: int, k: int| 0 <= i < h.len() && 0 <= k < h[i].len() implies valid_id(h, #[trigger] h[i][k].to) by {
        assert(i < g.len());
        assert(h[i] == g[i]);
        assert(valid_id(g, g[i][k].to));
    }
    assert forall|u: NodeId, v: NodeId| #[trigger] has_edge(h, u, v, true) implies !reaches(h, v, u, true) by {
        assert(valid_id(g, u));
        assert(out_edges(h, u) == out_edges(g, u));
        let k = choose|k: int|
            0 <= k < out_edges(h, u).len() && #[trigger] out_edges(h, u)[k].to == v && follows(
                out_edges(h, u)[k],
                true,
            );
        assert(valid_id(g, g[u.0 - 1][k].to));
        assert(has_edge(g, u, v, true));
        if reaches(h, v, u, true) {
            let p = choose|p: Seq<NodeId>| #[trigger] is_walk(h, p, true) && p[0] == v && p.last() == u;
            lemma_push_isolated_walk(g, p, true);
            assert(reaches(g, v, u, true));
        }
    }
}


/// The fabric with edge `e` appended to the outgoing list of `from`.
pub open spec fn add_edge(g: Adjacency, from: NodeId, e: Edge) -> Adjacency {
    g.update(from.0 - 1, g[from.0 - 1].push(e))
}

pub proof fn lemma_add_edge_has_edge(
    g: Adjacency,
    from: NodeId,
    e: Edge,
    u: NodeId,
    v: NodeId,
    causal_only: bool,
)
    requires
        valid_id(g, from),
    ensures
        has_edge(add_edge(g, from, e), u, v, causal_only) <==> (has_edge(g, u, v, causal_only) || (
        u == from && v == e.to && follows(e, causal_only))),
{
    let h = add_edge(g, from, e);
    if valid_id(g, u) {
        if u == from {
            assert(out_edges(h, u) == out_edges(g, u).push(e));
            if has_edge(g, u, v, causal_only) {
                let k = choose|k: int|
                    0 <= k < out_edges(g, u).len() && #[trigger] out_edges(g, u)[k].to == v
                        && follows(out_edges(g, u)[k], causal_only);
                assert(out_edges(h, u)[k] == out_edges(g, u)[k]);
            }
            if v == e.to && follows(e, causal_only) {
                let k = out_edges(g, u).len() as int;
                assert(out_edges(h, u)[k] == e);
            }
            if has_edge(h, u, v, causal_only) {
                let k = choose|k: int|
                    0 <= k < out_edges(h, u).len() && #[trigger] out_edges(h, u)[k].to == v
                        && follows(out_edges(h, u)[k], causal_only);
                if k < out_edges(g, u).len() {
                    assert(out_edges(h, u)[k] == out_edges(g, u)[k]);
                }
            }
        } else {
            assert(out_edges(h, u) == out_edges(g, u));
        }
    }
}

/// Reachability after adding `from → e.to`: either it already held, or it
/// goes through the new edge.
pub proof fn lemma_add_edge_walk(
    g: Adjacency,
    from: NodeId,
    e: Edge,
    p: Seq<NodeId>,
    causal_only: bool,
)
    requires
        valid_id(g, from),
        valid_id(g, e.to),
        is_walk(add_edge(g, from, e), p, causal_only),
    ensures
        reaches(g, p[0], p.last(), causal_only) || (follows(e, causal_only) && reaches(
            g,
            p[0],
            from,
            causal_only,
        ) && reaches(g, e.to, p.last(), causal_only)),
    decreases p.len(),
{
    let h = add_edge(g, from, e);
    if p.len() == 1 {
        lemma_single_walk(g, p[0], causal_only);
    } else {
        let q = p.drop_first();
        assert(is_walk(h, q, causal_only)) by {
            assert forall|i: int| 0 <= i < q.len() implies valid_id(h, #[trigger] q[i]) by {
                assert(q[i] == p[i + 1]);
            }
            assert forall|i: int| 0 <= i < q.len() - 1 implies has_edge(h, #[trigger] q[i], q[i + 1], causal_only) by {
                assert(q[i] == p[i + 1] && q[i + 1] == p[i + 2]);
            }
        }
        lemma_add_edge_walk(g, from, e, q, causal_only);
        assert(q[0] == p[1] && q.last() == p.last());
        assert(has_edge(h, p[0], p[1], causal_only));
        lemma_add_edge_has_edge(g, from, e, p[0], p[1], causal_only);
        if has_edge(g, p[0], p[1], causal_only) {
            if reaches(g, p[1], p.last(), causal_only) {
                lemma_reach_prepend(g, p[0], p[1], p.last(), causal_only);
            } else {
                lemma_reach_prepend(g, p[0], p[1], from, causal_only);
            }
        } else {
            lemma_single_walk(g, from, causal_only);
        }
    }
}

/// Appending an edge keeps the causal order acyclic when the edge is not
/// causal, or when its source is not causally reachable from its target;
/// every edge target stays valid.
pub proof fn lemma_add_edge_acyclic(g: Adjacency, from: NodeId, e: Edge)
    requires
        valid_id(g, from),
        valid_id(g, e.to),
        targets_valid(g),
        causal_acyclic(g),
        e.kind == DependencyKind::Causal ==> !reaches(g, e.to, from, true),
    ensures
        targets_valid(add_edge(g, from, e)),
        causal_acyclic(add_edge(g, from, e)),
{
    let h = add_edge(g, from, e);
    assert forall|i: int, k: int| 0 <= i < h.len() && 0 <= k < h[i].len() implies valid_id(h, #[trigger] h[i][k].to) by {
        if i == from.0 - 1 {
            if k < g[i].len() {
                assert(h[i][k] == g[i][k]);
            }
        } else {
            assert(h[i] == g[i]);
        }
    }
    assert forall|u: NodeId, v: NodeId| #[trigger] has_edge(h, u, v, true) implies !reaches(h, v, u, true) by {
        lemma_add_edge_has_edge(g, from, e, u, v, true);
        if reaches(h, v, u, true) {
            let p = choose|p: Seq<NodeId>| #[trigger] is_walk(h, p, true) && p[0] == v && p.last() == u;
            lemma_add_edge_walk(g, from, e, p, true);
            if has_edge(g, u, v, true) {
                if reaches(g, v, u, true) {
                    assert(false);
                } else {
                    // v ⇝ from, e.to ⇝ u → v ⇝ from in the old fabric
                    lemma_reach_step(g, e.to, u, v, true);
                    lemma_reach_trans(g, e.to, v, from, true);
                    assert(false);
                }
            } else {
                assert(u == from && v == e.to);
                if reaches(g, v, u, true) {
                } else {
                    assert(reaches(g, v, from, true));
                }
                assert(false);
            }
        }
    }
}

/// `b` is reachable from `a` along at most `d` edges of any kind.
pub open spec fn within(g: Adjacency, a: NodeId, b: NodeId, d: nat) -> bool {
    exists|p: Seq<NodeId>| #[trigger] is_walk(g, p, false) && p[0] == a && p.last() == b && p.len() <= d + 1
}

/// Every node reachable from `a` lies within `d` edges of it: the
/// breadth-first depth of `a` is at most `d`.
pub open spec fn spans(g: Adjacency, a: NodeId, d: nat) -> bool {
    forall|v: NodeId| #[trigger] reaches(g, a, v, false) ==> within(g, a, v, d)
}

/// Within no edges lies `a` alone.
pub proof fn lemma_within_zero(g: Adjacency, a: NodeId, v: NodeId)
    requires
        valid_id(g, a),
    ensures
        within(g, a, v, 0) <==> v == a,
{
    if v == a {
        assert(is_walk(g, seq![a], false));
    }
}

/// A node within `d` edges is reachable, and within any larger bound.
pub proof fn lemma_within_reaches(g: Adjacency, a: NodeId, v: NodeId, d: nat, e: nat)
    requires
        within(g, a, v, d),
        d <= e,
    ensures
        reaches(g, a, v, false),
        within(g, a, v, e),
        valid_id(g, v),
{
    let p = choose|p: Seq<NodeId>| #[trigger] is_walk(g, p, false) && p[0] == a && p.last() == v && p.len() <= d + 1;
    assert(valid_id(g, p[p.len() - 1]));
}

/// One more edge from a node within `d` lands within `d + 1`.
pub proof fn lemma_within_extend(g: Adjacency, a: NodeId, u: NodeId, v: NodeId, d: nat)
    requires
        within(g, a, u, d),
        has_edge(g, u, v, false),
        valid_id(g, v),
    ensures
        within(g, a, v, d + 1),
{
    let p = choose|p: Seq<NodeId>| #[trigger] is_walk(g, p, false) && p[0] == a && p.last() == u && p.len() <= d + 1;
    let q = p.push(v);
    assert forall|i: int| 0 <= i < q.len() - 1 implies has_edge(g, #[trigger] q[i], q[i + 1], false) by {
        if i < p.len() - 1 {
            assert(q[i] == p[i] && q[i + 1] == p[i + 1]);
        }
    }
    assert(is_walk(g, q, false));
}

/// A node within `d + 1` edges is `a` itself or one edge past a node within `d`.
pub proof fn lemma_within_last_step(g: Adjacency, a: NodeId, v: NodeId, d: nat)
    requires
        within(g, a, v, d + 1),
    ensures
        v == a || exists|u: NodeId| within(g, a, u, d) && #[trigger] has_edge(g, u, v, false),
{
    let p = choose|p: Seq<NodeId>| #[trigger] is_walk(g, p, false) && p[0] == a && p.last() == v && p.len() <= d + 2;
    if p.len() > 1 {
        let q = p.drop_last();
        assert forall|i: int| 0 <= i < q.len() - 1 implies has_edge(g, #[trigger] q[i], q[i + 1], false) by {
            assert(q[i] == p[i] && q[i + 1] == p[i + 1]);
        }
        assert(is_walk(g, q, false));
        assert(has_edge(g, p[p.len() - 2], p[p.len() - 1], false));
        assert(within(g, a, q.last(), d));
    }
}

/// A bound on the breadth-first depth holds for every larger bound.
pub proof fn lemma_spans_mono(g: Adjacency, a: NodeId, d: nat, e: nat)
    requires
        spans(g, a, d),
        d <= e,
    ensures
        spans(g, a, e),
{
    assert forall|v: NodeId| #[trigger] reaches(g, a, v, false) implies within(g, a, v, e) by {
        lemma_within_reaches(g, a, v, d, e);
    }
}

} // verus!
