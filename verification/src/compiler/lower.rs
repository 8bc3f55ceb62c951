use vstd::prelude::*;
use crate::addr::{Epoch, LogicalAddr, SpacetimeAddr};
use crate::graph::{Adjacency, DependencyKind, Edge, add_edge, has_edge, is_walk, out_edges, reaches, targets_valid, valid_id};
use crate::node::{NodeId, NodeState, WorldlineNode};
use crate::worldline::WorldlineDag;
use crate::text::same_text;
use crate::compiler::ast::{ChronalModule, EvolveEq, ExprView, StmtView, regs_of, evolves_of};
use crate::compiler::error::CompileError;
use crate::compiler::temporal::{
    AnalysisFault, CrossingView, TemporalDependencyGraph, alloc_before, analysis, crossings_view, describes,
    dup_upto, epoch_in, lemma_analysis_sound, region_of,
    expr_var_list, lookup_epoch, names_view, reports, table_view, vars_of,
};

verus! {

/// Register names of a table, in order.
pub open spec fn names_of(t: Seq<(Seq<char>, Epoch)>) -> Seq<Seq<char>> {
    t.map_values(|p: (Seq<char>, Epoch)| p.0)
}

/// Position of the first occurrence of `n` among the first `k` names.
pub open spec fn index_in(names: Seq<Seq<char>>, n: Seq<char>, k: int) -> Option<int>
    decreases k,
{
    if k <= 0 {
        None
    } else {
        match index_in(names, n, k - 1) {
            Some(i) => Some(i),
            None => if names[k - 1] == n {
                Some(k - 1)
            } else {
                None
            },
        }
    }
}

/// Position of `n` among `names`, or -1.
pub open spec fn pos(names: Seq<Seq<char>>, n: Seq<char>) -> int {
    match index_in(names, n, names.len() as int) {
        Some(i) => i,
        None => -1,
    }
}

pub open spec fn kind_of(retrocausal: bool) -> DependencyKind {
    if retrocausal {
        DependencyKind::Retrocausal
    } else {
        DependencyKind::Causal
    }
}

/// One dependency edge per crossing, between the cells of its endpoints.
pub open spec fn crossing_edges(cs: Seq<CrossingView>, names: Seq<Seq<char>>) -> Seq<(int, int, DependencyKind)> {
    Seq::new(
        cs.len(),
        |i: int| (pos(names, cs[i].from), pos(names, cs[i].to), kind_of(cs[i].retrocausal)),
    )
}

/// Algebraic couplings of an equation for `target`: one per operand
/// occurrence (repeats included) other than the target itself that names a
/// register of the same epoch.
pub open spec fn dep_edges(
    target: Seq<char>,
    vars: Seq<Seq<char>>,
    table: Seq<(Seq<char>, Epoch)>,
    names: Seq<Seq<char>>,
    m: int,
) -> Seq<(int, int, DependencyKind)>
    decreases m,
{
    if m <= 0 {
        Seq::empty()
    } else {
        let rest = dep_edges(target, vars, table, names, m - 1);
        let d = vars[m - 1];
        if d != target && index_in(names, d, names.len() as int) is Some && epoch_in(table, d) == epoch_in(
            table,
            target,
        ) {
            rest.push((pos(names, d), pos(names, target), DependencyKind::Algebraic))
        } else {
            rest
        }
    }
}

/// Algebraic couplings of the first `j` equations.
pub open spec fn algebraic_edges(
    eqs: Seq<(Seq<char>, ExprView)>,
    table: Seq<(Seq<char>, Epoch)>,
    names: Seq<Seq<char>>,
    j: int,
) -> Seq<(int, int, DependencyKind)>
    decreases j,
{
    if j <= 0 {
        Seq::empty()
    } else {
        let vars = vars_of(eqs[j - 1].1);
        algebraic_edges(eqs, table, names, j - 1) + dep_edges(
            eqs[j - 1].0,
            vars,
            table,
            names,
            vars.len() as int,
        )
    }
}

/// Adjacency with no edges over `n` cells.
pub open spec fn blank(n: nat) -> Adjacency {
    Seq::new(n, |i: int| Seq::<Edge>::empty())
}

/// The adjacency after appending edges `(from, to, kind)` between the cells
/// at those positions, in order.
pub open spec fn apply_edges(g: Adjacency, es: Seq<(int, int, DependencyKind)>) -> Adjacency
    decreases es.len(),
{
    if es.len() == 0 {
        g
    } else {
        let e = es.last();
        add_edge(
            apply_edges(g, es.drop_last()),
            NodeId((e.0 + 1) as u64),
            Edge { to: NodeId((e.1 + 1) as u64), kind: e.2 },
        )
    }
}

/// The cell seeded for the register at position `i` of the order.
pub open spec fn seeded_cell<V, W>(
    nd: WorldlineNode<V, W>,
    i: int,
    tau: Epoch,
    value: V,
    weight: W,
) -> bool where V: Clone, W: Clone {
    &&& nd.id == NodeId((i + 1) as u64)
    &&& nd.addr == SpacetimeAddr { address: LogicalAddr(i as u64), tau }
    &&& cloned(value, nd.state.value)
    &&& cloned(weight, nd.state.weight)
    &&& nd.state.revision == 0
    &&& !nd.state.pruned
    &&& !nd.sealed
    &&& !nd.dirty
}

/// Some evolve equation targets `n`.
pub open spec fn has_evolution(stmts: Seq<StmtView>, n: Seq<char>) -> bool {
    exists|j: int| 0 <= j < evolves_of(stmts).len() && (#[trigger] evolves_of(stmts)[j]).0 == n
}

/// Every causal edge leads to a cell of strictly later epoch.
pub open spec fn causal_rises(g: Adjacency, tau: Seq<int>) -> bool {
    forall|i: int, k: int|
        0 <= i < g.len() && 0 <= k < g[i].len() && (#[trigger] g[i][k]).kind == DependencyKind::Causal
            ==> tau[i] < tau[g[i][k].to.0 - 1]
}

proof fn lemma_index_in(names: Seq<Seq<char>>, n: Seq<char>, k: int)
    requires
        0 <= k <= names.len(),
    ensures
        index_in(names, n, k) matches Some(i) ==> 0 <= i < k && names[i] == n && forall|j: int|
            0 <= j < i ==> names[j] != n,
        index_in(names, n, k) is None ==> forall|j: int| 0 <= j < k ==> names[j] != n,
    decreases k,
{
    if k > 0 {
        lemma_index_in(names, n, k - 1);
    }
}

proof fn lemma_index_persists(names: Seq<Seq<char>>, n: Seq<char>, k1: int, k2: int)
    requires
        k1 <= k2,
        index_in(names, n, k1) is Some,
    ensures
        index_in(names, n, k2) == index_in(names, n, k1),
    decreases k2 - k1,
{
    if k2 > k1 {
        lemma_index_persists(names, n, k1, k2 - 1);
    }
}

/// A name that occurs has a position.
proof fn lemma_pos_of_member(names: Seq<Seq<char>>, n: Seq<char>)
    requires
        names.contains(n),
    ensures
        0 <= pos(names, n) < names.len(),
        names[pos(names, n)] == n,
{
    lemma_index_in(names, n, names.len() as int);
}

/// Along a causal walk the epoch never decreases.
proof fn lemma_walk_rises(g: Adjacency, tau: Seq<int>, p: Seq<NodeId>)
    requires
        causal_rises(g, tau),
        tau.len() == g.len(),
        is_walk(g, p, true),
    ensures
        tau[p[0].0 - 1] <= tau[p.last().0 - 1],
    decreases p.len(),
{
    if p.len() > 1 {
        let q = p.drop_last();
        assert(is_walk(g, q, true)) by {
            assert forall|i: int| 0 <= i < q.len() - 1 implies has_edge(g, #[trigger] q[i], q[i + 1], true) by {
                assert(q[i] == p[i] && q[i + 1] == p[i + 1]);
            }
        }
        lemma_walk_rises(g, tau, q);
        let u = p[p.len() - 2];
        let v = p[p.len() - 1];
        assert(has_edge(g, u, v, true));
        let k = choose|k: int|
            0 <= k < out_edges(g, u).len() && #[trigger] out_edges(g, u)[k].to == v
                && crate::graph::follows(out_edges(g, u)[k], true);
        assert(g[u.0 - 1][k].kind == DependencyKind::Causal);
    }
}

/// No causal walk leads back to an earlier epoch.
proof fn lemma_no_causal_return(g: Adjacency, tau: Seq<int>, a: NodeId, b: NodeId)
    requires
        causal_rises(g, tau),
        tau.len() == g.len(),
        valid_id(g, a),
        valid_id(g, b),
        tau[a.0 - 1] < tau[b.0 - 1],
    ensures
        !reaches(g, b, a, true),
{
    if reaches(g, b, a, true) {
        let p = choose|p: Seq<NodeId>| #[trigger] is_walk(g, p, true) && p[0] == b && p.last() == a;
        lemma_walk_rises(g, tau, p);
    }
}

proof fn lemma_rises_add(g: Adjacency, tau: Seq<int>, from: NodeId, e: Edge)
    requires
        causal_rises(g, tau),
        valid_id(g, from),
        e.kind == DependencyKind::Causal ==> tau[from.0 - 1] < tau[e.to.0 - 1],
    ensures
        causal_rises(add_edge(g, from, e), tau),
{
    let h = add_edge(g, from, e);
    assert forall|i: int, k: int|
        0 <= i < h.len() && 0 <= k < h[i].len() && (#[trigger] h[i][k]).kind == DependencyKind::Causal implies tau[i]
        < tau[h[i][k].to.0 - 1] by {
        if i == from.0 - 1 && k == g[i].len() {
            assert(h[i][k] == e);
        } else {
            assert(h[i][k] == g[i][k]);
        }
    }
}

/// Position of the first occurrence of `n` among `names`.
fn find_name(names: &Vec<String>, n: &str) -> (r: Option<usize>)
    ensures
        match r {
            Some(i) => index_in(names_view(names@), n@, names@.len() as int) == Some(i as int),
            None => index_in(names_view(names@), n@, names@.len() as int) is None,
        },
{
    let ghost nv = names_view(names@);
    let mut i: usize = 0;
    while i < names.len()
        invariant
            nv == names_view(names@),
            i <= names@.len(),
            index_in(nv, n@, i as int) is None,
        decreases names@.len() - i,
    {
        if same_text(names[i].as_str(), n) {
            proof {
                assert(index_in(nv, n@, i + 1) == Some(i as int));
                lemma_index_persists(nv, n@, i + 1, nv.len() as int);
            }
            return Some(i);
        }
        i = i + 1;
    }
    None
}

/// The names of a register table, in order.
fn order_names(order: &Vec<(String, Epoch)>) -> (r: Vec<String>)
    ensures
        names_view(r@) == names_of(table_view(order@)),
{
    let mut out: Vec<String> = Vec::new();
    let mut i: usize = 0;
    while i < order.len()
        invariant
            i <= order@.len(),
            names_view(out@) == names_of(table_view(order@)).take(i as int),
        decreases order@.len() - i,
    {
        let ghost prev = out@;
        let nm = order[i].0.clone();
        out.push(nm);
        assert(names_view(out@) =~= names_view(prev).push(nm@));
        assert(names_of(table_view(order@)).take(i + 1) =~= names_of(table_view(order@)).take(i as int).push(
            order@[i as int].0@,
        ));
        i = i + 1;
    }
    assert(names_of(table_view(order@)).take(order@.len() as int) =~= names_of(table_view(order@)));
    out
}

/// Position of the first name that no evolve equation targets.
fn first_without_evolution(module: &ChronalModule, names: &Vec<String>) -> (r: Option<usize>)
    ensures
        match r {
            Some(i) => i < names@.len() && !has_evolution(module.stmt_views(), names@[i as int]@) && forall|j: int|
                0 <= j < i ==> has_evolution(module.stmt_views(), #[trigger] names@[j]@),
            None => forall|j: int|
                0 <= j < names@.len() ==> has_evolution(module.stmt_views(), #[trigger] names@[j]@),
        },
{
    let ghost eqs = evolves_of(module.stmt_views());
    let list = module.evolve_eqs();
    let mut i: usize = 0;
    while i < names.len()
        invariant
            eqs == evolves_of(module.stmt_views()),
            list@.len() == eqs.len(),
            forall|q: int| 0 <= q < list@.len() ==> (#[trigger] list@[q]).target@ == eqs[q].0,
            i <= names@.len(),
            forall|j: int| 0 <= j < i ==> has_evolution(module.stmt_views(), #[trigger] names@[j]@),
        decreases names@.len() - i,
    {
        let mut found = false;
        let mut q: usize = 0;
        while q < list.len()
            invariant
                eqs == evolves_of(module.stmt_views()),
                list@.len() == eqs.len(),
                forall|x: int| 0 <= x < list@.len() ==> (#[trigger] list@[x]).target@ == eqs[x].0,
                i < names@.len(),
                q <= list@.len(),
                found ==> has_evolution(module.stmt_views(), names@[i as int]@),
                !found ==> forall|x: int| 0 <= x < q ==> (#[trigger] eqs[x]).0 != names@[i as int]@,
            decreases list@.len() - q,
        {
            if same_text(list[q].target.as_str(), names[i].as_str()) {
                assert(eqs[q as int].0 == names@[i as int]@);
                found = true;
            }
            q = q + 1;
        }
        if !found {
            return Some(i);
        }
        i = i + 1;
    }
    None
}

/// A fabric with one fresh cell per register of `order`, cell `i` at
/// address `(i, τ)` for the register's epoch `τ`, and no edges.
fn seed_cells<V: Clone, W: Clone>(order: &Vec<(String, Epoch)>, value: &V, weight: &W) -> (d: WorldlineDag<V, W>)
    requires
        order@.len() + 2 <= u64::MAX,
    ensures
        d.wf(),
        d.node_count() == order@.len(),
        forall|i: int|
            0 <= i < order@.len() ==> seeded_cell(#[trigger] d.nodes_view()[i], i, order@[i].1, *value, *weight),
        d.adjacency() == blank(order@.len() as nat),
        d.cascade_limit() == 10_000,
        d.generation() == 0,
{
    let mut dag: WorldlineDag<V, W> = WorldlineDag::new();
    let mut i: usize = 0;
    assert(dag.adjacency() =~= blank(0));
    while i < order.len()
        invariant
            order@.len() + 2 <= u64::MAX,
            i <= order@.len(),
            dag.wf(),
            dag.node_count() == i,
            forall|k: int| 0 <= k < i ==> seeded_cell(#[trigger] dag.nodes_view()[k], k, order@[k].1, *value, *weight),
            dag.adjacency() == blank(i as nat),
            dag.cascade_limit() == 10_000,
            dag.generation() == 0,
        decreases order@.len() - i,
    {
        let addr = SpacetimeAddr { address: LogicalAddr(i as u64), tau: order[i].1 };
        let state = NodeState::new(value.clone(), weight.clone());
        proof {
            crate::worldline::lemma_newest_index(dag.nodes_view(), addr, i as int);
            if let Some(j) = crate::worldline::newest_index(dag.nodes_view(), addr, i as int) {
                assert(seeded_cell(dag.nodes_view()[j], j, order@[j].1, *value, *weight));
            }
        }
        let ghost before = dag.nodes_view();
        let _r = dag.allocate(addr, state);
        proof {
            assert(dag.nodes_view()[i as int] == WorldlineNode {
                id: NodeId((i + 1) as u64),
                addr,
                state,
                sealed: false,
                dirty: false,
            });
            assert forall|k: int| 0 <= k < i + 1 implies seeded_cell(
                #[trigger] dag.nodes_view()[k],
                k,
                order@[k].1,
                *value,
                *weight,
            ) by {
                if k < i {
                    assert(dag.nodes_view()[k] == before[k]);
                }
            }
            assert(dag.adjacency() =~= blank((i + 1) as nat));
        }
        i = i + 1;
    }
    dag
}

/// Epochs of the cells of a fabric, as integers.
pub open spec fn taus_of<V, W>(d: WorldlineDag<V, W>) -> Seq<int> {
    Seq::new(d.node_count(), |i: int| d.nodes_view()[i].addr.tau.0 as int)
}

proof fn lemma_apply_push(g: Adjacency, es: Seq<(int, int, DependencyKind)>, e: (int, int, DependencyKind))
    ensures
        apply_edges(g, es.push(e)) == add_edge(
            apply_edges(g, es),
            NodeId((e.0 + 1) as u64),
            Edge { to: NodeId((e.1 + 1) as u64), kind: e.2 },
        ),
{
    assert(es.push(e).drop_last() =~= es);
}

proof fn lemma_apply_concat(g: Adjacency, a: Seq<(int, int, DependencyKind)>, b: Seq<(int, int, DependencyKind)>)
    ensures
        apply_edges(apply_edges(g, a), b) == apply_edges(g, a + b),
    decreases b.len(),
{
    if b.len() == 0 {
        assert(a + b =~= a);
    } else {
        lemma_apply_concat(g, a, b.drop_last());
        assert((a + b).drop_last() =~= a + b.drop_last());
        assert((a + b).last() == b.last());
    }
}

/// Declares one dependency per crossing between the cells of its endpoints.
fn wire_cells<V, W>(
    dag: &mut WorldlineDag<V, W>,
    names: &Vec<String>,
    crossings: &Vec<crate::compiler::temporal::EpochCrossing>,
)
    requires
        old(dag).wf(),
        old(dag).node_count() == names@.len(),
        causal_rises(old(dag).adjacency(), taus_of(*old(dag))),
        forall|i: int|
            0 <= i < crossings@.len() ==> {
                let c = #[trigger] crossings@[i];
                let nv = names_view(names@);
                &&& 0 <= pos(nv, c.from@) < nv.len()
                &&& 0 <= pos(nv, c.to@) < nv.len()
                &&& !c.retrocausal ==> taus_of(*old(dag))[pos(nv, c.from@)] < taus_of(*old(dag))[pos(
                    nv,
                    c.to@,
                )]
            },
    ensures
        final(dag).wf(),
        final(dag).nodes_view() == old(dag).nodes_view(),
        final(dag).cascade_limit() == old(dag).cascade_limit(),
        final(dag).generation() == old(dag).generation(),
        final(dag).adjacency() == apply_edges(
            old(dag).adjacency(),
            crossing_edges(crate::compiler::temporal::crossings_view(crossings@), names_view(names@)),
        ),
        causal_rises(final(dag).adjacency(), taus_of(*final(dag))),
{
    let ghost nv = names_view(names@);
    let ghost cv = crate::compiler::temporal::crossings_view(crossings@);
    let ghost es = crossing_edges(cv, nv);
    let ghost g0 = dag.adjacency();
    let ghost tau = taus_of(*dag);
    let mut k: usize = 0;
    assert(es.take(0) =~= Seq::<(int, int, DependencyKind)>::empty());
    while k < crossings.len()
        invariant
            nv == names_view(names@),
            cv == crate::compiler::temporal::crossings_view(crossings@),
            es == crossing_edges(cv, nv),
            k <= crossings@.len(),
            dag.wf(),
            dag.node_count() == names@.len(),
            dag.nodes_view() == old(dag).nodes_view(),
            dag.cascade_limit() == old(dag).cascade_limit(),
            dag.generation() == old(dag).generation(),
            tau == taus_of(*dag),
            g0 == old(dag).adjacency(),
            dag.adjacency() == apply_edges(g0, es.take(k as int)),
            causal_rises(dag.adjacency(), tau),
            forall|i: int|
                0 <= i < crossings@.len() ==> {
                    let c = #[trigger] crossings@[i];
                    &&& 0 <= pos(nv, c.from@) < nv.len()
                    &&& 0 <= pos(nv, c.to@) < nv.len()
                    &&& !c.retrocausal ==> tau[pos(nv, c.from@)] < tau[pos(nv, c.to@)]
                },
        decreases crossings@.len() - k,
    {
        let c = &crossings[k];
        let f = match find_name(names, c.from.as_str()) {
            Some(x) => x,
            None => {
                proof {
                    assert(0 <= pos(nv, c.from@));
                }
                return;
            },
        };
        let t = match find_name(names, c.to.as_str()) {
            Some(x) => x,
            None => {
                proof {
                    assert(0 <= pos(nv, c.to@));
                }
                return;
            },
        };
        let kind = if c.retrocausal {
            DependencyKind::Retrocausal
        } else {
            DependencyKind::Causal
        };
        proof {
            dag.lemma_wf_structure();
        }
        let from = NodeId(f as u64 + 1);
        let to = NodeId(t as u64 + 1);
        let ghost g = dag.adjacency();
        proof {
            assert(cv[k as int] == c@);
            assert(es[k as int] == (f as int, t as int, kind));
            if !c.retrocausal {
                lemma_no_causal_return(g, tau, from, to);
            }
            lemma_rises_add(g, tau, from, Edge { to, kind });
            lemma_apply_push(g0, es.take(k as int), es[k as int]);
            assert(es.take(k + 1) =~= es.take(k as int).push(es[k as int]));
        }
        let res = dag.add_dependency(from, to, kind);
        assert(res is Ok);
        k = k + 1;
    }
    assert(es.take(crossings@.len() as int) =~= es);
}

/// Declares the algebraic couplings of the evolve equations: an edge from
/// each same-epoch operand occurrence to the equation's target.
fn couple_cells<V, W>(
    dag: &mut WorldlineDag<V, W>,
    module: &ChronalModule,
    names: &Vec<String>,
    epochs: &Vec<(String, Epoch)>,
)
    requires
        old(dag).wf(),
        old(dag).node_count() == names@.len(),
        causal_rises(old(dag).adjacency(), taus_of(*old(dag))),
        forall|j: int|
            0 <= j < evolves_of(module.stmt_views()).len() ==> 0 <= pos(
                names_view(names@),
                (#[trigger] evolves_of(module.stmt_views())[j]).0,
            ) < names@.len(),
    ensures
        final(dag).wf(),
        final(dag).nodes_view() == old(dag).nodes_view(),
        final(dag).cascade_limit() == old(dag).cascade_limit(),
        final(dag).generation() == old(dag).generation(),
        final(dag).adjacency() == apply_edges(
            old(dag).adjacency(),
            algebraic_edges(
                evolves_of(module.stmt_views()),
                table_view(epochs@),
                names_view(names@),
                evolves_of(module.stmt_views()).len() as int,
            ),
        ),
        causal_rises(final(dag).adjacency(), taus_of(*final(dag))),
{
    let ghost nv = names_view(names@);
    let ghost eqs = evolves_of(module.stmt_views());
    let ghost table = table_view(epochs@);
    let ghost g0 = dag.adjacency();
    let ghost tau = taus_of(*dag);
    let list = module.evolve_eqs();
    let mut j: usize = 0;
    while j < list.len()
        invariant
            nv == names_view(names@),
            eqs == evolves_of(module.stmt_views()),
            table == table_view(epochs@),
            list@.len() == eqs.len(),
            forall|q: int|
                0 <= q < list@.len() ==> (#[trigger] list@[q]).target@ == eqs[q].0 && list@[q].body@
                    == eqs[q].1,
            forall|q: int| 0 <= q < eqs.len() ==> 0 <= pos(nv, (#[trigger] eqs[q]).0) < nv.len(),
            j <= list@.len(),
            dag.wf(),
            dag.node_count() == names@.len(),
            dag.nodes_view() == old(dag).nodes_view(),
            dag.cascade_limit() == old(dag).cascade_limit(),
            dag.generation() == old(dag).generation(),
            tau == taus_of(*dag),
            g0 == old(dag).adjacency(),
            dag.adjacency() == apply_edges(g0, algebraic_edges(eqs, table, nv, j as int)),
            causal_rises(dag.adjacency(), tau),
        decreases list@.len() - j,
    {
        let eq = list[j];
        assert(eqs[j as int].0 == eq.target@);
        let t = match find_name(names, eq.target.as_str()) {
            Some(x) => x,
            None => {
                proof {
                    assert(0 <= pos(nv, eqs[j as int].0));
                }
                return;
            },
        };
        let te = lookup_epoch(epochs, eq.target.as_str());
        let deps = expr_var_list(&eq.body);
        let ghost vars = names_view(deps@);
        let ghost done = algebraic_edges(eqs, table, nv, j as int);
        let mut m: usize = 0;
        assert(done + dep_edges(eq.target@, vars, table, nv, 0) =~= done);
        while m < deps.len()
            invariant
                nv == names_view(names@),
                table == table_view(epochs@),
                vars == names_view(deps@),
                m <= deps@.len(),
                t < nv.len(),
                index_in(nv, eq.target@, nv.len() as int) == Some(t as int),
                te == epoch_in(table, eq.target@),
                dag.wf(),
                dag.node_count() == names@.len(),
                dag.nodes_view() == old(dag).nodes_view(),
                dag.cascade_limit() == old(dag).cascade_limit(),
                dag.generation() == old(dag).generation(),
                tau == taus_of(*dag),
                dag.adjacency() == apply_edges(g0, done + dep_edges(eq.target@, vars, table, nv, m as int)),
                causal_rises(dag.adjacency(), tau),
            decreases deps@.len() - m,
        {
            let dep = &deps[m];
            assert(vars[m as int] == dep@);
            let ghost before = done + dep_edges(eq.target@, vars, table, nv, m as int);
            if !same_text(dep.as_str(), eq.target.as_str()) {
                match find_name(names, dep.as_str()) {
                    Some(f) => {
                        let de = lookup_epoch(epochs, dep.as_str());
                        let same = match (de, te) {
                            (Some(a), Some(b)) => a.0 == b.0,
                            (None, None) => true,
                            _ => false,
                        };
                        if same {
                            proof {
                                dag.lemma_wf_structure();
                                lemma_index_in(nv, dep@, nv.len() as int);
                            }
                            let from = NodeId(f as u64 + 1);
                            let to = NodeId(t as u64 + 1);
                            let ghost g = dag.adjacency();
                            let ghost e = (f as int, t as int, DependencyKind::Algebraic);
                            proof {
                                assert(dep_edges(eq.target@, vars, table, nv, m + 1) == dep_edges(
                                    eq.target@,
                                    vars,
                                    table,
                                    nv,
                                    m as int,
                                ).push(e));
                                assert(done + dep_edges(eq.target@, vars, table, nv, m + 1) =~= before.push(e));
                                lemma_apply_push(g0, before, e);
                                lemma_rises_add(g, tau, from, Edge { to, kind: DependencyKind::Algebraic });
                            }
                            let res = dag.add_dependency(from, to, DependencyKind::Algebraic);
                            assert(res is Ok);
                        } else {
                            assert(dep_edges(eq.target@, vars, table, nv, m + 1) == dep_edges(
                                eq.target@,
                                vars,
                                table,
                                nv,
                                m as int,
                            ));
                        }
                    },
                    None => {
                        assert(dep_edges(eq.target@, vars, table, nv, m + 1) == dep_edges(
                            eq.target@,
                            vars,
                            table,
                            nv,
                            m as int,
                        ));
                    },
                }
            } else {
                assert(dep_edges(eq.target@, vars, table, nv, m + 1) == dep_edges(
                    eq.target@,
                    vars,
                    table,
                    nv,
                    m as int,
                ));
            }
            m = m + 1;
        }
        proof {
            assert(vars == vars_of(eqs[j as int].1));
            assert(algebraic_edges(eqs, table, nv, j + 1) == done + dep_edges(
                eq.target@,
                vars,
                table,
                nv,
                vars.len() as int,
            ));
        }
        j = j + 1;
    }
}

/// In a reordering of a table without repeated names, every entry is what
/// its name looks up in the table, and every declared name has a position
/// carrying its epoch.
proof fn lemma_order_epochs(order: Seq<(Seq<char>, Epoch)>, regs: Seq<(Seq<char>, Epoch)>)
    requires
        order.to_multiset() == regs.to_multiset(),
        dup_upto(regs, regs.len() as int) is None,
    ensures
        forall|i: int| 0 <= i < order.len() ==> epoch_in(regs, (#[trigger] order[i]).0) == Some(order[i].1),
        forall|n: Seq<char>|
            (#[trigger] epoch_in(regs, n)) is Some ==> names_of(order).contains(n) && 0 <= pos(names_of(order), n)
                < order.len() && order[pos(names_of(order), n)] == (n, epoch_in(regs, n)->Some_0),
{
    broadcast use vstd::seq_lib::to_multiset_contains;

    crate::compiler::temporal::lemma_unique_lookup(regs, regs.len() as int);
    assert(regs.take(regs.len() as int) =~= regs);
    assert forall|i: int| 0 <= i < order.len() implies epoch_in(regs, (#[trigger] order[i]).0) == Some(
        order[i].1,
    ) by {
        assert(order.to_multiset().count(order[i]) > 0);
        assert(regs.contains(order[i]));
        let k = choose|k: int| 0 <= k < regs.len() && regs[k] == order[i];
        assert(epoch_in(regs, regs[k].0) == Some(regs[k].1));
    }
    assert forall|n: Seq<char>| (#[trigger] epoch_in(regs, n)) is Some implies names_of(order).contains(n) && 0
        <= pos(names_of(order), n) < order.len() && order[pos(names_of(order), n)] == (
        n,
        epoch_in(regs, n)->Some_0,
    ) by {
        let e = epoch_in(regs, n)->Some_0;
        crate::compiler::temporal::lemma_lookup_member(regs, n);
        assert(regs.to_multiset().count((n, e)) > 0);
        assert(order.contains((n, e)));
        let k = choose|k: int| 0 <= k < order.len() && order[k] == (n, e);
        assert(names_of(order)[k] == n);
        lemma_pos_of_member(names_of(order), n);
        let p = pos(names_of(order), n);
        assert(epoch_in(regs, order[p].0) == Some(order[p].1));
    }
}

/// What lowering shares between the fabric and the kernel: the temporal
/// analysis and the order of the unknown vector.
pub struct LoweringOutput {
    pub temporal: TemporalDependencyGraph,
    /// Register names in unknown-vector (allocation) order.
    pub unknown_order: Vec<String>,
}

/// The registers in unknown order, each with the epoch of its cell.
pub open spec fn ordered_registers<V, W>(names: Seq<Seq<char>>, d: WorldlineDag<V, W>) -> Seq<(Seq<char>, Epoch)> {
    Seq::new(names.len(), |i: int| (names[i], d.nodes_view()[i].addr.tau))
}

/// The lowering of a module whose analysis produced `cs`.
pub open spec fn lowered<V: Clone, W: Clone>(
    out: LoweringOutput,
    d: WorldlineDag<V, W>,
    stmts: Seq<StmtView>,
    cs: Seq<CrossingView>,
    value: V,
    weight: W,
) -> bool {
    let regs = regs_of(stmts);
    let names = names_view(out.unknown_order@);
    let ord = ordered_registers(names, d);
    &&& describes(out.temporal, stmts, cs)
    &&& d.wf()
    &&& d.cascade_limit() == 10_000
    &&& d.generation() == 0
    &&& names.len() == regs.len()
    &&& d.node_count() == regs.len()
    &&& ord.to_multiset() == regs.to_multiset()
    &&& forall|i: int, j: int|
        0 <= i < j < ord.len() ==> !alloc_before(#[trigger] ord[j], #[trigger] ord[i], region_of(cs))
    &&& forall|i: int|
        0 <= i < d.node_count() ==> seeded_cell(
            #[trigger] d.nodes_view()[i],
            i,
            d.nodes_view()[i].addr.tau,
            value,
            weight,
        )
    &&& d.adjacency() == apply_edges(
        blank(regs.len() as nat),
        crossing_edges(cs, names) + algebraic_edges(evolves_of(stmts), regs, names, evolves_of(stmts).len() as int),
    )
}

/// Lower a chronal module onto a worldline fabric.
///
/// Registers become cells in allocation order, cell `i` at address
/// `(i, τ)` holding `value` and `weight`; every epoch crossing becomes a
/// causal or retrocausal dependency, and operands of an equation that live
/// in the target's epoch become algebraic couplings. Fails when analysis
/// fails, when the module declares no register, or when a register has no
/// evolve equation. No causal cycle can arise: causal crossings always run
/// forward in time.
pub fn lower_fabric<V: Clone, W: Clone>(module: &ChronalModule, value: V, weight: W) -> (r: Result<
    (LoweringOutput, WorldlineDag<V, W>),
    CompileError,
>)
    requires
        module.stmts@.len() + 2 <= u64::MAX,
    ensures
        match analysis(module.stmt_views()) {
            Err(f) => r matches Err(e) && reports(e, f),
            Ok(cs) => if regs_of(module.stmt_views()).len() == 0 {
                r matches Err(CompileError::Lowering(msg)) && msg@ == "module has no registers"@
            } else if exists|i: int|
                0 <= i < regs_of(module.stmt_views()).len() && !has_evolution(
                    module.stmt_views(),
                    (#[trigger] regs_of(module.stmt_views())[i]).0,
                ) {
                r matches Err(CompileError::MissingEvolution(n)) && epoch_in(
                    regs_of(module.stmt_views()),
                    n@,
                ) is Some && !has_evolution(module.stmt_views(), n@) && forall|k: int|
                    0 <= k < regs_of(module.stmt_views()).len() && alloc_before(
                        #[trigger] regs_of(module.stmt_views())[k],
                        (n@, epoch_in(regs_of(module.stmt_views()), n@)->Some_0),
                        region_of(cs),
                    ) ==> has_evolution(module.stmt_views(), regs_of(module.stmt_views())[k].0)
            } else {
                r matches Ok((out, d)) && lowered(out, d, module.stmt_views(), cs, value, weight)
            },
        },
{
    broadcast use vstd::seq_lib::to_multiset_contains;

    let ghost sv = module.stmt_views();
    let ghost regs = regs_of(sv);
    let temporal = match TemporalDependencyGraph::analyze(module) {
        Ok(g) => g,
        Err(e) => {
            return Err(e);
        },
    };
    let ghost cs = analysis(sv)->Ok_0;
    proof {
        lemma_analysis_sound(sv);
        crate::compiler::ast::lemma_regs_len(sv);
    }
    let order = temporal.allocation_order();
    let ghost ov = table_view(order@);
    proof {
        vstd::seq_lib::to_multiset_len(ov);
        vstd::seq_lib::to_multiset_len(regs);
        lemma_order_epochs(ov, regs);
    }
    if order.len() == 0 {
        proof {
            if regs.len() > 0 {
                assert(regs.to_multiset().count(regs[0]) > 0);
            }
        }
        return Err(CompileError::Lowering(String::from_str("module has no registers")));
    }
    let unknown_order = order_names(&order);
    let ghost names = names_view(unknown_order@);
    assert(names == names_of(ov));
    match first_without_evolution(module, &unknown_order) {
        Some(i) => {
            proof {
                assert(epoch_in(regs, ov[i as int].0) == Some(ov[i as int].1));
                assert(names[i as int] == ov[i as int].0);
                assert(ov.to_multiset().count(ov[i as int]) > 0);
                assert(regs.contains(ov[i as int]));
                let k = choose|k: int| 0 <= k < regs.len() && regs[k] == ov[i as int];
                assert(!has_evolution(sv, regs[k].0));
                crate::compiler::temporal::lemma_unique_lookup(regs, regs.len() as int);
                assert(regs.take(regs.len() as int) =~= regs);
                let region = names_view(temporal.ctc_region@).to_set();
                assert forall|k2: int|
                    0 <= k2 < regs.len() && alloc_before(
                        #[trigger] regs[k2],
                        (names[i as int], epoch_in(regs, names[i as int])->Some_0),
                        region_of(cs),
                    ) implies has_evolution(sv, regs[k2].0) by {
                    assert(epoch_in(regs, regs[k2].0) == Some(regs[k2].1));
                    let p = pos(names, regs[k2].0);
                    assert(ov[p] == regs[k2]);
                    if p == i {
                        crate::compiler::temporal::lemma_text_lt_irrefl(ov[p].0);
                    } else if p > i {
                        assert(!alloc_before(ov[p], ov[i as int], region));
                    } else {
                        assert(has_evolution(sv, unknown_order@[p]@));
                        assert(unknown_order@[p]@ == names[p]);
                    }
                }
            }
            let missing = unknown_order[i].clone();
            return Err(CompileError::MissingEvolution(missing));
        },
        None => {},
    }
    proof {
        assert forall|i: int| 0 <= i < regs.len() implies has_evolution(sv, (#[trigger] regs[i]).0) by {
            crate::compiler::temporal::lemma_unique_lookup(regs, regs.len() as int);
            assert(regs.take(regs.len() as int) =~= regs);
            let p = pos(names, regs[i].0);
            assert(names[p] == regs[i].0);
            assert(unknown_order@[p]@ == names[p]);
        }
    }
    let mut dag = seed_cells(&order, &value, &weight);
    proof {
        assert(causal_rises(dag.adjacency(), taus_of(dag)));
        assert forall|i: int| 0 <= i < temporal.crossings@.len() implies {
            let c = #[trigger] temporal.crossings@[i];
            &&& 0 <= pos(names, c.from@) < names.len()
            &&& 0 <= pos(names, c.to@) < names.len()
            &&& !c.retrocausal ==> taus_of(dag)[pos(names, c.from@)] < taus_of(dag)[pos(names, c.to@)]
        } by {
            let c = temporal.crossings@[i];
            assert(crossings_view(temporal.crossings@)[i] == c@);
            assert(crate::compiler::temporal::sound_crossing(cs[i], regs));
            assert(epoch_in(regs, c.from@) is Some);
            assert(epoch_in(regs, c.to@) is Some);
            assert(seeded_cell(dag.nodes_view()[pos(names, c.from@)], pos(names, c.from@), order@[pos(names, c.from@)].1, value, weight));
            assert(seeded_cell(dag.nodes_view()[pos(names, c.to@)], pos(names, c.to@), order@[pos(names, c.to@)].1, value, weight));
        }
        assert forall|j: int| 0 <= j < evolves_of(sv).len() implies 0 <= pos(
            names,
            (#[trigger] evolves_of(sv)[j]).0,
        ) < names.len() by {
            assert(epoch_in(regs, evolves_of(sv)[j].0) is Some);
        }
    }
    let ghost g0 = dag.adjacency();
    wire_cells(&mut dag, &unknown_order, &temporal.crossings);
    let ghost g1 = dag.adjacency();
    couple_cells(&mut dag, module, &unknown_order, &temporal.epochs);
    proof {
        lemma_apply_concat(
            g0,
            crossing_edges(cs, names),
            algebraic_edges(evolves_of(sv), regs, names, evolves_of(sv).len() as int),
        );
        let ord = ordered_registers(names, dag);
        assert(ord =~= ov) by {
            assert forall|i: int| 0 <= i < ord.len() implies ord[i] == ov[i] by {
                assert(seeded_cell(dag.nodes_view()[i], i, order@[i].1, value, weight));
            }
        }
        assert forall|i: int| 0 <= i < dag.node_count() implies seeded_cell(
            #[trigger] dag.nodes_view()[i],
            i,
            dag.nodes_view()[i].addr.tau,
            value,
            weight,
        ) by {
            assert(seeded_cell(dag.nodes_view()[i], i, order@[i].1, value, weight));
        }
    }
    Ok((LoweringOutput { temporal, unknown_order }, dag))
}

} // verus!
