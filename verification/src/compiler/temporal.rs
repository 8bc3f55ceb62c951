use vstd::prelude::*;
use crate::addr::Epoch;
use crate::text::{chars_of, same_text};
use crate::compiler::ast::{ChronalModule, Expr, ExprView, StmtView, regs_of, evolves_of, retros_of};
use crate::compiler::error::CompileError;

verus! {

/// An edge whose endpoints lie in distinct epochs.
#[derive(Clone, Debug)]
pub struct EpochCrossing {
    pub from: String,
    pub to: String,
    pub from_epoch: Epoch,
    pub to_epoch: Epoch,
    pub retrocausal: bool,
}

pub struct CrossingView {
    pub from: Seq<char>,
    pub to: Seq<char>,
    pub from_epoch: Epoch,
    pub to_epoch: Epoch,
    pub retrocausal: bool,
}

impl View for EpochCrossing {
    type V = CrossingView;

    open spec fn view(&self) -> CrossingView {
        CrossingView {
            from: self.from@,
            to: self.to@,
            from_epoch: self.from_epoch,
            to_epoch: self.to_epoch,
            retrocausal: self.retrocausal,
        }
    }
}

/// Why a module fails temporal analysis.
pub enum AnalysisFault {
    Duplicate(Seq<char>),
    BadEdge(Seq<char>, Seq<char>),
    Undefined(Seq<char>),
}

/// Temporal dependency graph of a module: register epochs in declaration
/// order, epoch crossings, and the registers of the CTC region.
#[derive(Clone, Debug)]
pub struct TemporalDependencyGraph {
    pub epochs: Vec<(String, Epoch)>,
    pub crossings: Vec<EpochCrossing>,
    /// Registers participating in at least one retrocausal edge, each once.
    pub ctc_region: Vec<String>,
}

/// Variables of an expression, left to right, repeats included.
pub open spec fn vars_of(e: ExprView) -> Seq<Seq<char>>
    decreases e,
{
    match e {
        ExprView::Const(_) => Seq::empty(),
        ExprView::Var(v) => seq![v],
        ExprView::Add(a, b) => vars_of(*a) + vars_of(*b),
        ExprView::Sub(a, b) => vars_of(*a) + vars_of(*b),
        ExprView::Mul(a, b) => vars_of(*a) + vars_of(*b),
        ExprView::Neg(a) => vars_of(*a),
    }
}

/// Whether the variable `v` occurs anywhere in `e`.
pub open spec fn mentions(e: ExprView, v: Seq<char>) -> bool
    decreases e,
{
    match e {
        ExprView::Const(_) => false,
        ExprView::Var(x) => x == v,
        ExprView::Add(a, b) => mentions(*a, v) || mentions(*b, v),
        ExprView::Sub(a, b) => mentions(*a, v) || mentions(*b, v),
        ExprView::Mul(a, b) => mentions(*a, v) || mentions(*b, v),
        ExprView::Neg(a) => mentions(*a, v),
    }
}

/// The variables listed for an expression are exactly those that occur in
/// it, however deep: under a sum, a difference, a product or a negation.
pub proof fn lemma_vars_are_occurrences(e: ExprView, v: Seq<char>)
    ensures
        vars_of(e).contains(v) <==> mentions(e, v),
    decreases e,
{
    match e {
        ExprView::Const(_) => {},
        ExprView::Var(x) => {
            assert(vars_of(e)[0] == x);
        },
        ExprView::Add(a, b) => {
            lemma_vars_are_occurrences(*a, v);
            lemma_vars_are_occurrences(*b, v);
            lemma_concat_contains(vars_of(*a), vars_of(*b), v);
        },
        ExprView::Sub(a, b) => {
            lemma_vars_are_occurrences(*a, v);
            lemma_vars_are_occurrences(*b, v);
            lemma_concat_contains(vars_of(*a), vars_of(*b), v);
        },
        ExprView::Mul(a, b) => {
            lemma_vars_are_occurrences(*a, v);
            lemma_vars_are_occurrences(*b, v);
            lemma_concat_contains(vars_of(*a), vars_of(*b), v);
        },
        ExprView::Neg(a) => {
            lemma_vars_are_occurrences(*a, v);
        },
    }
}

proof fn lemma_concat_contains(x: Seq<Seq<char>>, y: Seq<Seq<char>>, v: Seq<char>)
    ensures
        (x + y).contains(v) <==> x.contains(v) || y.contains(v),
{
    if x.contains(v) {
        let k = choose|k: int| 0 <= k < x.len() && x[k] == v;
        assert((x + y)[k] == v);
    }
    if y.contains(v) {
        let k = choose|k: int| 0 <= k < y.len() && y[k] == v;
        assert((x + y)[x.len() + k] == v);
    }
    if (x + y).contains(v) {
        let k = choose|k: int| 0 <= k < (x + y).len() && (x + y)[k] == v;
        if k < x.len() {
            assert(x[k] == v);
        } else {
            assert(y[k - x.len()] == v);
        }
    }
}

/// The first occurrence of each element, in order.
pub open spec fn distinct_names(s: Seq<Seq<char>>) -> Seq<Seq<char>>
    decreases s.len(),
{
    if s.len() == 0 {
        Seq::empty()
    } else {
        let rest = distinct_names(s.drop_last());
        if rest.contains(s.last()) {
            rest
        } else {
            rest.push(s.last())
        }
    }
}

/// Epoch of `name` in a register table.
pub open spec fn epoch_in(table: Seq<(Seq<char>, Epoch)>, name: Seq<char>) -> Option<Epoch>
    decreases table.len(),
{
    if table.len() == 0 {
        None
    } else if table.last().0 == name {
        Some(table.last().1)
    } else {
        epoch_in(table.drop_last(), name)
    }
}

/// Position of the first register among the first `k` whose name was
/// already declared, if any.
pub open spec fn dup_upto(regs: Seq<(Seq<char>, Epoch)>, k: int) -> Option<int>
    decreases k,
{
    if k <= 0 {
        None
    } else {
        match dup_upto(regs, k - 1) {
            Some(x) => Some(x),
            None => if epoch_in(regs.take(k - 1), regs[k - 1].0) is Some {
                Some(k - 1)
            } else {
                None
            },
        }
    }
}

/// Crossings of the first `k` explicit retrocausal wires.
pub open spec fn retro_crossings(
    edges: Seq<(Seq<char>, Seq<char>)>,
    table: Seq<(Seq<char>, Epoch)>,
    k: int,
) -> Result<Seq<CrossingView>, AnalysisFault>
    decreases k,
{
    if k <= 0 {
        Ok(Seq::empty())
    } else {
        match retro_crossings(edges, table, k - 1) {
            Err(f) => Err(f),
            Ok(cs) => {
                let (f, t) = edges[k - 1];
                match (epoch_in(table, f), epoch_in(table, t)) {
                    (Some(ef), Some(et)) => Ok(
                        cs.push(CrossingView { from: f, to: t, from_epoch: ef, to_epoch: et, retrocausal: true }),
                    ),
                    _ => Err(AnalysisFault::BadEdge(f, t)),
                }
            },
        }
    }
}

/// Crossings inferred from the first `k` variables of an equation for
/// `target` (in epoch `te`): one per variable in another epoch,
/// retrocausal when that epoch is later.
pub open spec fn eq_crossings(
    target: Seq<char>,
    te: Epoch,
    vars: Seq<Seq<char>>,
    table: Seq<(Seq<char>, Epoch)>,
    k: int,
) -> Result<Seq<CrossingView>, AnalysisFault>
    decreases k,
{
    if k <= 0 {
        Ok(Seq::empty())
    } else {
        match eq_crossings(target, te, vars, table, k - 1) {
            Err(f) => Err(f),
            Ok(cs) => match epoch_in(table, vars[k - 1]) {
                None => Err(AnalysisFault::Undefined(vars[k - 1])),
                Some(de) => if de != te {
                    Ok(
                        cs.push(
                            CrossingView {
                                from: vars[k - 1],
                                to: target,
                                from_epoch: de,
                                to_epoch: te,
                                retrocausal: de.0 > te.0,
                            },
                        ),
                    )
                } else {
                    Ok(cs)
                },
            },
        }
    }
}

/// Crossings inferred from the first `k` evolve equations.
pub open spec fn evolve_crossings(
    eqs: Seq<(Seq<char>, ExprView)>,
    table: Seq<(Seq<char>, Epoch)>,
    k: int,
) -> Result<Seq<CrossingView>, AnalysisFault>
    decreases k,
{
    if k <= 0 {
        Ok(Seq::empty())
    } else {
        match evolve_crossings(eqs, table, k - 1) {
            Err(f) => Err(f),
            Ok(cs) => {
                let (target, body) = eqs[k - 1];
                match epoch_in(table, target) {
                    None => Err(AnalysisFault::Undefined(target)),
                    Some(te) => {
                        let vars = distinct_names(vars_of(body));
                        match eq_crossings(target, te, vars, table, vars.len() as int) {
                            Err(f) => Err(f),
                            Ok(more) => Ok(cs + more),
                        }
                    },
                }
            },
        }
    }
}

/// Temporal analysis of a module: duplicate declarations first, then the
/// explicit wires, then the evolve equations, each in order.
pub open spec fn analysis(stmts: Seq<StmtView>) -> Result<Seq<CrossingView>, AnalysisFault> {
    let regs = regs_of(stmts);
    match dup_upto(regs, regs.len() as int) {
        Some(k) => Err(AnalysisFault::Duplicate(regs[k].0)),
        None => match retro_crossings(retros_of(stmts), regs, retros_of(stmts).len() as int) {
            Err(f) => Err(f),
            Ok(rc) => match evolve_crossings(evolves_of(stmts), regs, evolves_of(stmts).len() as int) {
                Err(f) => Err(f),
                Ok(ec) => Ok(rc + ec),
            },
        },
    }
}

/// Names on either end of a retrocausal crossing.
pub open spec fn region_of(cs: Seq<CrossingView>) -> Set<Seq<char>> {
    Set::new(
        |n: Seq<char>|
            exists|i: int|
                0 <= i < cs.len() && (#[trigger] cs[i]).retrocausal && (cs[i].from == n || cs[i].to == n),
    )
}

pub open spec fn table_view(t: Seq<(String, Epoch)>) -> Seq<(Seq<char>, Epoch)> {
    t.map_values(|p: (String, Epoch)| (p.0@, p.1))
}

pub open spec fn names_view(t: Seq<String>) -> Seq<Seq<char>> {
    t.map_values(|s: String| s@)
}

pub open spec fn crossings_view(t: Seq<EpochCrossing>) -> Seq<CrossingView> {
    t.map_values(|c: EpochCrossing| c@)
}

/// The compile error that reports a fault.
pub open spec fn reports(e: CompileError, f: AnalysisFault) -> bool {
    match (e, f) {
        (CompileError::DuplicateRegister(n), AnalysisFault::Duplicate(m)) => n@ == m,
        (CompileError::BadRetrocausalEdge { from, to }, AnalysisFault::BadEdge(a, b)) => from@ == a && to@ == b,
        (CompileError::UndefinedRegister(n), AnalysisFault::Undefined(m)) => n@ == m,
        _ => false,
    }
}

pub(crate) fn lookup_epoch(table: &Vec<(String, Epoch)>, name: &str) -> (r: Option<Epoch>)
    ensures
        r == epoch_in(table_view(table@), name@),
{
    let ghost tv = table_view(table@);
    let mut k = table.len();
    assert(tv.take(k as int) =~= tv);
    while k > 0
        invariant
            k <= table@.len(),
            tv == table_view(table@),
            epoch_in(tv, name@) == epoch_in(tv.take(k as int), name@),
        decreases k,
    {
        assert(tv.take(k as int).drop_last() =~= tv.take(k - 1));
        if same_text(table[k - 1].0.as_str(), name) {
            return Some(table[k - 1].1);
        }
        k = k - 1;
    }
    assert(tv.take(0) =~= Seq::<(Seq<char>, Epoch)>::empty());
    None
}

fn add_name(region: &mut Vec<String>, name: &str)
    ensures
        names_view(final(region)@).to_set() == names_view(old(region)@).to_set().insert(name@),
        names_view(old(region)@).no_duplicates() ==> names_view(final(region)@).no_duplicates(),
{
    let ghost before = names_view(region@);
    let mut i: usize = 0;
    while i < region.len()
        invariant
            i <= region@.len(),
            region@ == old(region)@,
            before == names_view(region@),
            forall|j: int| 0 <= j < i ==> region@[j]@ != name@,
        decreases region@.len() - i,
    {
        if same_text(region[i].as_str(), name) {
            proof {
                assert(before.contains(name@)) by {
                    assert(before[i as int] == name@);
                }
                assert(before.to_set() =~= before.to_set().insert(name@));
            }
            return;
        }
        i = i + 1;
    }
    let owned = String::from_str(name);
    region.push(owned);
    proof {
        let after = names_view(region@);
        assert(after =~= before.push(name@));
        assert(!before.contains(name@)) by {
            if before.contains(name@) {
                let j = choose|j: int| 0 <= j < before.len() && before[j] == name@;
                assert(region@[j]@ == name@);
            }
        }
        assert forall|x: Seq<char>| after.contains(x) <==> before.contains(x) || x == name@ by {
            if after.contains(x) {
                let j = choose|j: int| 0 <= j < after.len() && after[j] == x;
                if j < before.len() {
                    assert(before[j] == x);
                }
            }
            if before.contains(x) {
                let j = choose|j: int| 0 <= j < before.len() && before[j] == x;
                assert(after[j] == x);
            }
            if x == name@ {
                assert(after[before.len() as int] == x);
            }
        }
        assert(after.to_set() =~= before.to_set().insert(name@));
        if before.no_duplicates() {
            assert forall|a: int, b: int| 0 <= a < after.len() && 0 <= b < after.len() && a != b implies after[a]
                != after[b] by {
                if a < before.len() && b < before.len() {
                } else if a < before.len() {
                    assert(after[b] == name@);
                    assert(before[a] == after[a]);
                } else {
                    assert(after[a] == name@);
                    assert(before[b] == after[b]);
                }
            }
        }
    }
}

/// Variables of an expression, left to right, repeats included.
pub fn expr_var_list(e: &Expr) -> (r: Vec<String>)
    ensures
        names_view(r@) == vars_of(e@),
    decreases e,
{
    match e {
        Expr::Const(_) => Vec::new(),
        Expr::Var(v) => {
            let mut out: Vec<String> = Vec::new();
            out.push(v.clone());
            assert(names_view(out@) =~= seq![v@]);
            out
        },
        Expr::Add(a, b) | Expr::Sub(a, b) | Expr::Mul(a, b) => {
            let mut left = expr_var_list(a);
            let mut right = expr_var_list(b);
            let ghost l = left@;
            let ghost r = right@;
            left.append(&mut right);
            assert(names_view(left@) =~= names_view(l) + names_view(r));
            left
        },
        Expr::Neg(a) => expr_var_list(a),
    }
}

/// Distinct variables of an expression, in order of first occurrence.
pub fn expr_vars(e: &Expr) -> (r: Vec<String>)
    ensures
        names_view(r@) == distinct_names(vars_of(e@)),
{
    let all = expr_var_list(e);
    let ghost av = names_view(all@);
    let mut out: Vec<String> = Vec::new();
    let mut i: usize = 0;
    while i < all.len()
        invariant
            av == names_view(all@),
            i <= all@.len(),
            names_view(out@) == distinct_names(av.take(i as int)),
        decreases all@.len() - i,
    {
        assert(av.take(i + 1).drop_last() =~= av.take(i as int));
        let ghost prev = names_view(out@);
        let mut seen = false;
        let mut j: usize = 0;
        while j < out.len()
            invariant
                j <= out@.len(),
                prev == names_view(out@),
                seen <==> exists|q: int| 0 <= q < j && out@[q]@ == all@[i as int]@,
                i < all@.len(),
            decreases out@.len() - j,
        {
            if same_text(out[j].as_str(), all[i].as_str()) {
                seen = true;
            }
            j = j + 1;
        }
        proof {
            if seen {
                let q = choose|q: int| 0 <= q < out@.len() && out@[q]@ == all@[i as int]@;
                assert(prev[q] == av[i as int]);
                assert(prev.contains(av[i as int]));
            } else {
                if prev.contains(av[i as int]) {
                    let q = choose|q: int| 0 <= q < prev.len() && prev[q] == av[i as int];
                    assert(out@[q]@ == all@[i as int]@);
                }
            }
            assert(av.take(i + 1).last() == av[i as int]);
        }
        if !seen {
            out.push(all[i].clone());
            assert(names_view(out@) =~= prev.push(av[i as int]));
        }
        i = i + 1;
    }
    assert(av.take(av.len() as int) =~= av);
    out
}


/// What a graph says of a module whose analysis produced `cs`.
pub open spec fn describes(g: TemporalDependencyGraph, stmts: Seq<StmtView>, cs: Seq<CrossingView>) -> bool {
    &&& table_view(g.epochs@) == regs_of(stmts)
    &&& crossings_view(g.crossings@) == cs
    &&& names_view(g.ctc_region@).to_set() == region_of(cs)
    &&& names_view(g.ctc_region@).no_duplicates()
    &&& names_distinct(table_view(g.epochs@))
}

/// No name occurs twice in a register table.
pub open spec fn names_distinct(t: Seq<(Seq<char>, Epoch)>) -> bool {
    forall|i: int, j: int| 0 <= i < j < t.len() ==> (#[trigger] t[i]).0 != (#[trigger] t[j]).0
}

/// A name that looks up nothing occurs nowhere in the table.
proof fn lemma_lookup_absent(t: Seq<(Seq<char>, Epoch)>, n: Seq<char>)
    requires
        epoch_in(t, n) is None,
    ensures
        forall|i: int| 0 <= i < t.len() ==> (#[trigger] t[i]).0 != n,
    decreases t.len(),
{
    if t.len() > 0 {
        lemma_lookup_absent(t.drop_last(), n);
        assert forall|i: int| 0 <= i < t.len() implies (#[trigger] t[i]).0 != n by {
            if i < t.len() - 1 {
                assert(t[i] == t.drop_last()[i]);
            }
        }
    }
}

/// A table without a repeated declaration has distinct names.
proof fn lemma_dup_free_distinct(t: Seq<(Seq<char>, Epoch)>, k: int)
    requires
        0 <= k <= t.len(),
        dup_upto(t, k) is None,
    ensures
        names_distinct(t.take(k)),
    decreases k,
{
    if k > 0 {
        lemma_dup_free_distinct(t, k - 1);
        lemma_lookup_absent(t.take(k - 1), t[k - 1].0);
        assert forall|i: int, j: int| 0 <= i < j < k implies (#[trigger] t.take(k)[i]).0 != (#[trigger] t.take(k)[j]).0 by {
            if j < k - 1 {
                assert(t.take(k)[i] == t.take(k - 1)[i] && t.take(k)[j] == t.take(k - 1)[j]);
            } else {
                assert(t.take(k)[i] == t.take(k - 1)[i]);
            }
        }
    }
}

proof fn lemma_dup_persists(regs: Seq<(Seq<char>, Epoch)>, k1: int, k2: int)
    requires
        k1 <= k2,
        dup_upto(regs, k1) is Some,
    ensures
        dup_upto(regs, k2) == dup_upto(regs, k1),
    decreases k2 - k1,
{
    if k2 > k1 {
        lemma_dup_persists(regs, k1, k2 - 1);
    }
}

proof fn lemma_retro_err_persists(
    edges: Seq<(Seq<char>, Seq<char>)>,
    table: Seq<(Seq<char>, Epoch)>,
    k1: int,
    k2: int,
)
    requires
        k1 <= k2,
        retro_crossings(edges, table, k1) is Err,
    ensures
        retro_crossings(edges, table, k2) == retro_crossings(edges, table, k1),
    decreases k2 - k1,
{
    if k2 > k1 {
        lemma_retro_err_persists(edges, table, k1, k2 - 1);
    }
}

proof fn lemma_eq_err_persists(
    target: Seq<char>,
    te: Epoch,
    vars: Seq<Seq<char>>,
    table: Seq<(Seq<char>, Epoch)>,
    k1: int,
    k2: int,
)
    requires
        k1 <= k2,
        eq_crossings(target, te, vars, table, k1) is Err,
    ensures
        eq_crossings(target, te, vars, table, k2) == eq_crossings(target, te, vars, table, k1),
    decreases k2 - k1,
{
    if k2 > k1 {
        lemma_eq_err_persists(target, te, vars, table, k1, k2 - 1);
    }
}

proof fn lemma_evolve_err_persists(
    eqs: Seq<(Seq<char>, ExprView)>,
    table: Seq<(Seq<char>, Epoch)>,
    k1: int,
    k2: int,
)
    requires
        k1 <= k2,
        evolve_crossings(eqs, table, k1) is Err,
    ensures
        evolve_crossings(eqs, table, k2) == evolve_crossings(eqs, table, k1),
    decreases k2 - k1,
{
    if k2 > k1 {
        lemma_evolve_err_persists(eqs, table, k1, k2 - 1);
    }
}

proof fn lemma_region_push(cs: Seq<CrossingView>, c: CrossingView)
    ensures
        region_of(cs.push(c)) == (if c.retrocausal {
            region_of(cs).insert(c.from).insert(c.to)
        } else {
            region_of(cs)
        }),
{
    let both = cs.push(c);
    let expect = if c.retrocausal {
        region_of(cs).insert(c.from).insert(c.to)
    } else {
        region_of(cs)
    };
    assert forall|n: Seq<char>| region_of(both).contains(n) <==> expect.contains(n) by {
        if region_of(both).contains(n) {
            let i = choose|i: int|
                0 <= i < both.len() && (#[trigger] both[i]).retrocausal && (both[i].from == n || both[i].to == n);
            if i < cs.len() {
                assert(cs[i] == both[i]);
            }
        }
        if region_of(cs).contains(n) {
            let i = choose|i: int|
                0 <= i < cs.len() && (#[trigger] cs[i]).retrocausal && (cs[i].from == n || cs[i].to == n);
            assert(both[i] == cs[i]);
        }
        if c.retrocausal && (n == c.from || n == c.to) {
            assert(both[cs.len() as int] == c);
        }
    }
    assert(region_of(both) =~= expect);
}

/// Appends a crossing, adding its endpoints to the region when it is
/// retrocausal.
fn record(crossings: &mut Vec<EpochCrossing>, region: &mut Vec<String>, c: EpochCrossing)
    requires
        names_view(old(region)@).to_set() == region_of(crossings_view(old(crossings)@)),
        names_view(old(region)@).no_duplicates(),
    ensures
        crossings_view(final(crossings)@) == crossings_view(old(crossings)@).push(c@),
        names_view(final(region)@).to_set() == region_of(crossings_view(final(crossings)@)),
        names_view(final(region)@).no_duplicates(),
{
    let ghost before = crossings_view(crossings@);
    if c.retrocausal {
        add_name(region, c.from.as_str());
        add_name(region, c.to.as_str());
    }
    crossings.push(c);
    proof {
        assert(crossings_view(crossings@) =~= before.push(c@));
        lemma_region_push(before, c@);
    }
}

/// Register table in declaration order; fails on the first register
/// declared twice.
fn collect_epochs(module: &ChronalModule) -> (r: Result<Vec<(String, Epoch)>, CompileError>)
    ensures
        match dup_upto(regs_of(module.stmt_views()), regs_of(module.stmt_views()).len() as int) {
            None => r matches Ok(t) && table_view(t@) == regs_of(module.stmt_views()),
            Some(k) => r matches Err(e) && reports(
                e,
                AnalysisFault::Duplicate(regs_of(module.stmt_views())[k].0),
            ),
        },
{
    let ghost regs = regs_of(module.stmt_views());
    let decls = module.registers();
    let mut epochs: Vec<(String, Epoch)> = Vec::new();
    let mut i: usize = 0;
    while i < decls.len()
        invariant
            regs == regs_of(module.stmt_views()),
            decls@.len() == regs.len(),
            forall|j: int|
                0 <= j < decls@.len() ==> (#[trigger] decls@[j]).name@ == regs[j].0 && decls@[j].epoch
                    == regs[j].1,
            i <= decls@.len(),
            table_view(epochs@) == regs.take(i as int),
            dup_upto(regs, i as int) is None,
        decreases decls@.len() - i,
    {
        let d = decls[i];
        let found = lookup_epoch(&epochs, d.name.as_str());
        if found.is_some() {
            proof {
                assert(dup_upto(regs, i + 1) == Some(i as int));
                lemma_dup_persists(regs, i + 1, regs.len() as int);
            }
            return Err(CompileError::DuplicateRegister(d.name.clone()));
        }
        let ghost old_t = epochs@;
        epochs.push((d.name.clone(), d.epoch));
        proof {
            assert(table_view(epochs@) =~= table_view(old_t).push(regs[i as int]));
            assert(regs.take(i + 1) =~= regs.take(i as int).push(regs[i as int]));
        }
        i = i + 1;
    }
    assert(regs.take(regs.len() as int) =~= regs);
    Ok(epochs)
}

/// Crossings of the explicit retrocausal wires, in order.
fn wire_crossings(
    module: &ChronalModule,
    epochs: &Vec<(String, Epoch)>,
    crossings: &mut Vec<EpochCrossing>,
    region: &mut Vec<String>,
) -> (r: Result<(), CompileError>)
    requires
        table_view(epochs@) == regs_of(module.stmt_views()),
        old(crossings)@.len() == 0,
        old(region)@.len() == 0,
    ensures
        match retro_crossings(
            retros_of(module.stmt_views()),
            regs_of(module.stmt_views()),
            retros_of(module.stmt_views()).len() as int,
        ) {
            Ok(rc) => r is Ok && crossings_view(final(crossings)@) == rc,
            Err(f) => r matches Err(e) && reports(e, f),
        },
        names_view(final(region)@).to_set() == region_of(crossings_view(final(crossings)@)),
        names_view(final(region)@).no_duplicates(),
{
    let ghost regs = regs_of(module.stmt_views());
    let ghost wires = retros_of(module.stmt_views());
    let edges = module.retrocausal_edges();
    proof {
        assert(names_view(region@).to_set() =~= Set::empty());
        assert(region_of(crossings_view(crossings@)) =~= Set::empty());
        assert(crossings_view(crossings@) =~= Seq::empty());
    }
    let mut i: usize = 0;
    while i < edges.len()
        invariant
            regs == regs_of(module.stmt_views()),
            wires == retros_of(module.stmt_views()),
            table_view(epochs@) == regs,
            edges@.len() == wires.len(),
            forall|j: int|
                0 <= j < edges@.len() ==> (#[trigger] edges@[j]).0@ == wires[j].0 && edges@[j].1@
                    == wires[j].1,
            i <= edges@.len(),
            retro_crossings(wires, regs, i as int) == Ok::<Seq<CrossingView>, AnalysisFault>(
                crossings_view(crossings@),
            ),
            names_view(region@).to_set() == region_of(crossings_view(crossings@)),
            names_view(region@).no_duplicates(),
        decreases edges@.len() - i,
    {
        let (from, to) = edges[i];
        let fe = lookup_epoch(epochs, from);
        let te = lookup_epoch(epochs, to);
        if fe.is_none() || te.is_none() {
            proof {
                lemma_retro_err_persists(wires, regs, i + 1, wires.len() as int);
            }
            return Err(
                CompileError::BadRetrocausalEdge { from: String::from_str(from), to: String::from_str(to) },
            );
        }
        let c = EpochCrossing {
            from: String::from_str(from),
            to: String::from_str(to),
            from_epoch: fe.unwrap(),
            to_epoch: te.unwrap(),
            retrocausal: true,
        };
        record(crossings, region, c);
        i = i + 1;
    }
    Ok(())
}

/// Crossings inferred from the evolve equations, appended after the
/// crossings already recorded.
fn equation_crossings(
    module: &ChronalModule,
    epochs: &Vec<(String, Epoch)>,
    crossings: &mut Vec<EpochCrossing>,
    region: &mut Vec<String>,
) -> (r: Result<(), CompileError>)
    requires
        table_view(epochs@) == regs_of(module.stmt_views()),
        names_view(old(region)@).to_set() == region_of(crossings_view(old(crossings)@)),
        names_view(old(region)@).no_duplicates(),
    ensures
        match evolve_crossings(
            evolves_of(module.stmt_views()),
            regs_of(module.stmt_views()),
            evolves_of(module.stmt_views()).len() as int,
        ) {
            Ok(ec) => r is Ok && crossings_view(final(crossings)@) == crossings_view(old(crossings)@) + ec,
            Err(f) => r matches Err(e) && reports(e, f),
        },
        names_view(final(region)@).to_set() == region_of(crossings_view(final(crossings)@)),
        names_view(final(region)@).no_duplicates(),
{
    let ghost regs = regs_of(module.stmt_views());
    let ghost eqs = evolves_of(module.stmt_views());
    let ghost start = crossings_view(crossings@);
    let ghost mut ec: Seq<CrossingView> = Seq::empty();
    let list = module.evolve_eqs();
    let mut j: usize = 0;
    assert(start + ec =~= start);
    while j < list.len()
        invariant
            regs == regs_of(module.stmt_views()),
            eqs == evolves_of(module.stmt_views()),
            table_view(epochs@) == regs,
            list@.len() == eqs.len(),
            forall|q: int|
                0 <= q < list@.len() ==> (#[trigger] list@[q]).target@ == eqs[q].0 && list@[q].body@
                    == eqs[q].1,
            j <= list@.len(),
            evolve_crossings(eqs, regs, j as int) == Ok::<Seq<CrossingView>, AnalysisFault>(ec),
            crossings_view(crossings@) == start + ec,
            names_view(region@).to_set() == region_of(crossings_view(crossings@)),
            names_view(region@).no_duplicates(),
        decreases list@.len() - j,
    {
        let eq = list[j];
        let target_epoch = match lookup_epoch(epochs, eq.target.as_str()) {
            Some(e) => e,
            None => {
                proof {
                    lemma_evolve_err_persists(eqs, regs, j + 1, eqs.len() as int);
                }
                return Err(CompileError::UndefinedRegister(eq.target.clone()));
            },
        };
        let deps = expr_vars(&eq.body);
        let ghost vars = names_view(deps@);
        assert(eqs[j as int] == (eq.target@, eq.body@));
        let ghost mut more: Seq<CrossingView> = Seq::empty();
        let mut m: usize = 0;
        assert(start + ec + more =~= start + ec);
        while m < deps.len()
            invariant
                regs == regs_of(module.stmt_views()),
                table_view(epochs@) == regs,
                vars == names_view(deps@),
                vars == distinct_names(vars_of(eq.body@)),
                eqs == evolves_of(module.stmt_views()),
                j < eqs.len(),
                eqs[j as int] == (eq.target@, eq.body@),
                epoch_in(regs, eq.target@) == Some(target_epoch),
                evolve_crossings(eqs, regs, j as int) == Ok::<Seq<CrossingView>, AnalysisFault>(ec),
                m <= deps@.len(),
                eq_crossings(eq.target@, target_epoch, vars, regs, m as int) == Ok::<
                    Seq<CrossingView>,
                    AnalysisFault,
                >(more),
                crossings_view(crossings@) == start + ec + more,
                names_view(region@).to_set() == region_of(crossings_view(crossings@)),
                names_view(region@).no_duplicates(),
            decreases deps@.len() - m,
        {
            let dep = &deps[m];
            let dep_epoch = match lookup_epoch(epochs, dep.as_str()) {
                Some(e) => e,
                None => {
                    proof {
                        assert(vars[m as int] == dep@);
                        lemma_eq_err_persists(eq.target@, target_epoch, vars, regs, m + 1, vars.len() as int);
                        assert(eqs[j as int] == (eq.target@, eq.body@));
                        assert(vars == distinct_names(vars_of(eq.body@)));
                        assert(evolve_crossings(eqs, regs, j + 1) == Err::<Seq<CrossingView>, AnalysisFault>(
                            AnalysisFault::Undefined(dep@),
                        ));
                        lemma_evolve_err_persists(eqs, regs, j + 1, eqs.len() as int);
                    }
                    return Err(CompileError::UndefinedRegister(dep.clone()));
                },
            };
            assert(vars[m as int] == dep@);
            if dep_epoch.0 != target_epoch.0 {
                let c = EpochCrossing {
                    from: dep.clone(),
                    to: eq.target.clone(),
                    from_epoch: dep_epoch,
                    to_epoch: target_epoch,
                    retrocausal: dep_epoch.0 > target_epoch.0,
                };
                let ghost cv = c@;
                record(crossings, region, c);
                proof {
                    more = more.push(cv);
                    assert(start + ec + more =~= (start + ec + more.drop_last()).push(cv));
                }
            }
            m = m + 1;
        }
        proof {
            assert(eqs[j as int] == (eq.target@, eq.body@));
            assert(vars == distinct_names(vars_of(eq.body@)));
            ec = ec + more;
            assert(start + ec =~= start + (ec.subrange(0, ec.len() - more.len())) + more);
            assert(ec.subrange(0, ec.len() - more.len()) =~= ec.subrange(0, ec.len() - more.len()));
        }
        j = j + 1;
    }
    Ok(())
}

impl TemporalDependencyGraph {
    /// Builds the temporal dependency graph of a module.
    ///
    /// Fails with `DuplicateRegister` on the first register declared twice,
    /// then with `BadRetrocausalEdge` on the first wire naming an unknown
    /// register, then with `UndefinedRegister` on the first equation whose
    /// target or operand is undeclared.
    pub fn analyze(module: &ChronalModule) -> (r: Result<TemporalDependencyGraph, CompileError>)
        ensures
            match analysis(module.stmt_views()) {
                Ok(cs) => r matches Ok(g) && describes(g, module.stmt_views(), cs),
                Err(f) => r matches Err(e) && reports(e, f),
            },
    {
        let epochs = match collect_epochs(module) {
            Ok(t) => t,
            Err(e) => {
                return Err(e);
            },
        };
        let mut crossings: Vec<EpochCrossing> = Vec::new();
        let mut ctc_region: Vec<String> = Vec::new();
        match wire_crossings(module, &epochs, &mut crossings, &mut ctc_region) {
            Ok(()) => {},
            Err(e) => {
                return Err(e);
            },
        }
        match equation_crossings(module, &epochs, &mut crossings, &mut ctc_region) {
            Ok(()) => {},
            Err(e) => {
                return Err(e);
            },
        }
        proof {
            lemma_analysis_sound(module.stmt_views());
            let regs = regs_of(module.stmt_views());
            lemma_dup_free_distinct(regs, regs.len() as int);
            assert(regs.take(regs.len() as int) =~= regs);
        }
        Ok(TemporalDependencyGraph { epochs, crossings, ctc_region })
    }
}

/// Lexicographic order of character sequences by code point, the order of
/// `str`.
pub open spec fn text_lt(a: Seq<char>, b: Seq<char>) -> bool
    decreases a.len(),
{
    if a.len() == 0 {
        b.len() > 0
    } else if b.len() == 0 {
        false
    } else if a[0] != b[0] {
        (a[0] as u32) < (b[0] as u32)
    } else {
        text_lt(a.drop_first(), b.drop_first())
    }
}

/// Whether register `a` is allocated before register `b`: registers of the
/// CTC region first, then by epoch, then by name.
pub open spec fn alloc_before(a: (Seq<char>, Epoch), b: (Seq<char>, Epoch), region: Set<Seq<char>>) -> bool {
    let ra = region.contains(a.0);
    let rb = region.contains(b.0);
    ||| ra && !rb
    ||| ra == rb && (a.1.0 < b.1.0 || (a.1.0 == b.1.0 && text_lt(a.0, b.0)))
}

proof fn lemma_text_lt_trans(a: Seq<char>, b: Seq<char>, c: Seq<char>)
    requires
        text_lt(a, b),
        text_lt(b, c),
    ensures
        text_lt(a, c),
    decreases a.len(),
{
    if a.len() > 0 && a[0] == b[0] && b[0] == c[0] {
        lemma_text_lt_trans(a.drop_first(), b.drop_first(), c.drop_first());
    }
}

proof fn lemma_alloc_before_trans(
    a: (Seq<char>, Epoch),
    b: (Seq<char>, Epoch),
    c: (Seq<char>, Epoch),
    region: Set<Seq<char>>,
)
    requires
        alloc_before(a, b, region),
        alloc_before(b, c, region),
    ensures
        alloc_before(a, c, region),
{
    if a.1.0 == b.1.0 && b.1.0 == c.1.0 && region.contains(a.0) == region.contains(b.0) && region.contains(
        b.0,
    ) == region.contains(c.0) {
        lemma_text_lt_trans(a.0, b.0, c.0);
    }
}

/// The name order is the lexicographic order of `str`: `a` comes before `b`
/// exactly when `a` is a proper prefix of `b`, or at the first position
/// where they differ `a` holds the smaller code point.
pub proof fn lemma_text_lt_lexicographic(a: Seq<char>, b: Seq<char>)
    ensures
        text_lt(a, b) <==> (a.len() < b.len() && b.take(a.len() as int) == a) || exists|k: int|
            0 <= k < a.len() && k < b.len() && a.take(k) == b.take(k) && (a[k] as u32) < (#[trigger] b[k] as u32),
    decreases a.len(),
{
    let lex = exists|k: int|
        0 <= k < a.len() && k < b.len() && a.take(k) == b.take(k) && (a[k] as u32) < (#[trigger] b[k] as u32);
    if a.len() == 0 {
        assert(b.take(0) =~= a);
    } else if b.len() == 0 {
    } else if a[0] != b[0] {
        if (a[0] as u32) < (b[0] as u32) {
            assert(a.take(0) =~= b.take(0));
            assert(lex);
        } else {
            if lex {
                let k = choose|k: int|
                    0 <= k < a.len() && k < b.len() && a.take(k) == b.take(k) && (a[k] as u32) < (#[trigger] b[k] as u32);
                if k > 0 {
                    assert(a.take(k)[0] == b.take(k)[0]);
                }
            }
            if a.len() < b.len() && b.take(a.len() as int) == a {
                assert(b.take(a.len() as int)[0] == b[0]);
            }
        }
    } else {
        let a1 = a.drop_first();
        let b1 = b.drop_first();
        lemma_text_lt_lexicographic(a1, b1);
        let lex1 = exists|k: int|
            0 <= k < a1.len() && k < b1.len() && a1.take(k) == b1.take(k) && (a1[k] as u32) < (#[trigger] b1[k] as u32);
        if lex1 {
            let k = choose|k: int|
                0 <= k < a1.len() && k < b1.len() && a1.take(k) == b1.take(k) && (a1[k] as u32) < (#[trigger] b1[k] as u32);
            assert(a.take(k + 1) =~= seq![a[0]] + a1.take(k));
            assert(b.take(k + 1) =~= seq![b[0]] + b1.take(k));
            assert(a[k + 1] == a1[k] && b[k + 1] == b1[k]);
            assert(lex);
        }
        if lex {
            let k = choose|k: int|
                0 <= k < a.len() && k < b.len() && a.take(k) == b.take(k) && (a[k] as u32) < (#[trigger] b[k] as u32);
            if k == 0 {
            } else {
                assert(a1.take(k - 1) =~= a.take(k).drop_first());
                assert(b1.take(k - 1) =~= b.take(k).drop_first());
                assert(a1[k - 1] == a[k] && b1[k - 1] == b[k]);
                assert(lex1);
            }
        }
        if a1.len() < b1.len() && b1.take(a1.len() as int) == a1 {
            assert forall|q: int| 0 <= q < a.len() implies b.take(a.len() as int)[q] == a[q] by {
                if q > 0 {
                    assert(b1.take(a1.len() as int)[q - 1] == a1[q - 1]);
                }
            }
            assert(b.take(a.len() as int) =~= a);
        }
        if a.len() < b.len() && b.take(a.len() as int) == a {
            assert(b1.take(a1.len() as int) =~= a1);
        }
    }
}

/// A proper prefix comes before each of its extensions.
pub proof fn lemma_prefix_first(a: Seq<char>, s: Seq<char>)
    requires
        s.len() > 0,
    ensures
        text_lt(a, a + s),
{
    lemma_text_lt_lexicographic(a, a + s);
    assert((a + s).take(a.len() as int) =~= a);
}

/// Of two registers with different names, one is allocated before the
/// other.
proof fn lemma_alloc_before_total(a: (Seq<char>, Epoch), b: (Seq<char>, Epoch), region: Set<Seq<char>>)
    requires
        a.0 != b.0,
    ensures
        alloc_before(a, b, region) || alloc_before(b, a, region),
{
    lemma_text_lt_total(a.0, b.0);
}

/// Of two different texts, one comes before the other.
pub proof fn lemma_text_lt_total(a: Seq<char>, b: Seq<char>)
    requires
        a != b,
    ensures
        text_lt(a, b) || text_lt(b, a),
    decreases a.len(),
{
    if a.len() == 0 && b.len() == 0 {
        assert(a =~= b);
    } else if a.len() > 0 && b.len() > 0 && a[0] != b[0] {
        let x = a[0];
        let y = b[0];
        if (x as u32) == (y as u32) {
            vstd::utf8::char_u32_cast(x, x as u32);
            vstd::utf8::char_u32_cast(y, y as u32);
        }
    } else if a.len() > 0 && b.len() > 0 && a[0] == b[0] {
        if a.drop_first() == b.drop_first() {
            assert(a =~= seq![a[0]] + a.drop_first());
            assert(b =~= seq![b[0]] + b.drop_first());
        }
        lemma_text_lt_total(a.drop_first(), b.drop_first());
    }
}

/// No text comes before itself.
pub proof fn lemma_text_lt_irrefl(a: Seq<char>)
    ensures
        !text_lt(a, a),
    decreases a.len(),
{
    if a.len() > 0 {
        lemma_text_lt_irrefl(a.drop_first());
    }
}

/// Whether `a` comes before `b` in the order of `str`.
fn text_less(a: &str, b: &str) -> (r: bool)
    ensures
        r == text_lt(a@, b@),
{
    let x = chars_of(a);
    let y = chars_of(b);
    let mut i: usize = 0;
    assert(x@.skip(0) =~= x@);
    assert(y@.skip(0) =~= y@);
    while i < x.len() && i < y.len()
        invariant
            x@ == a@,
            y@ == b@,
            i <= x@.len(),
            i <= y@.len(),
            text_lt(a@, b@) == text_lt(x@.skip(i as int), y@.skip(i as int)),
        decreases x@.len() - i,
    {
        let cx = x[i];
        let cy = y[i];
        if cx != cy {
            return (cx as u32) < (cy as u32);
        }
        assert(x@.skip(i as int).drop_first() =~= x@.skip(i + 1));
        assert(y@.skip(i as int).drop_first() =~= y@.skip(i + 1));
        i = i + 1;
    }
    i == x.len() && i < y.len()
}

/// Whether `name` is among `names`.
fn contains_name(names: &Vec<String>, name: &str) -> (r: bool)
    ensures
        r == names_view(names@).contains(name@),
{
    let ghost nv = names_view(names@);
    let mut i: usize = 0;
    while i < names.len()
        invariant
            nv == names_view(names@),
            i <= names@.len(),
            forall|j: int| 0 <= j < i ==> nv[j] != name@,
        decreases names@.len() - i,
    {
        if same_text(names[i].as_str(), name) {
            assert(nv[i as int] == name@);
            return true;
        }
        i = i + 1;
    }
    false
}

impl TemporalDependencyGraph {
    /// Suggested worldline allocation order: registers of the CTC region
    /// first, packed contiguously, then by epoch, then by name.
    pub fn allocation_order(&self) -> (r: Vec<(String, Epoch)>)
        ensures
            table_view(r@).to_multiset() == table_view(self.epochs@).to_multiset(),
            forall|i: int, j: int|
                0 <= i < j < r@.len() ==> !alloc_before(
                    #[trigger] table_view(r@)[j],
                    #[trigger] table_view(r@)[i],
                    names_view(self.ctc_region@).to_set(),
                ),
            names_distinct(table_view(self.epochs@)) ==> names_distinct(table_view(r@)) && forall|i: int, j: int|
                0 <= i < j < r@.len() ==> alloc_before(
                    #[trigger] table_view(r@)[i],
                    #[trigger] table_view(r@)[j],
                    names_view(self.ctc_region@).to_set(),
                ),
    {
        broadcast use vstd::seq_lib::to_multiset_contains;

        let ghost region = names_view(self.ctc_region@).to_set();
        let ghost src = table_view(self.epochs@);
        let mut out: Vec<(String, Epoch)> = Vec::new();
        let mut i: usize = 0;
        assert(table_view(out@) =~= src.take(0));
        while i < self.epochs.len()
            invariant
                region == names_view(self.ctc_region@).to_set(),
                src == table_view(self.epochs@),
                i <= self.epochs@.len(),
                table_view(out@).to_multiset() == src.take(i as int).to_multiset(),
                names_distinct(src) ==> names_distinct(table_view(out@)),
                forall|a: int, b: int|
                    0 <= a < b < out@.len() ==> !alloc_before(
                        #[trigger] table_view(out@)[b],
                        #[trigger] table_view(out@)[a],
                        region,
                    ),
            decreases self.epochs@.len() - i,
        {
            let name = &self.epochs[i].0;
            let epoch = self.epochs[i].1;
            let ghost x = (name@, epoch);
            assert(src[i as int] == x);
            let x_in = contains_name(&self.ctc_region, name.as_str());
            let ghost ov = table_view(out@);
            let mut p: usize = 0;
            let mut found = false;
            while p < out.len() && !found
                invariant
                    ov == table_view(out@),
                    p <= out@.len(),
                    x_in == region.contains(x.0),
                    x == (name@, epoch),
                    region == names_view(self.ctc_region@).to_set(),
                    forall|k: int| 0 <= k < p ==> !alloc_before(x, #[trigger] ov[k], region),
                    found ==> p < out@.len() && alloc_before(x, ov[p as int], region),
                decreases out@.len() - p + (if found { 0int } else { 1int }),
            {
                let o_in = contains_name(&self.ctc_region, out[p].0.as_str());
                let oe = out[p].1;
                let by_name = text_less(name.as_str(), out[p].0.as_str());
                let before = (x_in && !o_in) || (x_in == o_in && (epoch.0 < oe.0 || (epoch.0 == oe.0
                    && by_name)));
                assert(before == alloc_before(x, ov[p as int], region));
                if before {
                    found = true;
                } else {
                    p = p + 1;
                }
            }
            out.insert(p, (name.clone(), epoch));
            proof {
                let nv = table_view(out@);
                assert(nv =~= ov.insert(p as int, x));
                assert(src.take(i + 1) =~= src.take(i as int).push(x));
                vstd::seq_lib::to_multiset_insert(ov, p as int, x);
                vstd::seq_lib::to_multiset_build(src.take(i as int), x);
                if names_distinct(src) {
                    assert forall|a: int| 0 <= a < ov.len() implies (#[trigger] ov[a]).0 != x.0 by {
                        assert(ov.contains(ov[a]));
                        vstd::seq_lib::to_multiset_contains(ov, ov[a]);
                        vstd::seq_lib::to_multiset_contains(src.take(i as int), ov[a]);
                        assert(src.take(i as int).contains(ov[a]));
                        let q = choose|q: int| 0 <= q < i && src.take(i as int)[q] == ov[a];
                        assert(src[q] == ov[a]);
                    }
                    assert forall|a: int, b: int| 0 <= a < b < nv.len() implies (#[trigger] nv[a]).0 != (
                    #[trigger] nv[b]).0 by {
                        if b < p {
                            assert(nv[a] == ov[a] && nv[b] == ov[b]);
                        } else if b == p {
                            assert(nv[a] == ov[a]);
                        } else if a > p {
                            assert(nv[a] == ov[a - 1] && nv[b] == ov[b - 1]);
                        } else if a == p {
                            assert(nv[b] == ov[b - 1]);
                        } else {
                            assert(nv[a] == ov[a] && nv[b] == ov[b - 1]);
                        }
                    }
                }
                assert forall|a: int, b: int| 0 <= a < b < nv.len() implies !alloc_before(
                    #[trigger] nv[b],
                    #[trigger] nv[a],
                    region,
                ) by {
                    if b < p {
                        assert(nv[a] == ov[a] && nv[b] == ov[b]);
                        assert(!alloc_before(nv[b], nv[a], region));
                    } else if b == p {
                        assert(nv[a] == ov[a]);
                        assert(nv[b] == x);
                        assert(!alloc_before(x, ov[a], region));
                    } else if a > p {
                        assert(nv[a] == ov[a - 1] && nv[b] == ov[b - 1]);
                    } else if a == p {
                        assert(nv[a] == x);
                        assert(nv[b] == ov[b - 1]);
                        assert(alloc_before(x, ov[p as int], region));
                        if alloc_before(ov[b - 1], x, region) {
                            lemma_alloc_before_trans(ov[b - 1], x, ov[p as int], region);
                            if b - 1 > p {
                                assert(!alloc_before(ov[b - 1], ov[p as int], region));
                            } else {
                                lemma_text_lt_irrefl(x.0);
                                lemma_text_lt_irrefl(ov[p as int].0);
                            }
                        }
                    } else {
                        assert(nv[a] == ov[a] && nv[b] == ov[b - 1]);
                    }
                }
            }
            i = i + 1;
        }
        assert(src.take(src.len() as int) =~= src);
        proof {
            if names_distinct(src) {
                let t = table_view(out@);
                assert forall|a: int, b: int| 0 <= a < b < out@.len() implies alloc_before(
                    #[trigger] t[a],
                    #[trigger] t[b],
                    region,
                ) by {
                    lemma_alloc_before_total(t[a], t[b], region);
                }
            }
        }
        out
    }
}

/// A crossing whose endpoints carry their declared epochs, and which runs
/// forward in time unless it is retrocausal.
pub open spec fn sound_crossing(c: CrossingView, table: Seq<(Seq<char>, Epoch)>) -> bool {
    &&& epoch_in(table, c.from) == Some(c.from_epoch)
    &&& epoch_in(table, c.to) == Some(c.to_epoch)
    &&& !c.retrocausal ==> c.from_epoch.0 < c.to_epoch.0
}

proof fn lemma_retro_sound(edges: Seq<(Seq<char>, Seq<char>)>, table: Seq<(Seq<char>, Epoch)>, k: int)
    requires
        retro_crossings(edges, table, k) is Ok,
    ensures
        forall|i: int|
            0 <= i < retro_crossings(edges, table, k)->Ok_0.len() ==> sound_crossing(
                #[trigger] retro_crossings(edges, table, k)->Ok_0[i],
                table,
            ),
    decreases k,
{
    if k > 0 {
        lemma_retro_sound(edges, table, k - 1);
    }
}

proof fn lemma_eq_sound(
    target: Seq<char>,
    te: Epoch,
    vars: Seq<Seq<char>>,
    table: Seq<(Seq<char>, Epoch)>,
    k: int,
)
    requires
        epoch_in(table, target) == Some(te),
        eq_crossings(target, te, vars, table, k) is Ok,
    ensures
        forall|i: int|
            0 <= i < eq_crossings(target, te, vars, table, k)->Ok_0.len() ==> sound_crossing(
                #[trigger] eq_crossings(target, te, vars, table, k)->Ok_0[i],
                table,
            ),
    decreases k,
{
    if k > 0 {
        lemma_eq_sound(target, te, vars, table, k - 1);
    }
}

proof fn lemma_evolve_sound(eqs: Seq<(Seq<char>, ExprView)>, table: Seq<(Seq<char>, Epoch)>, k: int)
    requires
        evolve_crossings(eqs, table, k) is Ok,
    ensures
        forall|i: int|
            0 <= i < evolve_crossings(eqs, table, k)->Ok_0.len() ==> sound_crossing(
                #[trigger] evolve_crossings(eqs, table, k)->Ok_0[i],
                table,
            ),
        forall|j: int| 0 <= j < k ==> (#[trigger] epoch_in(table, eqs[j].0)) is Some,
    decreases k,
{
    if k > 0 {
        lemma_evolve_sound(eqs, table, k - 1);
        let cs = evolve_crossings(eqs, table, k - 1)->Ok_0;
        let (target, body) = eqs[k - 1];
        let te = epoch_in(table, target)->Some_0;
        let vars = distinct_names(vars_of(body));
        lemma_eq_sound(target, te, vars, table, vars.len() as int);
        let more = eq_crossings(target, te, vars, table, vars.len() as int)->Ok_0;
        assert forall|i: int| 0 <= i < (cs + more).len() implies sound_crossing(#[trigger] (cs + more)[i], table) by {
            if i < cs.len() {
                assert((cs + more)[i] == cs[i]);
            } else {
                assert((cs + more)[i] == more[i - cs.len()]);
            }
        }
    }
}

/// Every crossing of a successful analysis is sound, and every equation
/// targets a declared register.
pub proof fn lemma_analysis_sound(stmts: Seq<StmtView>)
    requires
        analysis(stmts) is Ok,
    ensures
        forall|i: int|
            0 <= i < analysis(stmts)->Ok_0.len() ==> sound_crossing(
                #[trigger] analysis(stmts)->Ok_0[i],
                regs_of(stmts),
            ),
        forall|j: int|
            0 <= j < evolves_of(stmts).len() ==> (#[trigger] epoch_in(regs_of(stmts), evolves_of(stmts)[j].0)) is Some,
        dup_upto(regs_of(stmts), regs_of(stmts).len() as int) is None,
{
    let regs = regs_of(stmts);
    let wires = retros_of(stmts);
    let eqs = evolves_of(stmts);
    lemma_retro_sound(wires, regs, wires.len() as int);
    lemma_evolve_sound(eqs, regs, eqs.len() as int);
    let rc = retro_crossings(wires, regs, wires.len() as int)->Ok_0;
    let ec = evolve_crossings(eqs, regs, eqs.len() as int)->Ok_0;
    assert forall|i: int| 0 <= i < (rc + ec).len() implies sound_crossing(#[trigger] (rc + ec)[i], regs) by {
        if i < rc.len() {
            assert((rc + ec)[i] == rc[i]);
        } else {
            assert((rc + ec)[i] == ec[i - rc.len()]);
        }
    }
}

proof fn lemma_distinct_names_contains(s: Seq<Seq<char>>, v: Seq<char>)
    ensures
        distinct_names(s).contains(v) <==> s.contains(v),
    decreases s.len(),
{
    if s.len() > 0 {
        let r = distinct_names(s.drop_last());
        lemma_distinct_names_contains(s.drop_last(), v);
        if s.contains(v) {
            let k = choose|k: int| 0 <= k < s.len() && s[k] == v;
            if k < s.len() - 1 {
                assert(s.drop_last()[k] == v);
            }
        }
        if s.drop_last().contains(v) {
            let k = choose|k: int| 0 <= k < s.drop_last().len() && s.drop_last()[k] == v;
            assert(s[k] == v);
        }
        if !r.contains(s.last()) {
            if r.push(s.last()).contains(v) {
                let k = choose|k: int| 0 <= k < r.push(s.last()).len() && r.push(s.last())[k] == v;
                if k < r.len() {
                    assert(r[k] == v);
                }
            }
            if r.contains(v) {
                let k = choose|k: int| 0 <= k < r.len() && r[k] == v;
                assert(r.push(s.last())[k] == v);
            }
            assert(r.push(s.last())[r.len() as int] == s.last());
        }
    }
}

/// A crossing an equation's variable produces.
pub open spec fn operand_crossing(v: Seq<char>, ve: Epoch, target: Seq<char>, te: Epoch) -> CrossingView {
    CrossingView { from: v, to: target, from_epoch: ve, to_epoch: te, retrocausal: ve.0 > te.0 }
}

proof fn lemma_eq_crossings_cover(
    target: Seq<char>,
    te: Epoch,
    vars: Seq<Seq<char>>,
    table: Seq<(Seq<char>, Epoch)>,
    k: int,
    i: int,
)
    requires
        eq_crossings(target, te, vars, table, k) is Ok,
        0 <= i < k,
    ensures
        epoch_in(table, vars[i]) is Some,
        epoch_in(table, vars[i])->Some_0 != te ==> eq_crossings(target, te, vars, table, k)->Ok_0.contains(
            operand_crossing(vars[i], epoch_in(table, vars[i])->Some_0, target, te),
        ),
    decreases k,
{
    let cs = eq_crossings(target, te, vars, table, k - 1)->Ok_0;
    if i < k - 1 {
        lemma_eq_crossings_cover(target, te, vars, table, k - 1, i);
        let c = operand_crossing(vars[i], epoch_in(table, vars[i])->Some_0, target, te);
        if epoch_in(table, vars[i])->Some_0 != te {
            let q = choose|q: int| 0 <= q < cs.len() && cs[q] == c;
            let de = epoch_in(table, vars[k - 1])->Some_0;
            if de != te {
                assert(cs.push(operand_crossing(vars[k - 1], de, target, te))[q] == c);
            }
        }
    } else {
        let de = epoch_in(table, vars[k - 1])->Some_0;
        if de != te {
            assert(cs.push(operand_crossing(vars[k - 1], de, target, te))[cs.len() as int] == operand_crossing(
                vars[k - 1],
                de,
                target,
                te,
            ));
        }
    }
}

proof fn lemma_evolve_crossings_cover(
    eqs: Seq<(Seq<char>, ExprView)>,
    table: Seq<(Seq<char>, Epoch)>,
    k: int,
    j: int,
    v: Seq<char>,
)
    requires
        evolve_crossings(eqs, table, k) is Ok,
        0 <= j < k,
        mentions(eqs[j].1, v),
    ensures
        epoch_in(table, eqs[j].0) is Some,
        epoch_in(table, v) is Some,
        epoch_in(table, v)->Some_0 != epoch_in(table, eqs[j].0)->Some_0 ==> evolve_crossings(eqs, table, k)->Ok_0.contains(
            operand_crossing(v, epoch_in(table, v)->Some_0, eqs[j].0, epoch_in(table, eqs[j].0)->Some_0),
        ),
    decreases k,
{
    let cs = evolve_crossings(eqs, table, k - 1)->Ok_0;
    let (target, body) = eqs[k - 1];
    let te = epoch_in(table, target)->Some_0;
    let vars = distinct_names(vars_of(body));
    let more = eq_crossings(target, te, vars, table, vars.len() as int)->Ok_0;
    if j < k - 1 {
        lemma_evolve_crossings_cover(eqs, table, k - 1, j, v);
        let c = operand_crossing(v, epoch_in(table, v)->Some_0, eqs[j].0, epoch_in(table, eqs[j].0)->Some_0);
        if epoch_in(table, v)->Some_0 != epoch_in(table, eqs[j].0)->Some_0 {
            let q = choose|q: int| 0 <= q < cs.len() && cs[q] == c;
            assert((cs + more)[q] == c);
        }
    } else {
        lemma_vars_are_occurrences(body, v);
        lemma_distinct_names_contains(vars_of(body), v);
        let i = choose|i: int| 0 <= i < vars.len() && vars[i] == v;
        lemma_eq_crossings_cover(target, te, vars, table, vars.len() as int, i);
        let c = operand_crossing(v, epoch_in(table, v)->Some_0, target, te);
        if epoch_in(table, v)->Some_0 != te {
            let q = choose|q: int| 0 <= q < more.len() && more[q] == c;
            assert((cs + more)[cs.len() + q] == c);
        }
    }
}

/// Every operand of an evolve equation is a declared register, and one that
/// lives in another epoch than the equation's target gives a crossing from
/// it to the target, retrocausal exactly when the operand's epoch is later;
/// this holds however deep the operand sits in the body.
pub proof fn lemma_operands_cross(stmts: Seq<StmtView>, j: int, v: Seq<char>)
    requires
        analysis(stmts) is Ok,
        0 <= j < evolves_of(stmts).len(),
        mentions(evolves_of(stmts)[j].1, v),
    ensures
        epoch_in(regs_of(stmts), v) is Some,
        ({
            let ve = epoch_in(regs_of(stmts), v)->Some_0;
            let te = epoch_in(regs_of(stmts), evolves_of(stmts)[j].0)->Some_0;
            ve != te ==> analysis(stmts)->Ok_0.contains(
                CrossingView { from: v, to: evolves_of(stmts)[j].0, from_epoch: ve, to_epoch: te, retrocausal: ve.0 > te.0 },
            )
        }),
{
    let regs = regs_of(stmts);
    let eqs = evolves_of(stmts);
    let rc = retro_crossings(retros_of(stmts), regs, retros_of(stmts).len() as int)->Ok_0;
    let ec = evolve_crossings(eqs, regs, eqs.len() as int)->Ok_0;
    lemma_evolve_crossings_cover(eqs, regs, eqs.len() as int, j, v);
    let ve = epoch_in(regs, v)->Some_0;
    let te = epoch_in(regs, eqs[j].0)->Some_0;
    if ve != te {
        let c = operand_crossing(v, ve, eqs[j].0, te);
        let q = choose|q: int| 0 <= q < ec.len() && ec[q] == c;
        assert((rc + ec)[rc.len() + q] == c);
    }
}

/// In a table without repeated names, each entry is what its name looks up.
pub proof fn lemma_unique_lookup(t: Seq<(Seq<char>, Epoch)>, k: int)
    requires
        0 <= k <= t.len(),
        dup_upto(t, k) is None,
    ensures
        forall|i: int| 0 <= i < k ==> epoch_in(t.take(k), (#[trigger] t[i]).0) == Some(t[i].1),
    decreases k,
{
    if k > 0 {
        lemma_unique_lookup(t, k - 1);
        assert(t.take(k).drop_last() =~= t.take(k - 1));
        assert forall|i: int| 0 <= i < k implies epoch_in(t.take(k), (#[trigger] t[i]).0) == Some(t[i].1) by {
            if i < k - 1 {
                assert(epoch_in(t.take(k - 1), t[i].0) == Some(t[i].1));
            }
        }
    }
}

/// A name that looks up an epoch occurs in the table with that epoch.
pub proof fn lemma_lookup_member(t: Seq<(Seq<char>, Epoch)>, n: Seq<char>)
    requires
        epoch_in(t, n) is Some,
    ensures
        t.contains((n, epoch_in(t, n)->Some_0)),
    decreases t.len(),
{
    if t.last().0 == n {
        assert(t[t.len() - 1] == (n, epoch_in(t, n)->Some_0));
    } else {
        lemma_lookup_member(t.drop_last(), n);
        let i = choose|i: int| 0 <= i < t.drop_last().len() && t.drop_last()[i] == (n, epoch_in(t, n)->Some_0);
        assert(t[i] == t.drop_last()[i]);
    }
}

} // verus!
