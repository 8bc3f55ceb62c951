use vstd::prelude::*;
use crate::addr::Epoch;

verus! {

/// Chronal register declaration: `chronal reg name @ τk;`
#[derive(Clone, Debug)]
pub struct RegisterDecl {
    pub name: String,
    pub epoch: Epoch,
}

/// Expression language for evolve equations (affine + product closed form).
///
/// Numeric literals are kept as written (decimal digits with at most one
/// point); they are evaluated where the equations are run.
#[derive(Debug)]
pub enum Expr {
    Const(String),
    Var(String),
    Add(Box<Expr>, Box<Expr>),
    Sub(Box<Expr>, Box<Expr>),
    Mul(Box<Expr>, Box<Expr>),
    Neg(Box<Expr>),
}

/// `evolve name = expr;`
#[derive(Debug)]
pub struct EvolveEq {
    pub target: String,
    pub body: Expr,
}

#[derive(Debug)]
pub enum Stmt {
    Reg(RegisterDecl),
    /// Explicit retrocausal wire: output of `from` feeds input of `to`.
    Retrocausal { from: String, to: String },
    Evolve(EvolveEq),
}

#[derive(Debug)]
pub struct ChronalModule {
    pub name: String,
    pub stmts: Vec<Stmt>,
}

/// Mathematical form of an expression, names and literals as characters.
pub enum ExprView {
    Const(Seq<char>),
    Var(Seq<char>),
    Add(Box<ExprView>, Box<ExprView>),
    Sub(Box<ExprView>, Box<ExprView>),
    Mul(Box<ExprView>, Box<ExprView>),
    Neg(Box<ExprView>),
}

pub enum StmtView {
    Reg { name: Seq<char>, epoch: Epoch },
    Retrocausal { from: Seq<char>, to: Seq<char> },
    Evolve { target: Seq<char>, body: ExprView },
}

pub open spec fn expr_view(e: Expr) -> ExprView
    decreases e,
{
    match e {
        Expr::Const(s) => ExprView::Const(s@),
        Expr::Var(s) => ExprView::Var(s@),
        Expr::Add(a, b) => ExprView::Add(Box::new(expr_view(*a)), Box::new(expr_view(*b))),
        Expr::Sub(a, b) => ExprView::Sub(Box::new(expr_view(*a)), Box::new(expr_view(*b))),
        Expr::Mul(a, b) => ExprView::Mul(Box::new(expr_view(*a)), Box::new(expr_view(*b))),
        Expr::Neg(a) => ExprView::Neg(Box::new(expr_view(*a))),
    }
}

impl View for Expr {
    type V = ExprView;

    open spec fn view(&self) -> ExprView {
        expr_view(*self)
    }
}

impl View for Stmt {
    type V = StmtView;

    open spec fn view(&self) -> StmtView {
        match *self {
            Stmt::Reg(d) => StmtView::Reg { name: d.name@, epoch: d.epoch },
            Stmt::Retrocausal { from, to } => StmtView::Retrocausal { from: from@, to: to@ },
            Stmt::Evolve(e) => StmtView::Evolve { target: e.target@, body: e.body@ },
        }
    }
}

/// The statements of a module, viewed.
pub open spec fn stmts_view(stmts: Seq<Stmt>) -> Seq<StmtView> {
    stmts.map_values(|s: Stmt| s@)
}

/// Register declarations, in order, as (name, epoch).
pub open spec fn regs_of(stmts: Seq<StmtView>) -> Seq<(Seq<char>, Epoch)>
    decreases stmts.len(),
{
    if stmts.len() == 0 {
        Seq::empty()
    } else {
        let rest = regs_of(stmts.drop_last());
        match stmts.last() {
            StmtView::Reg { name, epoch } => rest.push((name, epoch)),
            _ => rest,
        }
    }
}

/// Evolve equations, in order, as (target, body).
pub open spec fn evolves_of(stmts: Seq<StmtView>) -> Seq<(Seq<char>, ExprView)>
    decreases stmts.len(),
{
    if stmts.len() == 0 {
        Seq::empty()
    } else {
        let rest = evolves_of(stmts.drop_last());
        match stmts.last() {
            StmtView::Evolve { target, body } => rest.push((target, body)),
            _ => rest,
        }
    }
}

/// Explicit retrocausal wires, in order, as (from, to).
pub open spec fn retros_of(stmts: Seq<StmtView>) -> Seq<(Seq<char>, Seq<char>)>
    decreases stmts.len(),
{
    if stmts.len() == 0 {
        Seq::empty()
    } else {
        let rest = retros_of(stmts.drop_last());
        match stmts.last() {
            StmtView::Retrocausal { from, to } => rest.push((from, to)),
            _ => rest,
        }
    }
}

/// There are no more register declarations than statements.
pub proof fn lemma_regs_len(stmts: Seq<StmtView>)
    ensures
        regs_of(stmts).len() <= stmts.len(),
    decreases stmts.len(),
{
    if stmts.len() > 0 {
        lemma_regs_len(stmts.drop_last());
    }
}

proof fn lemma_prefix_push(stmts: Seq<StmtView>, i: int)
    requires
        0 <= i < stmts.len(),
    ensures
        stmts.take(i + 1).drop_last() == stmts.take(i),
        stmts.take(i + 1).last() == stmts[i],
{
    assert(stmts.take(i + 1).drop_last() =~= stmts.take(i));
}

impl ChronalModule {
    pub open spec fn stmt_views(&self) -> Seq<StmtView> {
        stmts_view(self.stmts@)
    }

    /// Register declarations, in statement order.
    pub fn registers(&self) -> (r: Vec<&RegisterDecl>)
        ensures
            r@.len() == regs_of(self.stmt_views()).len(),
            forall|i: int|
                0 <= i < r@.len() ==> (#[trigger] r@[i]).name@ == regs_of(self.stmt_views())[i].0 && r@[i].epoch
                    == regs_of(self.stmt_views())[i].1,
    {
        let ghost sv = self.stmt_views();
        let mut out: Vec<&RegisterDecl> = Vec::new();
        let mut i: usize = 0;
        while i < self.stmts.len()
            invariant
                sv == self.stmt_views(),
                sv.len() == self.stmts@.len(),
                i <= self.stmts@.len(),
                out@.len() == regs_of(sv.take(i as int)).len(),
                forall|k: int|
                    0 <= k < out@.len() ==> (#[trigger] out@[k]).name@ == regs_of(sv.take(i as int))[k].0
                        && out@[k].epoch == regs_of(sv.take(i as int))[k].1,
            decreases self.stmts@.len() - i,
        {
            proof {
                lemma_prefix_push(sv, i as int);
            }
            match &self.stmts[i] {
                Stmt::Reg(d) => {
                    out.push(d);
                },
                _ => {},
            }
            i = i + 1;
        }
        assert(sv.take(sv.len() as int) =~= sv);
        out
    }

    /// Evolve equations, in statement order.
    pub fn evolve_eqs(&self) -> (r: Vec<&EvolveEq>)
        ensures
            r@.len() == evolves_of(self.stmt_views()).len(),
            forall|i: int|
                0 <= i < r@.len() ==> (#[trigger] r@[i]).target@ == evolves_of(self.stmt_views())[i].0 && r@[i].body@
                    == evolves_of(self.stmt_views())[i].1,
    {
        let ghost sv = self.stmt_views();
        let mut out: Vec<&EvolveEq> = Vec::new();
        let mut i: usize = 0;
        while i < self.stmts.len()
            invariant
                sv == self.stmt_views(),
                sv.len() == self.stmts@.len(),
                i <= self.stmts@.len(),
                out@.len() == evolves_of(sv.take(i as int)).len(),
                forall|k: int|
                    0 <= k < out@.len() ==> (#[trigger] out@[k]).target@ == evolves_of(sv.take(i as int))[k].0
                        && out@[k].body@ == evolves_of(sv.take(i as int))[k].1,
            decreases self.stmts@.len() - i,
        {
            proof {
                lemma_prefix_push(sv, i as int);
            }
            match &self.stmts[i] {
                Stmt::Evolve(e) => {
                    out.push(e);
                },
                _ => {},
            }
            i = i + 1;
        }
        assert(sv.take(sv.len() as int) =~= sv);
        out
    }

    /// Explicit retrocausal wires, in statement order.
    pub fn retrocausal_edges(&self) -> (r: Vec<(&str, &str)>)
        ensures
            r@.len() == retros_of(self.stmt_views()).len(),
            forall|i: int|
                0 <= i < r@.len() ==> (#[trigger] r@[i]).0@ == retros_of(self.stmt_views())[i].0 && r@[i].1@
                    == retros_of(self.stmt_views())[i].1,
    {
        let ghost sv = self.stmt_views();
        let mut out: Vec<(&str, &str)> = Vec::new();
        let mut i: usize = 0;
        while i < self.stmts.len()
            invariant
                sv == self.stmt_views(),
                sv.len() == self.stmts@.len(),
                i <= self.stmts@.len(),
                out@.len() == retros_of(sv.take(i as int)).len(),
                forall|k: int|
                    0 <= k < out@.len() ==> (#[trigger] out@[k]).0@ == retros_of(sv.take(i as int))[k].0
                        && out@[k].1@ == retros_of(sv.take(i as int))[k].1,
            decreases self.stmts@.len() - i,
        {
            proof {
                lemma_prefix_push(sv, i as int);
            }
            match &self.stmts[i] {
                Stmt::Retrocausal { from, to } => {
                    out.push((from.as_str(), to.as_str()));
                },
                _ => {},
            }
            i = i + 1;
        }
        assert(sv.take(sv.len() as int) =~= sv);
        out
    }
}

} // verus!
