use vstd::prelude::*;
use crate::compiler::ast::ExprView;
use crate::compiler::lex::{TokView, ident_ok, tokens_of};
use crate::compiler::parse::{expr_of, factor_at, product_at, sum_at, sum_rest};

verus! {

/// A `+` between two terms yields their sum and a `-` their difference:
/// when `e1` is the term at `p`, an operator follows it at `q`, `e2` is the
/// term after the operator and no further `+` or `-` follows it, the
/// expression at `p` is `Add(e1, e2)` for `+` and `Sub(e1, e2)` for `-`.
pub proof fn lemma_binary_sum(ts: Seq<TokView>, p: int, e1: ExprView, q: int, e2: ExprView, r: int)
    requires
        product_at(ts, p) == Ok::<(ExprView, int), Seq<char>>((e1, q)),
        p < q < ts.len(),
        product_at(ts, q + 1) == Ok::<(ExprView, int), Seq<char>>((e2, r)),
        q < r <= ts.len(),
        r == ts.len() || !(ts[r] is Plus || ts[r] is Minus),
    ensures
        ts[q] is Plus ==> sum_at(ts, p) == Ok::<(ExprView, int), Seq<char>>(
            (ExprView::Add(Box::new(e1), Box::new(e2)), r),
        ),
        ts[q] is Minus ==> sum_at(ts, p) == Ok::<(ExprView, int), Seq<char>>(
            (ExprView::Sub(Box::new(e1), Box::new(e2)), r),
        ),
{
    reveal_with_fuel(sum_rest, 2);
}

/// Two identifiers joined by ` + ` parse as their sum, and joined by ` - `
/// as their difference.
pub proof fn lemma_identifier_sum(a: Seq<char>, b: Seq<char>)
    requires
        ident_ok(a),
        ident_ok(b),
    ensures
        expr_of(a + " + "@ + b) == Ok::<ExprView, Seq<char>>(
            ExprView::Add(Box::new(ExprView::Var(a)), Box::new(ExprView::Var(b))),
        ),
        expr_of(a + " - "@ + b) == Ok::<ExprView, Seq<char>>(
            ExprView::Sub(Box::new(ExprView::Var(a)), Box::new(ExprView::Var(b))),
        ),
{
    reveal_strlit(" + ");
    reveal_strlit(" - ");
    lemma_op_between(a, b, '+', TokView::Plus);
    lemma_op_between(a, b, '-', TokView::Minus);
    assert(a + " + "@ + b =~= a + (seq![' ', '+', ' '] + b));
    assert(a + " - "@ + b =~= a + (seq![' ', '-', ' '] + b));
}

proof fn lemma_op_between(a: Seq<char>, b: Seq<char>, c: char, t: TokView)
    requires
        ident_ok(a),
        ident_ok(b),
        (c == '+' && t == TokView::Plus) || (c == '-' && t == TokView::Minus),
    ensures
        expr_of(a + (seq![' ', c, ' '] + b)) == Ok::<ExprView, Seq<char>>(
            if c == '+' {
                ExprView::Add(Box::new(ExprView::Var(a)), Box::new(ExprView::Var(b)))
            } else {
                ExprView::Sub(Box::new(ExprView::Var(a)), Box::new(ExprView::Var(b)))
            },
        ),
{
    let tail = seq![' ', c, ' '] + b;
    crate::compiler::lex::lemma_ident_token(a, tail);
    assert(tail.drop_first() =~= seq![c, ' '] + b);
    assert((seq![c, ' '] + b).drop_first() =~= seq![' '] + b);
    assert((seq![' '] + b).drop_first() =~= b);
    assert(b =~= b + Seq::<char>::empty());
    crate::compiler::lex::lemma_ident_token(b, Seq::<char>::empty());
    assert(tokens_of(Seq::<char>::empty()) == Ok::<Seq<TokView>, Seq<char>>(Seq::empty()));
    let ts = seq![TokView::Ident(a), t, TokView::Ident(b)];
    assert(tokens_of(b) == Ok::<Seq<TokView>, Seq<char>>(seq![TokView::Ident(b)])) by {
        assert(seq![TokView::Ident(b)] + Seq::<TokView>::empty() =~= seq![TokView::Ident(b)]);
    }
    let s1 = seq![' '] + b;
    assert(s1[0] == ' ');
    assert(tokens_of(s1) == tokens_of(b));
    let s2 = seq![c, ' '] + b;
    assert(s2[0] == c);
    assert(s2.drop_first() =~= s1);
    assert(tokens_of(s2) == Ok::<Seq<TokView>, Seq<char>>(seq![t, TokView::Ident(b)])) by {
        assert(seq![t] + seq![TokView::Ident(b)] =~= seq![t, TokView::Ident(b)]);
    }
    assert(tail[0] == ' ');
    assert(tail.drop_first() =~= s2);
    assert(tokens_of(tail) == tokens_of(s2));
    assert(tokens_of(a + tail) == Ok::<Seq<TokView>, Seq<char>>(ts)) by {
        assert(seq![TokView::Ident(a)] + seq![t, TokView::Ident(b)] =~= ts);
    }
    assert(factor_at(ts, 0) == Ok::<(ExprView, int), Seq<char>>((ExprView::Var(a), 1)));
    assert(product_at(ts, 0) == Ok::<(ExprView, int), Seq<char>>((ExprView::Var(a), 1)));
    assert(factor_at(ts, 2) == Ok::<(ExprView, int), Seq<char>>((ExprView::Var(b), 3)));
    assert(product_at(ts, 2) == Ok::<(ExprView, int), Seq<char>>((ExprView::Var(b), 3)));
    lemma_binary_sum(ts, 0, ExprView::Var(a), 1, ExprView::Var(b), 3);
}

} // verus!
