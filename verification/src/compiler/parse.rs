use vstd::prelude::*;
use crate::addr::Epoch;
use crate::text::chars_of;
use crate::compiler::ast::{ChronalModule, EvolveEq, Expr, ExprView, RegisterDecl, Stmt, StmtView, stmts_view};
use crate::compiler::error::CompileError;
use crate::compiler::lex::{
    Tok, TokView, cut_comment, find_char, find_char_from, find_pair, find_pair_from, has_prefix, i64_of, ident_ok,
    is_ident, is_whitespace, is_ws, parse_i64, starts_with, strip_comment, tokenize, tokens_of, toks_view, trim_start,
    trim_start_str, trim_str, trimmed,
};

verus! {

/// `factor ::= '-' factor | IDENT | NUMBER | '(' expr ')'` at token `p`:
/// the expression and the position after it, or the error message.
pub open spec fn factor_at(ts: Seq<TokView>, p: int) -> Result<(ExprView, int), Seq<char>>
    decreases ts.len() - p, 0int,
{
    if p < 0 || p >= ts.len() {
        Err("expected expression factor"@)
    } else {
        match ts[p] {
            TokView::Minus => match factor_at(ts, p + 1) {
                Ok((e, q)) => Ok((ExprView::Neg(Box::new(e)), q)),
                Err(m) => Err(m),
            },
            TokView::Num(t) => Ok((ExprView::Const(t), p + 1)),
            TokView::Ident(n) => Ok((ExprView::Var(n), p + 1)),
            TokView::LParen => match sum_at(ts, p + 1) {
                Err(m) => Err(m),
                Ok((e, q)) => if 0 <= q < ts.len() && ts[q] is RParen {
                    Ok((e, q + 1))
                } else {
                    Err("unbalanced '(' in expression"@)
                },
            },
            _ => Err("expected expression factor"@),
        }
    }
}

/// `term ::= factor ('*' factor)*` at token `p`, left associative.
pub open spec fn product_at(ts: Seq<TokView>, p: int) -> Result<(ExprView, int), Seq<char>>
    decreases ts.len() - p, 2int,
{
    match factor_at(ts, p) {
        Err(m) => Err(m),
        Ok((e, q)) => if p < q <= ts.len() {
            product_rest(ts, q, e)
        } else {
            Err("expected expression factor"@)
        },
    }
}

/// The `('*' factor)*` tail of a term whose first factors gave `lhs`.
pub open spec fn product_rest(ts: Seq<TokView>, p: int, lhs: ExprView) -> Result<(ExprView, int), Seq<char>>
    decreases ts.len() - p, 1int,
{
    if 0 <= p < ts.len() && ts[p] is Star {
        match factor_at(ts, p + 1) {
            Err(m) => Err(m),
            Ok((rhs, q)) => if p < q <= ts.len() {
                product_rest(ts, q, ExprView::Mul(Box::new(lhs), Box::new(rhs)))
            } else {
                Err("expected expression factor"@)
            },
        }
    } else {
        Ok((lhs, p))
    }
}

/// `expr ::= term (('+'|'-') term)*` at token `p`, left associative.
pub open spec fn sum_at(ts: Seq<TokView>, p: int) -> Result<(ExprView, int), Seq<char>>
    decreases ts.len() - p, 4int,
{
    match product_at(ts, p) {
        Err(m) => Err(m),
        Ok((e, q)) => if p < q <= ts.len() {
            sum_rest(ts, q, e)
        } else {
            Err("expected expression factor"@)
        },
    }
}

/// The `(('+'|'-') term)*` tail of an expression whose first terms gave `lhs`.
pub open spec fn sum_rest(ts: Seq<TokView>, p: int, lhs: ExprView) -> Result<(ExprView, int), Seq<char>>
    decreases ts.len() - p, 3int,
{
    if 0 <= p < ts.len() && (ts[p] is Plus || ts[p] is Minus) {
        match product_at(ts, p + 1) {
            Err(m) => Err(m),
            Ok((rhs, q)) => if p < q <= ts.len() {
                sum_rest(
                    ts,
                    q,
                    if ts[p] is Plus {
                        ExprView::Add(Box::new(lhs), Box::new(rhs))
                    } else {
                        ExprView::Sub(Box::new(lhs), Box::new(rhs))
                    },
                )
            } else {
                Err("expected expression factor"@)
            },
        }
    } else {
        Ok((lhs, p))
    }
}

/// How a token is shown in a diagnostic.
pub open spec fn tok_shown(t: TokView) -> Seq<char> {
    match t {
        TokView::Ident(n) => "Ident(\""@ + n + "\")"@,
        TokView::Num(x) => "Num("@ + x + ")"@,
        TokView::Plus => "Plus"@,
        TokView::Minus => "Minus"@,
        TokView::Star => "Star"@,
        TokView::LParen => "LParen"@,
        TokView::RParen => "RParen"@,
    }
}

/// The expression that `input` spells, or the message of the first error.
pub open spec fn expr_of(input: Seq<char>) -> Result<ExprView, Seq<char>> {
    match tokens_of(input) {
        Err(m) => Err(m),
        Ok(ts) => match sum_at(ts, 0) {
            Err(m) => Err(m),
            Ok((e, q)) => if q == ts.len() {
                Ok(e)
            } else {
                Err("trailing tokens in expression near `"@ + tok_shown(ts[q]) + "`"@)
            },
        },
    }
}

pub open spec fn parsed_as(r: Result<(Expr, usize), String>, s: Result<(ExprView, int), Seq<char>>) -> bool {
    match s {
        Ok((e, q)) => r matches Ok((x, q2)) && x@ == e && q2 == q,
        Err(m) => r matches Err(x) && x@ == m,
    }
}

fn parse_factor(ts: &Vec<Tok>, p: usize) -> (r: Result<(Expr, usize), String>)
    requires
        p <= ts@.len(),
    ensures
        parsed_as(r, factor_at(toks_view(ts@), p as int)),
        r matches Ok((_, q)) ==> p < q <= ts@.len(),
    decreases ts@.len() - p, 0int,
{
    let ghost tv = toks_view(ts@);
    if p >= ts.len() {
        return Err(String::from_str("expected expression factor"));
    }
    assert(tv[p as int] == ts@[p as int]@);
    match &ts[p] {
        Tok::Minus => match parse_factor(ts, p + 1) {
            Ok((e, q)) => Ok((Expr::Neg(Box::new(e)), q)),
            Err(m) => Err(m),
        },
        Tok::Num(t) => Ok((Expr::Const(t.clone()), p + 1)),
        Tok::Ident(n) => Ok((Expr::Var(n.clone()), p + 1)),
        Tok::LParen => match parse_sum(ts, p + 1) {
            Err(m) => Err(m),
            Ok((e, q)) => {
                if q < ts.len() {
                    assert(tv[q as int] == ts@[q as int]@);
                    if let Tok::RParen = &ts[q] {
                        return Ok((e, q + 1));
                    }
                }
                Err(String::from_str("unbalanced '(' in expression"))
            },
        },
        _ => Err(String::from_str("expected expression factor")),
    }
}

fn parse_product(ts: &Vec<Tok>, p: usize) -> (r: Result<(Expr, usize), String>)
    requires
        p <= ts@.len(),
    ensures
        parsed_as(r, product_at(toks_view(ts@), p as int)),
        r matches Ok((_, q)) ==> p < q <= ts@.len(),
    decreases ts@.len() - p, 2int,
{
    match parse_factor(ts, p) {
        Err(m) => Err(m),
        Ok((e, q)) => parse_product_rest(ts, q, e),
    }
}

fn parse_product_rest(ts: &Vec<Tok>, p: usize, lhs: Expr) -> (r: Result<(Expr, usize), String>)
    requires
        p <= ts@.len(),
    ensures
        parsed_as(r, product_rest(toks_view(ts@), p as int, lhs@)),
        r matches Ok((_, q)) ==> p <= q <= ts@.len(),
    decreases ts@.len() - p, 1int,
{
    let ghost tv = toks_view(ts@);
    if p < ts.len() {
        assert(tv[p as int] == ts@[p as int]@);
        if let Tok::Star = &ts[p] {
            return match parse_factor(ts, p + 1) {
                Err(m) => Err(m),
                Ok((rhs, q)) => parse_product_rest(ts, q, Expr::Mul(Box::new(lhs), Box::new(rhs))),
            };
        }
    }
    Ok((lhs, p))
}

fn parse_sum(ts: &Vec<Tok>, p: usize) -> (r: Result<(Expr, usize), String>)
    requires
        p <= ts@.len(),
    ensures
        parsed_as(r, sum_at(toks_view(ts@), p as int)),
        r matches Ok((_, q)) ==> p < q <= ts@.len(),
    decreases ts@.len() - p, 4int,
{
    match parse_product(ts, p) {
        Err(m) => Err(m),
        Ok((e, q)) => parse_sum_rest(ts, q, e),
    }
}

fn parse_sum_rest(ts: &Vec<Tok>, p: usize, lhs: Expr) -> (r: Result<(Expr, usize), String>)
    requires
        p <= ts@.len(),
    ensures
        parsed_as(r, sum_rest(toks_view(ts@), p as int, lhs@)),
        r matches Ok((_, q)) ==> p <= q <= ts@.len(),
    decreases ts@.len() - p, 3int,
{
    let ghost tv = toks_view(ts@);
    if p < ts.len() {
        assert(tv[p as int] == ts@[p as int]@);
        let plus = match &ts[p] {
            Tok::Plus => Some(true),
            Tok::Minus => Some(false),
            _ => None,
        };
        if let Some(is_plus) = plus {
            return match parse_product(ts, p + 1) {
                Err(m) => Err(m),
                Ok((rhs, q)) => {
                    let combined = if is_plus {
                        Expr::Add(Box::new(lhs), Box::new(rhs))
                    } else {
                        Expr::Sub(Box::new(lhs), Box::new(rhs))
                    };
                    parse_sum_rest(ts, q, combined)
                },
            };
        }
    }
    Ok((lhs, p))
}

/// How a token is shown in a diagnostic.
fn show_tok(t: &Tok) -> (r: String)
    ensures
        r@ == tok_shown(t@),
{
    match t {
        Tok::Ident(n) => {
            let mut s = String::from_str("Ident(\"");
            s.append(n.as_str());
            s.append("\")");
            s
        },
        Tok::Num(x) => {
            let mut s = String::from_str("Num(");
            s.append(x.as_str());
            s.append(")");
            s
        },
        Tok::Plus => String::from_str("Plus"),
        Tok::Minus => String::from_str("Minus"),
        Tok::Star => String::from_str("Star"),
        Tok::LParen => String::from_str("LParen"),
        Tok::RParen => String::from_str("RParen"),
    }
}

/// Parses an evolve right-hand side.
pub fn parse_expr(input: &str) -> (r: Result<Expr, String>)
    ensures
        match expr_of(input@) {
            Ok(e) => r matches Ok(x) && x@ == e,
            Err(m) => r matches Err(x) && x@ == m,
        },
{
    let tokens = match tokenize(input) {
        Ok(t) => t,
        Err(m) => {
            return Err(m);
        },
    };
    match parse_sum(&tokens, 0) {
        Err(m) => Err(m),
        Ok((e, q)) => {
            if q == tokens.len() {
                Ok(e)
            } else {
                assert(toks_view(tokens@)[q as int] == tokens@[q as int]@);
                let mut msg = String::from_str("trailing tokens in expression near `");
                let shown = show_tok(&tokens[q]);
                msg.append(shown.as_str());
                msg.append("`");
                Err(msg)
            }
        },
    }
}

/// `chronal reg NAME @ τN` (or `tauN`), given what follows `chronal reg `.
pub open spec fn reg_of(rest: Seq<char>) -> Result<StmtView, Seq<char>> {
    let at = find_char(rest, '@', 0);
    if at >= rest.len() || find_char(rest, '@', at + 1) < rest.len() {
        Err("expected `chronal reg NAME @ τN`"@)
    } else {
        let name = trimmed(rest.take(at));
        if !ident_ok(name) {
            Err("invalid register name `"@ + name + "`"@)
        } else {
            let tok = trimmed(rest.skip(at + 1));
            let digits = if tok.len() > 0 && tok[0] == 'τ' {
                Some(tok.skip(1))
            } else if has_prefix(tok, "tau"@) {
                Some(tok.skip("tau"@.len() as int))
            } else {
                None
            };
            match digits {
                None => Err("epoch must look like τN or tauN"@),
                Some(d) => match i64_of(d) {
                    None => Err("invalid epoch `"@ + tok + "`"@),
                    Some(v) => Ok(StmtView::Reg { name, epoch: Epoch(v) }),
                },
            }
        }
    }
}

/// `retrocausal { FROM -> TO }`.
pub open spec fn retro_of(line: Seq<char>) -> Result<StmtView, Seq<char>> {
    let s1 = trimmed(line.skip("retrocausal"@.len() as int));
    if !(s1.len() > 0 && s1[0] == '{' && s1.len() > 1 && s1.last() == '}') {
        Err("expected `retrocausal { a -> b }`"@)
    } else {
        let inner = trimmed(s1.subrange(1, s1.len() - 1));
        let a = find_pair(inner, '-', '>', 0);
        if a >= inner.len() || find_pair(inner, '-', '>', a + 2) < inner.len() {
            Err("retrocausal edge must be `IDENT -> IDENT`"@)
        } else {
            let from = trimmed(inner.take(a));
            let to = trimmed(inner.skip(a + 2));
            if !ident_ok(from) || !ident_ok(to) {
                Err("retrocausal edge must be `IDENT -> IDENT`"@)
            } else {
                Ok(StmtView::Retrocausal { from, to })
            }
        }
    }
}

/// `evolve NAME = EXPR`, given what follows `evolve `.
pub open spec fn evolve_of(rest: Seq<char>) -> Result<StmtView, Seq<char>> {
    let e = find_char(rest, '=', 0);
    if e >= rest.len() || !ident_ok(trimmed(rest.take(e))) {
        Err("expected `evolve NAME = EXPR`"@)
    } else {
        match expr_of(trimmed(rest.skip(e + 1))) {
            Err(m) => Err(m),
            Ok(b) => Ok(StmtView::Evolve { target: trimmed(rest.take(e)), body: b }),
        }
    }
}

/// `l` opens with the keyword `kw` followed by at least one whitespace
/// character.
pub open spec fn keyword(l: Seq<char>, kw: Seq<char>) -> bool {
    has_prefix(l, kw) && kw.len() < l.len() && is_ws(l[kw.len() as int])
}

/// A statement, its terminating `;` already removed. Keywords are separated
/// from what follows them by any run of whitespace.
pub open spec fn stmt_of(l: Seq<char>) -> Result<StmtView, Seq<char>> {
    let after_chronal = trim_start(l.skip("chronal"@.len() as int));
    if keyword(l, "chronal"@) && keyword(after_chronal, "reg"@) {
        reg_of(trim_start(after_chronal.skip("reg"@.len() as int)))
    } else if has_prefix(l, "retrocausal"@) {
        retro_of(l)
    } else if keyword(l, "evolve"@) {
        evolve_of(trim_start(l.skip("evolve"@.len() as int)))
    } else {
        Err("unrecognized statement: "@ + l)
    }
}

/// Start of the run of `;` that ends just before `j`.
pub open spec fn semi_run_back(s: Seq<char>, j: int) -> int
    decreases j,
{
    if 0 < j <= s.len() && s[j - 1] == ';' {
        semi_run_back(s, j - 1)
    } else {
        j
    }
}

/// What a source line holds: nothing (blank or comment), a statement, or
/// the message of its error.
pub open spec fn line_stmt(raw: Seq<char>) -> Option<Result<StmtView, Seq<char>>> {
    let line = trimmed(cut_comment(raw));
    if line.len() == 0 {
        None
    } else if line.last() != ';' {
        Some(Err("statements must end with ';'"@))
    } else {
        Some(stmt_of(trimmed(line.take(semi_run_back(line, line.len() as int)))))
    }
}

fn err_text(s: &str) -> (r: Result<Stmt, String>)
    ensures
        r matches Err(m) && m@ == s@,
{
    Err(String::from_str(s))
}

fn parse_reg(rest: &str) -> (r: Result<Stmt, String>)
    ensures
        match reg_of(rest@) {
            Ok(st) => r matches Ok(x) && x@ == st,
            Err(m) => r matches Err(x) && x@ == m,
        },
{
    let c = chars_of(rest);
    let at = find_char_from(&c, '@', 0);
    if at >= c.len() || find_char_from(&c, '@', at + 1) < c.len() {
        return err_text("expected `chronal reg NAME @ τN`");
    }
    let name = trim_str(rest.substring_char(0, at));
    if !is_ident(name) {
        let mut msg = String::from_str("invalid register name `");
        msg.append(name);
        msg.append("`");
        return Err(msg);
    }
    let tok = trim_str(rest.substring_char(at + 1, c.len()));
    let tc = chars_of(tok);
    let tau_word = chars_of("tau");
    let digits = if tc.len() > 0 && tc[0] == 'τ' {
        Some(tok.substring_char(1, tc.len()))
    } else if starts_with(tok, "tau") {
        Some(tok.substring_char(tau_word.len(), tc.len()))
    } else {
        None
    };
    match digits {
        None => err_text("epoch must look like τN or tauN"),
        Some(d) => match parse_i64(d) {
            None => {
                let mut msg = String::from_str("invalid epoch `");
                msg.append(tok);
                msg.append("`");
                Err(msg)
            },
            Some(v) => Ok(Stmt::Reg(RegisterDecl { name: String::from_str(name), epoch: Epoch(v) })),
        },
    }
}

fn parse_retro(line: &str) -> (r: Result<Stmt, String>)
    requires
        "retrocausal"@.len() <= line@.len(),
    ensures
        match retro_of(line@) {
            Ok(st) => r matches Ok(x) && x@ == st,
            Err(m) => r matches Err(x) && x@ == m,
        },
{
    let lc = chars_of(line);
    let word = chars_of("retrocausal");
    let s1 = trim_str(line.substring_char(word.len(), lc.len()));
    let c1 = chars_of(s1);
    if !(c1.len() > 0 && c1[0] == '{' && c1.len() > 1 && c1[c1.len() - 1] == '}') {
        return err_text("expected `retrocausal { a -> b }`");
    }
    let inner = trim_str(s1.substring_char(1, c1.len() - 1));
    let ic = chars_of(inner);
    let a = find_pair_from(&ic, '-', '>', 0);
    if a >= ic.len() {
        return err_text("retrocausal edge must be `IDENT -> IDENT`");
    }
    proof {
        crate::compiler::lex::lemma_find_pair(inner@, '-', '>', 0);
    }
    if find_pair_from(&ic, '-', '>', a + 2) < ic.len() {
        return err_text("retrocausal edge must be `IDENT -> IDENT`");
    }
    let from = trim_str(inner.substring_char(0, a));
    let to = trim_str(inner.substring_char(a + 2, ic.len()));
    if !is_ident(from) || !is_ident(to) {
        return err_text("retrocausal edge must be `IDENT -> IDENT`");
    }
    Ok(Stmt::Retrocausal { from: String::from_str(from), to: String::from_str(to) })
}

fn parse_evolve(rest: &str) -> (r: Result<Stmt, String>)
    ensures
        match evolve_of(rest@) {
            Ok(st) => r matches Ok(x) && x@ == st,
            Err(m) => r matches Err(x) && x@ == m,
        },
{
    let c = chars_of(rest);
    let e = find_char_from(&c, '=', 0);
    if e >= c.len() {
        return err_text("expected `evolve NAME = EXPR`");
    }
    let target = trim_str(rest.substring_char(0, e));
    if !is_ident(target) {
        return err_text("expected `evolve NAME = EXPR`");
    }
    match parse_expr(trim_str(rest.substring_char(e + 1, c.len()))) {
        Err(m) => Err(m),
        Ok(body) => Ok(Stmt::Evolve(EvolveEq { target: String::from_str(target), body })),
    }
}

/// Whether `s` opens with the keyword `kw` and a whitespace character.
fn keyword_str(s: &str, kw: &str) -> (b: bool)
    ensures
        b == keyword(s@, kw@),
{
    if !starts_with(s, kw) {
        return false;
    }
    let c = chars_of(s);
    let k = chars_of(kw);
    k.len() < c.len() && is_whitespace(c[k.len()])
}

fn parse_stmt(l: &str) -> (r: Result<Stmt, String>)
    ensures
        match stmt_of(l@) {
            Ok(st) => r matches Ok(x) && x@ == st,
            Err(m) => r matches Err(x) && x@ == m,
        },
{
    let lc = chars_of(l);
    if keyword_str(l, "chronal") {
        let p = chars_of("chronal");
        let after = trim_start_str(l.substring_char(p.len(), lc.len()));
        if keyword_str(after, "reg") {
            let q = chars_of("reg");
            let ac = chars_of(after);
            return parse_reg(trim_start_str(after.substring_char(q.len(), ac.len())));
        }
    }
    if starts_with(l, "retrocausal") {
        return parse_retro(l);
    }
    if keyword_str(l, "evolve") {
        let p = chars_of("evolve");
        return parse_evolve(trim_start_str(l.substring_char(p.len(), lc.len())));
    }
    let mut msg = String::from_str("unrecognized statement: ");
    msg.append(l);
    Err(msg)
}

/// `s` without its trailing `;` characters.
fn trim_end_semis(s: &str) -> (r: &str)
    ensures
        r@ == s@.take(semi_run_back(s@, s@.len() as int)),
{
    let c = chars_of(s);
    let mut j = c.len();
    while j > 0 && c[j - 1] == ';'
        invariant
            c@ == s@,
            j <= c@.len(),
            semi_run_back(s@, j as int) == semi_run_back(s@, s@.len() as int),
        decreases j,
    {
        j = j - 1;
    }
    s.substring_char(0, j)
}

/// What a source line holds: nothing, a statement, or an error message.
fn parse_line(raw: &str) -> (r: Option<Result<Stmt, String>>)
    ensures
        match line_stmt(raw@) {
            None => r is None,
            Some(Ok(st)) => r matches Some(Ok(x)) && x@ == st,
            Some(Err(m)) => r matches Some(Err(x)) && x@ == m,
        },
{
    let line = trim_str(strip_comment(raw));
    let lc = chars_of(line);
    if lc.len() == 0 {
        return None;
    }
    if lc[lc.len() - 1] != ';' {
        return Some(err_text("statements must end with ';'"));
    }
    Some(parse_stmt(trim_str(trim_end_semis(line))))
}

/// A line without its `\r` terminator.
pub open spec fn drop_cr(x: Seq<char>) -> Seq<char> {
    if x.len() > 0 && x.last() == '\r' {
        x.drop_last()
    } else {
        x
    }
}

/// The lines of a text, as `str::lines` yields them: split at `\n` (a `\r`
/// before it dropped), a final line terminator optional.
pub open spec fn lines_of(s: Seq<char>) -> Seq<Seq<char>>
    decreases s.len(),
{
    if s.len() == 0 {
        Seq::empty()
    } else {
        let k = find_char(s, '\n', 0);
        if 0 <= k < s.len() {
            seq![drop_cr(s.take(k))] + lines_of(s.skip(k + 1))
        } else {
            seq![s]
        }
    }
}

/// Statements of the given lines, or the 1-based number and message of the
/// first line in error.
pub open spec fn parse_lines(lines: Seq<Seq<char>>) -> Result<Seq<StmtView>, (int, Seq<char>)>
    decreases lines.len(),
{
    if lines.len() == 0 {
        Ok(Seq::empty())
    } else {
        match parse_lines(lines.drop_last()) {
            Err(e) => Err(e),
            Ok(ss) => match line_stmt(lines.last()) {
                None => Ok(ss),
                Some(Ok(st)) => Ok(ss.push(st)),
                Some(Err(m)) => Err((lines.len() as int, m)),
            },
        }
    }
}

/// The statements of a chronal source text, or the line and message of its
/// first error.
pub open spec fn module_of(source: Seq<char>) -> Result<Seq<StmtView>, (int, Seq<char>)> {
    parse_lines(lines_of(source))
}

proof fn lemma_parse_lines_err(a: Seq<Seq<char>>, b: Seq<Seq<char>>)
    requires
        parse_lines(a) is Err,
    ensures
        parse_lines(a + b) == parse_lines(a),
    decreases b.len(),
{
    if b.len() == 0 {
        assert(a + b =~= a);
    } else {
        lemma_parse_lines_err(a, b.drop_last());
        assert((a + b).drop_last() =~= a + b.drop_last());
    }
}

proof fn lemma_find_char_shift(s: Seq<char>, c: char, start: int, i: int)
    requires
        0 <= start <= s.len(),
        0 <= i,
    ensures
        find_char(s.skip(start), c, i) + start == find_char(s, c, start + i),
    decreases s.len() - start - i,
{
    if start + i < s.len() {
        assert(s.skip(start)[i] == s[start + i]);
        lemma_find_char_shift(s, c, start, i + 1);
    }
}

/// Parse a chronal module from DSL source.
///
/// Grammar (whitespace-insensitive, `;`-terminated statements, one per
/// line, `//` starting a comment):
///
/// ```text
/// module    ::= stmt*
/// stmt      ::= reg | retro | evolve
/// reg       ::= 'chronal' 'reg' IDENT '@' 'τ' INT ';'
///             | 'chronal' 'reg' IDENT '@' 'tau' INT ';'
/// retro     ::= 'retrocausal' '{' IDENT '->' IDENT '}' ';'
/// evolve    ::= 'evolve' IDENT '=' expr ';'
/// expr      ::= term (('+'|'-') term)*
/// term      ::= factor ('*' factor)*
/// factor    ::= '-' factor | IDENT | NUMBER | '(' expr ')'
/// ```
pub fn parse_module(name: &str, source: &str) -> (r: Result<ChronalModule, CompileError>)
    ensures
        match module_of(source@) {
            Ok(ss) => r matches Ok(m) && m.name@ == name@ && m.stmt_views() == ss,
            Err((line, msg)) => r matches Err(CompileError::Parse { line: l, message }) && l == line
                && message@ == msg,
        },
{
    let ghost src = source@;
    let c = chars_of(source);
    let mut stmts: Vec<Stmt> = Vec::new();
    let mut start: usize = 0;
    let mut line_no: usize = 0;
    let ghost mut seen: Seq<Seq<char>> = Seq::empty();
    assert(src.skip(0) =~= src);
    assert(seen + lines_of(src) =~= lines_of(src));
    assert(stmts_view(stmts@) =~= Seq::<StmtView>::empty());
    while start < c.len()
        invariant
            c@ == src,
            src == source@,
            start <= c@.len(),
            line_no <= start,
            line_no == seen.len(),
            lines_of(src) == seen + lines_of(src.skip(start as int)),
            parse_lines(seen) == Ok::<Seq<StmtView>, (int, Seq<char>)>(stmts_view(stmts@)),
        decreases c@.len() - start,
    {
        let ghost t = src.skip(start as int);
        let nl = find_char_from(&c, '\n', start);
        proof {
            lemma_find_char_shift(src, '\n', start as int, 0);
            crate::compiler::lex::lemma_find_char(src, '\n', start as int);
        }
        let end = if nl < c.len() && nl > start && c[nl - 1] == '\r' {
            nl - 1
        } else {
            nl
        };
        let next = if nl < c.len() {
            nl + 1
        } else {
            nl
        };
        let raw = source.substring_char(start, end);
        let ghost l = raw@;
        proof {
            let k = find_char(t, '\n', 0);
            assert(k + start == nl);
            if nl < src.len() {
                assert(t.take(k) =~= src.subrange(start as int, nl as int));
                assert(t.skip(k + 1) =~= src.skip(next as int));
                assert(l == drop_cr(t.take(k)));
                assert(lines_of(t) == seq![l] + lines_of(src.skip(next as int)));
            } else {
                assert(t =~= src.subrange(start as int, nl as int));
                assert(src.skip(next as int) =~= Seq::<char>::empty());
                assert(lines_of(t) == seq![l]);
                assert(lines_of(src.skip(next as int)) == Seq::<Seq<char>>::empty());
                assert(seq![l] + Seq::<Seq<char>>::empty() =~= seq![l]);
            }
            assert(seen + lines_of(t) =~= seen.push(l) + lines_of(src.skip(next as int)));
            assert(seen.push(l).drop_last() =~= seen);
        }
        line_no = line_no + 1;
        match parse_line(raw) {
            None => {},
            Some(Ok(st)) => {
                let ghost before = stmts@;
                stmts.push(st);
                assert(stmts_view(stmts@) =~= stmts_view(before).push(stmts@.last()@));
            },
            Some(Err(message)) => {
                proof {
                    lemma_parse_lines_err(seen.push(l), lines_of(src.skip(next as int)));
                }
                return Err(CompileError::Parse { line: line_no, message });
            },
        }
        proof {
            seen = seen.push(l);
        }
        start = next;
    }
    assert(src.skip(start as int) =~= Seq::<char>::empty());
    assert(seen + Seq::<Seq<char>>::empty() =~= seen);
    Ok(ChronalModule { name: String::from_str(name), stmts })
}

} // verus!
