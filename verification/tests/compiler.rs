use cronos_ctc::addr::Epoch;
use cronos_ctc::compiler::ast::{Expr, Stmt};
use cronos_ctc::compiler::error::CompileError;
use cronos_ctc::compiler::lex::{is_ident, parse_i64, strip_comment, tokenize, Tok};
use cronos_ctc::compiler::lower::lower_fabric;
use cronos_ctc::compiler::parse::{parse_expr, parse_module};
use cronos_ctc::compiler::temporal::TemporalDependencyGraph;
use cronos_ctc::graph::DependencyKind;
use cronos_ctc::node::NodeId;

const LINEAR_CTC: &str = r#"
            chronal reg x @ τ0;
            chronal reg y @ τ1;
            retrocausal { y -> x };
            evolve x = 0.5 * x + 0.25 * y;
            evolve y = 0.25 * x + 0.5 * y + 0.5;
        "#;

#[test]
fn parses_retrocausal_module() {
    let src = r#"
            chronal reg x @ τ0;
            chronal reg y @ tau1;
            retrocausal { y -> x };
            evolve x = 0.5 * x + 0.25 * y;
            evolve y = 0.5 * y + 0.25 * x + 0.5;
        "#;
    let m = parse_module("demo", src).unwrap();
    assert_eq!(m.registers().len(), 2);
    assert_eq!(m.retrocausal_edges(), vec![("y", "x")]);
    assert_eq!(m.evolve_eqs().len(), 2);
}

#[test]
fn detects_retrocausal_region() {
    let m = parse_module(
        "t",
        r#"
            chronal reg x @ τ0;
            chronal reg y @ τ1;
            retrocausal { y -> x };
            evolve x = y;
            evolve y = 0.5;
        "#,
    )
    .unwrap();
    let g = TemporalDependencyGraph::analyze(&m).unwrap();
    assert!(g.ctc_region.iter().any(|n| n == "x"));
    assert!(g.ctc_region.iter().any(|n| n == "y"));
    assert!(g.crossings.iter().any(|c| c.retrocausal));
}

fn parse_error(src: &str) -> (usize, String) {
    match parse_module("bad", src) {
        Err(CompileError::Parse { line, message }) => (line, message),
        other => panic!("expected a parse error, got {:?}", other),
    }
}

#[test]
fn parse_errors_carry_line_and_message() {
    assert_eq!(
        parse_error("chronal reg x @ τ0\n"),
        (1, "statements must end with ';'".to_string())
    );
    assert_eq!(
        parse_error("\n// comment\nchronal reg 1x @ τ0;"),
        (3, "invalid register name `1x`".to_string())
    );
    assert_eq!(
        parse_error("chronal reg x @ t0;"),
        (1, "epoch must look like τN or tauN".to_string())
    );
    assert_eq!(
        parse_error("chronal reg x @ τ99999999999999999999;"),
        (1, "invalid epoch `τ99999999999999999999`".to_string())
    );
    assert_eq!(
        parse_error("chronal reg x @ τ0 @ τ1;"),
        (1, "expected `chronal reg NAME @ τN`".to_string())
    );
    assert_eq!(
        parse_error("retrocausal y -> x;"),
        (1, "expected `retrocausal { a -> b }`".to_string())
    );
    assert_eq!(
        parse_error("retrocausal { y -> x -> z };"),
        (1, "retrocausal edge must be `IDENT -> IDENT`".to_string())
    );
    assert_eq!(
        parse_error("evolve = 1;"),
        (1, "expected `evolve NAME = EXPR`".to_string())
    );
    assert_eq!(parse_error("teleport x;"), (1, "unrecognized statement: teleport x".to_string()));
    assert_eq!(
        parse_error("evolve x = (x + 1;"),
        (1, "unbalanced '(' in expression".to_string())
    );
    assert_eq!(parse_error("evolve x = x +;"), (1, "expected expression factor".to_string()));
    assert_eq!(
        parse_error("evolve x = x y;"),
        (1, "trailing tokens in expression near `Ident(\"y\")`".to_string())
    );
    assert_eq!(parse_error("evolve x = 1.2.3;"), (1, "invalid number `1.2.3`".to_string()));
    assert_eq!(parse_error("evolve x = x / 2;"), (1, "unexpected character `/`".to_string()));
}

#[test]
fn statements_tolerate_comments_and_repeated_semicolons() {
    let m = parse_module("c", "  chronal reg a @ tau-3 ;; // trailing\r\n\r\n evolve a = -a;").unwrap();
    assert_eq!(m.stmts.len(), 2);
    match &m.stmts[0] {
        Stmt::Reg(d) => {
            assert_eq!(d.name, "a");
            assert_eq!(d.epoch, Epoch(-3));
        }
        other => panic!("unexpected {:?}", other),
    }
    match &m.stmts[1] {
        Stmt::Evolve(e) => {
            assert_eq!(e.target, "a");
            assert!(matches!(&e.body, Expr::Neg(inner) if matches!(&**inner, Expr::Var(v) if v == "a")));
        }
        other => panic!("unexpected {:?}", other),
    }
}

#[test]
fn expressions_are_left_associative_with_products_binding_tighter() {
    let e = parse_expr("a - b - c * d").unwrap();
    match e {
        Expr::Sub(l, r) => {
            assert!(matches!(*l, Expr::Sub(_, _)));
            assert!(matches!(*r, Expr::Mul(_, _)));
        }
        other => panic!("unexpected {:?}", other),
    }
    let k = parse_expr("(1.5)").unwrap();
    assert!(matches!(k, Expr::Const(ref t) if t == "1.5"));
}

#[test]
fn lexical_helpers() {
    assert!(is_ident("_x9"));
    assert!(!is_ident("9x"));
    assert!(!is_ident(""));
    assert!(!is_ident("x-y"));
    assert_eq!(strip_comment("evolve x = 1; // note // more"), "evolve x = 1; ");
    assert_eq!(strip_comment("no comment"), "no comment");
    assert_eq!(parse_i64("+42"), Some(42));
    assert_eq!(parse_i64("-9223372036854775808"), Some(i64::MIN));
    assert_eq!(parse_i64("9223372036854775808"), None);
    assert_eq!(parse_i64("-"), None);
    assert_eq!(parse_i64(""), None);
    assert_eq!(parse_i64("1_0"), None);
    let toks = tokenize(" x1*(.5- y)").unwrap();
    assert_eq!(toks.len(), 7);
    assert!(matches!(&toks[0], Tok::Ident(s) if s == "x1"));
    assert!(matches!(&toks[3], Tok::Num(s) if s == ".5"));
    assert_eq!(tokenize(".").unwrap_err(), "invalid number `.`");
}

#[test]
fn analysis_reports_faults_in_order() {
    let dup = parse_module("d", "chronal reg x @ τ0;\nchronal reg x @ τ1;").unwrap();
    assert!(matches!(
        TemporalDependencyGraph::analyze(&dup),
        Err(CompileError::DuplicateRegister(n)) if n == "x"
    ));
    let bad_edge = parse_module("e", "chronal reg x @ τ0;\nretrocausal { q -> x };").unwrap();
    assert!(matches!(
        TemporalDependencyGraph::analyze(&bad_edge),
        Err(CompileError::BadRetrocausalEdge { from, to }) if from == "q" && to == "x"
    ));
    let undefined = parse_module("u", "chronal reg x @ τ0;\nevolve x = z;").unwrap();
    assert!(matches!(
        TemporalDependencyGraph::analyze(&undefined),
        Err(CompileError::UndefinedRegister(n)) if n == "z"
    ));
}

#[test]
fn later_operand_makes_a_retrocausal_crossing() {
    let m = parse_module(
        "r",
        "chronal reg a @ τ0;\nchronal reg b @ τ2;\nchronal reg c @ τ0;\nevolve a = b + b + c;\nevolve b = a;\nevolve c = a;",
    )
    .unwrap();
    let g = TemporalDependencyGraph::analyze(&m).unwrap();
    assert_eq!(g.crossings.len(), 2);
    assert_eq!(g.crossings[0].from, "b");
    assert_eq!(g.crossings[0].to, "a");
    assert!(g.crossings[0].retrocausal);
    assert_eq!(g.crossings[1].from, "a");
    assert_eq!(g.crossings[1].to, "b");
    assert!(!g.crossings[1].retrocausal);
    let order: Vec<(String, Epoch)> = g.allocation_order();
    let names: Vec<&str> = order.iter().map(|(n, _)| n.as_str()).collect();
    assert_eq!(names, vec!["a", "b", "c"]);
}

#[test]
fn allocation_packs_the_ctc_region_first() {
    let m = parse_module(
        "o",
        "chronal reg q @ τ0;\nchronal reg p @ τ0;\nchronal reg y @ τ3;\nchronal reg x @ τ1;\nretrocausal { y -> x };",
    )
    .unwrap();
    let g = TemporalDependencyGraph::analyze(&m).unwrap();
    let order: Vec<(String, Epoch)> = g.allocation_order();
    let names: Vec<&str> = order.iter().map(|(n, _)| n.as_str()).collect();
    assert_eq!(names, vec!["x", "y", "p", "q"]);
}

#[test]
fn lowering_seeds_one_cell_per_register() {
    let m = parse_module("linear_ctc", LINEAR_CTC).unwrap();
    let (meta, dag) = lower_fabric(&m, vec![0.5f64], 1.0f64).unwrap();
    assert_eq!(meta.unknown_order, vec!["x".to_string(), "y".to_string()]);
    assert_eq!(dag.len(), 2);
    let x = dag.node(NodeId(1)).unwrap();
    assert_eq!(x.addr.tau, Epoch(0));
    assert_eq!(x.state.value, vec![0.5]);
    // y -> x retrocausal from the wire; x -> y causal and y -> x
    // retrocausal inferred from the equations.
    assert_eq!(dag.retrocausal_edges(), vec![(NodeId(2), NodeId(1)), (NodeId(2), NodeId(1))]);
    assert_eq!(dag.dependents(NodeId(1)), vec![NodeId(2)]);
    assert!(!meta.temporal.ctc_region.is_empty());
}

#[test]
fn lowering_couples_same_epoch_operands() {
    let m = parse_module("alg", "chronal reg u @ τ0;\nchronal reg v @ τ0;\nevolve u = v * v + u;\nevolve v = 1;").unwrap();
    let (_, dag) = lower_fabric(&m, 0u8, 0u8).unwrap();
    assert_eq!(dag.dependents(NodeId(2)), vec![NodeId(1), NodeId(1)]);
    let _ = DependencyKind::Algebraic;
}

#[test]
fn lowering_failures() {
    let empty = parse_module("none", "// nothing here\n").unwrap();
    assert!(matches!(
        lower_fabric(&empty, 0u8, 0u8),
        Err(CompileError::Lowering(msg)) if msg == "module has no registers"
    ));
    let open = parse_module("open", "chronal reg x @ τ0;\nchronal reg w @ τ0;\nevolve x = 1;").unwrap();
    assert!(matches!(
        lower_fabric(&open, 0u8, 0u8),
        Err(CompileError::MissingEvolution(n)) if n == "w"
    ));
}

#[test]
fn keywords_take_any_run_of_whitespace() {
    let m = parse_module("w", "chronal  reg x @ τ0;\nchronal\treg   y @ tau1;\nevolve   x = y;\nevolve\ty = x;").unwrap();
    assert_eq!(m.stmts.len(), 4);
    match &m.stmts[0] {
        Stmt::Reg(r) => {
            assert_eq!(r.name, "x");
            assert_eq!(r.epoch, Epoch(0));
        }
        other => panic!("unexpected {other:?}"),
    }
    match &m.stmts[1] {
        Stmt::Reg(r) => assert_eq!(r.name, "y"),
        other => panic!("unexpected {other:?}"),
    }
    assert!(matches!(&m.stmts[2], Stmt::Evolve(e) if e.target == "x"));
    assert!(parse_module("w", "chronal regx @ τ0;").is_err());
}

#[test]
fn missing_evolution_names_the_first_register_in_allocation_order() {
    let m = parse_module(
        "gaps",
        "chronal reg late @ τ5;\nchronal reg early @ τ1;\nchronal reg loop_a @ τ9;\nretrocausal { loop_a -> late };",
    )
    .unwrap();
    // CTC-region registers come first (late, loop_a by epoch), then `early`.
    assert!(matches!(
        lower_fabric(&m, 0u8, 0u8),
        Err(CompileError::MissingEvolution(n)) if n == "late"
    ));
}

#[test]
fn lowers_and_converges_linear_ctc() {
    let module = parse_module("linear_ctc", LINEAR_CTC).unwrap();
    let (meta, dag) = lower_fabric(&module, vec![0.5f64], 1.0f64).unwrap();
    assert!(!meta.temporal.ctc_region.is_empty());
    assert_eq!(meta.unknown_order, vec!["x".to_string(), "y".to_string()]);
    assert_eq!(dag.len(), 2);
    // The fixed-point solve itself runs on the numeric kernel.
}
