use parlance::ir::{Ir, IrDef};
use parlance::optimize::{
    beta_reduce, collect_refs, count_uses, eta_reduce, free_in, inline_class, inline_defs, optimize, optimize_expr,
    remove_dead, InlineHeuristic,
};

fn lam(param: &str, body: Ir) -> Ir {
    Ir::Lam { param: param.into(), body: Box::new(body) }
}

fn app(f: Ir, a: Ir) -> Ir {
    Ir::App(Box::new(f), Box::new(a))
}

fn var(name: &str) -> Ir {
    Ir::Var(name.into())
}

fn lit(n: i64) -> Ir {
    Ir::Int(n)
}

#[test]
fn test_eta_reduce_simple() {
    assert_eq!(eta_reduce(&lam("x", app(var("f"), var("x")))), var("f"));
}

#[test]
fn test_eta_no_reduce_when_x_in_f() {
    let ir = lam("x", app(var("x"), var("x")));
    assert_eq!(eta_reduce(&ir), ir);
}

#[test]
fn test_eta_no_reduce_non_app() {
    let ir = lam("x", var("x"));
    assert_eq!(eta_reduce(&ir), ir);
}

#[test]
fn test_eta_nested() {
    let ir = lam("x", app(lam("y", app(var("f"), var("y"))), var("x")));
    assert_eq!(eta_reduce(&ir), var("f"));
}

#[test]
fn test_beta_reduce_simple() {
    assert_eq!(beta_reduce(&app(lam("x", var("x")), lit(42))), lit(42));
}

#[test]
fn test_beta_reduce_non_literal() {
    assert_eq!(beta_reduce(&app(lam("x", var("x")), app(var("f"), var("y")))), app(var("f"), var("y")));
}

#[test]
fn test_beta_nested_fully() {
    assert_eq!(beta_reduce(&app(app(lam("x", lam("y", var("x"))), lit(1)), lit(2))), lit(1));
}

#[test]
fn test_beta_shadows() {
    assert_eq!(beta_reduce(&app(lam("x", lam("x", var("x"))), lit(1))), lam("x", var("x")));
}

#[test]
fn test_beta_keeps_effectful_unused_arg() {
    let ir = app(lam("p", app(var("print"), lit(42))), app(var("print"), lit(1)));
    assert_eq!(beta_reduce(&ir), ir);
}

#[test]
fn test_beta_reduces_effectful_single_use() {
    let ir = app(lam("x", app(var("print"), var("x"))), app(var("print"), lit(1)));
    assert_eq!(beta_reduce(&ir), app(var("print"), app(var("print"), lit(1))));
}

#[test]
fn test_beta_keeps_effectful_duplicated_arg() {
    let ir = app(lam("x", app(var("x"), var("x"))), app(var("print"), lit(1)));
    assert_eq!(beta_reduce(&ir), ir);
}

#[test]
fn test_beta_still_folds_literal_duplication() {
    let ir = app(lam("x", app(var("x"), var("x"))), lit(42));
    assert_eq!(beta_reduce(&ir), app(lit(42), lit(42)));
}

#[test]
fn test_eta_keeps_effectful_function() {
    let ir = lam("x", app(app(var("print"), lit(1)), var("x")));
    assert_eq!(eta_reduce(&ir), ir);
}

#[test]
fn test_eta_reduces_pure_named_function() {
    assert_eq!(eta_reduce(&lam("x", app(var("f"), var("x")))), var("f"));
}

#[test]
fn test_free_in_var() {
    assert!(free_in(&var("x"), "x"));
    assert!(!free_in(&var("x"), "y"));
}

#[test]
fn test_free_in_lam_bound() {
    assert!(!free_in(&lam("x", var("x")), "x"));
}

#[test]
fn test_free_in_lam_free() {
    assert!(free_in(&lam("x", var("y")), "y"));
}

#[test]
fn test_inline_small_literal() {
    let defs = vec![
        IrDef::Bind { name: "x".into(), expr: lit(42) },
        IrDef::Bind { name: "y".into(), expr: var("x") },
    ];
    let result = inline_defs(&defs);
    assert_eq!(result.len(), 1);
    match &result[0] {
        IrDef::Bind { name, expr } => {
            assert_eq!(name, "y");
            assert_eq!(*expr, lit(42));
        }
        _ => panic!("expected Bind"),
    }
}

#[test]
fn test_inline_keeps_complex() {
    let defs = vec![IrDef::Bind { name: "f".into(), expr: lam("x", app(var("g"), var("x"))) }];
    assert_eq!(inline_defs(&defs).len(), 1);
}

#[test]
fn test_remove_dead_keeps_referenced() {
    let defs = vec![
        IrDef::Bind { name: "x".into(), expr: lit(1) },
        IrDef::Bind { name: "y".into(), expr: var("x") },
    ];
    assert_eq!(remove_dead(&defs).len(), 2);
}

#[test]
fn test_remove_dead_removes_unused() {
    let defs = vec![
        IrDef::Bind { name: "x".into(), expr: lit(1) },
        IrDef::Bind { name: "y".into(), expr: var("z") },
    ];
    let result = remove_dead(&defs);
    assert_eq!(result.len(), 1);
    match &result[0] {
        IrDef::Bind { name, .. } => assert_eq!(name, "y"),
        _ => panic!("expected y"),
    }
}

#[test]
fn test_remove_dead_infix() {
    let defs = vec![
        IrDef::Infix { op: "+".into(), strength: 5, func: var("add") },
        IrDef::Bind { name: "add".into(), expr: lam("x", lam("y", var("x"))) },
    ];
    assert_eq!(remove_dead(&defs).len(), 1);
    match &remove_dead(&defs)[0] {
        IrDef::Bind { name, .. } => assert_eq!(name, "add"),
        _ => panic!("expected Bind"),
    }
}

#[test]
fn test_optimize_inline_beta_eta() {
    let defs = vec![
        IrDef::Bind { name: "f".into(), expr: lam("x", var("x")) },
        IrDef::Bind { name: "id".into(), expr: var("f") },
        IrDef::Bind { name: "result".into(), expr: app(var("id"), lit(42)) },
    ];
    let result = optimize(&defs);
    assert_eq!(result.len(), 1);
    match &result[0] {
        IrDef::Bind { name, expr } => {
            assert_eq!(name, "result");
            assert_eq!(*expr, lit(42));
        }
        _ => panic!("expected Bind(result, 42)"),
    }
}

#[test]
fn test_optimize_eta_then_beta() {
    let defs = vec![
        IrDef::Bind { name: "f".into(), expr: lam("x", app(var("g"), var("x"))) },
        IrDef::Bind { name: "result".into(), expr: app(var("f"), lit(42)) },
    ];
    let result = optimize(&defs);
    assert_eq!(result.len(), 1);
    match &result[0] {
        IrDef::Bind { expr, .. } => {
            assert_eq!(*expr, app(var("g"), lit(42)));
        }
        _ => panic!("expected Bind"),
    }
}

#[test]
fn test_optimize_dead_code() {
    let defs = vec![
        IrDef::Bind { name: "unused".into(), expr: lit(99) },
        IrDef::Bind { name: "live".into(), expr: lit(42) },
    ];
    let result = optimize(&defs);
    assert_eq!(result.len(), 1);
    match &result[0] {
        IrDef::Bind { name, expr } => {
            assert_eq!(name, "live");
            assert_eq!(*expr, lit(42));
        }
        _ => panic!("expected Bind(live, 42)"),
    }
}

#[test]
fn test_optimize_expr() {
    assert_eq!(optimize_expr(&app(lam("x", var("x")), lit(42))), lit(42));
}

#[test]
fn test_collect_refs() {
    let ir = app(var("f"), app(var("g"), var("x")));
    let mut refs = Vec::new();
    collect_refs(&ir, &mut refs);
    refs.sort();
    assert_eq!(refs, vec!["f", "g", "x"]);
}

#[test]
fn test_inline_class_small() {
    assert_eq!(inline_class(&lit(42)), InlineHeuristic::Small);
    assert_eq!(inline_class(&var("x")), InlineHeuristic::Small);
    assert_eq!(inline_class(&lam("x", var("x"))), InlineHeuristic::Small);
    assert_eq!(inline_class(&app(var("f"), lit(1))), InlineHeuristic::Small);
}

#[test]
fn test_inline_class_keep() {
    assert_eq!(inline_class(&app(var("f"), lam("x", var("x")))), InlineHeuristic::Keep);
    assert_eq!(inline_class(&app(var("f"), app(var("g"), lit(1)))), InlineHeuristic::Keep);
}

#[test]
fn collect_refs_lists_each_name_once() {
    let ir = app(var("f"), lam("x", app(var("f"), var("x"))));
    let mut refs = vec!["x".to_string()];
    collect_refs(&ir, &mut refs);
    refs.sort();
    assert_eq!(refs, vec!["f", "x"]);
}

#[test]
fn count_uses_stops_at_a_shadowing_binder() {
    let ir = app(app(var("x"), var("x")), lam("x", var("x")));
    assert_eq!(count_uses(&ir, "x"), 2);
    assert_eq!(count_uses(&ir, "y"), 0);
}

#[test]
fn inlining_drops_every_define_of_an_inlined_name() {
    // `a` is small at first; the later, larger `a` goes too, and the last
    // definition is never inlined.
    let defs = vec![
        IrDef::Bind { name: "a".into(), expr: lit(1) },
        IrDef::Bind { name: "a".into(), expr: app(var("g"), var("h")) },
        IrDef::Native { name: "g".into(), arity: 1 },
        IrDef::Bind { name: "main".into(), expr: var("a") },
    ];
    let result = inline_defs(&defs);
    assert_eq!(result.len(), 2);
    assert_eq!(result[0], IrDef::Native { name: "g".into(), arity: 1 });
    assert_eq!(result[1], IrDef::Bind { name: "main".into(), expr: lit(1) });
}

#[test]
fn inlining_resolves_one_level_of_chains() {
    let defs = vec![
        IrDef::Bind { name: "a".into(), expr: lit(7) },
        IrDef::Bind { name: "b".into(), expr: var("a") },
        IrDef::Infix { op: "+".into(), strength: 4, func: app(var("b"), var("z")) },
        IrDef::Bind { name: "main".into(), expr: var("b") },
    ];
    let result = inline_defs(&defs);
    assert_eq!(result.len(), 2);
    assert_eq!(result[0], IrDef::Infix { op: "+".into(), strength: 4, func: app(lit(7), var("z")) });
    assert_eq!(result[1], IrDef::Bind { name: "main".into(), expr: lit(7) });
}

#[test]
fn dead_code_keeps_natives_and_the_last_definition() {
    let defs = vec![
        IrDef::Native { name: "print".into(), arity: 1 },
        IrDef::Bind { name: "unused".into(), expr: lit(1) },
        IrDef::Bind { name: "main".into(), expr: lit(2) },
    ];
    let result = remove_dead(&defs);
    assert_eq!(result.len(), 2);
    assert_eq!(result[0], IrDef::Native { name: "print".into(), arity: 1 });
}

#[test]
fn optimized_program_is_a_fixpoint() {
    let defs = vec![
        IrDef::Bind { name: "k".into(), expr: lam("x", lam("y", var("x"))) },
        IrDef::Bind { name: "w".into(), expr: lam("z", app(var("print"), var("z"))) },
        IrDef::Native { name: "print".into(), arity: 1 },
        IrDef::Bind { name: "main".into(), expr: app(app(var("k"), lit(1)), app(var("w"), lit(2))) },
    ];
    let once = optimize(&defs);
    let twice = optimize(&once);
    assert_eq!(once, twice);
}

#[test]
fn optimize_of_nothing_is_nothing() {
    assert!(optimize(&[]).is_empty());
}
