use parlance::ir::{dump, fold_constants, subst, Ir, IrDef};

#[test]
fn test_fold_constants_noop() {
    let ir = Ir::App(Box::new(Ir::Var("f".into())), Box::new(Ir::Int(42)));
    let folded = fold_constants(&ir);
    assert_eq!(folded, ir);
}

#[test]
fn test_fold_beta_redex() {
    let ir = Ir::App(
        Box::new(Ir::Lam { param: "x".into(), body: Box::new(Ir::Var("x".into())) }),
        Box::new(Ir::Int(42)),
    );
    let folded = fold_constants(&ir);
    assert_eq!(folded, Ir::Int(42));
}

#[test]
fn test_fold_beta_nested() {
    let ir = Ir::App(
        Box::new(Ir::App(
            Box::new(Ir::Lam {
                param: "x".into(),
                body: Box::new(Ir::Lam { param: "y".into(), body: Box::new(Ir::Var("x".into())) }),
            }),
            Box::new(Ir::Int(1)),
        )),
        Box::new(Ir::Int(2)),
    );
    let folded = fold_constants(&ir);
    assert_eq!(folded, Ir::Int(1));
}

#[test]
fn test_subst_basic() {
    let ir = Ir::App(Box::new(Ir::Var("x".into())), Box::new(Ir::Var("y".into())));
    let result = subst(&ir, "x", &Ir::Int(99));
    assert_eq!(result, Ir::App(Box::new(Ir::Int(99)), Box::new(Ir::Var("y".into()))));
}

#[test]
fn test_subst_avoids_capture() {
    let ir = Ir::Lam { param: "x".into(), body: Box::new(Ir::Var("x".into())) };
    let result = subst(&ir, "x", &Ir::Int(99));
    assert_eq!(result, ir);
}

#[test]
fn test_dump() {
    let defs = vec![IrDef::Bind { name: "x".into(), expr: Ir::Int(42) }];
    let s = dump(&defs);
    assert_eq!(s, "define x = 42");
}

#[test]
fn fold_keeps_a_redex_with_a_non_literal_argument() {
    let ir = Ir::App(
        Box::new(Ir::Lam { param: "x".into(), body: Box::new(Ir::Var("x".into())) }),
        Box::new(Ir::Var("y".into())),
    );
    assert_eq!(fold_constants(&ir), ir);
}

#[test]
fn dump_writes_each_kind_of_definition() {
    let defs = vec![
        IrDef::Bind {
            name: "f".into(),
            expr: Ir::Lam {
                param: "x".into(),
                body: Box::new(Ir::App(Box::new(Ir::Var("g".into())), Box::new(Ir::Str("hi".into())))),
            },
        },
        IrDef::Infix { op: "+".into(), strength: 5, func: Ir::Var("add".into()) },
        IrDef::Native { name: "print".into(), arity: 1 },
        IrDef::Bind { name: "n".into(), expr: Ir::Int(-3) },
        IrDef::Bind { name: "r".into(), expr: Ir::Float("2.5".into()) },
    ];
    assert_eq!(
        dump(&defs),
        "define f = (\\x => (g \"hi\"))\ninfix + 5 = add\nnative print (arity=1)\ndefine n = -3\ndefine r = 2.5"
    );
}
