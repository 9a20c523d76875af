use parlance::codegen::{compile, compile_program, compile_with, BuildOp};
use parlance::ir::{Ir, IrDef};
use parlance::types::NativeRegistry;

fn s(x: &str) -> String {
    x.to_string()
}

#[test]
fn definition_and_entry_call() {
    let defs = vec![IrDef::Bind { name: s("main"), expr: Ir::Int(42) }];
    let nfi = NativeRegistry::from_ir(&defs);
    let plan = compile_with(&defs, Some("main"), &nfi);
    assert_eq!(
        plan,
        vec![
            BuildOp::Jump(s("def_main_skip")),
            BuildOp::Label(s("def_main")),
            BuildOp::Enter,
            BuildOp::Var { name: s("main.ret") },
            BuildOp::I64 { name: s("int_0"), value: 42 },
            BuildOp::CopyVar(3, 4),
            BuildOp::PushArg(3),
            BuildOp::Exit,
            BuildOp::Ret,
            BuildOp::Label(s("def_main_skip")),
            BuildOp::I64 { name: s("entry.dummy"), value: 0 },
            BuildOp::PushArg(10),
            BuildOp::Enter,
            BuildOp::Var { name: s("entry.slot") },
            BuildOp::PopArg(13),
            BuildOp::Call(s("def_main")),
            BuildOp::Var { name: s("entry.ret") },
            BuildOp::PopArg(16),
            BuildOp::Exit,
        ]
    );
}

#[test]
fn unknown_entry_is_not_called() {
    let defs = vec![IrDef::Bind { name: s("main"), expr: Ir::Int(1) }];
    let nfi = NativeRegistry::from_ir(&defs);
    let plan = compile_with(&defs, Some("start"), &nfi);
    assert_eq!(plan.len(), 10);
    assert_eq!(compile(&defs, "prog"), plan);
}

#[test]
fn unary_and_binary_native_calls() {
    let defs = vec![
        IrDef::Native { name: s("print"), arity: 1 },
        IrDef::Native { name: s("add"), arity: 2 },
        IrDef::Bind {
            name: s("main"),
            expr: Ir::App(
                Box::new(Ir::Var(s("print"))),
                Box::new(Ir::App(
                    Box::new(Ir::App(Box::new(Ir::Var(s("add"))), Box::new(Ir::Int(1)))),
                    Box::new(Ir::Int(2)),
                )),
            ),
        },
    ];
    let plan = compile(&defs, "prog");
    assert!(plan.contains(&BuildOp::CallNative(s("add"), 2)));
    assert!(plan.contains(&BuildOp::CallNative(s("print"), 1)));
    let add_at = plan.iter().position(|op| *op == BuildOp::CallNative(s("add"), 2)).unwrap();
    let print_at = plan.iter().position(|op| *op == BuildOp::CallNative(s("print"), 1)).unwrap();
    assert!(add_at < print_at);
}

#[test]
fn calls_of_definitions_and_local_lookups() {
    let defs = vec![
        IrDef::Bind { name: s("id"), expr: Ir::Lam { param: s("x"), body: Box::new(Ir::Var(s("x"))) } },
        IrDef::Bind { name: s("main"), expr: Ir::App(Box::new(Ir::Var(s("id"))), Box::new(Ir::Var(s("y")))) },
    ];
    let plan = compile(&defs, "prog");
    assert!(plan.contains(&BuildOp::Call(s("def_id"))));
    assert!(plan.contains(&BuildOp::FindVar { name: s("x"), fallback: s("undef_x") }));
    assert!(plan.contains(&BuildOp::FindVar { name: s("y"), fallback: s("undef_y") }));
    assert!(plan.contains(&BuildOp::Label(s("lam_0"))));
}

#[test]
fn every_variable_use_refers_to_an_earlier_variable() {
    let defs = vec![
        IrDef::Bind {
            name: s("main"),
            expr: Ir::App(
                Box::new(Ir::App(Box::new(Ir::Var(s("f"))), Box::new(Ir::Float(s("1.5"))))),
                Box::new(Ir::App(
                    Box::new(Ir::Lam { param: s("p"), body: Box::new(Ir::Str(s("x"))) }),
                    Box::new(Ir::Int(3)),
                )),
            ),
        },
    ];
    let plan = compile(&defs, "prog");
    let makes = |i: usize| {
        matches!(
            plan[i],
            BuildOp::I64 { .. } | BuildOp::F64 { .. } | BuildOp::Constant { .. } | BuildOp::Var { .. } | BuildOp::FindVar { .. }
        )
    };
    for (i, op) in plan.iter().enumerate() {
        match op {
            BuildOp::PushArg(h) | BuildOp::PopArg(h) => assert!(*h < i && makes(*h)),
            BuildOp::CopyVar(d, src) => assert!(*d < i && *src < i && makes(*d) && makes(*src)),
            _ => {}
        }
    }
}

#[test]
fn compile_program_optimizes_first() {
    let defs = vec![
        IrDef::Bind { name: s("k"), expr: Ir::Int(7) },
        IrDef::Bind { name: s("main"), expr: Ir::Var(s("k")) },
    ];
    let plan = compile_program(&defs, "prog");
    assert!(plan.contains(&BuildOp::I64 { name: s("int_0"), value: 7 }));
    assert!(!plan.contains(&BuildOp::Label(s("def_k"))));
}
