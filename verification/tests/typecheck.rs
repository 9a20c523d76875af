use parlance::program_parser::parse_program;
use parlance::semant::analyze;
use parlance::typecheck::{display_type, typecheck, MType, TypeContext, TypeError};
use parlance::types::Type;

fn run(src: &str) -> Result<(), TypeError> {
    let (stmts, _) = parse_program(src).unwrap();
    let desugared = analyze(stmts, vec![]).map_err(|e| TypeError { msg: e.msg })?;
    typecheck(&desugared)
}

#[test]
fn test_int_literal() {
    assert!(run("define x = 42").is_ok());
}

#[test]
fn test_type_annotation_matches() {
    assert!(run("define x : Int = 42").is_ok());
}

#[test]
fn test_type_annotation_mismatch() {
    let err = run("define x : Float = 42").unwrap_err();
    assert!(err.msg.contains("Float"));
    assert!(err.msg.contains("Int"));
}

#[test]
fn test_identity() {
    assert!(run("define id : a -> a = \\x -> x").is_ok());
}

#[test]
fn test_native_types_are_known() {
    assert!(run("native print : a -> IO define main : IO = print 42").is_ok());
}

#[test]
fn test_type_error_in_apply() {
    let err = run("native print : a -> IO define main = print 42 99").unwrap_err();
    assert!(err.msg.contains("IO") || err.msg.contains("mismatch"));
}

#[test]
fn test_arithmetic_type_constraint() {
    assert!(run("native add : Int -> Int -> Int define main : Int = add 1 2").is_ok());
}

#[test]
fn mismatch_message_names_the_definition_and_annotation() {
    let err = run("define x : Float = 42").unwrap_err();
    assert_eq!(err.msg, "type error in 'x' (annotation: Float): type mismatch: Int \u{2260} Float");
}

#[test]
fn self_application_is_an_infinite_type() {
    let err = run("define w = \\x -> x x").unwrap_err();
    assert_eq!(err.msg, "infinite type: t1 = t1 -> t2");
}

#[test]
fn unbound_variable_in_inference() {
    let mut ctx = TypeContext::new();
    let e = parlance::ast::Expr::Var("nope".into());
    assert_eq!(ctx.infer(&e).unwrap_err().msg, "unbound variable 'nope'");
}

#[test]
fn unify_solves_variables_through_function_types() {
    let mut ctx = TypeContext::new();
    let a = ctx.fresh();
    let b = ctx.fresh();
    let f1 = MType::Fun(Box::new(MType::TVar(a)), Box::new(MType::TCon("Int".into())));
    let f2 = MType::Fun(Box::new(MType::TCon("Str".into())), Box::new(MType::TVar(b)));
    assert!(ctx.unify(&f1, &f2).is_ok());
    assert_eq!(ctx.resolve(&f1).display(), "Str -> Int");
    assert_eq!(ctx.resolve(&MType::TVar(b)).display(), "Int");
    let f3 = MType::Fun(Box::new(MType::TVar(a)), Box::new(MType::TCon("Float".into())));
    let err = ctx.unify(&f1, &f3).unwrap_err();
    assert_eq!(err.msg, "type mismatch: Int \u{2260} Float");
}

#[test]
fn display_parenthesises_function_parameters() {
    let t = Type::Fun(
        Box::new(Type::Fun(Box::new(Type::TVar("a".into())), Box::new(Type::TVar("b".into())))),
        Box::new(Type::TCon("Int".into())),
    );
    assert_eq!(display_type(&t), "(a -> b) -> Int");
    let m = MType::Fun(
        Box::new(MType::Fun(Box::new(MType::TVar(3)), Box::new(MType::TVar(4)))),
        Box::new(MType::TCon("Int".into())),
    );
    assert_eq!(m.display(), "(t3 -> t4) -> Int");
}

#[test]
fn program_without_definitions_checks() {
    assert!(run("native print : a -> IO").is_ok());
}

#[test]
fn an_undeclared_double_colon_name_gets_a_fresh_variable() {
    let mut ctx = TypeContext::new();
    let n = ctx.fresh();
    let e = parlance::ast::Expr::Var("table::foo".into());
    assert_eq!(ctx.infer(&e).unwrap().display(), format!("t{}", n + 1));
    assert_eq!(ctx.fresh(), n + 2);
}

#[test]
fn a_written_type_variable_is_one_variable_for_all_its_occurrences() {
    let mut ctx = TypeContext::new();
    let ty = Type::Fun(
        Box::new(Type::TVar("a".into())),
        Box::new(Type::Fun(Box::new(Type::TVar("b".into())), Box::new(Type::TVar("a".into())))),
    );
    let m = MType::from_ast(&ty, &mut ctx);
    assert_eq!(m.display(), "t0 -> t1 -> t0");
    assert_eq!(ctx.fresh(), 2);
}

