use parlance::ast::{Expr, Export, Module, Stmt};
use parlance::imports::{collect_exports, filter_exports};
use parlance::ir::{lower, lower_program, Ir, IrDef};
use parlance::lexer::{tokenize, Token};
use parlance::program_parser::parse_program;
use parlance::semant::analyze;
use parlance::types::{ImportSpec, Type};

fn parse(src: &str) -> Vec<Stmt> {
    parse_program(src).unwrap().0
}

fn ok(src: &str) -> Vec<Stmt> {
    analyze(parse(src), vec![]).unwrap()
}

fn err(src: &str) -> String {
    analyze(parse(src), vec![]).unwrap_err().msg
}

fn define_expr(stmt: &Stmt) -> &Expr {
    match stmt {
        Stmt::Define { expr, .. } => expr,
        _ => panic!("expected define"),
    }
}

// ── Parser ──────────────────────────────────────────────────────

#[test]
fn smoke_parse_import() {
    let stmts = parse(r#"import "foo""#);
    assert_eq!(stmts.len(), 1);
    assert!(matches!(&stmts[0], Stmt::Import { path, spec: ImportSpec::All } if path == "foo"));
}

#[test]
fn smoke_parse_define_ident() {
    let stmts = parse("define x = 42");
    assert_eq!(stmts.len(), 1);
    assert!(matches!(&stmts[0], Stmt::Define { name, .. } if name == "x"));
}

#[test]
fn smoke_parse_lambda() {
    let stmts = parse(r"define id = \x -> x");
    let expr = define_expr(&stmts[0]);
    assert!(matches!(expr, Expr::Lambda { param, .. } if param == "x"));
}

#[test]
fn smoke_parse_apply() {
    let stmts = parse("define f = g h i");
    let expr = define_expr(&stmts[0]);
    assert!(matches!(expr, Expr::Apply(..)));
    if let Expr::Apply(inner, _) = expr {
        assert!(matches!(inner.as_ref(), Expr::Apply(..)));
    }
}

#[test]
fn smoke_parse_infix() {
    let src = r#"
        infix + 5 = add
        define x = 1 + 2
    "#;
    let (stmts, prec) = parse_program(src).unwrap();
    assert_eq!(stmts.len(), 2);
    assert_eq!(prec.get("+"), Some(5));
    let expr = define_expr(&stmts[1]);
    assert!(matches!(expr, Expr::Infix(..)));
}

#[test]
fn smoke_parse_infix_precedence() {
    let src = r#"
        infix + 5 = add
        infix * 6 = mul
        define x = 1 + 2 * 3
    "#;
    let stmts = parse(src);
    let expr = define_expr(&stmts[2]);
    assert!(matches!(expr, Expr::Infix(..)));
    if let Expr::Infix(l, op, r) = expr {
        assert_eq!(op, "+");
        assert!(matches!(l.as_ref(), Expr::Int(1)));
        assert!(matches!(r.as_ref(), Expr::Infix(inner, op2, _)
            if matches!(inner.as_ref(), Expr::Int(2)) && op2 == "*"));
    }
}

#[test]
fn smoke_parse_bind_chain() {
    let stmts = parse("define r = var x <- 1 >>= var y <- 2 >>= x");
    let expr = define_expr(&stmts[0]);
    assert!(matches!(expr, Expr::Chain(..)));
}

#[test]
fn smoke_parse_parens() {
    let stmts = parse("define x = (1)");
    assert!(matches!(define_expr(&stmts[0]), Expr::Int(1)));
}

#[test]
fn smoke_parse_error_bad_token() {
    let err = parse_program("define x = @").unwrap_err();
    assert!(err.contains("expected expression"), "got: {err}");
}

#[test]
fn smoke_parse_error_eof() {
    let err = parse_program("define x = ").unwrap_err();
    assert!(err.contains("expected expression"), "got: {err}");
}

#[test]
fn smoke_parse_float() {
    let stmts = parse("define x = 3.14");
    let expr = define_expr(&stmts[0]);
    assert!(matches!(expr, Expr::Float(n) if (n.parse::<f64>().unwrap() - 3.14).abs() < 1e-10));
}

#[test]
fn smoke_parse_int_not_float() {
    let stmts = parse("define x = 42");
    assert!(matches!(define_expr(&stmts[0]), Expr::Int(42)));
}

#[test]
fn parse_error_carries_line_and_column() {
    let err = parse_program("define x = 1\ndefine = 2").unwrap_err();
    assert_eq!(err, "2:8: expected identifier, got '='");
}

#[test]
fn parse_types_and_natives() {
    let stmts = parse("native add : Int -> (a -> b) -> Int\ndefine f : a -> a = \\x -> x");
    assert_eq!(stmts[0].text(), "native add : Int -> (a -> b -> Int)");
    assert_eq!(stmts[1].text(), "define f : a -> a = \\x => x");
    match &stmts[0] {
        Stmt::Native { type_sig, .. } => assert_eq!(type_sig.arity(), 2),
        _ => panic!("expected native"),
    }
}

#[test]
fn parse_selective_import() {
    let stmts = parse(r#"import "lib/math" (add, mul)"#);
    assert_eq!(stmts[0].text(), "import \"lib/math\" (add, mul)");
}

#[test]
fn parse_statement_must_start_with_a_keyword() {
    let err = parse_program("x = 1").unwrap_err();
    assert_eq!(err, "1:1: expected statement (import/define/infix/native), got 'x'");
}

// ── Scanner ─────────────────────────────────────────────────────

#[test]
fn tokenize_positions_and_kinds() {
    let toks = tokenize("define x' = \"a\\n\"\n  3.5 >>= (y)").unwrap();
    let kinds: Vec<&Token> = toks.iter().map(|t| &t.token).collect();
    assert_eq!(
        kinds,
        vec![
            &Token::Define,
            &Token::Ident("x'".to_string()),
            &Token::Equal,
            &Token::Str("a\n".to_string()),
            &Token::Float("3.5".to_string()),
            &Token::BindChain,
            &Token::LParen,
            &Token::Ident("y".to_string()),
            &Token::RParen,
            &Token::Eof,
        ]
    );
    assert_eq!((toks[4].line, toks[4].col), (2, 3));
    assert_eq!((toks[9].line, toks[9].col), (2, 14));
}

#[test]
fn tokenize_errors() {
    assert_eq!(tokenize("  \"abc").unwrap_err(), "1:3: unterminated string literal");
    assert_eq!(tokenize("\"ab\\").unwrap_err(), "1:1: unterminated escape sequence");
    assert_eq!(tokenize("x\n ;").unwrap_err(), "2:2: unexpected character ';'");
}

#[test]
fn tokenize_huge_integer_is_zero() {
    let toks = tokenize("99999999999999999999 7").unwrap();
    assert_eq!(toks[0].token, Token::Int(0));
    assert_eq!(toks[1].token, Token::Int(7));
}

#[test]
fn tokenize_reserved_symbols_and_operators() {
    let toks = tokenize("-> <- = >>= <> : ,").unwrap();
    let kinds: Vec<&Token> = toks.iter().map(|t| &t.token).collect();
    assert_eq!(
        kinds,
        vec![
            &Token::Arrow,
            &Token::Bind,
            &Token::Equal,
            &Token::BindChain,
            &Token::Op("<>".to_string()),
            &Token::Colon,
            &Token::Comma,
            &Token::Eof,
        ]
    );
}

// ── Semantic analysis ───────────────────────────────────────────

#[test]
fn test_desugar_infix() {
    let stmts = ok("infix + 5 = add\ndefine x = 1 + 2");
    let expr = define_expr(&stmts[1]);
    if let Expr::Apply(outer_left, outer_right) = expr {
        if let Expr::Apply(inner_left, inner_right) = outer_left.as_ref() {
            if let Expr::Var(f) = inner_left.as_ref() {
                assert_eq!(f, "add");
            } else {
                panic!("expected Var for function, got: {}", outer_left.text());
            }
            assert!(matches!(inner_right.as_ref(), Expr::Int(1)));
        } else {
            panic!("expected inner Apply, got: {}", outer_left.text());
        }
        assert!(matches!(outer_right.as_ref(), Expr::Int(2)));
    } else {
        panic!("unexpected expr: {}", expr.text());
    }
}

#[test]
fn test_desugar_infix_precedence() {
    let stmts = ok("infix + 5 = add\ninfix * 6 = mul\ndefine x = 1 + 2 * 3");
    let expr = define_expr(&stmts[2]);
    assert_eq!(expr.text(), "((add 1) ((mul 2) 3))");
}

#[test]
fn test_desugar_bind_chain() {
    let stmts = ok("define r = var x <- 1 >>= var y <- 2 >>= x");
    let expr = define_expr(&stmts[0]);
    if let Expr::Apply(lam, val) = expr {
        assert!(matches!(val.as_ref(), Expr::Int(1)));
        if let Expr::Lambda { param: xp, .. } = lam.as_ref() {
            assert_eq!(xp, "x");
        } else {
            panic!("expected Lambda, got: {}", lam.text());
        }
    } else {
        panic!("unexpected expr: {}", expr.text());
    }
    assert_eq!(expr.text(), "(\\x => (\\y => x 2) 1)");
}

#[test]
fn test_bare_bind_error() {
    let msg = err("define r = var x <- 1");
    assert!(msg.contains("without >>= continuation"), "got: {msg}");
}

#[test]
fn test_unbound_var() {
    let msg = err("infix + 5 = add\ndefine x = z");
    assert!(msg.contains("unbound variable"), "got: {msg}");
}

#[test]
fn test_well_scoped_lambda() {
    ok("define x = 1\ndefine f = \\x -> x");
}

fn assert_no_sugar(expr: &Expr) {
    match expr {
        Expr::Infix(..) | Expr::Bind { .. } | Expr::Chain(..) => {
            panic!("sugar node survived: {}", expr.text());
        }
        Expr::Lambda { body, .. } => assert_no_sugar(body),
        Expr::Apply(f, a) => {
            assert_no_sugar(f);
            assert_no_sugar(a);
        }
        _ => {}
    }
}

#[test]
fn test_no_sugar_survives() {
    let stmts = ok("infix + 5 = add\ndefine r = var x <- 1 >>= var y <- 2 >>= x + y");
    for stmt in &stmts {
        match stmt {
            Stmt::Define { expr, .. } => assert_no_sugar(expr),
            Stmt::Infix { func, .. } => assert_no_sugar(func),
            _ => {}
        }
    }
}

#[test]
fn semant_reports_undeclared_operators_and_stray_binds() {
    let stmts = vec![Stmt::Define {
        name: "x".into(),
        type_sig: None,
        expr: Expr::Infix(Box::new(Expr::Int(1)), "+".into(), Box::new(Expr::Int(2))),
    }];
    assert_eq!(analyze(stmts, vec![]).unwrap_err().msg, "infix operator '+' has no declared function");
    assert_eq!(
        err("define r = 1 >>= 2"),
        ">>= left operand must be 'var name <- value'"
    );
    assert_eq!(err("define r = var a <- 1 >>= var b <- 2"), "var 'b' bound without >>= continuation");
}

#[test]
fn semant_stops_operators_defined_through_themselves() {
    let plus = |a: i64, b: i64| Expr::Infix(Box::new(Expr::Int(a)), "+".into(), Box::new(Expr::Int(b)));
    let stmts = vec![
        Stmt::Infix { op: "+".into(), strength: 5, func: plus(1, 2) },
        Stmt::Define { name: "x".into(), type_sig: None, expr: plus(3, 4) },
    ];
    let msg = analyze(stmts, vec![]).unwrap_err().msg;
    assert_eq!(msg, "infix operator '+' nests too deeply");
}

#[test]
fn semant_merges_resolved_imports_and_drops_unresolved_ones() {
    let stmts = parse("import \"m\"\nimport \"gone\"\ndefine main = twice 3");
    let module = Module {
        path: "m".into(),
        exports: vec![Export::Define {
            name: "twice".into(),
            expr: Expr::Lambda { param: "n".into(), body: Box::new(Expr::Var("n".into())) },
        }],
    };
    let out = analyze(stmts, vec![Some(module), None]).unwrap();
    assert_eq!(out.len(), 2);
    assert_eq!(out[0].text(), "define twice = \\n => n");
    assert_eq!(out[1].text(), "define main = (twice 3)");
}

#[test]
fn semant_keeps_type_annotations() {
    let out = ok("define x : Int = 42");
    assert_eq!(out[0].text(), "define x : Int = 42");
}

// ── Imports ─────────────────────────────────────────────────────

#[test]
fn test_collect_exports() {
    let stmts = vec![
        Stmt::Define { name: "x".into(), expr: Expr::Int(42), type_sig: None },
        Stmt::Infix { op: "+".into(), strength: 5, func: Expr::Var("add".into()) },
    ];
    let exports = collect_exports(&stmts);
    assert_eq!(exports.len(), 2);
}

#[test]
fn test_filter_exports_all() {
    let exports = vec![
        Export::Define { name: "x".into(), expr: Expr::Int(1) },
        Export::Define { name: "y".into(), expr: Expr::Int(2) },
    ];
    let filtered = filter_exports(exports, &ImportSpec::All).unwrap();
    assert_eq!(filtered.len(), 2);
}

#[test]
fn test_filter_exports_only() {
    let exports = vec![
        Export::Define { name: "x".into(), expr: Expr::Int(1) },
        Export::Define { name: "y".into(), expr: Expr::Int(2) },
    ];
    let filtered = filter_exports(exports, &ImportSpec::Only(vec!["x".into()])).unwrap();
    assert_eq!(filtered.len(), 1);
    match &filtered[0] {
        Export::Define { name, .. } => assert_eq!(name, "x"),
        _ => panic!("expected define"),
    }
}

#[test]
fn test_filter_exports_only_missing() {
    let exports = vec![Export::Define { name: "x".into(), expr: Expr::Int(1) }];
    let result = filter_exports(exports, &ImportSpec::Only(vec!["z".into()]));
    assert!(result.is_err());
    assert!(result.unwrap_err().contains("not found"));
}

#[test]
fn collect_exports_skips_natives() {
    let stmts = vec![
        Stmt::Native { name: "print".into(), type_sig: Type::TCon("IO".into()) },
        Stmt::Define { name: "x".into(), expr: Expr::Int(1), type_sig: None },
    ];
    let exports = collect_exports(&stmts);
    assert_eq!(exports.len(), 1);
}

// ── Lowering ────────────────────────────────────────────────────

#[test]
fn test_lower_int() {
    assert_eq!(lower(&Expr::Int(42)), Ir::Int(42));
}

#[test]
fn test_lower_float() {
    assert_eq!(lower(&Expr::Float("3.14".into())), Ir::Float("3.14".into()));
}

#[test]
fn test_lower_var() {
    assert_eq!(lower(&Expr::Var("x".into())), Ir::Var("x".into()));
}

#[test]
fn test_lower_lambda() {
    let e = Expr::Lambda { param: "x".into(), body: Box::new(Expr::Var("x".into())) };
    assert_eq!(lower(&e), Ir::Lam { param: "x".into(), body: Box::new(Ir::Var("x".into())) });
}

#[test]
fn test_lower_apply() {
    let e = Expr::Apply(Box::new(Expr::Var("f".into())), Box::new(Expr::Int(1)));
    assert_eq!(lower(&e), Ir::App(Box::new(Ir::Var("f".into())), Box::new(Ir::Int(1))));
}

#[test]
fn test_lower_program() {
    let stmts = vec![
        Stmt::Define {
            name: "id".into(),
            expr: Expr::Lambda { param: "x".into(), body: Box::new(Expr::Var("x".into())) },
            type_sig: None,
        },
        Stmt::Infix { op: "+".into(), strength: 5, func: Expr::Var("add".into()) },
    ];
    let defs = lower_program(&stmts);
    assert_eq!(defs.len(), 2);
    match &defs[0] {
        IrDef::Bind { name, .. } => assert_eq!(name, "id"),
        _ => panic!("expected Bind"),
    }
    match &defs[1] {
        IrDef::Infix { op, strength, .. } => {
            assert_eq!(op, "+");
            assert_eq!(*strength, 5);
        }
        _ => panic!("expected Infix"),
    }
}

#[test]
fn lower_program_gives_natives_their_arity() {
    let stmts = parse("native add : Int -> Int -> Int");
    let defs = lower_program(&stmts);
    assert_eq!(defs[0], IrDef::Native { name: "add".into(), arity: 2 });
}

#[test]
fn imports_are_replaced_in_place_by_their_exports() {
    let stmts = parse(r#"define a = 1
import "lib"
define b = 2"#);
    let module = Module {
        path: "lib".to_string(),
        exports: vec![
            Export::Define { name: "x".to_string(), expr: Expr::Int(3) },
            Export::Infix { op: "+".to_string(), strength: 5, func: Expr::Var("add".to_string()) },
        ],
    };
    let out = parlance::imports::splice_imports(stmts, vec![module]);
    let names: Vec<String> = out.iter().map(|s| s.text()).collect();
    assert_eq!(out.len(), 4);
    assert!(matches!(&out[0], Stmt::Define { name, .. } if name == "a"));
    assert!(matches!(&out[1], Stmt::Define { name, type_sig: None, expr: Expr::Int(3) } if name == "x"));
    assert!(matches!(&out[2], Stmt::Infix { op, strength: 5, .. } if op == "+"));
    assert!(matches!(&out[3], Stmt::Define { name, .. } if name == "b"));
    assert_eq!(names.len(), 4);
}

#[test]
fn entering_a_module_twice_is_a_cycle() {
    let mut visiting: Vec<String> = Vec::new();
    assert!(parlance::imports::enter_module(&mut visiting, "/a.plc".to_string()).is_ok());
    assert!(parlance::imports::enter_module(&mut visiting, "/b.plc".to_string()).is_ok());
    assert_eq!(
        parlance::imports::enter_module(&mut visiting, "/a.plc".to_string()).unwrap_err(),
        "cyclic import detected: '/a.plc'"
    );
    parlance::imports::leave_module(&mut visiting, &"/a.plc".to_string());
    assert_eq!(visiting, vec!["/b.plc".to_string()]);
    assert!(parlance::imports::enter_module(&mut visiting, "/a.plc".to_string()).is_ok());
}
