use parlance::desugarer::{desugar, DesugarValueKind};
use parlance::diagnostics::{Diagnostics, Origin, Severity, Span};
use parlance::flattener::{FlattenValueKind, Flattener};
use parlance::parser::{ExpressionKind, Parser, StatementKind};
use parlance::tokenizer::{tokenize, TokenKind};

fn kinds(source: &str) -> Vec<TokenKind> {
    tokenize(source).expect("tokenizes").into_iter().map(|t| t.kind).collect()
}

#[test]
fn tokenizes_a_definition() {
    let ks = kinds("main = add 1 \"x\"\n");
    assert!(matches!(&ks[0], TokenKind::Identifier(s) if s == "main"));
    assert!(matches!(ks[1], TokenKind::Equal));
    assert!(matches!(&ks[2], TokenKind::Identifier(s) if s == "add"));
    assert!(matches!(ks[3], TokenKind::Int(1)));
    assert!(matches!(&ks[4], TokenKind::String(s) if s == "x"));
    assert!(matches!(ks[5], TokenKind::NewLine));
    assert_eq!(ks.len(), 6);
}

#[test]
fn tokenizes_lambdas_and_keywords() {
    let ks = kinds("\\x -> let y = x in y");
    assert!(matches!(ks[0], TokenKind::Lambda));
    assert!(matches!(ks[2], TokenKind::Arrow));
    assert!(matches!(ks[3], TokenKind::Let));
    assert!(matches!(ks[7], TokenKind::In));
}

#[test]
fn identifiers_may_hold_paths() {
    let ks = kinds("prelude::io::print");
    assert_eq!(ks.len(), 1);
    assert!(matches!(&ks[0], TokenKind::Identifier(s) if s == "prelude::io::print"));
}

#[test]
fn token_spans_are_byte_offsets() {
    let ts = tokenize("ab \"é\"").unwrap();
    assert_eq!((ts[0].span.start, ts[0].span.end), (0, 2));
    assert_eq!((ts[1].span.start, ts[1].span.end), (3, 7));
}

#[test]
fn unterminated_string_is_an_error() {
    let err = tokenize("x = \"open").err().expect("error");
    assert_eq!(err.origin, Origin::Parser);
}

#[test]
fn too_large_integer_is_an_error() {
    assert!(tokenize("99999999999").is_err());
    assert!(matches!(kinds("2147483647")[0], TokenKind::Int(2147483647)));
}

#[test]
fn mem_equal_compares_variants() {
    assert!(TokenKind::Int(1).mem_equal(&TokenKind::Int(2)));
    assert!(!TokenKind::Int(1).mem_equal(&TokenKind::Equal));
}

#[test]
fn parses_function_definition() {
    let mut parser = Parser::new("id x = x\n").unwrap();
    let info = parser.parse().unwrap();
    assert_eq!(info.statements.len(), 1);
    match &info.statements[0].kind {
        StatementKind::Function { name, params, body } => {
            assert_eq!(name, "id");
            assert_eq!(params.len(), 1);
            assert_eq!(params[0].kind, "x");
            assert!(matches!(&body.kind, ExpressionKind::Variable { name } if name == "x"));
        }
        other => panic!("unexpected {other:?}"),
    }
}

#[test]
fn parses_application_left_to_right() {
    let mut parser = Parser::new("main = f a b\n").unwrap();
    let info = parser.parse().unwrap();
    match &info.statements[0].kind {
        StatementKind::Variable { value, .. } => match &value.kind {
            ExpressionKind::FunctionCall { callee, arg } => {
                assert!(matches!(&arg.kind, ExpressionKind::Variable { name } if name == "b"));
                assert!(matches!(&callee.kind, ExpressionKind::FunctionCall { .. }));
            }
            other => panic!("unexpected {other:?}"),
        },
        other => panic!("unexpected {other:?}"),
    }
}

#[test]
fn desugars_parameters_into_lambdas() {
    let mut parser = Parser::new("k x y = x\n").unwrap();
    let stats = parser.parse().unwrap().statements;
    let bindings = desugar(stats).unwrap();
    assert_eq!(bindings.len(), 1);
    assert_eq!(bindings[0].name, "k");
    match &bindings[0].value.kind {
        DesugarValueKind::Function { param, body } => {
            assert_eq!(param.name, "x");
            assert!(matches!(&body.kind, DesugarValueKind::Function { param, .. } if param.name == "y"));
        }
        other => panic!("unexpected {other:?}"),
    }
}

#[test]
fn flattening_links_names_to_slots() {
    let mut parser = Parser::new("a = 1\nb = a\n").unwrap();
    let bindings = desugar(parser.parse().unwrap().statements).unwrap();
    let flat = Flattener::new().flatten(bindings).unwrap();
    let a = flat.bindings.get(&"a".to_string()).unwrap();
    let b = flat.bindings.get(&"b".to_string()).unwrap();
    assert_ne!(a, b);
    for value in &flat.file {
        match value.kind {
            FlattenValueKind::Variable(i) => assert!(i < flat.file.len()),
            FlattenValueKind::Function { param, body } => {
                assert!(param < flat.file.len() && body < flat.file.len())
            }
            FlattenValueKind::FunctionCall { callee, arg } => {
                assert!(callee < flat.file.len() && arg < flat.file.len())
            }
            _ => {}
        }
    }
}

#[test]
fn unknown_names_fail_to_flatten() {
    let mut parser = Parser::new("main = nowhere\n").unwrap();
    let bindings = desugar(parser.parse().unwrap().statements).unwrap();
    assert!(Flattener::new().flatten(bindings).is_err());
}

#[test]
fn diagnostics_render_their_origin_and_span() {
    let d = Diagnostics::compiler_error("boom".to_string(), Span::new(3, 5));
    assert_eq!(d.render(), "Parlance Compiler Error\n> boom (3:5)");
    assert_eq!(d.severity, Severity::Error);
    let r = Diagnostics::runtime_error("bad".to_string(), Span::zero());
    assert_eq!(r.render(), "Parlance Runtime Error\n> bad (0:0)");
    let p = Diagnostics::parser_error("eh".to_string(), Span::new(1, 2));
    assert_eq!(p.render(), "Parlance Parser Error\n> eh (1:2)");
}

#[test]
fn a_binding_slot_holds_a_copy_of_its_value_root() {
    let mut parser = Parser::new("id x = x\n").unwrap();
    let bindings = desugar(parser.parse().unwrap().statements).unwrap();
    let mut f = Flattener::new();
    let slot = f.flatten_binding(&bindings[0]).unwrap();
    assert_eq!(slot, 0);
    let flat = f.flatten(Vec::new()).unwrap();
    assert_eq!(flat.file.len(), 4);
    match flat.file[0].kind {
        FlattenValueKind::Function { param, body } => {
            assert_eq!((param, body), (1, 2));
            assert!(matches!(flat.file[1].kind, FlattenValueKind::Unset));
            assert!(matches!(flat.file[2].kind, FlattenValueKind::Variable(1)));
        }
        ref other => panic!("unexpected {other:?}"),
    }
    assert!(matches!(flat.file[3].kind, FlattenValueKind::Function { param: 1, body: 2 }));
}
