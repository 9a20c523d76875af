use parlance::interpreter::{Expression, Statement};
use parlance::loader::load_source;
use parlance::script_parser::Parser;

fn parse(src: &str) -> Vec<parlance::interpreter::StatementNode> {
    Parser::new(src).parse().unwrap()
}

fn parse_err(src: &str) -> String {
    Parser::new(src).parse().unwrap_err().message
}

#[test]
fn parses_a_variable_with_an_application() {
    let stmts = parse("main = std::io::print $ \"hi\"");
    assert_eq!(stmts.len(), 1);
    match &stmts[0].kind {
        Statement::Variable { name, value, where_clause } => {
            assert_eq!(name, "main");
            assert!(where_clause.is_empty());
            match &value.kind {
                Expression::Call { callee, arg } => {
                    assert!(matches!(&callee.kind, Expression::Variable { name } if name == "std::io::print"));
                    assert!(matches!(&arg.kind, Expression::String(s) if s == "hi"));
                }
                other => panic!("expected a call, got {other:?}"),
            }
        }
        other => panic!("expected a variable, got {other:?}"),
    }
    assert_eq!((stmts[0].span.start, stmts[0].span.end), (0, 28));
}

#[test]
fn parses_functions_and_infix_definitions() {
    let stmts = parse("add a b = a\n`++` x y = x");
    match &stmts[0].kind {
        Statement::Function { name, params, .. } => {
            assert_eq!(name, "add");
            assert_eq!(params, &vec!["a".to_string(), "b".to_string()]);
        }
        other => panic!("expected a function, got {other:?}"),
    }
    match &stmts[1].kind {
        Statement::Function { name, params, .. } => {
            assert_eq!(name, "++");
            assert_eq!(params.len(), 2);
        }
        other => panic!("expected a function, got {other:?}"),
    }
}

#[test]
fn infix_operators_apply_from_the_left() {
    let stmts = parse("x = 1 + 2");
    match &stmts[0].kind {
        Statement::Variable { value, .. } => match &value.kind {
            Expression::Call { callee, arg } => {
                assert!(matches!(&arg.kind, Expression::Integer(2)));
                match &callee.kind {
                    Expression::Call { callee: op, arg: lhs } => {
                        assert!(matches!(&op.kind, Expression::Variable { name } if name == "+"));
                        assert!(matches!(&lhs.kind, Expression::Integer(1)));
                    }
                    other => panic!("expected a call, got {other:?}"),
                }
            }
            other => panic!("expected a call, got {other:?}"),
        },
        other => panic!("expected a variable, got {other:?}"),
    }
}

#[test]
fn a_closing_brace_after_an_expression_reads_as_an_operator() {
    // `}` continues the expression as an infix operator, which runs to the
    // end of the input, so the block is never closed.
    assert_eq!(parse_err("f = g where { g = 1 }"), "expect '}', got EOF");
    let stmts = parse("f = g where {}");
    match &stmts[0].kind {
        Statement::Variable { where_clause, .. } => assert!(where_clause.is_empty()),
        other => panic!("expected a variable, got {other:?}"),
    }
}

#[test]
fn lambdas_groups_and_backticked_names() {
    let stmts = parse("f = \\a b -> (`+` $ a)");
    match &stmts[0].kind {
        Statement::Variable { value, .. } => match &value.kind {
            Expression::Function { params, body } => {
                assert_eq!(params.len(), 2);
                assert!(matches!(&body.kind, Expression::Group { .. }));
            }
            other => panic!("expected a function, got {other:?}"),
        },
        other => panic!("expected a variable, got {other:?}"),
    }
}

#[test]
fn parse_errors() {
    assert_eq!(parse_err("x = "), "expect expression, got EOF");
    assert_eq!(parse_err("x = 99999"), "Overflow integer: 99999");
    assert_eq!(parse_err("x = 12ab"), "expect 0~9, got a");
    assert_eq!(parse_err("x ! 1"), "expect '=', got '!'");
    assert_eq!(parse_err("`+` a = a"), "infix can has only 2 params");
    assert_eq!(parse_err("1 = 2"), "expect statement, got '1'");
    assert_eq!(parse_err("f = \\x => x"), "expect '-', got '='");
    assert_eq!(parse_err("f = g where { g = 1"), "expect '}', got EOF");
}

#[test]
fn integer_bounds() {
    let stmts = parse("x = 32767");
    match &stmts[0].kind {
        Statement::Variable { value, .. } => assert!(matches!(&value.kind, Expression::Integer(32767))),
        other => panic!("expected a variable, got {other:?}"),
    }
}

#[test]
fn load_source_binds_the_prelude_then_the_definitions() {
    let program = load_source("main = std::io::print $ \"hi\"\nanswer = 42").unwrap();
    assert!(program.get_bind("true").is_some());
    assert!(program.get_bind("std::control::if").is_some());
    assert!(program.get_bind("main").is_some());
    assert!(program.get_bind("answer").is_some());
    assert!(program.get_bind("missing").is_none());
}

#[test]
fn load_source_reports_parse_errors() {
    match load_source("main") {
        Ok(_) => panic!("expected an error"),
        Err(e) => assert_eq!(e.message, "expect '=', got EOF"),
    }
}

#[test]
fn an_operator_at_the_end_of_the_text_is_dropped() {
    let stmts = parse("x = 1 +");
    assert_eq!(stmts.len(), 1);
    match &stmts[0].kind {
        Statement::Variable { value, .. } => {
            assert!(matches!(&value.kind, Expression::Integer(1)));
            assert_eq!((value.span.start, value.span.end), (4, 5));
        }
        other => panic!("expected a variable, got {other:?}"),
    }
    assert_eq!((stmts[0].span.start, stmts[0].span.end), (0, 7));
}
