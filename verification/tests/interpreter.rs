use parlance::diagnostics::Span;
use parlance::interpreter::{
    parlance_control_if, parlance_int_add, Binding, BindingValue, Expression,
    ExpressionNode, Native, Program, Statement, StatementNode, Term, Variable,
};
use parlance::stdlib::{
    parlance_control_if as std_if, parlance_parser_text, parlance_parser_whitespace,
    parlance_string_concat,
};

fn node(kind: Expression) -> ExpressionNode {
    ExpressionNode { kind, span: Span::zero() }
}

fn var(name: &str) -> Term {
    Term::Variable(name.to_string())
}

fn call(f: Term, a: Term) -> Term {
    Term::Call { callee: Box::new(f), arg: Box::new(a) }
}

fn string(s: &str) -> Term {
    Term::String(s.to_string())
}

fn native(program: &mut Program, name: &str, n: Native) {
    program.binding(Binding { name: name.to_string(), value: BindingValue::NativeFunction(n) });
}

fn eval(program: &mut Program, t: Term) -> Result<BindingValue, String> {
    program.execute_bind_value(BindingValue::Value(t)).map_err(|d| d.message)
}

#[test]
fn expressions_become_curried_terms() {
    let e = Expression::Function {
        params: vec!["x".to_string(), "y".to_string()],
        body: Box::new(node(Expression::Group { inner: Box::new(node(Expression::Integer(3))) })),
    };
    let t = Term::from_expression(e);
    assert_eq!(
        t.render(),
        "Function { param: \"x\", body: Function { param: \"y\", body: Integer(3) } }"
    );
}

#[test]
fn where_clauses_bind_inside_the_body() {
    let stat = Statement::Function {
        name: "f".to_string(),
        params: vec!["x".to_string()],
        body: node(Expression::Variable { name: "y".to_string() }),
        where_clause: vec![StatementNode {
            kind: Statement::Variable {
                name: "y".to_string(),
                value: node(Expression::String("w".to_string())),
                where_clause: vec![],
            },
            span: Span::zero(),
        }],
    };
    let v = Variable::from_statement(stat);
    assert_eq!(v.name, "f");
    assert_eq!(
        v.value.render(),
        "Function { param: \"x\", body: Call { callee: Function { param: \"y\", body: Variable(\"y\") }, arg: String(\"w\") } }"
    );
}

#[test]
fn applies_functions() {
    let mut p = Program::new();
    let id = Term::Function { param: "x".to_string(), body: Box::new(var("x")) };
    let r = eval(&mut p, call(id, string("hi"))).unwrap();
    assert!(matches!(r, BindingValue::Value(Term::String(s)) if s == "hi"));
}

#[test]
fn looks_up_bindings() {
    let mut p = Program::new();
    p.binding(Binding::from_variable(Variable { name: "greeting".to_string(), value: string("hey") }));
    assert!(p.get_bind("greeting").is_some());
    assert!(p.get_bind("other").is_none());
    let r = eval(&mut p, var("greeting")).unwrap();
    assert!(matches!(r, BindingValue::Value(Term::String(s)) if s == "hey"));
}

#[test]
fn undefined_variables_are_errors() {
    let mut p = Program::new();
    assert_eq!(eval(&mut p, var("ghost")).err().unwrap(), "undefined variable: ghost");
}

#[test]
fn calling_a_non_function_is_an_error() {
    let mut p = Program::new();
    assert_eq!(
        eval(&mut p, call(string("x"), string("y"))).err().unwrap(),
        "can not call value: String(\"x\")"
    );
}

#[test]
fn natives_concatenate_and_add() {
    let mut p = Program::new();
    native(&mut p, "concat", Native::Concat);
    native(&mut p, "add", Native::IntAdd);
    let r = eval(&mut p, call(call(var("concat"), string("ab")), string("cd"))).unwrap();
    assert!(matches!(r, BindingValue::Value(Term::String(s)) if s == "abcd"));
    let r = eval(&mut p, call(call(var("add"), Term::Integer(40)), Term::Integer(2))).unwrap();
    assert!(matches!(r, BindingValue::Value(Term::Integer(42))));
    assert_eq!(
        eval(&mut p, call(var("add"), string("x"))).err().unwrap(),
        "expect integer, got String(\"x\")"
    );
}

#[test]
fn print_records_its_argument() {
    let mut p = Program::new();
    native(&mut p, "print", Native::Print);
    let r = eval(&mut p, call(var("print"), Term::Integer(-7))).unwrap();
    assert!(matches!(r, BindingValue::Value(Term::String(s)) if s == "std::io::print"));
    assert_eq!(p.output(), vec!["Integer(-7)".to_string()]);
}

#[test]
fn library_if_only_evaluates_the_taken_branch() {
    let mut p = Program::new();
    p.binding(Binding { name: "if".to_string(), value: std_if() });
    let pick = |c: bool| call(call(call(var("if"), Term::Bool(c)), string("then")), var("undefined"));
    let r = eval(&mut p, pick(true)).unwrap();
    assert!(matches!(r, BindingValue::Value(Term::String(s)) if s == "then"));
    let other = call(call(call(var("if"), Term::Bool(false)), var("undefined")), string("else"));
    let r = eval(&mut p, other).unwrap();
    assert!(matches!(r, BindingValue::Value(Term::String(s)) if s == "else"));
}

#[test]
fn parser_helpers_cut_strings() {
    let mut p = Program::new();
    p.binding(Binding { name: "ws".to_string(), value: parlance_parser_whitespace() });
    p.binding(Binding { name: "text".to_string(), value: parlance_parser_text() });
    p.binding(Binding { name: "cat".to_string(), value: parlance_string_concat() });
    let r = eval(&mut p, call(var("ws"), string("  \tgo on"))).unwrap();
    assert!(matches!(r, BindingValue::Value(Term::String(s)) if s == "go on"));
    let r = eval(&mut p, call(var("text"), string("go on"))).unwrap();
    assert!(matches!(r, BindingValue::Value(Term::String(s)) if s == "go"));
    assert_eq!(
        eval(&mut p, call(var("text"), var("cat"))).err().unwrap(),
        "expect string, got std::string::concat"
    );
}

#[test]
fn interpreter_natives_as_functions() {
    let mut p = Program::new();
    let r = parlance::interpreter::concat(&mut p, BindingValue::Value(string("l"))).unwrap();
    assert!(matches!(r, BindingValue::NativeFunction(Native::ConcatWith(s)) if s == "l"));
    let r = parlance_int_add(&mut p, BindingValue::Value(Term::Integer(1))).unwrap();
    assert!(matches!(r, BindingValue::NativeFunction(Native::IntAddWith(1))));
    let r = parlance_control_if(&mut p, BindingValue::Value(Term::Bool(false))).unwrap();
    assert!(matches!(r, BindingValue::Value(Term::String(s)) if s == "std::control::if"));
    let r = parlance_control_if(&mut p, BindingValue::Value(Term::Bool(true))).unwrap();
    assert!(matches!(r, BindingValue::NativeFunction(Native::ControlIfTaken)));
    assert_eq!(
        parlance::interpreter::concat(&mut p, BindingValue::NativeFunction(Native::Print)).err().unwrap().message,
        "expect string, got native function"
    );
}

#[test]
fn failing_evaluation_keeps_outer_bindings() {
    let mut p = Program::new();
    p.binding(Binding::from_variable(Variable { name: "x".to_string(), value: string("outer") }));
    let f = Term::Function { param: "y".to_string(), body: Box::new(var("missing")) };
    assert!(eval(&mut p, call(f, string("arg"))).is_err());
    let r = p.execute_bind(p.get_bind("x").unwrap()).unwrap();
    assert!(matches!(r, BindingValue::Value(Term::String(s)) if s == "outer"));
}

#[test]
fn strings_in_terms_are_shown_escaped() {
    assert_eq!(string("a\"b").render(), "String(\"a\\\"b\")");
    assert_eq!(string("x\ny\\").render(), "String(\"x\\ny\\\\\")");
    assert_eq!(string("\u{1}").render(), "String(\"\\u{1}\")");
}

#[test]
fn an_integer_error_shows_a_string_escaped() {
    let mut program = Program::new();
    let err = parlance_int_add(&mut program, BindingValue::Value(string("a\"b"))).unwrap_err();
    assert_eq!(err.message, "expect integer, got String(\"a\\\"b\")");
}

#[test]
fn calling_a_function_binds_its_parameter_to_the_argument() {
    let mut program = Program::new();
    let f = Term::Function { param: "x".to_string(), body: Box::new(var("x")) };
    let v = eval(&mut program, call(f, Term::Integer(5))).unwrap();
    match v {
        BindingValue::Value(t) => assert_eq!(t.render(), "Integer(5)"),
        _ => panic!("expected a value"),
    }
}

#[test]
fn calling_an_integer_is_an_error() {
    let mut program = Program::new();
    let err = eval(&mut program, call(Term::Integer(1), Term::Integer(2))).unwrap_err();
    assert_eq!(err, "can not call value: Integer(1)");
}
