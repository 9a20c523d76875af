use parlance::ir::{Ir, IrDef};
use parlance::lua::compile;

fn compile_ok(defs: &[IrDef], entry_point: Option<&str>) -> String {
    compile(defs, entry_point).unwrap()
}

/// The Lua number text of a float, as the host writes it.
fn lua_float(f: f64) -> String {
    if f.is_nan() {
        "(0/0)".into()
    } else if f.is_infinite() {
        if f > 0.0 {
            "math.huge".into()
        } else {
            "-math.huge".into()
        }
    } else {
        let mut s = format!("{f:?}");
        if !s.contains('.') && !s.contains('e') && !s.contains('E') {
            s.push_str(".0");
        }
        s
    }
}


fn bind(name: &str, expr: Ir) -> IrDef {
    IrDef::Bind {
        name: name.into(),
        expr,
    }
}

fn native(name: &str, arity: u32) -> IrDef {
    IrDef::Native {
        name: name.into(),
        arity,
    }
}

fn lam(param: &str, body: Ir) -> Ir {
    Ir::Lam {
        param: param.into(),
        body: Box::new(body),
    }
}

fn app(f: Ir, a: Ir) -> Ir {
    Ir::App(Box::new(f), Box::new(a))
}

/// Compile a single-expression definition and return the RHS text
/// (the expression inside the top-level thunk).
fn expr_lua(expr: Ir) -> String {
    let src = compile_ok(&[bind("main", expr)], Some("main"));
    let line = src
        .lines()
        .find(|l| l.starts_with("main = function() return "))
        .expect("main definition");
    let inner = line.trim_start_matches("main = function() return ");
    inner.strip_suffix(" end").expect("thunk close").to_string()
}

// ── Per-IR-node homomorphism ────────────────────────────────

#[test]
fn int_literal() {
    assert_eq!(expr_lua(Ir::Int(42)), "42");
    assert_eq!(expr_lua(Ir::Int(-7)), "-7");
}

#[test]
fn float_literal() {
    assert_eq!(expr_lua(Ir::Float(lua_float(3.14))), "3.14");
    assert_eq!(expr_lua(Ir::Float(lua_float(1.0))), "1.0");
    assert_eq!(expr_lua(Ir::Float(lua_float(f64::NAN))), "(0/0)");
    assert_eq!(expr_lua(Ir::Float(lua_float(f64::INFINITY))), "math.huge");
    assert_eq!(expr_lua(Ir::Float(lua_float(f64::NEG_INFINITY))), "-math.huge");
}

#[test]
fn str_literal() {
    assert_eq!(expr_lua(Ir::Str("hi".into())), "\"hi\"");
    // Escaping: quotes, backslashes, newline, tab, control chars.
    let src = expr_lua(Ir::Str("a\"b\\c\nd\te\u{1}".into()));
    assert_eq!(src, "\"a\\\"b\\\\c\\nd\\te\\001\"");
}

#[test]
fn var_reference() {
    let src = compile_ok(
        &[bind("x", Ir::Int(1)), bind("main", Ir::Var("x".into()))],
        Some("main"),
    );
    assert!(
        src.contains("main = function() return x end"),
        "got:\n{src}"
    );
}

#[test]
fn lambda_encoding() {
    let src = expr_lua(lam("x", Ir::Var("x".into())));
    assert_eq!(src, "function(x) return x end");
}

#[test]
fn application_encoding() {
    let src = expr_lua(app(Ir::Var("f".into()), Ir::Int(1)));
    assert_eq!(src, "f(1)");
}

#[test]
fn application_of_lambda_is_parenthesized() {
    // Lua requires (function() … end)(arg), not function() … end(arg).
    let src = expr_lua(app(lam("x", Ir::Var("x".into())), Ir::Int(1)));
    assert!(
        src.starts_with("(function(x) return x end)(1)"),
        "got: {src}"
    );
}

// ── `::` table access ───────────────────────────────────────

#[test]
fn table_field_access() {
    let src = compile_ok(
        &[
            bind("t", Ir::Int(1)),
            bind("main", Ir::Var("t::foo".into())),
        ],
        Some("main"),
    );
    // t::foo → t.foo — the left segment renames exactly like plain `t`.
    assert!(src.contains("return t.foo"), "got:\n{src}");
    assert!(
        !src.contains("t()"),
        "left segment must not call the thunk:\n{src}"
    );
}

#[test]
fn nested_table_access() {
    let src = expr_lua(Ir::Var("a::b::c".into()));
    assert_eq!(src, "a.b.c");
}

#[test]
fn table_index_one_arg() {
    // X::index K → X[K]
    let src = expr_lua(app(Ir::Var("table::index".into()), Ir::Str("cat".into())));
    assert_eq!(src, "table[\"cat\"]");
}

#[test]
fn table_index_two_args() {
    // X::index T K → T[K]  (user example: table::index tbl "cat")
    let src = expr_lua(app(
        app(Ir::Var("table::index".into()), Ir::Var("tbl".into())),
        Ir::Str("cat".into()),
    ));
    assert_eq!(src, "tbl[\"cat\"]");
}

#[test]
fn table_index_key_expression() {
    let src = expr_lua(app(
        app(Ir::Var("table::index".into()), Ir::Var("t".into())),
        Ir::Var("k".into()),
    ));
    assert_eq!(src, "t[k]");
}

#[test]
fn table_qualified_call() {
    // t::foo arg → t.foo(arg)
    let src = expr_lua(app(Ir::Var("t::foo".into()), Ir::Int(1)));
    assert_eq!(src, "t.foo(1)");
}

#[test]
#[should_panic(expected = "bare")]
fn bare_index_is_a_compile_error() {
    expr_lua(Ir::Var("table::index".into()));
}

#[test]
#[should_panic(expected = "empty left segment")]
fn empty_left_segment_is_a_compile_error() {
    expr_lua(Ir::Var("::foo".into()));
}

#[test]
#[should_panic(expected = "empty right segment")]
fn empty_right_segment_is_a_compile_error() {
    expr_lua(Ir::Var("t::".into()));
}

#[test]
#[should_panic(expected = "empty segment")]
fn empty_middle_segment_is_a_compile_error() {
    expr_lua(Ir::Var("t::::foo".into()));
}

// ── Env-stack alpha-renaming ────────────────────────────────

#[test]
fn prime_param_is_renamed_to_valid_lua() {
    // `x'` is a legal Parlance identifier but not a Lua one.
    let src = expr_lua(lam("x'", Ir::Var("x'".into())));
    assert!(src.starts_with("function(xp_0)"), "got: {src}");
    assert!(src.contains("return xp_0"), "got: {src}");
}

#[test]
fn lua_keyword_def_is_renamed() {
    // `local` is not a Parlance keyword but IS a Lua keyword.
    let src = compile_ok(
        &[
            bind("local", Ir::Int(5)),
            bind("main", Ir::Var("local".into())),
        ],
        Some("main"),
    );
    // No bare `local` may appear as an identifier.
    for line in src.lines() {
        assert!(
            !line.starts_with("local =") && !line.starts_with("local("),
            "bare keyword leaked:\n{src}"
        );
    }
    assert!(
        src.contains("main = function() return k_local_0 end"),
        "got:\n{src}"
    );
}

#[test]
fn keyword_param_shadows_safely() {
    let src = expr_lua(lam("end", Ir::Var("end".into())));
    assert!(src.starts_with("function(k_end_"), "got: {src}");
}

#[test]
fn shadowing_plain_names_keeps_lua_scoping() {
    // \x -> (\x -> x): both params map to `x`, Lua scoping is
    // exactly λ-shadowing, so the output stays valid and correct.
    let src = expr_lua(lam("x", lam("x", Ir::Var("x".into()))));
    assert_eq!(src, "function(x) return function(x) return x end end");
}

#[test]
fn preamble_global_names_are_renamed() {
    // A user definition named `io` must not shadow the `io` used
    // by the Native.print implementation.
    let src = compile_ok(&[bind("io", Ir::Int(1))], None);
    assert!(
        src.contains("io_0 = function() return 1 end"),
        "got:\n{src}"
    );
    assert!(!src.contains("io = function"), "got:\n{src}");
    assert!(src.contains("Native.print"), "got:\n{src}");
}

// ── Top-level definitions ───────────────────────────────────

#[test]
fn all_def_names_are_predeclared_for_forward_refs() {
    let src = compile_ok(
        &[
            bind(
                "main",
                Ir::App(Box::new(Ir::Var("helper".into())), Box::new(Ir::Int(1))),
            ),
            bind("helper", lam("x", Ir::Var("x".into()))),
        ],
        Some("main"),
    );
    // forward reference: main refers to helper declared later
    assert!(src.contains("local main, helper"), "got:\n{src}");
    assert!(
        src.contains("main = function() return helper(1) end"),
        "got:\n{src}"
    );
    assert!(
        src.contains("helper = function() return function(x) return x end end"),
        "got:\n{src}"
    );
}

#[test]
fn infix_defs_are_skipped() {
    let src = compile_ok(
        &[
            IrDef::Infix {
                op: "+".into(),
                strength: 5,
                func: Ir::Var("add".into()),
            },
            bind("main", Ir::Int(1)),
        ],
        Some("main"),
    );
    assert!(
        src.contains("main = function() return 1 end"),
        "got:\n{src}"
    );
    assert!(!src.contains("infix"), "got:\n{src}");
}

#[test]
fn qualified_native_populates_table_field() {
    // `native table::foo : Int` → `table.foo = Native["table::foo"]()`
    let src = compile_ok(&[native("table::foo", 0)], None);
    assert!(src.contains("local table"), "got:\n{src}");
    assert!(src.contains("table = {}"), "got:\n{src}");
    assert!(
        src.contains("table.foo = Native[\"table::foo\"]()"),
        "got:\n{src}"
    );
    // No bare `table.foo` raw-name emission: the field is populated
    // from the runtime Native table (extendable by a host).
    assert!(
        src.contains(
            "Native[\"table::foo\"] = function(...) error(\"unknown native 'table::foo'\") end"
        ),
        "got:\n{src}"
    );
}

#[test]
fn qualified_native_function_field() {
    // `native table::index : Str -> Int` → `table.index = function(a1) … end`
    let src = compile_ok(&[native("table::index", 1)], None);
    assert!(
        src.contains("table.index = function(a1) return Native[\"table::index\"](a1) end"),
        "got:\n{src}"
    );
}

#[test]
fn qualified_names_share_left_segment_table() {
    let src = compile_ok(&[native("table::foo", 0), native("table::index", 1)], None);
    // one `local table`, one `table = {}`, two field assignments
    assert_eq!(src.matches("local table").count(), 1, "got:\n{src}");
    assert_eq!(src.matches("table = {}").count(), 1, "got:\n{src}");
    assert!(src.contains("table.foo ="), "got:\n{src}");
    assert!(src.contains("table.index ="), "got:\n{src}");
}

#[test]
#[should_panic(expected = "malformed definition name")]
fn empty_qualified_def_segment_is_a_compile_error() {
    compile_ok(&[native("table::", 0)], None);
}

#[test]
fn qualified_bind_populates_table_field_thunk() {
    let src = compile_ok(&[bind("tbl::foo", Ir::Int(7))], None);
    assert!(src.contains("tbl = {}"), "got:\n{src}");
    assert!(
        src.contains("tbl.foo = function() return 7 end"),
        "got:\n{src}"
    );
}

// ── Native wrappers ─────────────────────────────────────────

#[test]
fn native_wrapper_is_curried() {
    let src = compile_ok(&[native("add", 2)], None);
    assert!(
        src.contains(
            "add = function(a1) return function(a2) return Native.add(a1, a2) end end"
        ),
        "got:\n{src}"
    );
}

#[test]
fn native_unary_wrapper() {
    let src = compile_ok(&[native("print", 1)], None);
    assert!(
        src.contains("print = function(a1) return Native.print(a1) end"),
        "got:\n{src}"
    );
}

#[test]
fn native_zero_arity_wrapper() {
    // A zero-arity native is a pure value — evaluated once at load.
    let src = compile_ok(&[native("random", 0)], None);
    assert!(src.contains("random = Native.random()"), "got:\n{src}");
}

#[test]
fn unknown_native_gets_runtime_error_stub() {
    let src = compile_ok(&[native("foo", 2)], None);
    assert!(
        src.contains("Native[\"foo\"] = function(...) error(\"unknown native 'foo'\") end"),
        "got:\n{src}"
    );
    // Still curried so partial application compiles.
    assert!(
        src.contains(
            "foo = function(a1) return function(a2) return Native.foo(a1, a2) end end"
        ),
        "got:\n{src}"
    );
}

#[test]
fn table_factory_native_has_no_stub() {
    // `native table : Table` (zero-arity) is implemented by the
    // preamble factory — no runtime-error stub is emitted.
    let src = compile_ok(&[native("table", 0)], None);
    assert!(src.contains("table = Native.table()"), "got:\n{src}");
    assert!(
        !src.contains("unknown native 'table'"),
        "stub must be suppressed:\n{src}"
    );
}

#[test]
fn preamble_implements_table_factory() {
    let src = compile_ok(&[], None);
    assert!(
        src.contains("Native.table = function() return { foo = 42, cat = 7 } end"),
        "got:\n{src}"
    );
}

#[test]
fn preamble_implements_prelude_natives() {
    let src = compile_ok(&[], None);
    assert!(src.contains("Native.add = function(a, b) return a + b end"));
    assert!(src.contains("Native.sub = function(a, b) return a - b end"));
    assert!(src.contains("Native.mul = function(a, b) return a * b end"));
    assert!(src.contains("Native.div = function(a, b) return math.floor(a / b) end"));
    assert!(
        src.contains("Native.print = function(a) io.write(tostring(a), \"\\n\") return a end")
    );
}

// ── Entry emission ──────────────────────────────────────────

#[test]
fn entry_call_is_emitted_last() {
    let src = compile_ok(&[bind("main", Ir::Int(1))], Some("main"));
    assert!(src.trim_end().ends_with("main()"), "got:\n{src}");
    // The call must come after the definition.
    let def_pos = src.find("main = function() return 1 end").unwrap();
    let call_pos = src.rfind("main()").unwrap();
    assert!(call_pos > def_pos);
}

#[test]
fn custom_entry_name() {
    let src = compile_ok(&[bind("start", Ir::Int(1))], Some("start"));
    assert!(src.trim_end().ends_with("start()"), "got:\n{src}");
}

#[test]
fn no_entry_emits_definitions_only() {
    let src = compile_ok(&[bind("main", Ir::Int(1))], None);
    assert!(src.contains("main = function() return 1 end"));
    assert!(!src.contains("main()"), "got:\n{src}");
}

#[test]
fn unknown_entry_is_silently_omitted() {
    let src = compile_ok(&[bind("main", Ir::Int(1))], Some("nope"));
    assert!(!src.contains("nope()"), "got:\n{src}");
}

#[test]
fn renamed_entry_is_called_under_its_lua_name() {
    let src = compile_ok(&[bind("main", Ir::Int(1))], Some("main"));
    assert!(src.contains("main()"));
}

// ── End-to-end shape checks ─────────────────────────────────

#[test]
fn hello_program_shape() {
    // The optimized hello.plc program: main = print "Hello World"
    let defs = vec![
        native("add", 2),
        native("sub", 2),
        native("mul", 2),
        native("div", 2),
        native("print", 1),
        bind(
            "main",
            app(Ir::Var("print".into()), Ir::Str("Hello World".into())),
        ),
    ];
    let src = compile_ok(&defs, Some("main"));
    assert!(
        src.contains("local add, sub, mul, div, print, main"),
        "got:\n{src}"
    );
    assert!(
        src.contains("main = function() return print(\"Hello World\") end"),
        "got:\n{src}"
    );
    assert!(src.trim_end().ends_with("main()"), "got:\n{src}");
}

#[test]
fn nul_before_a_digit_takes_a_three_digit_escape() {
    assert_eq!(parlance::lua::lua_string("\u{0}1"), "\"\\0001\"");
}

#[test]
fn control_characters_take_three_digit_escapes() {
    assert_eq!(parlance::lua::lua_string("a\"b\\c\nd\te\u{1}"), "\"a\\\"b\\\\c\\nd\\te\\001\"");
}

#[test]
fn a_plain_name_that_a_mangled_name_spells_is_mangled_too() {
    let mut env = parlance::lua::Env::new();
    let a = env.fresh_name("x'").unwrap();
    assert_eq!(a, "xp_0");
    let b = env.fresh_name("xp_0").unwrap();
    assert_ne!(a, b);
    assert_eq!(env.fresh_name("y").unwrap(), "y");
    assert_eq!(env.fresh_name("y").unwrap(), "y");
}
