//! Semantic analysis: imports merged in, sugar removed, names checked.
//!
//! `l op r` becomes `(f l) r` for the function `f` that `infix op` declares;
//! a chain `var x1 <- v1 >>= ... >>= var xn <- vn >>= body` becomes
//! `(\x1 -> ... ((\xn -> body) vn) ...) v1`; a `var` outside a chain is an
//! error. Every variable must then be bound by an enclosing lambda or be a
//! global: a `define`d or `native` name, or the function name of an `infix`.

use vstd::prelude::*;

use crate::ast::{is_core, Export, Expr, Module, Stmt};
use crate::text::{concat, owned, str_eq};

verus! {

/// A semantic error.
#[derive(Debug)]
pub struct SemanticError {
    pub msg: String,
}

/// Nodes of an expression, a `>>=` counting twice.
pub open spec fn weight(e: Expr) -> nat
    decreases e,
{
    match e {
        Expr::Lambda { body, .. } => 1 + weight(*body),
        Expr::Apply(f, a) => 1 + weight(*f) + weight(*a),
        Expr::Infix(l, _, r) => 1 + weight(*l) + weight(*r),
        Expr::Bind { value, .. } => 1 + weight(*value),
        Expr::Chain(a, b) => 2 + weight(*a) + weight(*b),
        _ => 1,
    }
}

/// The operands of a `>>=` chain, left to right, at any nesting of `>>=`.
pub open spec fn flattened(e: Expr) -> Seq<Expr>
    decreases e,
{
    match e {
        Expr::Chain(l, r) => flattened(*l) + flattened(*r),
        _ => seq![e],
    }
}

/// The weights of some expressions, added up.
pub open spec fn weights(parts: Seq<Expr>) -> nat
    decreases parts.len(),
{
    if parts.len() == 0 {
        0
    } else {
        weights(parts.drop_last()) + weight(parts.last())
    }
}

pub proof fn lemma_weights_concat(a: Seq<Expr>, b: Seq<Expr>)
    ensures
        weights(a + b) == weights(a) + weights(b),
    decreases b.len(),
{
    if b.len() > 0 {
        assert((a + b).drop_last() =~= a + b.drop_last());
        lemma_weights_concat(a, b.drop_last());
    } else {
        assert(a + b =~= a);
    }
}

pub proof fn lemma_flattened(e: Expr)
    ensures
        flattened(e).len() >= 1,
        weights(flattened(e)) + 2 * (flattened(e).len() - 1) == weight(e),
        e is Chain ==> flattened(e).len() >= 2,
    decreases e,
{
    match e {
        Expr::Chain(l, r) => {
            lemma_flattened(*l);
            lemma_flattened(*r);
            lemma_weights_concat(flattened(*l), flattened(*r));
            let fl = flattened(*l);
            let fr = flattened(*r);
            assert(flattened(e) == fl + fr);
            assert(flattened(e).len() == fl.len() + fr.len());
            assert(weight(e) == 2 + weight(*l) + weight(*r));
            let wl: int = weights(fl) as int;
            let wr: int = weights(fr) as int;
            assert(wl + 2 * (fl.len() - 1) == weight(*l));
            assert(wr + 2 * (fr.len() - 1) == weight(*r));
            assert(weights(flattened(e)) == wl + wr);
            assert(wl + wr + 2 * (fl.len() + fr.len() - 1) == weight(e));
        },
        _ => {
            assert(seq![e].drop_last() =~= Seq::<Expr>::empty());
            assert(weights(Seq::<Expr>::empty()) == 0);
            assert(weights(seq![e]) == weight(e));
        },
    }
}

/// The nested applications of lambdas that a chain of binds stands for:
/// `(\x1 -> rest) v1` for a first operand `var x1 <- v1`.
pub open spec fn chain_expr(parts: Seq<Expr>) -> Expr
    decreases parts.len(),
{
    if parts.len() <= 1 {
        parts[0]
    } else {
        match parts[0] {
            Expr::Bind { name, value } => Expr::Apply(
                Box::new(Expr::Lambda { param: name, body: Box::new(chain_expr(parts.drop_first())) }),
                value,
            ),
            _ => parts[0],
        }
    }
}

/// Every operand but the last is a `var` binding.
pub open spec fn binds_then_body(parts: Seq<Expr>) -> bool {
    forall|i: int| 0 <= i < parts.len() - 1 ==> (#[trigger] parts[i]) is Bind
}

pub proof fn lemma_chain_expr_weight(parts: Seq<Expr>)
    requires
        parts.len() >= 1,
        binds_then_body(parts),
    ensures
        weight(chain_expr(parts)) == weights(parts) + parts.len() - 1,
    decreases parts.len(),
{
    if parts.len() == 1 {
        assert(parts.drop_last() =~= Seq::<Expr>::empty());
        assert(weights(Seq::<Expr>::empty()) == 0);
        assert(weights(parts) == weight(parts[0]));
        assert(chain_expr(parts) == parts[0]);
    } else {
        let rest = parts.drop_first();
        assert forall|i: int| 0 <= i < rest.len() - 1 implies (#[trigger] rest[i]) is Bind by {
            assert(rest[i] == parts[i + 1]);
        }
        lemma_chain_expr_weight(rest);
        assert(parts =~= seq![parts[0]] + rest);
        lemma_weights_concat(seq![parts[0]], rest);
        assert(seq![parts[0]].drop_last() =~= Seq::<Expr>::empty());
        assert(weights(Seq::<Expr>::empty()) == 0);
        assert(seq![parts[0]].last() == parts[0]);
        assert(weights(seq![parts[0]]) == weight(parts[0]));
        assert(parts[0] is Bind);
        let value = parts[0]->value;
        assert(weight(parts[0]) == 1 + weight(*value));
        let lam = Expr::Lambda { param: parts[0]->name, body: Box::new(chain_expr(rest)) };
        assert(chain_expr(parts) == Expr::Apply(Box::new(lam), value));
        assert(weight(lam) == 1 + weight(chain_expr(rest)));
        assert(weight(chain_expr(parts)) == 1 + weight(lam) + weight(*value));
        assert(weights(rest) + rest.len() - 1 == weight(chain_expr(rest)));
        assert(weights(parts) == weight(parts[0]) + weights(rest));
    }
}

/// The function that the last `infix` declaration of `op` names.
pub open spec fn op_func(ops: Seq<(String, Expr)>, op: Seq<char>) -> Option<Expr>
    decreases ops.len(),
{
    if ops.len() == 0 {
        None
    } else if ops.last().0@ == op {
        Some(ops.last().1)
    } else {
        op_func(ops.drop_last(), op)
    }
}

pub open spec fn left_operand_message() -> Seq<char> {
    ">>= left operand must be 'var name <- value'"@
}

pub open spec fn unbound_bind_message(name: Seq<char>) -> Seq<char> {
    "var '"@ + name + "' bound without >>= continuation"@
}

pub open spec fn undeclared_op_message(op: Seq<char>) -> Seq<char> {
    "infix operator '"@ + op + "' has no declared function"@
}

pub open spec fn deep_op_message(op: Seq<char>) -> Seq<char> {
    "infix operator '"@ + op + "' nests too deeply"@
}

/// The desugared expression, or the first error. Operators expand to their
/// functions at most `fuel` times along any path: an expansion chain longer
/// than the number of operators repeats one, and would never end.
pub open spec fn desugared(e: Expr, ops: Seq<(String, Expr)>, fuel: nat) -> Result<Expr, Seq<char>>
    decreases fuel, weight(e),
{
    match e {
        Expr::Lambda { param, body } => match desugared(*body, ops, fuel) {
            Ok(b) => Ok(Expr::Lambda { param, body: Box::new(b) }),
            Err(m) => Err(m),
        },
        Expr::Apply(f, a) => match desugared(*f, ops, fuel) {
            Err(m) => Err(m),
            Ok(df) => match desugared(*a, ops, fuel) {
                Err(m) => Err(m),
                Ok(da) => Ok(Expr::Apply(Box::new(df), Box::new(da))),
            },
        },
        Expr::Infix(l, op, r) => match op_func(ops, op@) {
            None => Err(undeclared_op_message(op@)),
            Some(func) => if fuel == 0 {
                Err(deep_op_message(op@))
            } else {
                match desugared(func, ops, (fuel - 1) as nat) {
                    Err(m) => Err(m),
                    Ok(df) => match desugared(*l, ops, fuel) {
                        Err(m) => Err(m),
                        Ok(dl) => match desugared(*r, ops, fuel) {
                            Err(m) => Err(m),
                            Ok(dr) => Ok(
                                Expr::Apply(
                                    Box::new(Expr::Apply(Box::new(df), Box::new(dl))),
                                    Box::new(dr),
                                ),
                            ),
                        },
                    },
                }
            },
        },
        Expr::Bind { name, .. } => Err(unbound_bind_message(name@)),
        Expr::Chain(..) => {
            let parts = flattened(e);
            if !binds_then_body(parts) {
                Err(left_operand_message())
            } else if parts.len() == 0 {
                Err(left_operand_message())
            } else {
                match parts.last() {
                    Expr::Bind { name, .. } => Err(unbound_bind_message(name@)),
                    _ => {
                        proof {
                            lemma_flattened(e);
                            lemma_chain_expr_weight(parts);
                        }
                        desugared(chain_expr(parts), ops, fuel)
                    },
                }
            }
        },
        _ => Ok(e),
    }
}

pub open spec fn unbound_var_message(n: Seq<char>) -> Seq<char> {
    "unbound variable: '"@ + n + "'"@
}

pub open spec fn sugar_message() -> Seq<char> {
    "sugar node (Infix/Bind/Seq) survived desugaring"@
}

/// Whether every variable of `e` is bound by an enclosing lambda, in
/// `scope`, or global; the first unbound one otherwise.
pub open spec fn names_checked(e: Expr, globals: Set<Seq<char>>, scope: Set<Seq<char>>) -> Result<(), Seq<char>>
    decreases e,
{
    match e {
        Expr::Var(n) => if scope.contains(n@) || globals.contains(n@) {
            Ok(())
        } else {
            Err(unbound_var_message(n@))
        },
        Expr::Lambda { param, body } => names_checked(*body, globals, scope.insert(param@)),
        Expr::Apply(f, a) => match names_checked(*f, globals, scope) {
            Err(m) => Err(m),
            Ok(_) => names_checked(*a, globals, scope),
        },
        Expr::Infix(..) | Expr::Bind { .. } | Expr::Chain(..) => Err(sugar_message()),
        _ => Ok(()),
    }
}

/// The names in a list.
pub open spec fn name_set(names: Seq<String>) -> Set<Seq<char>> {
    Set::new(|n: Seq<char>| exists|i: int| 0 <= i < names.len() && (#[trigger] names[i])@ == n)
}

fn contains_name(names: &Vec<String>, name: &String) -> (b: bool)
    ensures
        b == name_set(names@).contains(name@),
{
    let mut i: usize = 0;
    while i < names.len()
        invariant
            i <= names@.len(),
            forall|j: int| 0 <= j < i ==> (#[trigger] names@[j])@ != name@,
        decreases names@.len() - i,
    {
        if str_eq(&names[i], name) {
            return true;
        }
        i = i + 1;
    }
    false
}

fn error(m: String) -> (e: SemanticError)
    ensures
        e.msg@ == m@,
{
    SemanticError { msg: m }
}

fn quoted(head: &str, middle: &String, tail: &str) -> (r: String)
    ensures
        r@ == head@ + middle@ + tail@,
{
    concat(&concat(&owned(head), middle.as_str()), tail)
}

fn op_func_exec<'a>(ops: &'a Vec<(String, Expr)>, op: &String) -> (r: Option<&'a Expr>)
    ensures
        match op_func(ops@, op@) {
            Some(f) => r matches Some(g) && *g == f,
            None => r is None,
        },
{
    let mut i: usize = ops.len();
    proof {
        assert(ops@.take(i as int) =~= ops@);
    }
    while i > 0
        invariant
            i <= ops@.len(),
            op_func(ops@, op@) == op_func(ops@.take(i as int), op@),
        decreases i,
    {
        proof {
            assert(ops@.take(i as int).drop_last() =~= ops@.take(i - 1));
        }
        if str_eq(&ops[i - 1].0, op) {
            return Some(&ops[i - 1].1);
        }
        i = i - 1;
    }
    None
}

/// Add the operands of the `>>=` chain `expr` to `out`.
fn flatten_seq(expr: &Expr, out: &mut Vec<Expr>)
    ensures
        final(out)@ == old(out)@ + flattened(*expr),
    decreases expr,
{
    match expr {
        Expr::Chain(l, r) => {
            flatten_seq(l, out);
            flatten_seq(r, out);
            proof {
                assert(out@ =~= old(out)@ + flattened(*expr));
            }
        },
        _ => {
            out.push(expr.duplicate());
            proof {
                assert(out@ =~= old(out)@ + flattened(*expr));
            }
        },
    }
}

proof fn lemma_chain_step(parts: Seq<Expr>, k: int)
    requires
        0 <= k < parts.len() - 1,
        binds_then_body(parts),
    ensures
        parts[k] is Bind,
        chain_expr(parts.subrange(k, parts.len() as int)) == Expr::Apply(
            Box::new(
                Expr::Lambda {
                    param: parts[k]->name,
                    body: Box::new(chain_expr(parts.subrange(k + 1, parts.len() as int))),
                },
            ),
            parts[k]->value,
        ),
{
    let sub = parts.subrange(k, parts.len() as int);
    assert(sub[0] == parts[k]);
    assert(sub.drop_first() =~= parts.subrange(k + 1, parts.len() as int));
}

/// Desugar an expression, with at most `fuel` nested operator expansions.
fn desugar(expr: &Expr, ops: &Vec<(String, Expr)>, fuel: usize) -> (r: Result<Expr, SemanticError>)
    ensures
        match desugared(*expr, ops@, fuel as nat) {
            Ok(e) => r matches Ok(x) && x == e,
            Err(m) => r matches Err(x) && x.msg@ == m,
        },
    decreases fuel, weight(*expr),
{
    match expr {
        Expr::Lambda { param, body } => {
            let b = desugar(body, ops, fuel)?;
            Ok(Expr::Lambda { param: param.clone(), body: Box::new(b) })
        },
        Expr::Apply(f, a) => {
            let df = desugar(f, ops, fuel)?;
            let da = desugar(a, ops, fuel)?;
            Ok(Expr::Apply(Box::new(df), Box::new(da)))
        },
        Expr::Infix(l, op, r) => {
            let func = match op_func_exec(ops, op) {
                Some(f) => f,
                None => {
                    return Err(error(quoted("infix operator '", op, "' has no declared function")));
                },
            };
            if fuel == 0 {
                return Err(error(quoted("infix operator '", op, "' nests too deeply")));
            }
            let df = desugar(func, ops, fuel - 1)?;
            let dl = desugar(l, ops, fuel)?;
            let dr = desugar(r, ops, fuel)?;
            Ok(Expr::Apply(Box::new(Expr::Apply(Box::new(df), Box::new(dl))), Box::new(dr)))
        },
        Expr::Bind { name, .. } => Err(error(quoted("var '", name, "' bound without >>= continuation"))),
        Expr::Chain(..) => {
            let mut parts: Vec<Expr> = Vec::new();
            flatten_seq(expr, &mut parts);
            proof {
                assert(parts@ =~= flattened(*expr));
                lemma_flattened(*expr);
            }
            let n = parts.len();
            let mut i: usize = 0;
            while i + 1 < n
                invariant
                    n == parts@.len(),
                    parts@ == flattened(*expr),
                    n >= 2,
                    i + 1 <= n,
                    forall|j: int| 0 <= j < i ==> (#[trigger] parts@[j]) is Bind,
                decreases n - i,
            {
                if !matches!(parts[i], Expr::Bind { .. }) {
                    proof {
                        assert(!(parts@[i as int] is Bind));
                        assert(!binds_then_body(parts@));
                    }
                    return Err(error(owned(">>= left operand must be 'var name <- value'")));
                }
                i = i + 1;
            }
            assert(binds_then_body(parts@));
            if let Expr::Bind { name, .. } = &parts[n - 1] {
                return Err(error(quoted("var '", name, "' bound without >>= continuation")));
            }
            proof {
                assert(desugared(*expr, ops@, fuel as nat) == desugared(chain_expr(parts@), ops@, fuel as nat));
                assert(parts@.subrange(n - 1, n as int) =~= seq![parts@[n - 1]]);
                lemma_chain_expr_weight(parts@);
                assert forall|j: int| 0 <= j < n implies weight(#[trigger] parts@[j]) < weight(*expr) by {
                    lemma_weight_of_part(parts@, j);
                }
            }
            let first = desugar(&parts[n - 1], ops, fuel);
            let mut acc = match first {
                Ok(a) => a,
                Err(e) => {
                    proof {
                        lemma_chain_error(parts@, n - 1, ops@, fuel as nat);
                    }
                    return Err(e);
                },
            };
            let mut k: usize = n - 1;
            while k > 0
                invariant
                    n == parts@.len(),
                    n >= 2,
                    k < n,
                    binds_then_body(parts@),
                    !(parts@[n - 1] is Bind),
                    desugared(*expr, ops@, fuel as nat) == desugared(chain_expr(parts@), ops@, fuel as nat),
                    forall|j: int| 0 <= j < n ==> weight(#[trigger] parts@[j]) < weight(*expr),
                    desugared(chain_expr(parts@.subrange(k as int, n as int)), ops@, fuel as nat) == Ok::<
                        Expr,
                        Seq<char>,
                    >(acc),
                decreases k,
            {
                proof {
                    lemma_chain_unfold(parts@, k - 1, ops@, fuel as nat);
                }
                match &parts[k - 1] {
                    Expr::Bind { name, value } => {
                        proof {
                            assert(weight(**value) < weight(parts@[k - 1]));
                        }
                        let v = match desugar(value, ops, fuel) {
                            Ok(v) => v,
                            Err(e) => {
                                proof {
                                    lemma_chain_value_error(parts@, k - 1, ops@, fuel as nat);
                                }
                                return Err(e);
                            },
                        };
                        acc = Expr::Apply(
                            Box::new(Expr::Lambda { param: name.clone(), body: Box::new(acc) }),
                            Box::new(v),
                        );
                    },
                    _ => {},
                }
                k = k - 1;
            }
            proof {
                assert(parts@.subrange(0, n as int) =~= parts@);
            }
            Ok(acc)
        },
        _ => Ok(expr.duplicate()),
    }
}

/// One step of a chain's desugaring: its tail first, then the bound value.
proof fn lemma_chain_unfold(parts: Seq<Expr>, k: int, ops: Seq<(String, Expr)>, fuel: nat)
    requires
        0 <= k < parts.len() - 1,
        binds_then_body(parts),
    ensures
        parts[k] is Bind,
        desugared(chain_expr(parts.subrange(k, parts.len() as int)), ops, fuel) == match desugared(
            chain_expr(parts.subrange(k + 1, parts.len() as int)),
            ops,
            fuel,
        ) {
            Err(m) => Err(m),
            Ok(b) => match desugared(*parts[k]->value, ops, fuel) {
                Err(m) => Err(m),
                Ok(v) => Ok(
                    Expr::Apply(Box::new(Expr::Lambda { param: parts[k]->name, body: Box::new(b) }), Box::new(v)),
                ),
            },
        },
{
    lemma_chain_step(parts, k);
    let tail = chain_expr(parts.subrange(k + 1, parts.len() as int));
    let lam = Expr::Lambda { param: parts[k]->name, body: Box::new(tail) };
    assert(desugared(lam, ops, fuel) == match desugared(tail, ops, fuel) {
        Ok(b) => Ok(Expr::Lambda { param: parts[k]->name, body: Box::new(b) }),
        Err(m) => Err(m),
    });
}

/// An error in desugaring the tail of a chain is the error of the chain.
proof fn lemma_chain_error(parts: Seq<Expr>, k: int, ops: Seq<(String, Expr)>, fuel: nat)
    requires
        0 <= k < parts.len(),
        binds_then_body(parts),
        desugared(chain_expr(parts.subrange(k, parts.len() as int)), ops, fuel) is Err,
    ensures
        desugared(chain_expr(parts), ops, fuel) == desugared(
            chain_expr(parts.subrange(k, parts.len() as int)),
            ops,
            fuel,
        ),
    decreases k,
{
    if k > 0 {
        lemma_chain_unfold(parts, k - 1, ops, fuel);
        lemma_chain_error(parts, k - 1, ops, fuel);
    } else {
        assert(parts.subrange(0, parts.len() as int) =~= parts);
    }
}

/// A failure of a bound value is the error of the chain.
proof fn lemma_chain_value_error(parts: Seq<Expr>, k: int, ops: Seq<(String, Expr)>, fuel: nat)
    requires
        0 <= k < parts.len() - 1,
        binds_then_body(parts),
        desugared(chain_expr(parts.subrange(k + 1, parts.len() as int)), ops, fuel) is Ok,
        desugared(*parts[k]->value, ops, fuel) is Err,
    ensures
        desugared(chain_expr(parts), ops, fuel) == desugared(*parts[k]->value, ops, fuel),
{
    lemma_chain_unfold(parts, k, ops, fuel);
    lemma_chain_error(parts, k, ops, fuel);
}

proof fn lemma_weights_part(parts: Seq<Expr>, j: int)
    requires
        0 <= j < parts.len(),
    ensures
        weight(parts[j]) <= weights(parts),
    decreases parts.len(),
{
    if j < parts.len() - 1 {
        lemma_weights_part(parts.drop_last(), j);
    }
}

proof fn lemma_weight_of_part(parts: Seq<Expr>, j: int)
    requires
        0 <= j < parts.len(),
        parts.len() >= 2,
        weights(parts) + 2 * (parts.len() - 1) >= 0,
    ensures
        weight(parts[j]) <= weights(parts),
{
    lemma_weights_part(parts, j);
}

fn walk_names(expr: &Expr, globals: &Vec<String>, scope: &mut Vec<String>) -> (r: Result<(), SemanticError>)
    ensures
        match names_checked(*expr, name_set(globals@), name_set(old(scope)@)) {
            Ok(_) => r is Ok && final(scope)@ == old(scope)@,
            Err(m) => r matches Err(e) && e.msg@ == m,
        },
    decreases expr,
{
    match expr {
        Expr::Var(n) => {
            if contains_name(scope, n) || contains_name(globals, n) {
                Ok(())
            } else {
                Err(error(quoted("unbound variable: '", n, "'")))
            }
        },
        Expr::Lambda { param, body } => {
            let already = contains_name(scope, param);
            let ghost before = scope@;
            if !already {
                scope.push(param.clone());
            }
            proof {
                assert(name_set(scope@) =~= name_set(before).insert(param@)) by {
                    assert forall|x: Seq<char>| #[trigger] name_set(scope@).contains(x) <==> name_set(before).insert(
                        param@,
                    ).contains(x) by {
                        if name_set(scope@).contains(x) && !already {
                            let i = choose|i: int| 0 <= i < scope@.len() && (#[trigger] scope@[i])@ == x;
                            if i < before.len() {
                                assert(before[i] == scope@[i]);
                            }
                        }
                        if name_set(before).contains(x) && !already {
                            let i = choose|i: int| 0 <= i < before.len() && (#[trigger] before[i])@ == x;
                            assert(scope@[i] == before[i]);
                        }
                        if x == param@ && !already {
                            assert(scope@[before.len() as int]@ == x);
                        }
                    }
                }
            }
            let res = walk_names(body, globals, scope);
            match res {
                Ok(()) => {
                    if !already {
                        scope.pop();
                        proof {
                            assert(scope@ =~= before);
                        }
                    }
                    Ok(())
                },
                Err(e) => Err(e),
            }
        },
        Expr::Apply(f, a) => {
            walk_names(f, globals, scope)?;
            walk_names(a, globals, scope)
        },
        Expr::Infix(..) | Expr::Bind { .. } | Expr::Chain(..) => Err(
            error(owned("sugar node (Infix/Bind/Seq) survived desugaring")),
        ),
        _ => Ok(()),
    }
}

/// Check that every variable of `expr` is bound or global.
fn check_names(expr: &Expr, globals: &Vec<String>) -> (r: Result<(), SemanticError>)
    ensures
        match names_checked(*expr, name_set(globals@), Set::empty()) {
            Ok(_) => r is Ok,
            Err(m) => r matches Err(e) && e.msg@ == m,
        },
{
    let mut scope: Vec<String> = Vec::new();
    proof {
        assert(name_set(scope@) =~= Set::<Seq<char>>::empty());
    }
    walk_names(expr, globals, &mut scope)
}

/// The statement an exported binding stands for.
pub open spec fn export_stmt(x: Export) -> Stmt {
    match x {
        Export::Define { name, expr } => Stmt::Define { name, type_sig: None, expr },
        Export::Infix { op, strength, func } => Stmt::Infix { op, strength, func },
    }
}

/// The program with its imports merged in, from statement `i` and import
/// `j` on, after `acc`: the `j`-th import's module, when it was resolved,
/// stands at the place of the `j`-th `import` as its exports; an import
/// that was not resolved is dropped.
pub open spec fn merged(stmts: Seq<Stmt>, imports: Seq<Option<Module>>, i: int, j: int, acc: Seq<Stmt>) -> Seq<Stmt>
    decreases stmts.len() - i,
{
    if i < 0 || i >= stmts.len() {
        acc
    } else {
        match stmts[i] {
            Stmt::Import { .. } => {
                let here = if 0 <= j < imports.len() {
                    match imports[j] {
                        Some(m) => m.exports@.map_values(|x: Export| export_stmt(x)),
                        None => Seq::empty(),
                    }
                } else {
                    Seq::empty()
                };
                merged(stmts, imports, i + 1, j + 1, acc + here)
            },
            _ => merged(stmts, imports, i + 1, j, acc.push(stmts[i])),
        }
    }
}

/// Whether statement `s` makes `n` a global name.
pub open spec fn declares_global(s: Stmt, n: Seq<char>) -> bool {
    match s {
        Stmt::Define { name, .. } => name@ == n,
        Stmt::Infix { func, .. } => func matches Expr::Var(f) && f@ == n,
        Stmt::Native { name, .. } => name@ == n,
        _ => false,
    }
}

/// The global names of a program.
pub open spec fn globals_of(stmts: Seq<Stmt>) -> Set<Seq<char>> {
    Set::new(|n: Seq<char>| exists|i: int| 0 <= i < stmts.len() && declares_global(#[trigger] stmts[i], n))
}

/// The operator declarations of the first `upto` statements, in order.
pub open spec fn ops_of(stmts: Seq<Stmt>, upto: int) -> Seq<(String, Expr)>
    decreases upto,
{
    if upto <= 0 {
        Seq::empty()
    } else {
        match stmts[upto - 1] {
            Stmt::Infix { op, func, .. } => ops_of(stmts, upto - 1).push((op, func)),
            _ => ops_of(stmts, upto - 1),
        }
    }
}

/// The analysed statements from `i` on, after `acc`, or the first error.
pub open spec fn analyzed(
    stmts: Seq<Stmt>,
    i: int,
    ops: Seq<(String, Expr)>,
    globals: Set<Seq<char>>,
    acc: Seq<Stmt>,
) -> Result<Seq<Stmt>, Seq<char>>
    decreases stmts.len() - i,
{
    if i < 0 || i >= stmts.len() {
        Ok(acc)
    } else {
        match stmts[i] {
            Stmt::Import { .. } => analyzed(stmts, i + 1, ops, globals, acc),
            Stmt::Define { name, type_sig, expr } => match desugared(expr, ops, ops.len()) {
                Err(m) => Err(m),
                Ok(e) => match names_checked(e, globals, Set::empty()) {
                    Err(m) => Err(m),
                    Ok(_) => analyzed(stmts, i + 1, ops, globals, acc.push(Stmt::Define { name, type_sig, expr: e })),
                },
            },
            Stmt::Native { .. } => analyzed(stmts, i + 1, ops, globals, acc.push(stmts[i])),
            Stmt::Infix { op, strength, func } => match desugared(func, ops, ops.len()) {
                Err(m) => Err(m),
                Ok(f) => match names_checked(f, globals, Set::empty()) {
                    Err(m) => Err(m),
                    Ok(_) => analyzed(stmts, i + 1, ops, globals, acc.push(Stmt::Infix { op, strength, func: f })),
                },
            },
        }
    }
}

/// Semantic analysis of a program whose imports were resolved to
/// `imports`, one per `import` statement in order.
pub open spec fn analysis(stmts: Seq<Stmt>, imports: Seq<Option<Module>>) -> Result<Seq<Stmt>, Seq<char>> {
    let program = merged(stmts, imports, 0, 0, Seq::empty());
    let ops = ops_of(program, program.len() as int);
    analyzed(program, 0, ops, globals_of(program), Seq::empty())
}

impl Export {
    /// A copy of the binding.
    pub fn duplicate(&self) -> (r: Export)
        ensures
            r == *self,
    {
        match self {
            Export::Define { name, expr } => Export::Define { name: name.clone(), expr: expr.duplicate() },
            Export::Infix { op, strength, func } => Export::Infix {
                op: op.clone(),
                strength: *strength,
                func: func.duplicate(),
            },
        }
    }
}

fn export_to_stmt(x: &Export) -> (s: Stmt)
    ensures
        s == export_stmt(*x),
{
    match x {
        Export::Define { name, expr } => Stmt::Define { name: name.clone(), type_sig: None, expr: expr.duplicate() },
        Export::Infix { op, strength, func } => Stmt::Infix { op: op.clone(), strength: *strength, func: func.duplicate() },
    }
}

fn copy_type_sig(t: &Option<crate::types::Type>) -> (r: Option<crate::types::Type>)
    ensures
        r == *t,
{
    match t {
        Some(ty) => Some(ty.duplicate()),
        None => None,
    }
}

/// Run semantic analysis: merge the resolved imports in, desugar every
/// body, and check that every variable is bound or global. Definitions
/// keep their type annotations.
pub fn analyze(stmts: Vec<Stmt>, imports: Vec<Option<Module>>) -> (r: Result<Vec<Stmt>, SemanticError>)
    ensures
        match analysis(stmts@, imports@) {
            Ok(out) => r matches Ok(v) && v@ == out,
            Err(m) => r matches Err(e) && e.msg@ == m,
        },
{
    // Merge the imports in.
    let mut program: Vec<Stmt> = Vec::new();
    let mut i: usize = 0;
    let mut j: usize = 0;
    while i < stmts.len()
        invariant
            i <= stmts@.len(),
            j <= i,
            merged(stmts@, imports@, i as int, j as int, program@) == merged(stmts@, imports@, 0, 0, Seq::empty()),
        decreases stmts@.len() - i,
    {
        match &stmts[i] {
            Stmt::Import { .. } => {
                let ghost before = program@;
                if j < imports.len() {
                    match &imports[j] {
                        Some(m) => {
                            let mut k: usize = 0;
                            while k < m.exports.len()
                                invariant
                                    k <= m.exports@.len(),
                                    program@ == before + m.exports@.map_values(|x: Export| export_stmt(x)).take(
                                        k as int,
                                    ),
                                decreases m.exports@.len() - k,
                            {
                                program.push(export_to_stmt(&m.exports[k]));
                                proof {
                                    assert(program@ =~= before + m.exports@.map_values(|x: Export| export_stmt(x)).take(
                                        k + 1,
                                    ));
                                }
                                k = k + 1;
                            }
                            proof {
                                assert(m.exports@.map_values(|x: Export| export_stmt(x)).take(
                                    m.exports@.len() as int,
                                ) =~= m.exports@.map_values(|x: Export| export_stmt(x)));
                            }
                        },
                        None => {
                            proof {
                                assert(program@ =~= before + Seq::<Stmt>::empty());
                            }
                        },
                    }
                } else {
                    proof {
                        assert(program@ =~= before + Seq::<Stmt>::empty());
                    }
                }
                j = j + 1;
            },
            Stmt::Define { name, type_sig, expr } => {
                program.push(Stmt::Define { name: name.clone(), type_sig: copy_type_sig(type_sig), expr: expr.duplicate() });
            },
            Stmt::Infix { op, strength, func } => {
                program.push(Stmt::Infix { op: op.clone(), strength: *strength, func: func.duplicate() });
            },
            Stmt::Native { name, type_sig } => {
                program.push(Stmt::Native { name: name.clone(), type_sig: type_sig.duplicate() });
            },
        }
        i = i + 1;
    }
    let ghost p = program@;
    assert(p == merged(stmts@, imports@, 0, 0, Seq::empty()));
    // The operator table and the global names.
    let mut ops: Vec<(String, Expr)> = Vec::new();
    let mut globals: Vec<String> = Vec::new();
    let mut k: usize = 0;
    while k < program.len()
        invariant
            program@ == p,
            k <= p.len(),
            ops@ == ops_of(p, k as int),
            forall|n: Seq<char>| name_set(globals@).contains(n) <==> exists|x: int| 0 <= x < k && declares_global(#[trigger] p[x], n),
        decreases p.len() - k,
    {
        let ghost before = globals@;
        match &program[k] {
            Stmt::Define { name, .. } => {
                globals.push(name.clone());
            },
            Stmt::Infix { op, func, .. } => {
                ops.push((op.clone(), func.duplicate()));
                if let Expr::Var(n) = func {
                    globals.push(n.clone());
                }
            },
            Stmt::Native { name, .. } => {
                globals.push(name.clone());
            },
            Stmt::Import { .. } => {},
        }
        proof {
            assert forall|n: Seq<char>| name_set(globals@).contains(n) <==> exists|x: int| 0 <= x < k + 1 && declares_global(#[trigger] p[x], n) by {
                if name_set(globals@).contains(n) {
                    let y = choose|y: int| 0 <= y < globals@.len() && (#[trigger] globals@[y])@ == n;
                    if y < before.len() {
                        assert(globals@[y] == before[y]);
                        assert(name_set(before).contains(n));
                    } else {
                        assert(declares_global(p[k as int], n));
                    }
                }
                if exists|x: int| 0 <= x < k + 1 && declares_global(#[trigger] p[x], n) {
                    let x = choose|x: int| 0 <= x < k + 1 && declares_global(#[trigger] p[x], n);
                    if x < k {
                        assert(name_set(before).contains(n));
                        let y = choose|y: int| 0 <= y < before.len() && (#[trigger] before[y])@ == n;
                        assert(globals@[y] == before[y]);
                    } else {
                        assert(globals@[before.len() as int]@ == n);
                    }
                }
            }
        }
        k = k + 1;
    }
    proof {
        assert(name_set(globals@) =~= globals_of(p));
    }
    let fuel = ops.len();
    // Desugar and check every body.
    let mut out: Vec<Stmt> = Vec::new();
    let mut m: usize = 0;
    while m < program.len()
        invariant
            program@ == p,
            p == merged(stmts@, imports@, 0, 0, Seq::empty()),
            m <= p.len(),
            ops@ == ops_of(p, p.len() as int),
            fuel == ops@.len(),
            name_set(globals@) == globals_of(p),
            analyzed(p, m as int, ops@, globals_of(p), out@) == analyzed(p, 0, ops@, globals_of(p), Seq::empty()),
        decreases p.len() - m,
    {
        match &program[m] {
            Stmt::Import { .. } => {},
            Stmt::Define { name, type_sig, expr } => {
                let e = match desugar(expr, &ops, fuel) {
                    Ok(e) => e,
                    Err(err) => {
                        proof {
                            assert(analysis(stmts@, imports@) == analyzed(p, m as int, ops@, globals_of(p), out@));
                        }
                        return Err(err);
                    },
                };
                match check_names(&e, &globals) {
                    Ok(()) => {},
                    Err(err) => {
                        proof {
                            assert(analysis(stmts@, imports@) == analyzed(p, m as int, ops@, globals_of(p), out@));
                        }
                        return Err(err);
                    },
                }
                out.push(Stmt::Define { name: name.clone(), type_sig: copy_type_sig(type_sig), expr: e });
            },
            Stmt::Native { name, type_sig } => {
                out.push(Stmt::Native { name: name.clone(), type_sig: type_sig.duplicate() });
            },
            Stmt::Infix { op, strength, func } => {
                let f = match desugar(func, &ops, fuel) {
                    Ok(f) => f,
                    Err(err) => {
                        proof {
                            assert(analysis(stmts@, imports@) == analyzed(p, m as int, ops@, globals_of(p), out@));
                        }
                        return Err(err);
                    },
                };
                match check_names(&f, &globals) {
                    Ok(()) => {},
                    Err(err) => {
                        proof {
                            assert(analysis(stmts@, imports@) == analyzed(p, m as int, ops@, globals_of(p), out@));
                        }
                        return Err(err);
                    },
                }
                out.push(Stmt::Infix { op: op.clone(), strength: *strength, func: f });
            },
        }
        m = m + 1;
    }
    Ok(out)
}

/// A statement as semantic analysis leaves it: no import, and bodies with
/// no sugar.
pub open spec fn sugar_free(s: Stmt) -> bool {
    match s {
        Stmt::Import { .. } => false,
        Stmt::Define { expr, .. } => is_core(expr),
        Stmt::Infix { func, .. } => is_core(func),
        Stmt::Native { .. } => true,
    }
}

/// Every variable of a checked expression is bound, and so it has no sugar.
pub proof fn lemma_checked_is_core(e: Expr, globals: Set<Seq<char>>, scope: Set<Seq<char>>)
    requires
        names_checked(e, globals, scope) is Ok,
    ensures
        is_core(e),
    decreases e,
{
    match e {
        Expr::Lambda { param, body } => lemma_checked_is_core(*body, globals, scope.insert(param@)),
        Expr::Apply(f, a) => {
            lemma_checked_is_core(*f, globals, scope);
            lemma_checked_is_core(*a, globals, scope);
        },
        _ => {},
    }
}

proof fn lemma_analyzed_sugar_free(
    stmts: Seq<Stmt>,
    i: int,
    ops: Seq<(String, Expr)>,
    globals: Set<Seq<char>>,
    acc: Seq<Stmt>,
)
    requires
        forall|k: int| 0 <= k < acc.len() ==> sugar_free(#[trigger] acc[k]),
    ensures
        analyzed(stmts, i, ops, globals, acc) matches Ok(out) ==> forall|k: int|
            0 <= k < out.len() ==> sugar_free(#[trigger] out[k]),
    decreases stmts.len() - i,
{
    if 0 <= i < stmts.len() {
        match stmts[i] {
            Stmt::Import { .. } => lemma_analyzed_sugar_free(stmts, i + 1, ops, globals, acc),
            Stmt::Define { name, type_sig, expr } => {
                if let Ok(e) = desugared(expr, ops, ops.len()) {
                    if names_checked(e, globals, Set::empty()) is Ok {
                        lemma_checked_is_core(e, globals, Set::empty());
                        let next = acc.push(Stmt::Define { name, type_sig, expr: e });
                        assert forall|k: int| 0 <= k < next.len() implies sugar_free(#[trigger] next[k]) by {
                            if k < acc.len() {
                                assert(next[k] == acc[k]);
                            }
                        }
                        lemma_analyzed_sugar_free(stmts, i + 1, ops, globals, next);
                    }
                }
            },
            Stmt::Native { .. } => {
                let next = acc.push(stmts[i]);
                assert forall|k: int| 0 <= k < next.len() implies sugar_free(#[trigger] next[k]) by {
                    if k < acc.len() {
                        assert(next[k] == acc[k]);
                    }
                }
                lemma_analyzed_sugar_free(stmts, i + 1, ops, globals, next);
            },
            Stmt::Infix { op, strength, func } => {
                if let Ok(f) = desugared(func, ops, ops.len()) {
                    if names_checked(f, globals, Set::empty()) is Ok {
                        lemma_checked_is_core(f, globals, Set::empty());
                        let next = acc.push(Stmt::Infix { op, strength, func: f });
                        assert forall|k: int| 0 <= k < next.len() implies sugar_free(#[trigger] next[k]) by {
                            if k < acc.len() {
                                assert(next[k] == acc[k]);
                            }
                        }
                        lemma_analyzed_sugar_free(stmts, i + 1, ops, globals, next);
                    }
                }
            },
        }
    }
}

/// What analysis accepts is free of sugar and of imports: every statement
/// it returns is a definition, operator or native with a core body (which
/// `ir::lower_program` then lowers).
pub proof fn law_analysis_sugar_free(stmts: Seq<Stmt>, imports: Seq<Option<Module>>)
    ensures
        analysis(stmts, imports) matches Ok(out) ==> forall|k: int| 0 <= k < out.len() ==> sugar_free(#[trigger] out[k]),
{
    let program = merged(stmts, imports, 0, 0, Seq::empty());
    let ops = ops_of(program, program.len() as int);
    lemma_analyzed_sugar_free(program, 0, ops, globals_of(program), Seq::empty());
}

} // verus!
