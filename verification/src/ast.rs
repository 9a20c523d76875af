//! The syntax tree of the definition language.
//!
//! Expressions layer, loosest first: `>>=` chains, infix operators,
//! `var x <- e` bindings, application by juxtaposition, and atoms
//! (literals, names, parentheses, `\x -> e`). `Infix`, `Bind` and `Seq`
//! are sugar that semantic analysis removes.

use vstd::prelude::*;

use crate::text::{concat, i64_to_text, int_text, owned};
use crate::types::{ImportSpec, Type};

verus! {

/// An expression.
#[derive(Debug)]
pub enum Expr {
    Int(i64),
    /// A number literal, as written.
    Float(String),
    Str(String),
    Var(String),
    Lambda { param: String, body: Box<Expr> },
    Apply(Box<Expr>, Box<Expr>),
    /// `l op r`, before the operator is resolved to its function.
    Infix(Box<Expr>, String, Box<Expr>),
    /// `var name <- value`.
    Bind { name: String, value: Box<Expr> },
    /// `a >>= b`.
    Chain(Box<Expr>, Box<Expr>),
}

/// A statement.
#[derive(Debug)]
pub enum Stmt {
    /// `import "path"` or `import "path" (names...)`.
    Import { path: String, spec: ImportSpec },
    /// `define name [: type] = expr`.
    Define { name: String, type_sig: Option<Type>, expr: Expr },
    /// `infix op strength = func`.
    Infix { op: String, strength: u32, func: Expr },
    /// `native name : type`.
    Native { name: String, type_sig: Type },
}

/// A binding that a module exports.
#[derive(Debug)]
pub enum Export {
    Define { name: String, expr: Expr },
    Infix { op: String, strength: u32, func: Expr },
}

/// A resolved module: its path and what it exports.
#[derive(Debug)]
pub struct Module {
    pub path: String,
    pub exports: Vec<Export>,
}

/// Whether an expression is free of sugar: only literals, names, lambdas
/// and applications.
pub open spec fn is_core(e: Expr) -> bool
    decreases e,
{
    match e {
        Expr::Lambda { body, .. } => is_core(*body),
        Expr::Apply(f, a) => is_core(*f) && is_core(*a),
        Expr::Infix(..) | Expr::Bind { .. } | Expr::Chain(..) => false,
        _ => true,
    }
}

impl Expr {
    /// A copy of the expression.
    pub fn duplicate(&self) -> (r: Expr)
        ensures
            r == *self,
        decreases self,
    {
        match self {
            Expr::Int(n) => Expr::Int(*n),
            Expr::Float(t) => Expr::Float(t.clone()),
            Expr::Str(s) => Expr::Str(s.clone()),
            Expr::Var(v) => Expr::Var(v.clone()),
            Expr::Lambda { param, body } => Expr::Lambda { param: param.clone(), body: Box::new(body.duplicate()) },
            Expr::Apply(f, a) => Expr::Apply(Box::new(f.duplicate()), Box::new(a.duplicate())),
            Expr::Infix(l, op, r) => Expr::Infix(Box::new(l.duplicate()), op.clone(), Box::new(r.duplicate())),
            Expr::Bind { name, value } => Expr::Bind { name: name.clone(), value: Box::new(value.duplicate()) },
            Expr::Chain(a, b) => Expr::Chain(Box::new(a.duplicate()), Box::new(b.duplicate())),
        }
    }

    /// The expression's text: `\x => body`, `(f a)`, `(l op r)`,
    /// `(var x <- v)`, `(a >>= b)`, strings in double quotes.
    pub fn text(&self) -> (r: String)
        ensures
            r@ == expr_text(*self),
        decreases self,
    {
        match self {
            Expr::Int(n) => i64_to_text(*n),
            Expr::Float(t) => t.clone(),
            Expr::Str(s) => concat(&concat(&owned("\""), s.as_str()), "\""),
            Expr::Var(v) => v.clone(),
            Expr::Lambda { param, body } => {
                let b = body.text();
                concat(&concat(&concat(&owned("\\"), param.as_str()), " => "), b.as_str())
            },
            Expr::Apply(f, a) => {
                let tf = f.text();
                let ta = a.text();
                concat(&concat(&concat(&concat(&owned("("), tf.as_str()), " "), ta.as_str()), ")")
            },
            Expr::Infix(l, op, r) => {
                let tl = l.text();
                let tr = r.text();
                concat(
                    &concat(&concat(&concat(&concat(&concat(&owned("("), tl.as_str()), " "), op.as_str()), " "), tr.as_str()),
                    ")",
                )
            },
            Expr::Bind { name, value } => {
                let tv = value.text();
                concat(&concat(&concat(&concat(&owned("(var "), name.as_str()), " <- "), tv.as_str()), ")")
            },
            Expr::Chain(a, b) => {
                let ta = a.text();
                let tb = b.text();
                concat(&concat(&concat(&concat(&owned("("), ta.as_str()), " >>= "), tb.as_str()), ")")
            },
        }
    }
}

/// The text of an expression.
pub open spec fn expr_text(e: Expr) -> Seq<char>
    decreases e,
{
    match e {
        Expr::Int(n) => int_text(n as int),
        Expr::Float(t) => t@,
        Expr::Str(s) => "\""@ + s@ + "\""@,
        Expr::Var(v) => v@,
        Expr::Lambda { param, body } => "\\"@ + param@ + " => "@ + expr_text(*body),
        Expr::Apply(f, a) => "("@ + expr_text(*f) + " "@ + expr_text(*a) + ")"@,
        Expr::Infix(l, op, r) => "("@ + expr_text(*l) + " "@ + op@ + " "@ + expr_text(*r) + ")"@,
        Expr::Bind { name, value } => "(var "@ + name@ + " <- "@ + expr_text(*value) + ")"@,
        Expr::Chain(a, b) => "("@ + expr_text(*a) + " >>= "@ + expr_text(*b) + ")"@,
    }
}

/// The text of a type: a function type whose parameter is itself a
/// function type is written in parentheses as a whole.
pub open spec fn type_text(t: Type) -> Seq<char>
    decreases t,
{
    match t {
        Type::TVar(v) => v@,
        Type::TCon(c) => c@,
        Type::Fun(p, r) => match *p {
            Type::Fun(_, _) => "("@ + type_text(*p) + " -> "@ + type_text(*r) + ")"@,
            _ => type_text(*p) + " -> "@ + type_text(*r),
        },
    }
}

/// The text of a type.
pub fn type_to_text(t: &Type) -> (r: String)
    ensures
        r@ == type_text(*t),
    decreases t,
{
    match t {
        Type::TVar(v) => v.clone(),
        Type::TCon(c) => c.clone(),
        Type::Fun(p, r) => {
            let tp = type_to_text(p);
            let tr = type_to_text(r);
            match &**p {
                Type::Fun(_, _) => concat(&concat(&concat(&concat(&owned("("), tp.as_str()), " -> "), tr.as_str()), ")"),
                _ => concat(&concat(&tp, " -> "), tr.as_str()),
            }
        },
    }
}

/// Names separated by `, `.
pub open spec fn joined(names: Seq<String>) -> Seq<char>
    decreases names.len(),
{
    if names.len() == 0 {
        Seq::empty()
    } else if names.len() == 1 {
        names[0]@
    } else {
        joined(names.drop_last()) + ", "@ + names.last()@
    }
}

fn join_names(names: &Vec<String>) -> (r: String)
    ensures
        r@ == joined(names@),
{
    let mut out = owned("");
    proof {
        reveal_strlit("");
        assert(names@.take(0) =~= Seq::<String>::empty());
    }
    let mut i: usize = 0;
    while i < names.len()
        invariant
            i <= names@.len(),
            out@ == joined(names@.take(i as int)),
        decreases names@.len() - i,
    {
        proof {
            assert(names@.take(i as int + 1).drop_last() =~= names@.take(i as int));
        }
        if i == 0 {
            out = names[i].clone();
        } else {
            out = concat(&concat(&out, ", "), names[i].as_str());
        }
        i = i + 1;
    }
    proof {
        assert(names@.take(names@.len() as int) =~= names@);
    }
    out
}

/// The text of a statement, as it would be written.
pub open spec fn stmt_text(s: Stmt) -> Seq<char> {
    match s {
        Stmt::Import { path, spec } => "import \""@ + path@ + "\""@ + match spec {
            ImportSpec::All => Seq::empty(),
            ImportSpec::Only(names) => " ("@ + joined(names@) + ")"@,
        },
        Stmt::Define { name, type_sig, expr } => "define "@ + name@ + match type_sig {
            Some(t) => " : "@ + type_text(t),
            None => Seq::empty(),
        } + " = "@ + expr_text(expr),
        Stmt::Infix { op, strength, func } => "infix "@ + op@ + " "@ + int_text(strength as int) + " = "@
            + expr_text(func),
        Stmt::Native { name, type_sig } => "native "@ + name@ + " : "@ + type_text(type_sig),
    }
}

impl Stmt {
    /// The statement's text.
    pub fn text(&self) -> (r: String)
        ensures
            r@ == stmt_text(*self),
    {
        match self {
            Stmt::Import { path, spec } => {
                let head = concat(&concat(&owned("import \""), path.as_str()), "\"");
                match spec {
                    ImportSpec::All => head,
                    ImportSpec::Only(names) => {
                        let j = join_names(names);
                        concat(&concat(&concat(&head, " ("), j.as_str()), ")")
                    },
                }
            },
            Stmt::Define { name, type_sig, expr } => {
                let mut head = concat(&owned("define "), name.as_str());
                if let Some(t) = type_sig {
                    let tt = type_to_text(t);
                    head = concat(&concat(&head, " : "), tt.as_str());
                }
                let e = expr.text();
                concat(&concat(&head, " = "), e.as_str())
            },
            Stmt::Infix { op, strength, func } => {
                let s = i64_to_text(*strength as i64);
                let e = func.text();
                concat(
                    &concat(&concat(&concat(&concat(&owned("infix "), op.as_str()), " "), s.as_str()), " = "),
                    e.as_str(),
                )
            },
            Stmt::Native { name, type_sig } => {
                let tt = type_to_text(type_sig);
                concat(&concat(&concat(&owned("native "), name.as_str()), " : "), tt.as_str())
            },
        }
    }
}

} // verus!
