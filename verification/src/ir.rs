//! The core intermediate language: a pure lambda calculus with literals.
//!
//! After desugaring every program is written with six node kinds: integer,
//! number and string literals, variables, one-parameter lambdas and
//! applications. Substitution and constant folding work on this core, and
//! the back ends translate it.

use vstd::prelude::*;

use crate::ast::{is_core, Expr, Stmt};
use crate::text::{concat, i64_to_text, int_text, owned, str_eq};
use crate::types::type_arity;

verus! {

/// A term of the lambda-calculus intermediate language.
#[derive(Debug, PartialEq)]
pub enum Ir {
    Int(i64),
    /// A floating-point literal, as the number text it is written as.
    Float(String),
    Str(String),
    Var(String),
    Lam { param: String, body: Box<Ir> },
    App(Box<Ir>, Box<Ir>),
}

/// A top-level definition.
#[derive(Debug, PartialEq)]
pub enum IrDef {
    /// `define name = expr`.
    Bind { name: String, expr: Ir },
    /// `infix op strength = func`.
    Infix { op: String, strength: u32, func: Ir },
    /// `native name : type`: implemented by the host.
    Native { name: String, arity: u32 },
}

/// Number of nodes of a term.
pub open spec fn size(ir: Ir) -> nat
    decreases ir,
{
    match ir {
        Ir::Lam { body, .. } => 1 + size(*body),
        Ir::App(f, a) => 1 + size(*f) + size(*a),
        _ => 1,
    }
}

/// An integer, number or string literal.
pub open spec fn is_literal(ir: Ir) -> bool {
    ir is Int || ir is Float || ir is Str
}

/// `ir` with every free occurrence of `var` replaced by `rep`. A lambda
/// binding `var` itself stops the replacement; nothing is renamed.
pub open spec fn substituted(ir: Ir, var: Seq<char>, rep: Ir) -> Ir
    decreases ir,
{
    match ir {
        Ir::Var(v) => if v@ == var {
            rep
        } else {
            ir
        },
        Ir::Lam { param, body } => if param@ == var {
            ir
        } else {
            Ir::Lam { param, body: Box::new(substituted(*body, var, rep)) }
        },
        Ir::App(f, a) => Ir::App(
            Box::new(substituted(*f, var, rep)),
            Box::new(substituted(*a, var, rep)),
        ),
        _ => ir,
    }
}

/// How many times `var` occurs free in `ir`.
pub open spec fn uses(ir: Ir, var: Seq<char>) -> nat
    decreases ir,
{
    match ir {
        Ir::Var(v) => if v@ == var {
            1
        } else {
            0
        },
        Ir::Lam { param, body } => if param@ == var {
            0
        } else {
            uses(*body, var)
        },
        Ir::App(f, a) => uses(*f, var) + uses(*a, var),
        _ => 0,
    }
}

/// Substituting for a variable that does not occur free changes nothing.
pub proof fn lemma_unused_unchanged(ir: Ir, var: Seq<char>, rep: Ir)
    requires
        uses(ir, var) == 0,
    ensures
        substituted(ir, var, rep) == ir,
    decreases ir,
{
    match ir {
        Ir::Lam { param, body } => {
            if param@ != var {
                lemma_unused_unchanged(*body, var, rep);
            }
        },
        Ir::App(f, a) => {
            lemma_unused_unchanged(*f, var, rep);
            lemma_unused_unchanged(*a, var, rep);
        },
        _ => {},
    }
}

/// Substituting a one-node term keeps the size.
pub proof fn lemma_substituted_size_leaf(ir: Ir, var: Seq<char>, rep: Ir)
    requires
        size(rep) == 1,
    ensures
        size(substituted(ir, var, rep)) == size(ir),
    decreases ir,
{
    match ir {
        Ir::Lam { param, body } => {
            if param@ != var {
                lemma_substituted_size_leaf(*body, var, rep);
            }
        },
        Ir::App(f, a) => {
            lemma_substituted_size_leaf(*f, var, rep);
            lemma_substituted_size_leaf(*a, var, rep);
        },
        _ => {},
    }
}

/// Substituting for a variable used once trades one node for the term.
pub proof fn lemma_substituted_size_single(ir: Ir, var: Seq<char>, rep: Ir)
    requires
        uses(ir, var) == 1,
    ensures
        size(substituted(ir, var, rep)) + 1 == size(ir) + size(rep),
    decreases ir,
{
    match ir {
        Ir::Lam { param, body } => {
            lemma_substituted_size_single(*body, var, rep);
        },
        Ir::App(f, a) => {
            if uses(*f, var) == 1 {
                lemma_substituted_size_single(*f, var, rep);
                lemma_unused_unchanged(*a, var, rep);
            } else {
                lemma_unused_unchanged(*f, var, rep);
                lemma_substituted_size_single(*a, var, rep);
            }
        },
        _ => {},
    }
}

impl Ir {
    /// A copy of the term.
    pub fn duplicate(&self) -> (r: Ir)
        ensures
            r == *self,
        decreases self,
    {
        match self {
            Ir::Int(n) => Ir::Int(*n),
            Ir::Float(t) => Ir::Float(t.clone()),
            Ir::Str(s) => Ir::Str(s.clone()),
            Ir::Var(v) => Ir::Var(v.clone()),
            Ir::Lam { param, body } => Ir::Lam { param: param.clone(), body: Box::new(body.duplicate()) },
            Ir::App(f, a) => Ir::App(Box::new(f.duplicate()), Box::new(a.duplicate())),
        }
    }

    /// Whether the term is an integer, number or string literal.
    pub fn is_literal(&self) -> (b: bool)
        ensures
            b == is_literal(*self),
    {
        match self {
            Ir::Int(_) | Ir::Float(_) | Ir::Str(_) => true,
            _ => false,
        }
    }
}

impl IrDef {
    /// A copy of the definition.
    pub fn duplicate(&self) -> (r: IrDef)
        ensures
            r == *self,
    {
        match self {
            IrDef::Bind { name, expr } => IrDef::Bind { name: name.clone(), expr: expr.duplicate() },
            IrDef::Infix { op, strength, func } => IrDef::Infix {
                op: op.clone(),
                strength: *strength,
                func: func.duplicate(),
            },
            IrDef::Native { name, arity } => IrDef::Native { name: name.clone(), arity: *arity },
        }
    }
}

fn subst_in(ir: &Ir, var: &String, replacement: &Ir) -> (r: Ir)
    ensures
        r == substituted(*ir, var@, *replacement),
    decreases ir,
{
    match ir {
        Ir::Var(v) => {
            if str_eq(v, var) {
                replacement.duplicate()
            } else {
                ir.duplicate()
            }
        },
        Ir::Lam { param, body } => {
            if str_eq(param, var) {
                ir.duplicate()
            } else {
                Ir::Lam { param: param.clone(), body: Box::new(subst_in(body, var, replacement)) }
            }
        },
        Ir::App(f, a) => Ir::App(
            Box::new(subst_in(f, var, replacement)),
            Box::new(subst_in(a, var, replacement)),
        ),
        _ => ir.duplicate(),
    }
}

/// Substitute `var` ↦ `replacement` in `ir`. A lambda that binds `var`
/// shadows it, and the substitution stops there.
pub fn subst(ir: &Ir, var: &str, replacement: &Ir) -> (r: Ir)
    ensures
        r == substituted(*ir, var@, *replacement),
{
    subst_in(ir, &owned(var), replacement)
}

/// Constant folding: bottom up, an application of a lambda to a literal is
/// replaced by the lambda's body with the literal substituted, and folded
/// again. The size test always holds (`lemma_folded_size`); it makes the
/// definition's termination evident.
pub open spec fn folded(ir: Ir) -> Ir
    decreases size(ir),
{
    match ir {
        Ir::Lam { param, body } => Ir::Lam { param, body: Box::new(folded(*body)) },
        Ir::App(f, a) => {
            let ff = folded(*f);
            let fa = folded(*a);
            match ff {
                Ir::Lam { param, body } => {
                    let reduced = substituted(*body, param@, fa);
                    if is_literal(fa) && size(reduced) < size(ir) {
                        folded(reduced)
                    } else {
                        Ir::App(Box::new(ff), Box::new(fa))
                    }
                },
                _ => Ir::App(Box::new(ff), Box::new(fa)),
            }
        },
        _ => ir,
    }
}

/// Folding never makes a term larger.
pub proof fn lemma_folded_size(ir: Ir)
    ensures
        size(folded(ir)) <= size(ir),
    decreases size(ir),
{
    match ir {
        Ir::Lam { param, body } => {
            lemma_folded_size(*body);
        },
        Ir::App(f, a) => {
            lemma_folded_size(*f);
            lemma_folded_size(*a);
            let ff = folded(*f);
            let fa = folded(*a);
            match ff {
                Ir::Lam { param, body } => {
                    let reduced = substituted(*body, param@, fa);
                    if is_literal(fa) && size(reduced) < size(ir) {
                        lemma_folded_size(reduced);
                    }
                },
                _ => {},
            }
        },
        _ => {},
    }
}

/// Fold constant sub-expressions: `(λx. body) lit` becomes `body[x ↦ lit]`,
/// folded again, everywhere in the term.
pub fn fold_constants(ir: &Ir) -> (r: Ir)
    ensures
        r == folded(*ir),
    decreases size(*ir),
{
    match ir {
        Ir::Lam { param, body } => Ir::Lam { param: param.clone(), body: Box::new(fold_constants(body)) },
        Ir::App(f0, a0) => {
            let f = fold_constants(f0);
            let a = fold_constants(a0);
            proof {
                lemma_folded_size(**f0);
                lemma_folded_size(**a0);
            }
            if let Ir::Lam { param, body } = &f {
                if a.is_literal() {
                    let reduced = subst(body, param.as_str(), &a);
                    proof {
                        lemma_substituted_size_leaf(**body, param@, a);
                        assert(size(reduced) < size(*ir));
                    }
                    return fold_constants(&reduced);
                }
            }
            Ir::App(Box::new(f), Box::new(a))
        },
        _ => ir.duplicate(),
    }
}

/// The text of a term: literals as written (strings in double quotes),
/// `(\x => body)` for a lambda and `(f a)` for an application.
pub open spec fn ir_text(ir: Ir) -> Seq<char>
    decreases ir,
{
    match ir {
        Ir::Int(n) => int_text(n as int),
        Ir::Float(t) => t@,
        Ir::Str(s) => "\""@ + s@ + "\""@,
        Ir::Var(v) => v@,
        Ir::Lam { param, body } => "(\\"@ + param@ + " => "@ + ir_text(*body) + ")"@,
        Ir::App(f, a) => "("@ + ir_text(*f) + " "@ + ir_text(*a) + ")"@,
    }
}

/// The text of a definition.
pub open spec fn def_text(d: IrDef) -> Seq<char> {
    match d {
        IrDef::Bind { name, expr } => "define "@ + name@ + " = "@ + ir_text(expr),
        IrDef::Infix { op, strength, func } => "infix "@ + op@ + " "@ + int_text(strength as int) + " = "@
            + ir_text(func),
        IrDef::Native { name, arity } => "native "@ + name@ + " (arity="@ + int_text(arity as int) + ")"@,
    }
}

/// The definitions' texts, one per line.
pub open spec fn dump_text(defs: Seq<IrDef>) -> Seq<char>
    decreases defs.len(),
{
    if defs.len() == 0 {
        Seq::empty()
    } else if defs.len() == 1 {
        def_text(defs[0])
    } else {
        dump_text(defs.drop_last()) + "\n"@ + def_text(defs.last())
    }
}

impl Ir {
    /// The term's text.
    pub fn text(&self) -> (r: String)
        ensures
            r@ == ir_text(*self),
        decreases self,
    {
        match self {
            Ir::Int(n) => i64_to_text(*n),
            Ir::Float(t) => t.clone(),
            Ir::Str(s) => concat(&concat(&owned("\""), s.as_str()), "\""),
            Ir::Var(v) => v.clone(),
            Ir::Lam { param, body } => {
                let b = body.text();
                concat(&concat(&concat(&concat(&owned("(\\"), param.as_str()), " => "), b.as_str()), ")")
            },
            Ir::App(f, a) => {
                let tf = f.text();
                let ta = a.text();
                concat(&concat(&concat(&concat(&owned("("), tf.as_str()), " "), ta.as_str()), ")")
            },
        }
    }
}

impl IrDef {
    /// The definition's text.
    pub fn text(&self) -> (r: String)
        ensures
            r@ == def_text(*self),
    {
        match self {
            IrDef::Bind { name, expr } => {
                let e = expr.text();
                concat(&concat(&concat(&owned("define "), name.as_str()), " = "), e.as_str())
            },
            IrDef::Infix { op, strength, func } => {
                let s = i64_to_text(*strength as i64);
                let e = func.text();
                concat(
                    &concat(&concat(&concat(&concat(&owned("infix "), op.as_str()), " "), s.as_str()), " = "),
                    e.as_str(),
                )
            },
            IrDef::Native { name, arity } => {
                let s = i64_to_text(*arity as i64);
                concat(&concat(&concat(&concat(&owned("native "), name.as_str()), " (arity="), s.as_str()), ")")
            },
        }
    }
}

/// Pretty-print a lowered program, one definition per line.
pub fn dump(defs: &[IrDef]) -> (r: String)
    ensures
        r@ == dump_text(defs@),
{
    let mut out = owned("");
    proof {
        reveal_strlit("");
        assert(defs@.take(0) =~= Seq::<IrDef>::empty());
    }
    let mut i: usize = 0;
    while i < defs.len()
        invariant
            i <= defs@.len(),
            out@ == dump_text(defs@.take(i as int)),
        decreases defs@.len() - i,
    {
        let t = defs[i].text();
        proof {
            assert(defs@.take(i as int + 1).drop_last() =~= defs@.take(i as int));
        }
        if i == 0 {
            out = t;
        } else {
            out = concat(&concat(&out, "\n"), t.as_str());
        }
        i = i + 1;
    }
    proof {
        assert(defs@.take(defs@.len() as int) =~= defs@);
    }
    out
}

/// The term a sugar-free expression stands for, node for node.
pub open spec fn lowered(e: Expr) -> Ir
    decreases e,
{
    match e {
        Expr::Int(n) => Ir::Int(n),
        Expr::Float(t) => Ir::Float(t),
        Expr::Str(s) => Ir::Str(s),
        Expr::Var(v) => Ir::Var(v),
        Expr::Lambda { param, body } => Ir::Lam { param, body: Box::new(lowered(*body)) },
        Expr::Apply(f, a) => Ir::App(Box::new(lowered(*f)), Box::new(lowered(*a))),
        _ => Ir::Int(0),
    }
}

/// Lower a desugared expression: the core has the same six node kinds.
pub fn lower(expr: &Expr) -> (r: Ir)
    requires
        is_core(*expr),
    ensures
        r == lowered(*expr),
    decreases expr,
{
    match expr {
        Expr::Int(n) => Ir::Int(*n),
        Expr::Float(t) => Ir::Float(t.clone()),
        Expr::Str(s) => Ir::Str(s.clone()),
        Expr::Var(v) => Ir::Var(v.clone()),
        Expr::Lambda { param, body } => Ir::Lam { param: param.clone(), body: Box::new(lower(body)) },
        Expr::Apply(f, a) => Ir::App(Box::new(lower(f)), Box::new(lower(a))),
        _ => Ir::Int(0),
    }
}

/// Whether a statement can be lowered: no import, sugar-free bodies, and
/// a native's arity that fits in `u32`.
pub open spec fn lowerable(s: Stmt) -> bool {
    match s {
        Stmt::Import { .. } => false,
        Stmt::Define { expr, .. } => is_core(expr),
        Stmt::Infix { func, .. } => is_core(func),
        Stmt::Native { type_sig, .. } => type_arity(type_sig) <= u32::MAX,
    }
}

/// The definition a statement lowers to.
pub open spec fn lowered_def(s: Stmt) -> IrDef {
    match s {
        Stmt::Define { name, expr, .. } => IrDef::Bind { name, expr: lowered(expr) },
        Stmt::Infix { op, strength, func } => IrDef::Infix { op, strength, func: lowered(func) },
        Stmt::Native { name, type_sig } => IrDef::Native { name, arity: type_arity(type_sig) as u32 },
        Stmt::Import { .. } => IrDef::Native { name: arbitrary(), arity: 0 },
    }
}

/// Lower a desugared program, one definition per statement.
pub fn lower_program(stmts: &[Stmt]) -> (r: Vec<IrDef>)
    requires
        forall|i: int| 0 <= i < stmts@.len() ==> lowerable(#[trigger] stmts@[i]),
    ensures
        r@ == stmts@.map_values(|s: Stmt| lowered_def(s)),
{
    let mut out: Vec<IrDef> = Vec::new();
    let mut i: usize = 0;
    while i < stmts.len()
        invariant
            i <= stmts@.len(),
            forall|j: int| 0 <= j < stmts@.len() ==> lowerable(#[trigger] stmts@[j]),
            out@ == stmts@.map_values(|s: Stmt| lowered_def(s)).take(i as int),
        decreases stmts@.len() - i,
    {
        let d = match &stmts[i] {
            Stmt::Define { name, expr, .. } => IrDef::Bind { name: name.clone(), expr: lower(expr) },
            Stmt::Infix { op, strength, func } => IrDef::Infix { op: op.clone(), strength: *strength, func: lower(func) },
            Stmt::Native { name, type_sig } => IrDef::Native { name: name.clone(), arity: type_sig.arity() },
            Stmt::Import { .. } => IrDef::Native { name: owned(""), arity: 0 },
        };
        out.push(d);
        proof {
            assert(out@ =~= stmts@.map_values(|s: Stmt| lowered_def(s)).take(i + 1));
        }
        i = i + 1;
    }
    proof {
        assert(out@ =~= stmts@.map_values(|s: Stmt| lowered_def(s)));
    }
    out
}

} // verus!
