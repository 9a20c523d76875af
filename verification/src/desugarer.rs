//! Removal of surface syntax: multi-parameter lambdas become nested
//! one-parameter functions, infix calls become two applications of the
//! operator's binding, operator references become variables and groups
//! disappear.

use vstd::prelude::*;

use crate::diagnostics::{Diagnostics, Span};
use crate::parser::{Expression, ExpressionKind, Node, Statement, StatementKind};

verus! {

#[derive(Debug)]
pub struct Param {
    pub span: Span,
    pub name: String,
}

#[derive(Debug)]
pub enum DesugarValueKind {
    Variable { name: String },
    Function { param: Param, body: Box<DesugarValue> },
    FunctionCall { callee: Box<DesugarValue>, arg: Box<DesugarValue> },
    String(String),
    Int(i32),
}

#[derive(Debug)]
pub struct DesugarValue {
    pub span: Span,
    pub kind: DesugarValueKind,
}

#[derive(Debug)]
pub struct DesugarBinding {
    pub name: String,
    pub value: Box<DesugarValue>,
    pub scheme: Vec<DesugarBinding>,
}

/// `\p -> body`, spanning from `start` to the end of the parameter.
pub open spec fn lambda_of(p: Node<String>, body: DesugarValue, start: usize) -> DesugarValue {
    DesugarValue {
        span: Span { start, end: p.span.end },
        kind: DesugarValueKind::Function {
            param: Param { span: p.span, name: p.kind },
            body: Box::new(body),
        },
    }
}

/// `body` abstracted over `params[0..n]`, the first parameter outermost.
pub open spec fn curried(params: Seq<Node<String>>, n: int, body: DesugarValue, start: usize) -> DesugarValue
    decreases n,
{
    if n <= 0 || n > params.len() {
        body
    } else {
        curried(params, n - 1, lambda_of(params[n - 1], body, start), start)
    }
}

/// The core term an expression stands for.
pub open spec fn desugared_expr(e: Expression) -> DesugarValue
    decreases e,
{
    match e.kind {
        ExpressionKind::Variable { name } => DesugarValue {
            span: e.span,
            kind: DesugarValueKind::Variable { name },
        },
        ExpressionKind::Function { params, body } => curried(
            params@,
            params@.len() as int,
            desugared_expr(*body),
            e.span.start,
        ),
        ExpressionKind::Infix { operator } => DesugarValue {
            span: e.span,
            kind: DesugarValueKind::Variable { name: operator },
        },
        ExpressionKind::FunctionCall { callee, arg } => DesugarValue {
            span: e.span,
            kind: DesugarValueKind::FunctionCall {
                callee: Box::new(desugared_expr(*callee)),
                arg: Box::new(desugared_expr(*arg)),
            },
        },
        ExpressionKind::InfixCall { operator, lhs, rhs } => DesugarValue {
            span: e.span,
            kind: DesugarValueKind::FunctionCall {
                callee: Box::new(
                    DesugarValue {
                        span: Span { start: operator.span.start, end: lhs.span.end },
                        kind: DesugarValueKind::FunctionCall {
                            callee: Box::new(
                                DesugarValue {
                                    span: operator.span,
                                    kind: DesugarValueKind::Variable { name: operator.kind },
                                },
                            ),
                            arg: Box::new(desugared_expr(*lhs)),
                        },
                    },
                ),
                arg: Box::new(desugared_expr(*rhs)),
            },
        },
        ExpressionKind::String(text) => DesugarValue {
            span: e.span,
            kind: DesugarValueKind::String(text),
        },
        ExpressionKind::Int(n) => DesugarValue { span: e.span, kind: DesugarValueKind::Int(n) },
        ExpressionKind::Group(inner) => desugared_expr(*inner),
    }
}

/// The name a statement binds.
pub open spec fn bound_name(st: Statement) -> String {
    match st.kind {
        StatementKind::Variable { name, .. } => name,
        StatementKind::Function { name, .. } => name,
        StatementKind::Infix { operator, .. } => operator.kind,
    }
}

/// The value a statement binds (without its `let` block).
pub open spec fn bound_value(st: Statement) -> DesugarValue {
    match st.kind {
        StatementKind::Variable { value, .. } => desugared_expr(*value),
        StatementKind::Function { params, body, .. } => curried(
            params@,
            params@.len() as int,
            desugared_expr(*body),
            st.span.start,
        ),
        StatementKind::Infix { params, body, .. } => curried(
            params@,
            params@.len() as int,
            desugared_expr(*body),
            st.span.start,
        ),
    }
}

/// `b` is the binding the statement `st` stands for.
pub open spec fn desugars_to(b: DesugarBinding, st: Statement) -> bool
    decreases st,
{
    &&& b.name == bound_name(st)
    &&& *b.value == bound_value(st)
    &&& b.scheme@.len() == st.scheme@.len()
    &&& forall|i: int|
        0 <= i < st.scheme@.len() ==> desugars_to(#[trigger] b.scheme@[i], st.scheme@[i])
}

/// `bs` are the bindings the statements `ss` stand for, in order.
pub open spec fn all_desugar_to(bs: Seq<DesugarBinding>, ss: Seq<Statement>) -> bool {
    &&& bs.len() == ss.len()
    &&& forall|i: int| 0 <= i < ss.len() ==> desugars_to(#[trigger] bs[i], ss[i])
}

proof fn lemma_curried_step(params: Seq<Node<String>>, n: int, body: DesugarValue, start: usize)
    requires
        0 < n <= params.len(),
    ensures
        curried(params, n, body, start) == curried(
            params,
            n - 1,
            lambda_of(params[n - 1], body, start),
            start,
        ),
{
}

#[derive(Default)]
pub struct Desugarer {}

fn clone_node(n: &Node<String>) -> (r: Node<String>)
    ensures
        r == *n,
{
    Node { span: n.span, kind: n.kind.clone() }
}

/// `body` abstracted over all of `params`, the first one outermost.
fn curry(params: &Vec<Node<String>>, body: DesugarValue, start: usize) -> (v: DesugarValue)
    ensures
        v == curried(params@, params@.len() as int, body, start),
{
    let mut value = body;
    let mut i = params.len();
    while i > 0
        invariant
            i <= params@.len(),
            curried(params@, params@.len() as int, body, start) == curried(
                params@,
                i as int,
                value,
                start,
            ),
        decreases i,
    {
        let p = &params[i - 1];
        let ghost before = value;
        value = DesugarValue {
            span: Span::new(start, p.span.end),
            kind: DesugarValueKind::Function {
                param: Param { span: p.span, name: p.kind.clone() },
                body: Box::new(value),
            },
        };
        proof {
            assert(value == lambda_of(params@[i - 1], before, start));
        }
        i = i - 1;
    }
    value
}

impl Desugarer {
    pub fn new() -> (d: Desugarer) {
        Desugarer {  }
    }

    pub fn desugar_expression(&mut self, expr: &Expression) -> (r: Result<DesugarValue, Diagnostics>)
        ensures
            r is Ok,
            r->Ok_0 == desugared_expr(*expr),
        decreases expr,
    {
        match &expr.kind {
            ExpressionKind::Variable { name } => Ok(
                DesugarValue {
                    span: expr.span,
                    kind: DesugarValueKind::Variable { name: name.clone() },
                },
            ),
            ExpressionKind::Function { params, body } => {
                let value = self.desugar_expression(body)?;
                Ok(curry(params, value, expr.span.start))
            },
            ExpressionKind::Infix { operator } => Ok(
                DesugarValue {
                    span: expr.span,
                    kind: DesugarValueKind::Variable { name: operator.clone() },
                },
            ),
            ExpressionKind::FunctionCall { callee, arg } => {
                let c = self.desugar_expression(callee)?;
                let a = self.desugar_expression(arg)?;
                Ok(
                    DesugarValue {
                        span: expr.span,
                        kind: DesugarValueKind::FunctionCall { callee: Box::new(c), arg: Box::new(a) },
                    },
                )
            },
            ExpressionKind::InfixCall { operator, lhs, rhs } => {
                let l = self.desugar_expression(lhs)?;
                let r = self.desugar_expression(rhs)?;
                let op = DesugarValue {
                    span: operator.span,
                    kind: DesugarValueKind::Variable { name: operator.kind.clone() },
                };
                let partial = DesugarValue {
                    span: Span::new(operator.span.start, lhs.span.end),
                    kind: DesugarValueKind::FunctionCall { callee: Box::new(op), arg: Box::new(l) },
                };
                Ok(
                    DesugarValue {
                        span: expr.span,
                        kind: DesugarValueKind::FunctionCall {
                            callee: Box::new(partial),
                            arg: Box::new(r),
                        },
                    },
                )
            },
            ExpressionKind::String(value) => Ok(
                DesugarValue { span: expr.span, kind: DesugarValueKind::String(value.clone()) },
            ),
            ExpressionKind::Int(value) => Ok(
                DesugarValue { span: expr.span, kind: DesugarValueKind::Int(*value) },
            ),
            ExpressionKind::Group(inner) => self.desugar_expression(inner),
        }
    }

    fn desugar_statement_ref(&mut self, stat: &Statement) -> (r: Result<DesugarBinding, Diagnostics>)
        ensures
            r is Ok,
            desugars_to(r->Ok_0, *stat),
        decreases stat,
    {
        let mut scheme: Vec<DesugarBinding> = Vec::new();
        let mut k: usize = 0;
        while k < stat.scheme.len()
            invariant
                k <= stat.scheme@.len(),
                all_desugar_to(scheme@, stat.scheme@.subrange(0, k as int)),
            decreases stat.scheme@.len() - k,
        {
            proof {
                assert(decreases_to!(stat => stat.scheme@[k as int]));
            }
            let b = self.desugar_statement_ref(&stat.scheme[k])?;
            scheme.push(b);
            k = k + 1;
        }
        proof {
            assert(stat.scheme@.subrange(0, stat.scheme@.len() as int) =~= stat.scheme@);
            assert forall|i: int| 0 <= i < stat.scheme@.len() implies desugars_to(
                #[trigger] scheme@[i],
                stat.scheme@[i],
            ) by {
                assert(stat.scheme@.subrange(0, stat.scheme@.len() as int)[i] == stat.scheme@[i]);
            }
        }
        match &stat.kind {
            StatementKind::Variable { name, value } => {
                let v = self.desugar_expression(value)?;
                Ok(DesugarBinding { name: name.clone(), value: Box::new(v), scheme })
            },
            StatementKind::Function { name, params, body } => {
                let b = self.desugar_expression(body)?;
                let v = curry(params, b, stat.span.start);
                Ok(DesugarBinding { name: name.clone(), value: Box::new(v), scheme })
            },
            StatementKind::Infix { operator, params, body, .. } => {
                let b = self.desugar_expression(body)?;
                let v = curry(params, b, stat.span.start);
                Ok(DesugarBinding { name: operator.kind.clone(), value: Box::new(v), scheme })
            },
        }
    }

    pub fn desugar_statement(&mut self, stat: Statement) -> (r: Result<DesugarBinding, Diagnostics>)
        ensures
            r is Ok,
            desugars_to(r->Ok_0, stat),
    {
        self.desugar_statement_ref(&stat)
    }

    pub fn desugar(&mut self, stats: Vec<Statement>) -> (r: Result<Vec<DesugarBinding>, Diagnostics>)
        ensures
            r is Ok,
            all_desugar_to(r->Ok_0@, stats@),
    {
        desugar_all(self, &stats)
    }
}

fn desugar_all(d: &mut Desugarer, stats: &Vec<Statement>) -> (r: Result<Vec<DesugarBinding>, Diagnostics>)
    ensures
        r is Ok,
        all_desugar_to(r->Ok_0@, stats@),
{
    let mut bindings: Vec<DesugarBinding> = Vec::new();
    let mut k: usize = 0;
    while k < stats.len()
        invariant
            k <= stats@.len(),
            all_desugar_to(bindings@, stats@.subrange(0, k as int)),
        decreases stats@.len() - k,
    {
        let b = d.desugar_statement_ref(&stats[k])?;
        bindings.push(b);
        k = k + 1;
    }
    proof {
        assert(stats@.subrange(0, stats@.len() as int) =~= stats@);
    }
    Ok(bindings)
}

/// All statements of a file, desugared in order.
pub fn desugar(stats: Vec<Statement>) -> (r: Result<Vec<DesugarBinding>, Diagnostics>)
    ensures
        r is Ok,
        all_desugar_to(r->Ok_0@, stats@),
{
    let mut d = Desugarer::new();
    d.desugar(stats)
}

} // verus!
