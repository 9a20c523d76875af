//! Recursive-descent parser of the definition language, with Pratt parsing
//! for infix operators.
//!
//! ```text
//! program ::= stmt* EOF
//! stmt    ::= "import" STR [ "(" IDENT ("," IDENT)* ")" ]
//!           | "define" IDENT [":" type] "=" expr
//!           | "infix" OP INT "=" expr
//!           | "native" IDENT ":" type
//! type    ::= type_atom ["->" type]          (right-associative)
//! expr    ::= pratt (">>=" pratt)*           (left-associative)
//! pratt   ::= bind (OP bind)*                (by declared binding power)
//! bind    ::= "var" IDENT "<-" pratt | apply
//! apply   ::= atom atom*                     (left-associative)
//! atom    ::= INT | FLOAT | STR | IDENT | "(" expr ")" | "\" IDENT "->" expr
//! ```
//!
//! An `infix` statement declares its operator's binding power for the
//! statements that follow; an operator of power `bp` takes a right operand
//! of power at least `bp + 1`, so operators associate to the left.

use vstd::prelude::*;

use crate::ast::{Expr, Stmt};
use crate::lexer::{lex, spanned_view, tokenize, LexOutcome, Spanned, SpannedModel, Token, TokenModel};
use crate::text::{concat, owned, str_eq, usize_to_decimal};
use crate::types::{ImportSpec, Type};

verus! {

/// A parse error at a line and column.
#[derive(Debug)]
pub struct ParseError {
    pub line: usize,
    pub col: usize,
    pub msg: String,
}

/// Binding powers of the declared operators; a later declaration of the
/// same operator replaces an earlier one.
#[derive(Debug)]
pub struct OpTable {
    entries: Vec<(String, u32)>,
}

/// The binding power of `op` in a list of declarations, the last one
/// winning.
pub open spec fn power_of(entries: Seq<(String, u32)>, op: Seq<char>) -> Option<u32>
    decreases entries.len(),
{
    if entries.len() == 0 {
        None
    } else if entries.last().0@ == op {
        Some(entries.last().1)
    } else {
        power_of(entries.drop_last(), op)
    }
}

impl OpTable {
    pub closed spec fn entries_seq(&self) -> Seq<(String, u32)> {
        self.entries@
    }

    /// The binding power declared for `op`.
    pub open spec fn power(&self, op: Seq<char>) -> Option<u32> {
        power_of(self.entries_seq(), op)
    }

    pub fn new() -> (t: OpTable)
        ensures
            forall|op: Seq<char>| t.power(op) is None,
            t.entries_seq() == Seq::<(String, u32)>::empty(),
    {
        OpTable { entries: Vec::new() }
    }

    /// The binding power declared for `op`, if any.
    pub fn get(&self, op: &str) -> (r: Option<u32>)
        ensures
            r == self.power(op@),
    {
        let key = owned(op);
        let mut i: usize = self.entries.len();
        proof {
            assert(self.entries@.take(i as int) =~= self.entries@);
        }
        while i > 0
            invariant
                i <= self.entries@.len(),
                key@ == op@,
                power_of(self.entries@, op@) == power_of(self.entries@.take(i as int), op@),
            decreases i,
        {
            proof {
                assert(self.entries@.take(i as int).drop_last() =~= self.entries@.take(i - 1));
            }
            if str_eq(&self.entries[i - 1].0, &key) {
                return Some(self.entries[i - 1].1);
            }
            i = i - 1;
        }
        None
    }

    /// Declare `op` with binding power `bp`.
    pub fn insert(&mut self, op: String, bp: u32)
        ensures
            final(self).power(op@) == Some(bp),
            forall|o: Seq<char>| o != op@ ==> final(self).power(o) == old(self).power(o),
            final(self).entries_seq() == old(self).entries_seq().push((op, bp)),
    {
        let ghost k = op@;
        self.entries.push((op, bp));
        proof {
            assert(self.entries@.drop_last() =~= old(self).entries@);
        }
    }
}

/// The parser's state: the tokens, the position of the next one, and the
/// binding powers declared so far.
pub struct Parser {
    tokens: Vec<Spanned>,
    pos: usize,
    binding_pow: OpTable,
}

/// A type, with its names as character sequences.
pub enum TypeM {
    Var(Seq<char>),
    Con(Seq<char>),
    Fun(Box<TypeM>, Box<TypeM>),
}

/// An expression, with its texts as character sequences.
pub enum ExprM {
    Int(int),
    Float(Seq<char>),
    Str(Seq<char>),
    Var(Seq<char>),
    Lambda(Seq<char>, Box<ExprM>),
    Apply(Box<ExprM>, Box<ExprM>),
    Infix(Box<ExprM>, Seq<char>, Box<ExprM>),
    Bind(Seq<char>, Box<ExprM>),
    Chain(Box<ExprM>, Box<ExprM>),
}

/// A statement, with its texts as character sequences; an import lists
/// the names it takes, if it names them.
pub enum StmtM {
    Import(Seq<char>, Option<Seq<Seq<char>>>),
    Define(Seq<char>, Option<TypeM>, ExprM),
    Infix(Seq<char>, u32, ExprM),
    Native(Seq<char>, TypeM),
}

pub open spec fn type_model(t: Type) -> TypeM
    decreases t,
{
    match t {
        Type::TVar(v) => TypeM::Var(v@),
        Type::TCon(c) => TypeM::Con(c@),
        Type::Fun(a, b) => TypeM::Fun(Box::new(type_model(*a)), Box::new(type_model(*b))),
    }
}

pub open spec fn expr_model(e: Expr) -> ExprM
    decreases e,
{
    match e {
        Expr::Int(n) => ExprM::Int(n as int),
        Expr::Float(t) => ExprM::Float(t@),
        Expr::Str(t) => ExprM::Str(t@),
        Expr::Var(t) => ExprM::Var(t@),
        Expr::Lambda { param, body } => ExprM::Lambda(param@, Box::new(expr_model(*body))),
        Expr::Apply(f, a) => ExprM::Apply(Box::new(expr_model(*f)), Box::new(expr_model(*a))),
        Expr::Infix(l, op, r) => ExprM::Infix(Box::new(expr_model(*l)), op@, Box::new(expr_model(*r))),
        Expr::Bind { name, value } => ExprM::Bind(name@, Box::new(expr_model(*value))),
        Expr::Chain(a, b) => ExprM::Chain(Box::new(expr_model(*a)), Box::new(expr_model(*b))),
    }
}

pub open spec fn string_views(v: Seq<String>) -> Seq<Seq<char>> {
    v.map_values(|s: String| s@)
}

pub open spec fn stmt_model(s: Stmt) -> StmtM {
    match s {
        Stmt::Import { path, spec } => StmtM::Import(
            path@,
            match spec {
                ImportSpec::All => None,
                ImportSpec::Only(names) => Some(string_views(names@)),
            },
        ),
        Stmt::Define { name, type_sig, expr } => StmtM::Define(
            name@,
            match type_sig {
                Some(t) => Some(type_model(t)),
                None => None,
            },
            expr_model(expr),
        ),
        Stmt::Infix { op, strength, func } => StmtM::Infix(op@, strength, expr_model(func)),
        Stmt::Native { name, type_sig } => StmtM::Native(name@, type_model(type_sig)),
    }
}

pub open spec fn stmts_model(v: Seq<Stmt>) -> Seq<StmtM> {
    v.map_values(|s: Stmt| stmt_model(s))
}

/// Operator declarations, as character sequences, in order.
pub open spec fn decls_model(entries: Seq<(String, u32)>) -> Seq<(Seq<char>, u32)> {
    entries.map_values(|e: (String, u32)| (e.0@, e.1))
}

/// The binding power of `op` among `decls`, the last declaration winning.
pub open spec fn power_in(decls: Seq<(Seq<char>, u32)>, op: Seq<char>) -> Option<u32>
    decreases decls.len(),
{
    if decls.len() == 0 {
        None
    } else if decls.last().0 == op {
        Some(decls.last().1)
    } else {
        power_in(decls.drop_last(), op)
    }
}

pub proof fn lemma_power_model(entries: Seq<(String, u32)>, op: Seq<char>)
    ensures
        power_of(entries, op) == power_in(decls_model(entries), op),
    decreases entries.len(),
{
    if entries.len() > 0 {
        assert(decls_model(entries).drop_last() =~= decls_model(entries.drop_last()));
        lemma_power_model(entries.drop_last(), op);
    }
}

/// The token at `i`.
pub open spec fn tok(ts: Seq<SpannedModel>, i: int) -> TokenModel {
    ts[i].token
}

pub open spec fn starts_lower_seq(s: Seq<char>) -> bool {
    s.len() > 0 && 'a' <= s[0] <= 'z'
}

/// A type atom from `i`, and the position after it.
pub open spec fn spec_type_atom(ts: Seq<SpannedModel>, i: int) -> Option<(TypeM, int)>
    decreases ts.len() - i, 0int,
{
    if i < 0 || i >= ts.len() {
        None
    } else {
        match tok(ts, i) {
            TokenModel::Ident(s) => Some((if starts_lower_seq(s) { TypeM::Var(s) } else { TypeM::Con(s) }, i + 1)),
            TokenModel::LParen => match spec_type(ts, i + 1) {
                Some((t, j)) => if 0 <= j < ts.len() && tok(ts, j) is RParen {
                    Some((t, j + 1))
                } else {
                    None
                },
                None => None,
            },
            _ => None,
        }
    }
}

/// A type from `i`: arrows associate to the right.
pub open spec fn spec_type(ts: Seq<SpannedModel>, i: int) -> Option<(TypeM, int)>
    decreases ts.len() - i, 1int,
{
    if i < 0 || i >= ts.len() {
        None
    } else {
        match spec_type_atom(ts, i) {
            Some((a, j)) => if i < j < ts.len() && tok(ts, j) is Arrow {
                match spec_type(ts, j + 1) {
                    Some((r, k)) => Some((TypeM::Fun(Box::new(a), Box::new(r)), k)),
                    None => None,
                }
            } else {
                Some((a, j))
            },
            None => None,
        }
    }
}

/// Whether the token can begin an atom.
pub open spec fn begins_atom(t: TokenModel) -> bool {
    t is Int || t is Float || t is Str || t is Ident || t is LParen || t is Backslash
}

/// An atom from `i`.
pub open spec fn spec_atom(ts: Seq<SpannedModel>, i: int, d: Seq<(Seq<char>, u32)>) -> Option<(ExprM, int)>
    decreases ts.len() - i, 0int,
{
    if i < 0 || i >= ts.len() {
        None
    } else {
        match tok(ts, i) {
            TokenModel::Int(n) => Some((ExprM::Int(n), i + 1)),
            TokenModel::Float(t) => Some((ExprM::Float(t), i + 1)),
            TokenModel::Str(t) => Some((ExprM::Str(t), i + 1)),
            TokenModel::Ident(t) => Some((ExprM::Var(t), i + 1)),
            TokenModel::LParen => match spec_expr(ts, i + 1, d) {
                Some((e, j)) => if 0 <= j < ts.len() && tok(ts, j) is RParen {
                    Some((e, j + 1))
                } else {
                    None
                },
                None => None,
            },
            TokenModel::Backslash => if i + 2 < ts.len() && tok(ts, i + 1) is Ident && tok(ts, i + 2) is Arrow {
                match spec_expr(ts, i + 3, d) {
                    Some((body, j)) => Some((ExprM::Lambda(tok(ts, i + 1)->Ident_0, Box::new(body)), j)),
                    None => None,
                }
            } else {
                None
            },
            _ => None,
        }
    }
}

/// The arguments that follow `f` from `i`, applied from the left.
pub open spec fn spec_apply_tail(ts: Seq<SpannedModel>, i: int, f: ExprM, d: Seq<(Seq<char>, u32)>) -> Option<
    (ExprM, int),
>
    decreases ts.len() - i, 1int,
{
    if i < 0 || i >= ts.len() {
        None
    } else if begins_atom(tok(ts, i)) {
        match spec_atom(ts, i, d) {
            Some((a, j)) => if i < j <= ts.len() {
                spec_apply_tail(ts, j, ExprM::Apply(Box::new(f), Box::new(a)), d)
            } else {
                None
            },
            None => None,
        }
    } else {
        Some((f, i))
    }
}

/// An application from `i`.
pub open spec fn spec_apply(ts: Seq<SpannedModel>, i: int, d: Seq<(Seq<char>, u32)>) -> Option<(ExprM, int)>
    decreases ts.len() - i, 2int,
{
    if i < 0 || i >= ts.len() {
        None
    } else {
        match spec_atom(ts, i, d) {
            Some((f, j)) => if i < j <= ts.len() {
                spec_apply_tail(ts, j, f, d)
            } else {
                None
            },
            None => None,
        }
    }
}

/// `var IDENT <- pratt`, or an application, from `i`.
pub open spec fn spec_bind(ts: Seq<SpannedModel>, i: int, d: Seq<(Seq<char>, u32)>) -> Option<(ExprM, int)>
    decreases ts.len() - i, 3int,
{
    if i < 0 || i >= ts.len() {
        None
    } else if tok(ts, i) is Var {
        if i + 2 < ts.len() && tok(ts, i + 1) is Ident && tok(ts, i + 2) is Bind {
            match spec_pratt(ts, i + 3, 0, d) {
                Some((v, j)) => Some((ExprM::Bind(tok(ts, i + 1)->Ident_0, Box::new(v)), j)),
                None => None,
            }
        } else {
            None
        }
    } else {
        spec_apply(ts, i, d)
    }
}

/// The operators that follow `l` from `i`, of binding power at least `min_bp`.
pub open spec fn spec_pratt_tail(
    ts: Seq<SpannedModel>,
    i: int,
    l: ExprM,
    min_bp: u32,
    d: Seq<(Seq<char>, u32)>,
) -> Option<(ExprM, int)>
    decreases ts.len() - i, 4int,
{
    if i < 0 || i >= ts.len() {
        None
    } else {
        match tok(ts, i) {
            TokenModel::Op(op) => match power_in(d, op) {
                Some(bp) => if bp < min_bp {
                    Some((l, i))
                } else {
                    match spec_pratt(ts, i + 1, bp.wrapping_add(1), d) {
                        Some((r, j)) => if i < j <= ts.len() {
                            spec_pratt_tail(ts, j, ExprM::Infix(Box::new(l), op, Box::new(r)), min_bp, d)
                        } else {
                            None
                        },
                        None => None,
                    }
                },
                None => Some((l, i)),
            },
            _ => Some((l, i)),
        }
    }
}

/// Infix operators of binding power at least `min_bp`, from `i`.
pub open spec fn spec_pratt(ts: Seq<SpannedModel>, i: int, min_bp: u32, d: Seq<(Seq<char>, u32)>) -> Option<
    (ExprM, int),
>
    decreases ts.len() - i, 5int,
{
    if i < 0 || i >= ts.len() {
        None
    } else {
        match spec_bind(ts, i, d) {
            Some((l, j)) => if i < j <= ts.len() {
                spec_pratt_tail(ts, j, l, min_bp, d)
            } else {
                None
            },
            None => None,
        }
    }
}

/// The `>>= pratt` links that follow `l` from `i`, from the left.
pub open spec fn spec_expr_tail(ts: Seq<SpannedModel>, i: int, l: ExprM, d: Seq<(Seq<char>, u32)>) -> Option<
    (ExprM, int),
>
    decreases ts.len() - i, 6int,
{
    if i < 0 || i >= ts.len() {
        None
    } else if tok(ts, i) is BindChain {
        match spec_pratt(ts, i + 1, 0, d) {
            Some((r, j)) => if i < j <= ts.len() {
                spec_expr_tail(ts, j, ExprM::Chain(Box::new(l), Box::new(r)), d)
            } else {
                None
            },
            None => None,
        }
    } else {
        Some((l, i))
    }
}

/// An expression from `i`.
pub open spec fn spec_expr(ts: Seq<SpannedModel>, i: int, d: Seq<(Seq<char>, u32)>) -> Option<(ExprM, int)>
    decreases ts.len() - i, 7int,
{
    if i < 0 || i >= ts.len() {
        None
    } else {
        match spec_pratt(ts, i, 0, d) {
            Some((l, j)) => if i < j <= ts.len() {
                spec_expr_tail(ts, j, l, d)
            } else {
                None
            },
            None => None,
        }
    }
}

/// `IDENT ("," IDENT)*` from `i`.
pub open spec fn spec_ident_list(ts: Seq<SpannedModel>, i: int) -> Option<(Seq<Seq<char>>, int)>
    decreases ts.len() - i,
{
    if i < 0 || i + 1 >= ts.len() || !(tok(ts, i) is Ident) {
        None
    } else if tok(ts, i + 1) is Comma {
        match spec_ident_list(ts, i + 2) {
            Some((rest, j)) => Some((seq![tok(ts, i)->Ident_0] + rest, j)),
            None => None,
        }
    } else {
        Some((seq![tok(ts, i)->Ident_0], i + 1))
    }
}

/// A statement from `i`, the position after it, and the operator
/// declarations after it.
#[verifier::opaque]
pub open spec fn spec_stmt(ts: Seq<SpannedModel>, i: int, d: Seq<(Seq<char>, u32)>) -> Option<
    (StmtM, int, Seq<(Seq<char>, u32)>),
> {
    if i < 0 || i + 1 >= ts.len() {
        None
    } else {
        match tok(ts, i) {
            TokenModel::Import => match tok(ts, i + 1) {
                TokenModel::Str(path) => if i + 2 < ts.len() && tok(ts, i + 2) is LParen {
                    match spec_ident_list(ts, i + 3) {
                        Some((names, j)) => if 0 <= j < ts.len() && tok(ts, j) is RParen {
                            Some((StmtM::Import(path, Some(names)), j + 1, d))
                        } else {
                            None
                        },
                        None => None,
                    }
                } else {
                    Some((StmtM::Import(path, None), i + 2, d))
                },
                _ => None,
            },
            TokenModel::Define => match tok(ts, i + 1) {
                TokenModel::Ident(name) => if i + 2 < ts.len() && tok(ts, i + 2) is Colon {
                    match spec_type(ts, i + 3) {
                        Some((t, j)) => if 0 <= j < ts.len() && tok(ts, j) is Equal {
                            match spec_expr(ts, j + 1, d) {
                                Some((e, k)) => Some((StmtM::Define(name, Some(t), e), k, d)),
                                None => None,
                            }
                        } else {
                            None
                        },
                        None => None,
                    }
                } else if i + 2 < ts.len() && tok(ts, i + 2) is Equal {
                    match spec_expr(ts, i + 3, d) {
                        Some((e, k)) => Some((StmtM::Define(name, None, e), k, d)),
                        None => None,
                    }
                } else {
                    None
                },
                _ => None,
            },
            TokenModel::Infix => if i + 3 < ts.len() && tok(ts, i + 1) is Op && tok(ts, i + 2) is Int && tok(
                ts,
                i + 3,
            ) is Equal {
                let op = tok(ts, i + 1)->Op_0;
                let bp = tok(ts, i + 2)->Int_0 as u32;
                match spec_expr(ts, i + 4, d) {
                    Some((f, k)) => Some((StmtM::Infix(op, bp, f), k, d.push((op, bp)))),
                    None => None,
                }
            } else {
                None
            },
            TokenModel::Native => if i + 2 < ts.len() && tok(ts, i + 1) is Ident && tok(ts, i + 2) is Colon {
                match spec_type(ts, i + 3) {
                    Some((t, k)) => Some((StmtM::Native(tok(ts, i + 1)->Ident_0, t), k, d)),
                    None => None,
                }
            } else {
                None
            },
            _ => None,
        }
    }
}

/// The statements from `i` to the end of input, after `acc`, and the
/// operator declarations after them.
pub open spec fn spec_stmts(ts: Seq<SpannedModel>, i: int, d: Seq<(Seq<char>, u32)>, acc: Seq<StmtM>) -> Option<
    (Seq<StmtM>, Seq<(Seq<char>, u32)>),
>
    decreases ts.len() - i,
{
    if i < 0 || i >= ts.len() {
        None
    } else if tok(ts, i) is Eof {
        Some((acc, d))
    } else {
        match spec_stmt(ts, i, d) {
            Some((s, j, d2)) => if i < j <= ts.len() {
                spec_stmts(ts, j, d2, acc.push(s))
            } else {
                None
            },
            None => None,
        }
    }
}

pub proof fn lemma_stmts_step(
    ts: Seq<SpannedModel>,
    i: int,
    d: Seq<(Seq<char>, u32)>,
    acc: Seq<StmtM>,
)
    requires
        0 <= i < ts.len(),
        !(tok(ts, i) is Eof),
    ensures
        spec_stmt(ts, i, d) is None ==> spec_stmts(ts, i, d, acc) is None,
        spec_stmt(ts, i, d) matches Some((st, j, d2)) ==> i < j <= ts.len() ==> spec_stmts(ts, i, d, acc)
            == spec_stmts(ts, j, d2, acc.push(st)),
{
}

/// Whether an end-of-input token stands at or after `from`.
pub open spec fn has_eof_from(tokens: Seq<Spanned>, from: int) -> bool {
    exists|k: int| from <= k < tokens.len() && (#[trigger] tokens[k]).token@ is Eof
}

fn located_error(line: usize, col: usize, msg: String) -> (e: ParseError)
    ensures
        e.line == line,
        e.col == col,
        e.msg@ == msg@,
{
    ParseError { line, col, msg }
}

fn quoted_message(head: &str, t: &Token) -> (r: String)
    ensures
        r@ == head@ + crate::lexer::token_text(t@) + "'"@,
{
    let tt = t.text();
    concat(&concat(&owned(head), tt.as_str()), "'")
}

impl Parser {
    pub closed spec fn wf(&self) -> bool {
        &&& self.pos < self.tokens@.len()
        &&& has_eof_from(self.tokens@, self.pos as int)
    }

    /// How many tokens are left.
    pub closed spec fn remaining(&self) -> int {
        self.tokens@.len() - self.pos
    }

    pub closed spec fn table(&self) -> OpTable {
        self.binding_pow
    }

    pub closed spec fn position(&self) -> int {
        self.pos as int
    }

    /// The token at the position.
    pub closed spec fn current(&self) -> TokenModel {
        self.tokens@[self.pos as int].token@
    }

    /// Whether the parser now stands at the end of input.
    pub closed spec fn at_eof(&self) -> bool {
        self.tokens@[self.pos as int].token@ is Eof
    }

    /// The tokens, with their texts as character sequences.
    pub closed spec fn tokens_model(&self) -> Seq<SpannedModel> {
        spanned_view(self.tokens@)
    }

    /// The operator declarations so far.
    pub closed spec fn decls(&self) -> Seq<(Seq<char>, u32)> {
        decls_model(self.binding_pow.entries_seq())
    }

    /// A parser over a token stream from the scanner, which ends with `Eof`.
    pub fn new(tokens: Vec<Spanned>) -> (p: Parser)
        requires
            has_eof_from(tokens@, 0),
        ensures
            p.wf(),
            p.remaining() == tokens@.len(),
            p.tokens_model() == spanned_view(tokens@),
            p.position() == 0,
            p.decls() == Seq::<(Seq<char>, u32)>::empty(),
    {
        proof {
            assert(decls_model(Seq::<(String, u32)>::empty()) =~= Seq::<(Seq<char>, u32)>::empty());
        }
        Parser { tokens, pos: 0, binding_pow: OpTable::new() }
    }

    fn peek(&self) -> (t: &Spanned)
        requires
            self.wf(),
        ensures
            *t == self.tokens@[self.pos as int],
    {
        &self.tokens[self.pos]
    }

    fn peek_is(&self, expected: &Token) -> (b: bool)
        requires
            self.wf(),
            !(*expected is Int || *expected is Float || *expected is Str || *expected is Ident || *expected is Op),
        ensures
            b == (self.tokens@[self.pos as int].token@ == expected@),
    {
        let t = &self.tokens[self.pos].token;
        match (t, expected) {
            (Token::Import, Token::Import) => true,
            (Token::Define, Token::Define) => true,
            (Token::Infix, Token::Infix) => true,
            (Token::Var, Token::Var) => true,
            (Token::Native, Token::Native) => true,
            (Token::Backslash, Token::Backslash) => true,
            (Token::Arrow, Token::Arrow) => true,
            (Token::Equal, Token::Equal) => true,
            (Token::Bind, Token::Bind) => true,
            (Token::BindChain, Token::BindChain) => true,
            (Token::LParen, Token::LParen) => true,
            (Token::RParen, Token::RParen) => true,
            (Token::Comma, Token::Comma) => true,
            (Token::Colon, Token::Colon) => true,
            (Token::Eof, Token::Eof) => true,
            _ => false,
        }
    }

    /// Step past the current token, which is not the end of input.
    fn advance(&mut self)
        requires
            old(self).wf(),
            !(old(self).current() is Eof),
        ensures
            final(self).wf(),
            final(self).tokens@ == old(self).tokens@,
            final(self).position() == old(self).position() + 1,
            final(self).table() == old(self).table(),
    {
        let n = self.tokens.len();
        proof {
            let k = choose|k: int| self.pos <= k < self.tokens@.len() && (#[trigger] self.tokens@[k]).token@ is Eof;
            assert(k != self.pos);
            assert(self.pos + 1 <= k);
            assert(self.pos + 1 < n);
            assert(has_eof_from(self.tokens@, self.pos + 1));
        }
        self.pos = self.pos + 1;
    }

    fn err(&self, msg: String) -> (e: ParseError)
        requires
            self.wf(),
        ensures
            e.line == self.tokens@[self.pos as int].line,
            e.col == self.tokens@[self.pos as int].col,
            e.msg@ == msg@,
    {
        located_error(self.tokens[self.pos].line, self.tokens[self.pos].col, msg)
    }

    /// The steps a parsing function may take: the tokens and the position's
    /// validity are kept, the position only moves forward.
    pub closed spec fn moved_on(&self, before: Parser) -> bool {
        &&& self.wf()
        &&& self.tokens@ == before.tokens@
        &&& self.pos >= before.pos
    }

    fn expect(&mut self, expected: &Token) -> (r: Result<(), ParseError>)
        requires
            old(self).wf(),
            !(*expected is Int || *expected is Float || *expected is Str || *expected is Ident || *expected is Op
                || *expected is Eof),
        ensures
            final(self).moved_on(*old(self)),
            final(self).table() == old(self).table(),
            r is Ok <==> old(self).current() == expected@,
            r is Ok ==> final(self).position() == old(self).position() + 1,
    {
        if self.peek_is(expected) {
            self.advance();
            Ok(())
        } else {
            let head = concat(&concat(&owned("expected '"), expected.text().as_str()), "', got '");
            let m = quoted_message(head.as_str(), &self.tokens[self.pos].token);
            Err(self.err(m))
        }
    }

    fn expect_ident(&mut self) -> (r: Result<String, ParseError>)
        requires
            old(self).wf(),
        ensures
            final(self).moved_on(*old(self)),
            final(self).table() == old(self).table(),
            match old(self).current() {
                TokenModel::Ident(s) => r matches Ok(x) && x@ == s && final(self).position() == old(self).position() + 1,
                _ => r is Err,
            },
    {
        match &self.tokens[self.pos].token {
            Token::Ident(s) => {
                let s = s.clone();
                self.advance();
                Ok(s)
            },
            other => {
                let m = quoted_message("expected identifier, got '", other);
                Err(self.err(m))
            },
        }
    }

    fn expect_int(&mut self) -> (r: Result<u32, ParseError>)
        requires
            old(self).wf(),
        ensures
            final(self).moved_on(*old(self)),
            final(self).table() == old(self).table(),
            match old(self).tokens@[old(self).pos as int].token {
                Token::Int(n) => r matches Ok(x) && x == n as u32 && final(self).position() == old(self).position() + 1,
                _ => r is Err,
            },
    {
        match &self.tokens[self.pos].token {
            Token::Int(n) => {
                let n = *n as u32;
                self.advance();
                Ok(n)
            },
            other => {
                let m = quoted_message("expected integer, got '", other);
                Err(self.err(m))
            },
        }
    }

    fn expect_op(&mut self) -> (r: Result<String, ParseError>)
        requires
            old(self).wf(),
        ensures
            final(self).moved_on(*old(self)),
            final(self).table() == old(self).table(),
            match old(self).current() {
                TokenModel::Op(s) => r matches Ok(x) && x@ == s && final(self).position() == old(self).position() + 1,
                _ => r is Err,
            },
    {
        match &self.tokens[self.pos].token {
            Token::Op(s) => {
                let s = s.clone();
                self.advance();
                Ok(s)
            },
            other => {
                let m = quoted_message("expected operator, got '", other);
                Err(self.err(m))
            },
        }
    }

    fn expect_str(&mut self) -> (r: Result<String, ParseError>)
        requires
            old(self).wf(),
        ensures
            final(self).moved_on(*old(self)),
            final(self).table() == old(self).table(),
            match old(self).current() {
                TokenModel::Str(s) => r matches Ok(x) && x@ == s && final(self).position() == old(self).position() + 1,
                _ => r is Err,
            },
    {
        match &self.tokens[self.pos].token {
            Token::Str(s) => {
                let s = s.clone();
                self.advance();
                Ok(s)
            },
            other => {
                let m = quoted_message("expected string, got '", other);
                Err(self.err(m))
            },
        }
    }

    /// `import STR [ "(" IDENT ("," IDENT)* ")" ]`, at the `import` token.
    #[verifier::rlimit(40)]
    fn parse_import(&mut self) -> (r: Result<Stmt, ParseError>)
        requires
            old(self).wf(),
            old(self).current() is Import,
        ensures
            final(self).moved_on(*old(self)),
            final(self).table() == old(self).table(),
            final(self).position() > old(self).position(),
            match spec_stmt(old(self).tokens_model(), old(self).position(), old(self).decls()) {
                Some((st, j, d)) => r matches Ok(x) && stmt_model(x) == st && final(self).position() == j,
                None => r is Err,
            },
    {
        proof {
            reveal(spec_stmt);
            assert(tok(self.tokens_model(), self.pos as int) == self.tokens@[self.pos as int].token@);
            assert(tok(self.tokens_model(), self.pos + 1) == self.tokens@[self.pos + 1].token@);
        }
        self.advance();
        let path = self.expect_str()?;
        proof {
            assert(tok(self.tokens_model(), self.pos as int) == self.tokens@[self.pos as int].token@);
        }
        if self.peek_is(&Token::LParen) {
            self.advance();
            let mut names: Vec<String> = Vec::new();
            let ghost start = self.pos as int;
            proof {
                match spec_ident_list(self.tokens_model(), start) {
                    Some((rest, j)) => {
                        assert(string_views(names@) + rest =~= rest);
                    },
                    None => {},
                }
            }
            loop
                invariant_except_break
                    spec_ident_list(self.tokens_model(), start) == (match spec_ident_list(
                        self.tokens_model(),
                        self.position(),
                    ) {
                        Some((rest, j)) => Some((string_views(names@) + rest, j)),
                        None => None,
                    }),
                invariant
                    self.moved_on(*old(self)),
                    self.binding_pow == old(self).binding_pow,
                    self.pos > old(self).pos,
                    start == old(self).pos + 3,
                    tok(old(self).tokens_model(), old(self).position()) is Import,
                    tok(old(self).tokens_model(), old(self).position() + 1) == TokenModel::Str(path@),
                    tok(old(self).tokens_model(), old(self).position() + 2) is LParen,
                    old(self).position() + 3 < old(self).tokens_model().len(),
                    self.tokens_model() == old(self).tokens_model(),
                ensures
                    self.moved_on(*old(self)),
                    self.binding_pow == old(self).binding_pow,
                    self.pos > old(self).pos,
                    spec_ident_list(self.tokens_model(), start) == Some((string_views(names@), self.position())),
                decreases self.remaining(),
            {
                let ghost i = self.pos as int;
                proof {
                    reveal(spec_stmt);
                    assert(tok(self.tokens_model(), i) == self.tokens@[i].token@);
                }
                let name = self.expect_ident()?;
                proof {
                    assert(tok(self.tokens_model(), i + 1) == self.tokens@[i + 1].token@);
                    assert(string_views(names@.push(name)) =~= string_views(names@).push(name@));
                    match spec_ident_list(self.tokens_model(), i + 2) {
                        Some((rest, j)) => {
                            assert(string_views(names@) + (seq![name@] + rest) =~= string_views(names@).push(name@)
                                + rest);
                        },
                        None => {},
                    }
                    assert(string_views(names@) + seq![name@] =~= string_views(names@).push(name@));
                }
                names.push(name);
                if self.peek_is(&Token::Comma) {
                    self.advance();
                } else {
                    break;
                }
            }
            proof {
                assert(tok(self.tokens_model(), self.pos as int) == self.tokens@[self.pos as int].token@);
            }
            self.expect(&Token::RParen)?;
            return Ok(Stmt::Import { path, spec: ImportSpec::Only(names) });
        }
        Ok(Stmt::Import { path, spec: ImportSpec::All })
    }

    /// `define IDENT [: type] = expr`, at the `define` token.
    fn parse_define(&mut self) -> (r: Result<Stmt, ParseError>)
        requires
            old(self).wf(),
            old(self).current() is Define,
        ensures
            final(self).moved_on(*old(self)),
            final(self).table() == old(self).table(),
            final(self).position() > old(self).position(),
            match spec_stmt(old(self).tokens_model(), old(self).position(), old(self).decls()) {
                Some((st, j, d)) => r matches Ok(x) && stmt_model(x) == st && final(self).position() == j,
                None => r is Err,
            },
    {
        proof {
            reveal(spec_stmt);
            assert(tok(self.tokens_model(), self.pos as int) == self.tokens@[self.pos as int].token@);
            assert(tok(self.tokens_model(), self.pos + 1) == self.tokens@[self.pos + 1].token@);
        }
        self.advance();
        let name = self.expect_ident()?;
        proof {
            assert(tok(self.tokens_model(), self.pos as int) == self.tokens@[self.pos as int].token@);
        }
        let type_sig = if self.peek_is(&Token::Colon) {
            self.advance();
            Some(self.parse_type()?)
        } else {
            None
        };
        proof {
            assert(tok(self.tokens_model(), self.pos as int) == self.tokens@[self.pos as int].token@);
        }
        self.expect(&Token::Equal)?;
        let expr = self.parse_expr()?;
        Ok(Stmt::Define { name, type_sig, expr })
    }

    /// `infix OP INT = expr`, at the `infix` token; declares the operator.
    fn parse_infix_stmt(&mut self) -> (r: Result<Stmt, ParseError>)
        requires
            old(self).wf(),
            old(self).current() is Infix,
        ensures
            final(self).moved_on(*old(self)),
            final(self).position() > old(self).position(),
            r matches Ok(Stmt::Infix { op, strength, .. }) ==> final(self).table().power(op@) == Some(
                strength,
            ) && forall|o: Seq<char>| o != op@ ==> final(self).table().power(o) == old(
                self,
            ).binding_pow.power(o),
            r is Err ==> final(self).table() == old(self).table(),
            match spec_stmt(old(self).tokens_model(), old(self).position(), old(self).decls()) {
                Some((st, j, d)) => r matches Ok(x) && stmt_model(x) == st && final(self).position() == j
                    && final(self).decls() == d,
                None => r is Err,
            },
    {
        proof {
            reveal(spec_stmt);
            assert(tok(self.tokens_model(), self.pos as int) == self.tokens@[self.pos as int].token@);
            assert(tok(self.tokens_model(), self.pos + 1) == self.tokens@[self.pos + 1].token@);
        }
        self.advance();
        let op = self.expect_op()?;
        proof {
            assert(tok(self.tokens_model(), self.pos as int) == self.tokens@[self.pos as int].token@);
        }
        let bp = self.expect_int()?;
        proof {
            assert(tok(self.tokens_model(), self.pos as int) == self.tokens@[self.pos as int].token@);
        }
        self.expect(&Token::Equal)?;
        let func = self.parse_expr()?;
        let ghost before = self.binding_pow.entries_seq();
        self.binding_pow.insert(op.clone(), bp);
        proof {
            assert(decls_model(before.push((op, bp))) =~= decls_model(before).push((op@, bp)));
        }
        Ok(Stmt::Infix { op, strength: bp, func })
    }

    /// `native IDENT : type`, at the `native` token.
    fn parse_native(&mut self) -> (r: Result<Stmt, ParseError>)
        requires
            old(self).wf(),
            old(self).current() is Native,
        ensures
            final(self).moved_on(*old(self)),
            final(self).table() == old(self).table(),
            final(self).position() > old(self).position(),
            match spec_stmt(old(self).tokens_model(), old(self).position(), old(self).decls()) {
                Some((st, j, d)) => r matches Ok(x) && stmt_model(x) == st && final(self).position() == j,
                None => r is Err,
            },
    {
        proof {
            reveal(spec_stmt);
            assert(tok(self.tokens_model(), self.pos as int) == self.tokens@[self.pos as int].token@);
            assert(tok(self.tokens_model(), self.pos + 1) == self.tokens@[self.pos + 1].token@);
        }
        self.advance();
        let name = self.expect_ident()?;
        proof {
            assert(tok(self.tokens_model(), self.pos as int) == self.tokens@[self.pos as int].token@);
        }
        self.expect(&Token::Colon)?;
        let type_sig = self.parse_type()?;
        Ok(Stmt::Native { name, type_sig })
    }

    /// One statement.
    pub fn parse_stmt(&mut self) -> (r: Result<Stmt, ParseError>)
        requires
            old(self).wf(),
        ensures
            final(self).moved_on(*old(self)),
            r is Ok ==> final(self).position() > old(self).position(),
            match spec_stmt(old(self).tokens_model(), old(self).position(), old(self).decls()) {
                Some((st, j, d)) => r matches Ok(x) && stmt_model(x) == st && final(self).position() == j
                    && final(self).decls() == d,
                None => r is Err,
            },
            !(r matches Ok(Stmt::Infix { .. })) ==> final(self).table() == old(self).table(),
    {
        proof {
            reveal(spec_stmt);
            assert(tok(self.tokens_model(), self.pos as int) == self.tokens@[self.pos as int].token@);
        }
        match &self.tokens[self.pos].token {
            Token::Import => self.parse_import(),
            Token::Define => self.parse_define(),
            Token::Infix => self.parse_infix_stmt(),
            Token::Native => self.parse_native(),
            other => {
                let m = quoted_message("expected statement (import/define/infix/native), got '", other);
                Err(self.err(m))
            },
        }
    }

    /// A type: `type_atom ["->" type]`, arrows to the right.
    fn parse_type(&mut self) -> (r: Result<Type, ParseError>)
        requires
            old(self).wf(),
        ensures
            final(self).moved_on(*old(self)),
            final(self).table() == old(self).table(),
            r is Ok ==> final(self).position() > old(self).position(),
            match spec_type(old(self).tokens_model(), old(self).position()) {
                Some((t, j)) => r matches Ok(x) && type_model(x) == t && final(self).position() == j,
                None => r is Err,
            },
        decreases old(self).remaining(), 1nat,
    {
        let atom = self.parse_type_atom()?;
        if self.peek_is(&Token::Arrow) {
            self.advance();
            let ret = self.parse_type()?;
            Ok(Type::Fun(Box::new(atom), Box::new(ret)))
        } else {
            Ok(atom)
        }
    }

    /// A type atom: a name that starts with a lower-case letter is a type
    /// variable, any other name a type constructor; or a parenthesised type.
    fn parse_type_atom(&mut self) -> (r: Result<Type, ParseError>)
        requires
            old(self).wf(),
        ensures
            final(self).moved_on(*old(self)),
            final(self).table() == old(self).table(),
            r is Ok ==> final(self).position() > old(self).position(),
            match spec_type_atom(old(self).tokens_model(), old(self).position()) {
                Some((t, j)) => r matches Ok(x) && type_model(x) == t && final(self).position() == j,
                None => r is Err,
            },
        decreases old(self).remaining(), 0nat,
    {
        match &self.tokens[self.pos].token {
            Token::Ident(s) => {
                let s = s.clone();
                let lower = starts_lower(&s);
                self.advance();
                if lower {
                    Ok(Type::TVar(s))
                } else {
                    Ok(Type::TCon(s))
                }
            },
            Token::LParen => {
                self.advance();
                let ty = self.parse_type()?;
                self.expect(&Token::RParen)?;
                Ok(ty)
            },
            other => {
                let m = quoted_message("expected type, got '", other);
                Err(self.err(m))
            },
        }
    }

    /// `>>=` chains, the loosest level: `pratt (">>=" pratt)*`, to the left.
    pub fn parse_expr(&mut self) -> (r: Result<Expr, ParseError>)
        requires
            old(self).wf(),
        ensures
            final(self).moved_on(*old(self)),
            final(self).table() == old(self).table(),
            r is Ok ==> final(self).position() > old(self).position(),
            match spec_expr(old(self).tokens_model(), old(self).position(), old(self).decls()) {
                Some((e, j)) => r matches Ok(x) && expr_model(x) == e && final(self).position() == j,
                None => r is Err,
            },
        decreases old(self).remaining(), 4nat,
    {
        let mut left = self.parse_pratt(0)?;
        while self.peek_is(&Token::BindChain)
            invariant
                self.moved_on(*old(self)),
                self.binding_pow == old(self).binding_pow,
                self.pos > old(self).pos,
                spec_expr(old(self).tokens_model(), old(self).position(), old(self).decls()) == spec_expr_tail(
                    self.tokens_model(),
                    self.position(),
                    expr_model(left),
                    self.decls(),
                ),
            decreases self.remaining(),
        {
            self.advance();
            let right = self.parse_pratt(0)?;
            left = Expr::Chain(Box::new(left), Box::new(right));
        }
        Ok(left)
    }

    /// Infix operators of binding power at least `min_bp`.
    pub fn parse_pratt(&mut self, min_bp: u32) -> (r: Result<Expr, ParseError>)
        requires
            old(self).wf(),
        ensures
            final(self).moved_on(*old(self)),
            final(self).table() == old(self).table(),
            r is Ok ==> final(self).position() > old(self).position(),
            match spec_pratt(old(self).tokens_model(), old(self).position(), min_bp, old(self).decls()) {
                Some((e, j)) => r matches Ok(x) && expr_model(x) == e && final(self).position() == j,
                None => r is Err,
            },
        decreases old(self).remaining(), 3nat,
    {
        let mut left = self.parse_bind()?;
        loop
            invariant
                self.moved_on(*old(self)),
                self.binding_pow == old(self).binding_pow,
                self.pos > old(self).pos,
                spec_pratt(old(self).tokens_model(), old(self).position(), min_bp, old(self).decls())
                    == spec_pratt_tail(self.tokens_model(), self.position(), expr_model(left), min_bp, self.decls()),
            ensures
                self.moved_on(*old(self)),
                self.binding_pow == old(self).binding_pow,
                self.pos > old(self).pos,
                spec_pratt(old(self).tokens_model(), old(self).position(), min_bp, old(self).decls()) == Some(
                    (expr_model(left), self.position()),
                ),
            decreases self.remaining(),
        {
            let op = match &self.tokens[self.pos].token {
                Token::Op(s) => s.clone(),
                _ => break,
            };
            let bp = match self.binding_pow.get(op.as_str()) {
                Some(bp) => bp,
                None => {
                    proof {
                        lemma_power_model(self.binding_pow.entries_seq(), op@);
                    }
                    break;
                },
            };
            proof {
                lemma_power_model(self.binding_pow.entries_seq(), op@);
            }
            if bp < min_bp {
                break;
            }
            self.advance();
            let right = self.parse_pratt(bp.wrapping_add(1))?;
            left = Expr::Infix(Box::new(left), op, Box::new(right));
        }
        Ok(left)
    }

    /// `var IDENT <- pratt`, or an application.
    pub fn parse_bind(&mut self) -> (r: Result<Expr, ParseError>)
        requires
            old(self).wf(),
        ensures
            final(self).moved_on(*old(self)),
            final(self).table() == old(self).table(),
            r is Ok ==> final(self).position() > old(self).position(),
            match spec_bind(old(self).tokens_model(), old(self).position(), old(self).decls()) {
                Some((e, j)) => r matches Ok(x) && expr_model(x) == e && final(self).position() == j,
                None => r is Err,
            },
        decreases old(self).remaining(), 2nat,
    {
        if self.peek_is(&Token::Var) {
            self.advance();
            let name = self.expect_ident()?;
            self.expect(&Token::Bind)?;
            let value = self.parse_pratt(0)?;
            return Ok(Expr::Bind { name, value: Box::new(value) });
        }
        self.parse_apply()
    }

    /// Application by juxtaposition: `atom atom*`, to the left.
    pub fn parse_apply(&mut self) -> (r: Result<Expr, ParseError>)
        requires
            old(self).wf(),
        ensures
            final(self).moved_on(*old(self)),
            final(self).table() == old(self).table(),
            r is Ok ==> final(self).position() > old(self).position(),
            match spec_apply(old(self).tokens_model(), old(self).position(), old(self).decls()) {
                Some((e, j)) => r matches Ok(x) && expr_model(x) == e && final(self).position() == j,
                None => r is Err,
            },
        decreases old(self).remaining(), 1nat,
    {
        let mut func = self.parse_atom()?;
        while self.starts_atom()
            invariant
                self.moved_on(*old(self)),
                self.binding_pow == old(self).binding_pow,
                self.pos > old(self).pos,
                spec_apply(old(self).tokens_model(), old(self).position(), old(self).decls()) == spec_apply_tail(
                    self.tokens_model(),
                    self.position(),
                    expr_model(func),
                    self.decls(),
                ),
            decreases self.remaining(),
        {
            let arg = self.parse_atom()?;
            func = Expr::Apply(Box::new(func), Box::new(arg));
        }
        Ok(func)
    }

    /// Whether the current token can begin an atom.
    fn starts_atom(&self) -> (b: bool)
        requires
            self.wf(),
        ensures
            b == (self.tokens@[self.pos as int].token@ is Int || self.tokens@[self.pos as int].token@ is Float
                || self.tokens@[self.pos as int].token@ is Str || self.tokens@[self.pos as int].token@ is Ident
                || self.tokens@[self.pos as int].token@ is LParen
                || self.tokens@[self.pos as int].token@ is Backslash),
    {
        match &self.tokens[self.pos].token {
            Token::Int(_) | Token::Float(_) | Token::Str(_) | Token::Ident(_) | Token::LParen | Token::Backslash => true,
            _ => false,
        }
    }

    /// An atom: a literal, a name, `( expr )` or `\ IDENT -> expr`.
    #[verifier::rlimit(50)]
    pub fn parse_atom(&mut self) -> (r: Result<Expr, ParseError>)
        requires
            old(self).wf(),
        ensures
            final(self).moved_on(*old(self)),
            final(self).table() == old(self).table(),
            r is Ok ==> final(self).position() > old(self).position(),
            match spec_atom(old(self).tokens_model(), old(self).position(), old(self).decls()) {
                Some((e, j)) => r matches Ok(x) && expr_model(x) == e && final(self).position() == j,
                None => r is Err,
            },
        decreases old(self).remaining(), 0nat,
    {
        proof {
            assert(tok(self.tokens_model(), self.pos as int) == self.tokens@[self.pos as int].token@);
        }
        let line = self.tokens[self.pos].line;
        let col = self.tokens[self.pos].col;
        match &self.tokens[self.pos].token {
            Token::Int(n) => {
                let n = *n;
                self.advance();
                Ok(Expr::Int(n))
            },
            Token::Float(t) => {
                let t = t.clone();
                self.advance();
                Ok(Expr::Float(t))
            },
            Token::Str(s) => {
                let s = s.clone();
                self.advance();
                Ok(Expr::Str(s))
            },
            Token::Ident(s) => {
                let s = s.clone();
                self.advance();
                Ok(Expr::Var(s))
            },
            Token::LParen => {
                self.advance();
                let e = self.parse_expr()?;
                self.expect(&Token::RParen)?;
                Ok(e)
            },
            Token::Backslash => {
                self.advance();
                let param = self.expect_ident()?;
                self.expect(&Token::Arrow)?;
                let body = self.parse_expr()?;
                Ok(Expr::Lambda { param, body: Box::new(body) })
            },
            other => {
                let m = quoted_message("expected expression (int/str/ident/(/\\\\), got '", other);
                Err(located_error(line, col, m))
            },
        }
    }

    /// Parse the whole program: its statements and the binding powers that
    /// it declared.
    #[verifier::rlimit(50)]
    pub fn parse(self) -> (r: Result<(Vec<Stmt>, OpTable), ParseError>)
        requires
            self.wf(),
        ensures
            match spec_stmts(self.tokens_model(), self.position(), self.decls(), Seq::empty()) {
                Some((ms, d)) => r matches Ok((v, t)) && stmts_model(v@) == ms && decls_model(t.entries_seq()) == d,
                None => r is Err,
            },
    {
        let ghost ts = self.tokens_model();
        let ghost whole = spec_stmts(self.tokens_model(), self.position(), self.decls(), Seq::empty());
        let mut p = self;
        let mut stmts: Vec<Stmt> = Vec::new();
        proof {
            assert(stmts_model(stmts@) =~= Seq::<StmtM>::empty());
        }
        while !p.peek_is(&Token::Eof)
            invariant
                p.wf(),
                p.tokens_model() == ts,
                whole == spec_stmts(ts, p.position(), p.decls(), stmts_model(stmts@)),
                whole == spec_stmts(self.tokens_model(), self.position(), self.decls(), Seq::empty()),
            decreases p.remaining(),
        {
            let ghost i = p.position();
            let ghost d0 = p.decls();
            let ghost acc = stmts_model(stmts@);
            proof {
                assert(tok(p.tokens_model(), p.pos as int) == p.tokens@[p.pos as int].token@);
            }
            let s = match p.parse_stmt() {
                Ok(s) => s,
                Err(e) => {
                    proof {
                        lemma_stmts_step(ts, i, d0, acc);
                    }
                    return Err(e);
                },
            };
            proof {
                assert(stmts_model(stmts@.push(s)) =~= stmts_model(stmts@).push(stmt_model(s)));
                lemma_stmts_step(ts, i, d0, acc);
            }
            stmts.push(s);
        }
        proof {
            assert(tok(p.tokens_model(), p.pos as int) == p.tokens@[p.pos as int].token@);
        }
        Ok((stmts, p.binding_pow))
    }
}

fn starts_lower(s: &String) -> (b: bool)
    ensures
        b == (s@.len() > 0 && 'a' <= s@[0] <= 'z'),
{
    let chars = crate::text::chars_of(s.as_str());
    chars.len() > 0 && 'a' <= chars[0] && chars[0] <= 'z'
}

/// Scan and parse a program. A scanner error comes back as it is; a parse
/// error as `line:col: message`.
pub fn parse_program(src: &str) -> (r: Result<(Vec<Stmt>, OpTable), String>)
    requires
        src@.len() < usize::MAX,
    ensures
        match lex(src@, 0, 1, 1, Seq::empty()) {
            LexOutcome::Tokens(ts) => match spec_stmts(ts, 0, Seq::empty(), Seq::empty()) {
                Some((ms, d)) => r matches Ok((v, t)) && stmts_model(v@) == ms && decls_model(t.entries_seq()) == d,
                None => r is Err,
            },
            LexOutcome::Error(m) => r matches Err(e) && e@ == m,
        },
{
    let tokens = tokenize(src)?;
    proof {
        crate::lexer::lemma_lex_ends_with_eof(src@, 0, 1, 1, Seq::empty());
        let k = tokens@.len() - 1;
        assert(crate::lexer::spanned_view(tokens@)[k] == tokens@[k]@);
        assert(tokens@[k].token@ is Eof);
        assert(has_eof_from(tokens@, 0));
    }
    match Parser::new(tokens).parse() {
        Ok(res) => Ok(res),
        Err(e) => {
            let l = usize_to_decimal(e.line);
            let c = usize_to_decimal(e.col);
            Err(concat(&concat(&concat(&concat(&l, ":"), c.as_str()), ": "), e.msg.as_str()))
        },
    }
}

} // verus!
