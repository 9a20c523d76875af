//! Recursive-descent parser with Pratt-style infix operators.
//!
//! A program is a list of statements separated by line feeds:
//!
//! * `name p1 .. pn = [let <stmts> in] expr` binds a value or a function,
//! * `infix <prec> [left|right] <op> p1 .. pn = [let <stmts> in] expr` binds
//!   an operator and registers its precedence,
//! * `public <binding>` marks a binding as importable by other modules,
//! * `import <path>[::{a, b as c} | ::* | as alias]` and
//!   `export *`, `export { a, b as c }`, `export <path>::*`,
//!   `export <path>::{..}`, `export <path>::<name>` declare the module
//!   interface.  A path is `pkg::..`, `self::..`, `super::..` or a plain
//!   `a::b::..` (which may start with a dependency name or `prelude`).
//!
//! Expressions are applications of atoms, combined by the declared infix
//! operators according to their precedence and associativity.

use vstd::prelude::*;

use crate::diagnostics::{Diagnostics, Span};
use crate::text::{concat, owned, string_from_chars, chars_of, str_eq};
use crate::tokenizer::{scan, tokenize, tokens_view, variant_of, KindModel, ScanOutcome, Token, TokenKind, TokenModel};

verus! {

#[derive(Debug, Clone, Copy, PartialEq, Eq)]
pub enum Associativity {
    Left,
    Right,
}

#[derive(Debug, Clone)]
pub struct Node<T> {
    pub span: Span,
    pub kind: T,
}

#[derive(Debug)]
pub enum ExpressionKind {
    Variable { name: String },
    Function { params: Vec<Node<String>>, body: Box<Expression> },
    Infix { operator: String },
    FunctionCall { callee: Box<Expression>, arg: Box<Expression> },
    InfixCall { operator: Node<String>, lhs: Box<Expression>, rhs: Box<Expression> },
    String(String),
    Int(i32),
    Group(Box<Expression>),
}

#[derive(Debug)]
pub struct Expression {
    pub span: Span,
    pub kind: ExpressionKind,
}

#[derive(Debug)]
pub enum StatementKind {
    Variable { name: String, value: Box<Expression> },
    Function { name: String, params: Vec<Node<String>>, body: Box<Expression> },
    Infix {
        operator: Node<String>,
        precedence: u8,
        associativity: Associativity,
        params: Vec<Node<String>>,
        body: Box<Expression>,
    },
}

#[derive(Debug)]
pub struct Statement {
    pub span: Span,
    pub kind: StatementKind,
    pub scheme: Vec<Statement>,
    pub is_public: bool,
}

/// Where a module path starts.
#[derive(Debug, Clone, Copy, PartialEq, Eq)]
pub enum PathAnchor {
    /// `a::b`: a dependency name, `prelude`, or a sibling module.
    Plain,
    /// `pkg::a`: from the root of the current package.
    Pkg,
    /// `self::a`: from the directory of the current module.
    SelfMod,
    /// `super::a` (n times): from the n-th parent directory.
    Super(usize),
}

#[derive(Debug, Clone)]
pub struct ModulePath {
    pub anchor: PathAnchor,
    pub segments: Vec<Node<String>>,
    pub span: Span,
}

#[derive(Debug, Clone)]
pub struct ItemSpec {
    pub name: Node<String>,
    pub alias: Option<Node<String>>,
}

#[derive(Debug, Clone)]
pub enum ImportTarget {
    Module,
    Glob,
    Items(Vec<ItemSpec>),
}

#[derive(Debug, Clone)]
pub struct Import {
    pub path: ModulePath,
    pub target: ImportTarget,
    pub alias: Option<Node<String>>,
    pub span: Span,
}

#[derive(Debug, Clone)]
pub enum ExportItem {
    Local(Vec<ItemSpec>),
    LocalGlob,
    FromGlob(ModulePath),
    FromItems(ModulePath, Vec<ItemSpec>),
}

#[derive(Debug, Clone)]
pub struct Export {
    pub item: ExportItem,
    pub span: Span,
}

/// Everything one source file declares.
#[derive(Debug)]
pub struct ParseInfo {
    pub statements: Vec<Statement>,
    pub imports: Vec<Import>,
    pub exports: Vec<Export>,
}

#[derive(Debug, Clone)]
pub struct InfixEntry {
    pub operator: String,
    pub precedence: u8,
    pub associativity: Associativity,
}

pub struct Parser {
    source_len: usize,
    tokens: Vec<Token>,
    token_index: usize,
    infix_table: Vec<InfixEntry>,
}

/// The operators declared so far, latest declaration first in priority.
pub open spec fn lookup_infix(table: Seq<InfixEntry>, op: Seq<char>) -> Option<InfixEntry>
    decreases table.len(),
{
    if table.len() == 0 {
        None
    } else if table.last().operator@ == op {
        Some(table.last())
    } else {
        lookup_infix(table.drop_last(), op)
    }
}

fn lit(s: &str) -> (r: String)
    ensures
        r@ == s@,
{
    owned(s)
}

/// The name of a token kind as `{:?}` prints it, with its text but not its number.
pub open spec fn kind_text(kind: TokenKind) -> Seq<char> {
    match kind {
        TokenKind::Identifier(name) => "Identifier(\""@ + name@ + "\")"@,
        TokenKind::Symbol(name) => "Symbol(\""@ + name@ + "\")"@,
        TokenKind::LeftParen => "LeftParen"@,
        TokenKind::RightParen => "RightParen"@,
        TokenKind::Equal => "Equal"@,
        TokenKind::Arrow => "Arrow"@,
        TokenKind::Lambda => "Lambda"@,
        TokenKind::Let => "Let"@,
        TokenKind::In => "In"@,
        TokenKind::Infix => "Infix"@,
        TokenKind::NewLine => "NewLine"@,
        TokenKind::String(text) => "String(\""@ + text@ + "\")"@,
        TokenKind::Int(_) => "Int"@,
    }
}

/// The name of a token kind as `{:?}` prints it, without its payload.
fn kind_name(kind: &TokenKind) -> (r: String)
    ensures
        r@ == kind_text(*kind),
{
    match kind {
        TokenKind::Identifier(name) => concat(&concat(&lit("Identifier(\""), name.as_str()), "\")"),
        TokenKind::Symbol(name) => concat(&concat(&lit("Symbol(\""), name.as_str()), "\")"),
        TokenKind::LeftParen => lit("LeftParen"),
        TokenKind::RightParen => lit("RightParen"),
        TokenKind::Equal => lit("Equal"),
        TokenKind::Arrow => lit("Arrow"),
        TokenKind::Lambda => lit("Lambda"),
        TokenKind::Let => lit("Let"),
        TokenKind::In => lit("In"),
        TokenKind::Infix => lit("Infix"),
        TokenKind::NewLine => lit("NewLine"),
        TokenKind::String(text) => concat(&concat(&lit("String(\""), text.as_str()), "\")"),
        TokenKind::Int(_) => lit("Int"),
    }
}

fn expected_found(expected: &str, found: &TokenKind) -> (r: String)
    ensures
        r@ == "expected "@ + expected@ + ", found "@ + kind_text(*found),
{
    let head = concat(&concat(&lit("expected "), expected), ", found ");
    concat(&head, kind_name(found).as_str())
}

impl Parser {
    pub closed spec fn tokens_seq(&self) -> Seq<Token> {
        self.tokens@
    }

    pub closed spec fn infix_seq(&self) -> Seq<InfixEntry> {
        self.infix_table@
    }

    pub closed spec fn index(&self) -> nat {
        self.token_index as nat
    }

    pub closed spec fn remaining(&self) -> int {
        self.tokens@.len() - self.token_index
    }

    pub closed spec fn wf(&self) -> bool {
        self.token_index <= self.tokens@.len()
    }

    /// The tokens, with their texts as character sequences.
    pub closed spec fn tokens_model(&self) -> Seq<TokenModel> {
        tokens_view(self.tokens@)
    }

    /// The operators declared so far.
    pub closed spec fn table_model(&self) -> TableM {
        infix_model(self.infix_table@)
    }

    /// The calls of `self`'s methods keep the tokens and only move forward.
    pub closed spec fn advanced(&self, before: Parser) -> bool {
        &&& self.tokens@ == before.tokens@
        &&& self.source_len == before.source_len
        &&& before.token_index <= self.token_index <= self.tokens@.len()
    }

    fn peek_token(&self) -> (t: Option<Token>)
        requires
            self.wf(),
        ensures
            self.token_index < self.tokens@.len() ==> t == Some(self.tokens@[self.token_index as int]),
            self.token_index >= self.tokens@.len() ==> t is None,
    {
        if self.token_index < self.tokens.len() {
            Some(self.tokens[self.token_index].clone_token())
        } else {
            None
        }
    }

    fn next_token(&mut self) -> (t: Option<Token>)
        requires
            old(self).wf(),
        ensures
            final(self).advanced(*old(self)),
            final(self).infix_table == old(self).infix_table,
            old(self).token_index < old(self).tokens@.len() ==> t == Some(
                old(self).tokens@[old(self).token_index as int],
            ) && final(self).token_index == old(self).token_index + 1,
            old(self).token_index >= old(self).tokens@.len() ==> t is None
                && final(self).token_index == old(self).token_index,
    {
        let t = self.peek_token();
        if self.token_index < self.tokens.len() {
            self.token_index = self.token_index + 1;
        }
        t
    }

    fn eof_span(&self, start: usize) -> (s: Span)
        ensures
            s.start == start,
            s.end == self.source_len,
    {
        Span::new(start, self.source_len)
    }

    fn expect_token(&mut self, answer: TokenKind) -> (r: Result<Token, Diagnostics>)
        requires
            old(self).wf(),
        ensures
            final(self).advanced(*old(self)),
            final(self).infix_table == old(self).infix_table,
            r is Ok ==> old(self).token_index < old(self).tokens@.len() && r->Ok_0 == old(
                self,
            ).tokens@[old(self).token_index as int] && variant_of(r->Ok_0.kind) == variant_of(answer)
                && final(self).token_index == old(self).token_index + 1,
            (old(self).token_index < old(self).tokens@.len() && variant_of(
                old(self).tokens@[old(self).token_index as int].kind,
            ) == variant_of(answer)) ==> r is Ok,
    {
        let guess = self.next_token();
        match guess {
            None => {
                let msg = concat(&concat(&lit("expected "), kind_name(&answer).as_str()), ", found EOF");
                Err(Diagnostics::parser_error(msg, self.eof_span(0)))
            },
            Some(token) => {
                if answer.mem_equal(&token.kind) {
                    Ok(token)
                } else {
                    let msg = expected_found(kind_name(&answer).as_str(), &token.kind);
                    Err(Diagnostics::parser_error(msg, token.span))
                }
            },
        }
    }

    /// The identifiers that follow, up to the first other token.
    fn parse_params(&mut self) -> (r: Result<Vec<Node<String>>, Diagnostics>)
        requires
            old(self).wf(),
        ensures
            final(self).advanced(*old(self)),
            final(self).infix_table == old(self).infix_table,
            r is Ok ==> r->Ok_0@.len() == final(self).token_index - old(self).token_index
                && final(self).token_index < final(self).tokens@.len()
                && !(final(self).tokens@[final(self).token_index as int].kind is Identifier),
            r is Ok <==> exists|k: int|
                old(self).token_index <= k < old(self).tokens@.len() && !(old(
                    self,
                ).tokens@[k].kind is Identifier),
            match sp_params(old(self).tokens_model(), old(self).token_index as int) {
                Some((ps, j)) => r matches Ok(v) && nodes_model(v@) == ps && final(self).token_index == j,
                None => r is Err,
            },
    {
        let mut params: Vec<Node<String>> = Vec::new();
        let ghost ts = self.tokens_model();
        proof {
            match sp_params(ts, self.token_index as int) {
                Some((ps, j)) => {
                    assert(nodes_model(params@) + ps =~= ps);
                },
                None => {},
            }
        }
        loop
            invariant
                self.wf(),
                self.advanced(*old(self)),
                self.infix_table == old(self).infix_table,
                params@.len() == self.token_index - old(self).token_index,
                forall|k: int|
                    old(self).token_index <= k < self.token_index ==> (#[trigger] self.tokens@[k]).kind is Identifier,
                ts == self.tokens_model(),
                sp_params(ts, old(self).token_index as int) == (match sp_params(ts, self.token_index as int) {
                    Some((ps, j)) => Some((nodes_model(params@) + ps, j)),
                    None => None,
                }),
            decreases self.tokens@.len() - self.token_index,
        {
            proof {
                if self.token_index < self.tokens@.len() {
                    assert(ts[self.token_index as int] == self.tokens@[self.token_index as int]@);
                }
            }
            let param_token = self.peek_token();
            match param_token {
                None => {
                    return Err(
                        Diagnostics::parser_error(lit("expected '=', found EOF"), self.eof_span(0)),
                    );
                },
                Some(tok) => match tok.kind {
                    TokenKind::Identifier(param) => {
                        let ghost before = params@;
                        params.push(Node { kind: param, span: tok.span });
                        proof {
                            let i = self.token_index as int;
                            assert(nodes_model(params@) =~= nodes_model(before).push(node_model(params@.last())));
                            match sp_params(ts, i + 1) {
                                Some((rest, j)) => {
                                    assert(nodes_model(before) + (seq![node_model(params@.last())] + rest) =~= nodes_model(params@) + rest);
                                },
                                None => {},
                            }
                        }
                    },
                    _ => {
                        proof {
                            assert(nodes_model(params@) + Seq::<NodeM>::empty() =~= nodes_model(params@));
                        }
                        return Ok(params);
                    },
                },
            }
            self.next_token();
        }
    }

    /// An optional `let <statements> in` block.
    fn parse_scheme(&mut self) -> (r: Result<Vec<Statement>, Diagnostics>)
        requires
            old(self).wf(),
        ensures
            final(self).advanced(*old(self)),
            match sp_scheme(old(self).tokens_model(), old(self).index() as int, old(self).table_model()) {
                Some((sch, j, t)) => r matches Ok(v) && v@.len() == sch.len()
                    && (forall|k: int| 0 <= k < sch.len() ==> stmt_is(#[trigger] v@[k], sch[k]))
                    && final(self).index() == j && final(self).table_model() == t,
                None => r is Err,
            },
        decreases old(self).remaining(), 1nat,
    {
        let ghost ts = self.tokens_model();
        let ghost i0 = self.token_index as int;
        proof {
            if i0 < ts.len() {
                assert(ts[i0] == self.tokens@[i0]@);
            }
        }
        let let_token = match self.peek_token() {
            Some(token) => match token.kind {
                TokenKind::Let => token,
                _ => {
                    return Ok(Vec::new());
                },
            },
            None => {
                return Err(
                    Diagnostics::parser_error(lit("expected '=', found EOF"), self.eof_span(0)),
                );
            },
        };
        self.next_token();
        let mut scheme: Vec<Statement> = Vec::new();
        let ghost mut acc: Seq<StmtM> = Seq::empty();
        loop
            invariant
                self.wf(),
                self.advanced(*old(self)),
                self.token_index > old(self).token_index,
                ts == self.tokens_model(),
                i0 == old(self).token_index,
                i0 < ts.len(),
                scheme@.len() == acc.len(),
                forall|k: int| 0 <= k < acc.len() ==> stmt_is(#[trigger] scheme@[k], acc[k]),
                sp_scheme(ts, i0, old(self).table_model()) == sp_scheme_items(
                    ts,
                    self.token_index as int,
                    acc,
                    self.table_model(),
                ),
            decreases self.tokens@.len() - self.token_index,
        {
            proof {
                let i = self.token_index as int;
                if i < ts.len() {
                    assert(ts[i] == self.tokens@[i]@);
                }
            }
            match self.peek_token() {
                Some(token) => match token.kind {
                    TokenKind::In => {
                        self.next_token();
                        return Ok(scheme);
                    },
                    TokenKind::NewLine => {
                        self.next_token();
                    },
                    _ => {
                        let ghost st = sp_statement(ts, self.token_index as int, self.table_model());
                        let stat = self.parse_statement()?;
                        scheme.push(stat);
                        proof {
                            acc = acc.push(st->Some_0.0);
                            assert(forall|k: int| 0 <= k < acc.len() ==> stmt_is(#[trigger] scheme@[k], acc[k]));
                        }
                    },
                },
                None => {
                    return Err(
                        Diagnostics::parser_error(
                            lit("expected in, found EOF"),
                            self.eof_span(let_token.span.start),
                        ),
                    );
                },
            }
        }
    }

    fn lookup_infix(&self, op: &String) -> (r: Option<(u8, Associativity)>)
        ensures
            match lookup_infix(self.infix_table@, op@) {
                Some(e) => r == Some((e.precedence, e.associativity)),
                None => r is None,
            },
    {
        let mut k = self.infix_table.len();
        assert(self.infix_table@.subrange(0, k as int) =~= self.infix_table@);
        while k > 0
            invariant
                k <= self.infix_table@.len(),
                lookup_infix(self.infix_table@, op@) == lookup_infix(
                    self.infix_table@.subrange(0, k as int),
                    op@,
                ),
            decreases k,
        {
            let e = &self.infix_table[k - 1];
            proof {
                let t = self.infix_table@.subrange(0, k as int);
                assert(t.drop_last() =~= self.infix_table@.subrange(0, k - 1));
            }
            if str_eq(&e.operator, op) {
                return Some((e.precedence, e.associativity));
            }
            k = k - 1;
        }
        None
    }

    fn declare_infix(&mut self, op: String, precedence: u8, associativity: Associativity)
        ensures
            final(self).tokens@ == old(self).tokens@,
            final(self).token_index == old(self).token_index,
            final(self).source_len == old(self).source_len,
            lookup_infix(final(self).infix_table@, op@) == Some(
                InfixEntry { operator: op, precedence, associativity },
            ),
            final(self).infix_table@ == old(self).infix_table@.push(
                InfixEntry { operator: op, precedence, associativity },
            ),
    {
        self.infix_table.push(InfixEntry { operator: op, precedence, associativity });
    }
}


/// A name with its span.
pub struct NodeM {
    pub text: Seq<char>,
    pub start: int,
    pub end: int,
}

/// A parsed expression, with its texts as character sequences.
pub enum EKindM {
    Variable(Seq<char>),
    Function(Seq<NodeM>, Box<ExprM>),
    Infix(Seq<char>),
    Call(Box<ExprM>, Box<ExprM>),
    InfixCall(NodeM, Box<ExprM>, Box<ExprM>),
    Str(Seq<char>),
    Int(int),
    Group(Box<ExprM>),
}

pub struct ExprM {
    pub kind: EKindM,
    pub start: int,
    pub end: int,
}

/// A parsed statement, with its texts as character sequences.
pub enum SKindM {
    Variable(Seq<char>, ExprM),
    Function(Seq<char>, Seq<NodeM>, ExprM),
    Infix(NodeM, u8, Associativity, Seq<NodeM>, ExprM),
}

pub struct StmtM {
    pub kind: SKindM,
    pub start: int,
    pub end: int,
    pub scheme: Seq<StmtM>,
    pub is_public: bool,
}

pub open spec fn node_model(n: Node<String>) -> NodeM {
    NodeM { text: n.kind@, start: n.span.start as int, end: n.span.end as int }
}

pub open spec fn nodes_model(v: Seq<Node<String>>) -> Seq<NodeM> {
    v.map_values(|n: Node<String>| node_model(n))
}

pub open spec fn expr_model(e: Expression) -> ExprM
    decreases e,
{
    let kind = match e.kind {
        ExpressionKind::Variable { name } => EKindM::Variable(name@),
        ExpressionKind::Function { params, body } => EKindM::Function(nodes_model(params@), Box::new(expr_model(*body))),
        ExpressionKind::Infix { operator } => EKindM::Infix(operator@),
        ExpressionKind::FunctionCall { callee, arg } => EKindM::Call(
            Box::new(expr_model(*callee)),
            Box::new(expr_model(*arg)),
        ),
        ExpressionKind::InfixCall { operator, lhs, rhs } => EKindM::InfixCall(
            node_model(operator),
            Box::new(expr_model(*lhs)),
            Box::new(expr_model(*rhs)),
        ),
        ExpressionKind::String(t) => EKindM::Str(t@),
        ExpressionKind::Int(n) => EKindM::Int(n as int),
        ExpressionKind::Group(g) => EKindM::Group(Box::new(expr_model(*g))),
    };
    ExprM { kind, start: e.span.start as int, end: e.span.end as int }
}

/// `st` is the statement `m`.
pub open spec fn stmt_is(st: Statement, m: StmtM) -> bool
    decreases st,
{
    &&& st.span.start == m.start
    &&& st.span.end == m.end
    &&& st.is_public == m.is_public
    &&& st.scheme@.len() == m.scheme.len()
    &&& forall|k: int| 0 <= k < m.scheme.len() ==> stmt_is(#[trigger] st.scheme@[k], m.scheme[k])
    &&& match st.kind {
        StatementKind::Variable { name, value } => m.kind == SKindM::Variable(name@, expr_model(*value)),
        StatementKind::Function { name, params, body } => m.kind == SKindM::Function(
            name@,
            nodes_model(params@),
            expr_model(*body),
        ),
        StatementKind::Infix { operator, precedence, associativity, params, body } => m.kind == SKindM::Infix(
            node_model(operator),
            precedence,
            associativity,
            nodes_model(params@),
            expr_model(*body),
        ),
    }
}

/// Operator declarations as character sequences.
pub open spec fn infix_model(t: Seq<InfixEntry>) -> Seq<(Seq<char>, u8, Associativity)> {
    t.map_values(|e: InfixEntry| (e.operator@, e.precedence, e.associativity))
}

/// The precedence and associativity declared last for `op`.
pub open spec fn infix_of(t: Seq<(Seq<char>, u8, Associativity)>, op: Seq<char>) -> Option<(u8, Associativity)>
    decreases t.len(),
{
    if t.len() == 0 {
        None
    } else if t.last().0 == op {
        Some((t.last().1, t.last().2))
    } else {
        infix_of(t.drop_last(), op)
    }
}

pub proof fn lemma_infix_model(t: Seq<InfixEntry>, op: Seq<char>)
    ensures
        match lookup_infix(t, op) {
            Some(e) => infix_of(infix_model(t), op) == Some((e.precedence, e.associativity)),
            None => infix_of(infix_model(t), op) is None,
        },
    decreases t.len(),
{
    if t.len() > 0 {
        assert(infix_model(t).drop_last() =~= infix_model(t.drop_last()));
        lemma_infix_model(t.drop_last(), op);
    }
}

pub open spec fn kind_at(ts: Seq<TokenModel>, i: int) -> KindModel {
    ts[i].kind
}

/// The names that follow from `i`, up to the first token that is not a name.
pub open spec fn sp_params(ts: Seq<TokenModel>, i: int) -> Option<(Seq<NodeM>, int)>
    decreases ts.len() - i,
{
    if i < 0 || i >= ts.len() {
        None
    } else {
        match kind_at(ts, i) {
            KindModel::Identifier(n) => match sp_params(ts, i + 1) {
                Some((rest, j)) => Some((seq![NodeM { text: n, start: ts[i].start, end: ts[i].end }] + rest, j)),
                None => None,
            },
            _ => Some((Seq::empty(), i)),
        }
    }
}

pub type TableM = Seq<(Seq<char>, u8, Associativity)>;

/// A primary expression from `i`; a line break before it is skipped.
pub open spec fn sp_primary(ts: Seq<TokenModel>, i: int, tab: TableM) -> Option<(ExprM, int)>
    decreases ts.len() - i, 0int,
{
    if i < 0 || i >= ts.len() {
        None
    } else {
        match kind_at(ts, i) {
            KindModel::Identifier(n) => Some((ExprM { kind: EKindM::Variable(n), start: ts[i].start, end: ts[i].end }, i + 1)),
            KindModel::Infix => if i + 1 < ts.len() && kind_at(ts, i + 1) is Symbol {
                Some((
                    ExprM { kind: EKindM::Infix(kind_at(ts, i + 1)->Symbol_0), start: ts[i].start, end: ts[i + 1].end },
                    i + 2,
                ))
            } else {
                None
            },
            KindModel::Lambda => match sp_params(ts, i + 1) {
                Some((ps, j)) => if i < j < ts.len() && kind_at(ts, j) is Arrow {
                    match sp_expression(ts, j + 1, 0, tab) {
                        Some((b, k)) => Some((ExprM { kind: EKindM::Function(ps, Box::new(b)), start: ts[i].start, end: b.end }, k)),
                        None => None,
                    }
                } else {
                    None
                },
                None => None,
            },
            KindModel::LeftParen => match sp_expression(ts, i + 1, 0, tab) {
                Some((inner, j)) => if 0 <= j < ts.len() && kind_at(ts, j) is RightParen {
                    Some((inner, j + 1))
                } else {
                    None
                },
                None => None,
            },
            KindModel::Text(t) => Some((ExprM { kind: EKindM::Str(t), start: ts[i].start, end: ts[i].end }, i + 1)),
            KindModel::Int(n) => Some((ExprM { kind: EKindM::Int(n), start: ts[i].start, end: ts[i].end }, i + 1)),
            KindModel::NewLine => sp_primary(ts, i + 1, tab),
            _ => None,
        }
    }
}

/// The arguments that follow `e` from `i` on its line: names, texts,
/// numbers and parenthesised expressions, applied from the left.
pub open spec fn sp_app_tail(ts: Seq<TokenModel>, i: int, e: ExprM, tab: TableM) -> Option<(ExprM, int)>
    decreases ts.len() - i, 1int,
{
    if i < 0 || i > ts.len() {
        None
    } else if i == ts.len() {
        Some((e, i))
    } else {
        match kind_at(ts, i) {
            KindModel::Identifier(_) | KindModel::Text(_) | KindModel::Int(_) => match sp_primary(ts, i, tab) {
                Some((arg, j)) => if i < j <= ts.len() {
                    sp_app_tail(ts, j, ExprM { kind: EKindM::Call(Box::new(e), Box::new(arg)), start: e.start, end: arg.end }, tab)
                } else {
                    None
                },
                None => None,
            },
            KindModel::LeftParen => match sp_expression(ts, i + 1, 0, tab) {
                Some((inner, j)) => if i < j < ts.len() && kind_at(ts, j) is RightParen {
                    sp_app_tail(
                        ts,
                        j + 1,
                        ExprM { kind: EKindM::Call(Box::new(e), Box::new(inner)), start: e.start, end: ts[j].end },
                        tab,
                    )
                } else {
                    None
                },
                None => None,
            },
            _ => Some((e, i)),
        }
    }
}

/// A function applied to the arguments that follow it on its line.
pub open spec fn sp_application(ts: Seq<TokenModel>, i: int, tab: TableM) -> Option<(ExprM, int)>
    decreases ts.len() - i, 2int,
{
    match sp_primary(ts, i, tab) {
        Some((e, j)) => if i < j <= ts.len() {
            sp_app_tail(ts, j, e, tab)
        } else {
            None
        },
        None => None,
    }
}

/// The operators that follow `lhs` from `i` that bind at least as tightly as `min`.
pub open spec fn sp_expr_tail(ts: Seq<TokenModel>, i: int, lhs: ExprM, min: u8, tab: TableM) -> Option<(ExprM, int)>
    decreases ts.len() - i, 3int,
{
    if i < 0 || i > ts.len() {
        None
    } else if i == ts.len() {
        Some((lhs, i))
    } else {
        match kind_at(ts, i) {
            KindModel::Symbol(op) => match infix_of(tab, op) {
                None => None,
                Some((prec, assoc)) => if prec < min {
                    Some((lhs, i))
                } else if assoc == Associativity::Left && prec == 255 {
                    None
                } else {
                    let next: u8 = if assoc == Associativity::Left { (prec + 1) as u8 } else { prec };
                    match sp_expression(ts, i + 1, next, tab) {
                        Some((rhs, j)) => if i < j <= ts.len() {
                            sp_expr_tail(
                                ts,
                                j,
                                ExprM {
                                    kind: EKindM::InfixCall(
                                        NodeM { text: op, start: ts[i].start, end: ts[i].end },
                                        Box::new(lhs),
                                        Box::new(rhs),
                                    ),
                                    start: lhs.start,
                                    end: rhs.end,
                                },
                                min,
                                tab,
                            )
                        } else {
                            None
                        },
                        None => None,
                    }
                },
            },
            _ => Some((lhs, i)),
        }
    }
}

/// An expression from `i` whose operators bind at least as tightly as `min`.
pub open spec fn sp_expression(ts: Seq<TokenModel>, i: int, min: u8, tab: TableM) -> Option<(ExprM, int)>
    decreases ts.len() - i, 4int,
{
    if i < 0 || i >= ts.len() {
        None
    } else {
        match sp_application(ts, i, tab) {
            Some((e, j)) => if i < j <= ts.len() {
                sp_expr_tail(ts, j, e, min, tab)
            } else {
                None
            },
            None => None,
        }
    }
}

/// One binding from `i`, where it ends, and the declarations after it
/// (an infix binding declares its operator before its parameters).
pub open spec fn sp_statement(ts: Seq<TokenModel>, i: int, tab: TableM) -> Option<(StmtM, int, TableM)>
    decreases ts.len() - i, 1int,
{
    if i < 0 || i >= ts.len() {
        None
    } else {
        match kind_at(ts, i) {
            KindModel::Identifier(name) => match sp_params(ts, i + 1) {
                Some((ps, j)) => if i < j < ts.len() && kind_at(ts, j) is Equal {
                    match sp_scheme(ts, j + 1, tab) {
                        Some((sch, k, tab2)) => match sp_expression(ts, k, 0, tab2) {
                            Some((v, m)) => Some((
                                StmtM {
                                    kind: if ps.len() == 0 { SKindM::Variable(name, v) } else { SKindM::Function(name, ps, v) },
                                    start: ts[i].start,
                                    end: v.end,
                                    scheme: sch,
                                    is_public: false,
                                },
                                m,
                                tab2,
                            )),
                            None => None,
                        },
                        None => None,
                    }
                } else {
                    None
                },
                None => None,
            },
            KindModel::Infix => if i + 1 < ts.len() && kind_at(ts, i + 1) is Int {
                let prec = (kind_at(ts, i + 1)->Int_0) as u8;
                let (assoc, p) = if i + 2 < ts.len() && kind_at(ts, i + 2) == KindModel::Identifier("left"@) {
                    (Associativity::Left, i + 3)
                } else if i + 2 < ts.len() && kind_at(ts, i + 2) == KindModel::Identifier("right"@) {
                    (Associativity::Right, i + 3)
                } else {
                    (Associativity::Left, i + 2)
                };
                if p < ts.len() && kind_at(ts, p) is Symbol {
                    let op = NodeM { text: kind_at(ts, p)->Symbol_0, start: ts[p].start, end: ts[p].end };
                    let tab1 = tab.push((op.text, prec, assoc));
                    match sp_params(ts, p + 1) {
                        Some((ps, j)) => if i < j < ts.len() && kind_at(ts, j) is Equal {
                            match sp_scheme(ts, j + 1, tab1) {
                                Some((sch, k, tab2)) => match sp_expression(ts, k, 0, tab2) {
                                    Some((b, m)) => Some((
                                        StmtM {
                                            kind: SKindM::Infix(op, prec, assoc, ps, b),
                                            start: ts[i].start,
                                            end: b.end,
                                            scheme: sch,
                                            is_public: false,
                                        },
                                        m,
                                        tab2,
                                    )),
                                    None => None,
                                },
                                None => None,
                            }
                        } else {
                            None
                        },
                        None => None,
                    }
                } else {
                    None
                }
            } else {
                None
            },
            KindModel::NewLine => sp_statement(ts, i + 1, tab),
            _ => None,
        }
    }
}

/// An optional `let <statements> in` from `i`.
pub open spec fn sp_scheme(ts: Seq<TokenModel>, i: int, tab: TableM) -> Option<(Seq<StmtM>, int, TableM)>
    decreases ts.len() - i, 2int,
{
    if i < 0 || i >= ts.len() {
        None
    } else if kind_at(ts, i) is Let {
        sp_scheme_items(ts, i + 1, Seq::empty(), tab)
    } else {
        Some((Seq::empty(), i, tab))
    }
}

/// The statements of a `let` block from `i`, after `acc`, up to and past its `in`.
pub open spec fn sp_scheme_items(ts: Seq<TokenModel>, i: int, acc: Seq<StmtM>, tab: TableM) -> Option<
    (Seq<StmtM>, int, TableM),
>
    decreases ts.len() - i, 3int,
{
    if i < 0 || i >= ts.len() {
        None
    } else {
        match kind_at(ts, i) {
            KindModel::In => Some((acc, i + 1, tab)),
            KindModel::NewLine => sp_scheme_items(ts, i + 1, acc, tab),
            _ => match sp_statement(ts, i, tab) {
                Some((st, j, tab2)) => if i < j <= ts.len() {
                    sp_scheme_items(ts, j, acc.push(st), tab2)
                } else {
                    None
                },
                None => None,
            },
        }
    }
}

pub closed spec fn expr_ok(r: Result<Expression, Diagnostics>, before: Parser, after: Parser) -> bool {
    &&& after.advanced(before)
    &&& after.infix_table == before.infix_table
    &&& r is Ok ==> after.token_index > before.token_index
}

impl Parser {
    /// Reads the source and splits it into tokens.
    pub fn new(source: &str) -> (r: Result<Parser, Diagnostics>)
        ensures
            match scan(source@, 0) {
                ScanOutcome::Tokens(ts) => r is Ok && tokens_view(r->Ok_0.tokens_seq()) == ts
                    && r->Ok_0.index() == 0 && r->Ok_0.infix_seq().len() == 0 && r->Ok_0.wf()
                    && r->Ok_0.tokens_model() == ts && r->Ok_0.table_model() == Seq::<(Seq<char>, u8, Associativity)>::empty(),
                _ => r is Err,
            },
    {
        let tokens = tokenize(source)?;
        let source_len = crate::text::byte_len(source);
        let p = Parser { source_len, tokens, token_index: 0, infix_table: Vec::new() };
        assert(infix_model(p.infix_table@) =~= Seq::<(Seq<char>, u8, Associativity)>::empty());
        Ok(p)
    }

    pub fn parse_primary_expression(&mut self) -> (r: Result<Expression, Diagnostics>)
        requires
            old(self).wf(),
        ensures
            expr_ok(r, *old(self), *final(self)),
            match sp_primary(old(self).tokens_model(), old(self).index() as int, old(self).table_model()) {
                Some((m, j)) => r matches Ok(e) && expr_model(e) == m && final(self).index() == j,
                None => r is Err,
            },
        decreases old(self).remaining(), 0nat,
    {
        let ghost ts = self.tokens_model();
        let ghost i = self.token_index as int;
        proof {
            if i < ts.len() {
                assert(ts[i] == self.tokens@[i]@);
            }
            if i + 1 < ts.len() {
                assert(ts[i + 1] == self.tokens@[i + 1]@);
            }
        }
        let token = match self.next_token() {
            None => {
                return Err(
                    Diagnostics::parser_error(
                        lit("expected primary expression, found EOF"),
                        self.eof_span(0),
                    ),
                );
            },
            Some(t) => t,
        };
        match token.kind {
            TokenKind::Identifier(name) => Ok(
                Expression { span: token.span, kind: ExpressionKind::Variable { name } },
            ),
            TokenKind::Infix => {
                let symbol = match self.next_token() {
                    None => {
                        return Err(
                            Diagnostics::parser_error(
                                lit("expected Symbol, found EOF"),
                                self.eof_span(token.span.start),
                            ),
                        );
                    },
                    Some(t) => t,
                };
                match symbol.kind {
                    TokenKind::Symbol(operator) => Ok(
                        Expression {
                            span: Span::new(token.span.start, symbol.span.end),
                            kind: ExpressionKind::Infix { operator },
                        },
                    ),
                    other => Err(
                        Diagnostics::parser_error(expected_found("Symbol", &other), symbol.span),
                    ),
                }
            },
            TokenKind::Lambda => {
                let params = self.parse_params()?;
                self.expect_token(TokenKind::Arrow)?;
                let body = self.parse_expression(0)?;
                Ok(
                    Expression {
                        span: Span::new(token.span.start, body.span.end),
                        kind: ExpressionKind::Function { params, body: Box::new(body) },
                    },
                )
            },
            TokenKind::LeftParen => {
                let inner = self.parse_expression(0)?;
                self.expect_token(TokenKind::RightParen)?;
                Ok(inner)
            },
            TokenKind::String(value) => Ok(
                Expression { span: token.span, kind: ExpressionKind::String(value) },
            ),
            TokenKind::Int(value) => Ok(
                Expression { span: token.span, kind: ExpressionKind::Int(value) },
            ),
            TokenKind::NewLine => self.parse_primary_expression(),
            other => Err(
                Diagnostics::parser_error(
                    expected_found("primary expression", &other),
                    token.span,
                ),
            ),
        }
    }

    /// A function applied to the atoms that follow it on the line.
    pub fn parse_application(&mut self) -> (r: Result<Expression, Diagnostics>)
        requires
            old(self).wf(),
        ensures
            expr_ok(r, *old(self), *final(self)),
            match sp_application(old(self).tokens_model(), old(self).index() as int, old(self).table_model()) {
                Some((m, j)) => r matches Ok(e) && expr_model(e) == m && final(self).index() == j,
                None => r is Err,
            },
        decreases old(self).remaining(), 1nat,
    {
        let ghost ts = self.tokens_model();
        let ghost tab = self.table_model();
        let ghost i0 = self.token_index as int;
        let mut expr = self.parse_primary_expression()?;
        loop
            invariant
                self.wf(),
                self.advanced(*old(self)),
                self.infix_table == old(self).infix_table,
                self.token_index > old(self).token_index,
                ts == self.tokens_model(),
                tab == self.table_model(),
                i0 == old(self).token_index,
                sp_application(ts, i0, tab) == sp_app_tail(ts, self.token_index as int, expr_model(expr), tab),
            decreases self.tokens@.len() - self.token_index,
        {
            proof {
                let i = self.token_index as int;
                if i < ts.len() {
                    assert(ts[i] == self.tokens@[i]@);
                }
            }
            let token = match self.peek_token() {
                None => {
                    return Ok(expr);
                },
                Some(t) => t,
            };
            match token.kind {
                TokenKind::NewLine => {
                    return Ok(expr);
                },
                TokenKind::Identifier(_) | TokenKind::String(_) | TokenKind::Int(_) => {
                    let arg = self.parse_primary_expression()?;
                    let span = Span::new(expr.span.start, arg.span.end);
                    expr = Expression {
                        span,
                        kind: ExpressionKind::FunctionCall { callee: Box::new(expr), arg: Box::new(arg) },
                    };
                },
                TokenKind::LeftParen => {
                    self.next_token();
                    let inner = self.parse_expression(0)?;
                    let right_paren = self.expect_token(TokenKind::RightParen)?;
                    let span = Span::new(expr.span.start, right_paren.span.end);
                    expr = Expression {
                        span,
                        kind: ExpressionKind::FunctionCall {
                            callee: Box::new(expr),
                            arg: Box::new(inner),
                        },
                    };
                },
                _ => {
                    return Ok(expr);
                },
            }
        }
    }

    /// An expression whose infix operators all bind at least as tightly as `min_prec`.
    pub fn parse_expression(&mut self, min_prec: u8) -> (r: Result<Expression, Diagnostics>)
        requires
            old(self).wf(),
        ensures
            expr_ok(r, *old(self), *final(self)),
            match sp_expression(old(self).tokens_model(), old(self).index() as int, min_prec, old(self).table_model()) {
                Some((m, j)) => r matches Ok(e) && expr_model(e) == m && final(self).index() == j,
                None => r is Err,
            },
        decreases old(self).remaining(), 2nat,
    {
        let ghost ts = self.tokens_model();
        let ghost tab = self.table_model();
        let ghost i0 = self.token_index as int;
        let mut lhs = self.parse_application()?;
        loop
            invariant
                self.wf(),
                self.advanced(*old(self)),
                self.infix_table == old(self).infix_table,
                self.token_index > old(self).token_index,
                ts == self.tokens_model(),
                tab == self.table_model(),
                i0 == old(self).token_index,
                i0 < ts.len(),
                sp_expression(ts, i0, min_prec, tab) == sp_expr_tail(ts, self.token_index as int, expr_model(lhs), min_prec, tab),
            decreases self.tokens@.len() - self.token_index,
        {
            proof {
                let i = self.token_index as int;
                if i < ts.len() {
                    assert(ts[i] == self.tokens@[i]@);
                }
            }
            let token = match self.peek_token() {
                None => {
                    return Ok(lhs);
                },
                Some(t) => t,
            };
            match token.kind {
                TokenKind::Symbol(symbol) => {
                    proof {
                        lemma_infix_model(self.infix_table@, symbol@);
                    }
                    let (prec, assoc) = match self.lookup_infix(&symbol) {
                        Some(info) => info,
                        None => {
                            let msg = concat(
                                &concat(&lit("undefined infix operator '"), symbol.as_str()),
                                "'",
                            );
                            return Err(Diagnostics::parser_error(msg, token.span));
                        },
                    };
                    if prec < min_prec {
                        return Ok(lhs);
                    }
                    self.next_token();
                    let next_min_prec = match assoc {
                        Associativity::Left => {
                            if prec == 255 {
                                return Err(
                                    Diagnostics::parser_error(
                                        lit("infix precedence overflow"),
                                        token.span,
                                    ),
                                );
                            }
                            prec + 1
                        },
                        Associativity::Right => prec,
                    };
                    let rhs = self.parse_expression(next_min_prec)?;
                    let span = Span::new(lhs.span.start, rhs.span.end);
                    lhs = Expression {
                        span,
                        kind: ExpressionKind::InfixCall {
                            operator: Node { kind: symbol, span: token.span },
                            lhs: Box::new(lhs),
                            rhs: Box::new(rhs),
                        },
                    };
                },
                _ => {
                    return Ok(lhs);
                },
            }
        }
    }

    /// One binding: `name params = body` or `infix prec [left|right] op params = body`.
    pub fn parse_statement(&mut self) -> (r: Result<Statement, Diagnostics>)
        requires
            old(self).wf(),
        ensures
            final(self).advanced(*old(self)),
            r is Ok ==> final(self).index() > old(self).index(),
            match sp_statement(old(self).tokens_model(), old(self).index() as int, old(self).table_model()) {
                Some((m, j, t)) => r matches Ok(st) && stmt_is(st, m) && final(self).index() == j
                    && final(self).table_model() == t,
                None => r is Err,
            },
        decreases old(self).remaining(), 0nat,
    {
        let ghost ts = self.tokens_model();
        let ghost i = self.token_index as int;
        proof {
            if i < ts.len() {
                assert(ts[i] == self.tokens@[i]@);
            }
            if i + 1 < ts.len() {
                assert(ts[i + 1] == self.tokens@[i + 1]@);
            }
            if i + 2 < ts.len() {
                assert(ts[i + 2] == self.tokens@[i + 2]@);
            }
            if i + 3 < ts.len() {
                assert(ts[i + 3] == self.tokens@[i + 3]@);
            }
        }
        let token = match self.next_token() {
            None => {
                return Err(
                    Diagnostics::parser_error(lit("expected statement, found EOF"), self.eof_span(0)),
                );
            },
            Some(t) => t,
        };
        match token.kind {
            TokenKind::Identifier(name) => {
                let params = self.parse_params()?;
                self.expect_token(TokenKind::Equal)?;
                let scheme = self.parse_scheme()?;
                let value = self.parse_expression(0)?;
                let span = Span::new(token.span.start, value.span.end);
                if params.len() == 0 {
                    Ok(
                        Statement {
                            span,
                            kind: StatementKind::Variable { name, value: Box::new(value) },
                            scheme,
                            is_public: false,
                        },
                    )
                } else {
                    Ok(
                        Statement {
                            span,
                            kind: StatementKind::Function { name, params, body: Box::new(value) },
                            scheme,
                            is_public: false,
                        },
                    )
                }
            },
            TokenKind::Infix => {
                let precedence = match self.next_token() {
                    Some(t) => match t.kind {
                        TokenKind::Int(n) => #[verifier::truncate] (n as u8),
                        other => {
                            return Err(
                                Diagnostics::parser_error(
                                    expected_found("precedence (integer)", &other),
                                    t.span,
                                ),
                            );
                        },
                    },
                    None => {
                        return Err(
                            Diagnostics::parser_error(
                                lit("expected precedence, found EOF"),
                                self.eof_span(token.span.start),
                            ),
                        );
                    },
                };
                let mut associativity = Associativity::Left;
                match self.peek_token() {
                    Some(next) => match next.kind {
                        TokenKind::Identifier(word) => {
                            if str_eq(&word, &lit("left")) {
                                self.next_token();
                                associativity = Associativity::Left;
                            } else if str_eq(&word, &lit("right")) {
                                self.next_token();
                                associativity = Associativity::Right;
                            }
                        },
                        _ => {},
                    },
                    None => {},
                }
                let operator_token = match self.next_token() {
                    None => {
                        return Err(
                            Diagnostics::parser_error(
                                lit("expected Symbol, found EOF"),
                                self.eof_span(token.span.start),
                            ),
                        );
                    },
                    Some(t) => t,
                };
                let operator = match operator_token.kind {
                    TokenKind::Symbol(op) => Node { kind: op, span: operator_token.span },
                    other => {
                        return Err(
                            Diagnostics::parser_error(
                                expected_found("Symbol", &other),
                                operator_token.span,
                            ),
                        );
                    },
                };
                let ghost tab0 = self.infix_table@;
                self.declare_infix(operator.kind.clone(), precedence, associativity);
                proof {
                    assert(infix_model(self.infix_table@) =~= infix_model(tab0).push(
                        (operator.kind@, precedence, associativity),
                    ));
                }
                let params = self.parse_params()?;
                self.expect_token(TokenKind::Equal)?;
                let scheme = self.parse_scheme()?;
                let body = self.parse_expression(0)?;
                let span = Span::new(token.span.start, body.span.end);
                Ok(
                    Statement {
                        span,
                        kind: StatementKind::Infix {
                            operator,
                            precedence,
                            associativity,
                            params,
                            body: Box::new(body),
                        },
                        scheme,
                        is_public: false,
                    },
                )
            },
            TokenKind::NewLine => self.parse_statement(),
            other => Err(
                Diagnostics::parser_error(expected_found("statement", &other), token.span),
            ),
        }
    }
}


/// `base + by`, or `usize::MAX` where that does not fit.
pub open spec fn saturated(base: int, by: int) -> int {
    if base + by <= usize::MAX {
        base + by
    } else {
        usize::MAX as int
    }
}

fn shifted(base: usize, by: usize) -> (r: usize)
    ensures
        r == saturated(base as int, by as int),
{
    match base.checked_add(by) {
        Some(v) => v,
        None => usize::MAX,
    }
}

/// The `::`-separated segments of `cs` from the segment that starts at `seg`,
/// scanning from `i`, each with the offsets where it starts and ends, and
/// whether the text ends in `::`; `None` where a segment before a `::` is empty.
pub open spec fn sp_split(cs: Seq<char>, seg: int, i: int) -> Option<(Seq<(Seq<char>, int, int)>, bool)>
    decreases cs.len() - i,
{
    if i >= cs.len() {
        if seg >= cs.len() {
            Some((Seq::empty(), true))
        } else {
            Some((seq![(cs.subrange(seg, cs.len() as int), seg, cs.len() as int)], false))
        }
    } else if cs[i] == ':' && i + 1 < cs.len() && cs[i + 1] == ':' {
        if seg == i {
            None
        } else {
            match sp_split(cs, i + 2, i + 2) {
                Some((rest, tail_open)) => Some((seq![(cs.subrange(seg, i), seg, i)] + rest, tail_open)),
                None => None,
            }
        }
    } else {
        sp_split(cs, seg, i + 1)
    }
}

/// The segments as names, their offsets counted from `base`.
pub open spec fn seg_nodes(segs: Seq<(Seq<char>, int, int)>, base: int) -> Seq<NodeM> {
    segs.map_values(|g: (Seq<char>, int, int)| NodeM { text: g.0, start: saturated(base, g.1), end: saturated(base, g.2) })
}

/// What `sp_split` gives, the segments as names whose offsets count from `base`.
pub open spec fn split_nodes(cs: Seq<char>, seg: int, i: int, base: int) -> Option<(Seq<NodeM>, bool)> {
    match sp_split(cs, seg, i) {
        Some((segs, ends_open)) => Some((seg_nodes(segs, base), ends_open)),
        None => None,
    }
}

/// The `::`-separated segments of a path token, and whether it ends in `::`.
fn split_path(text: &String, span: Span) -> (r: Result<(Vec<Node<String>>, bool), Diagnostics>)
    ensures
        r is Ok ==> r->Ok_0.0@.len() > 0,
        match sp_split(text@, 0, 0) {
            Some((segs, ends_open)) => if segs.len() == 0 {
                r is Err
            } else {
                r matches Ok((v, o)) && nodes_model(v@) == seg_nodes(segs, span.start as int) && o == ends_open
            },
            None => r is Err,
        },
{
    let chars = chars_of(text.as_str());
    let mut segments: Vec<Node<String>> = Vec::new();
    let mut seg_start: usize = 0;
    let mut i: usize = 0;
    let ghost cs = text@;
    let ghost base = span.start as int;
    proof {
        match sp_split(cs, 0, 0) {
            Some((segs, ends_open)) => {
                assert(nodes_model(segments@) + seg_nodes(segs, base) =~= seg_nodes(segs, base));
            },
            None => {},
        }
    }
    while i < chars.len()
        invariant
            seg_start <= i <= chars.len(),
            chars@ == cs,
            cs == text@,
            base == span.start,
            seg_start == 0 ==> segments@.len() == 0,
            seg_start > 0 ==> segments@.len() > 0,
            split_nodes(cs, 0, 0, base) == (match sp_split(cs, seg_start as int, i as int) {
                Some((rest, tail_open)) => Some((nodes_model(segments@) + seg_nodes(rest, base), tail_open)),
                None => None,
            }),
        decreases chars.len() - i,
    {
        if chars[i] == ':' && i + 1 < chars.len() && chars[i + 1] == ':' {
            if seg_start == i {
                return Err(
                    Diagnostics::parser_error(lit("empty segment in module path"), span),
                );
            }
            let name = crate::text::substring(&chars, seg_start, i);
            let ghost before = segments@;
            segments.push(
                Node {
                    kind: name,
                    span: Span::new(shifted(span.start, seg_start), shifted(span.start, i)),
                },
            );
            proof {
                let g = (cs.subrange(seg_start as int, i as int), seg_start as int, i as int);
                assert(nodes_model(segments@) =~= nodes_model(before).push(seg_nodes(seq![g], base)[0]));
                match sp_split(cs, i + 2, i + 2) {
                    Some((rest, tail_open)) => {
                        assert(nodes_model(before) + seg_nodes(seq![g] + rest, base)
                            =~= nodes_model(segments@) + seg_nodes(rest, base));
                    },
                    None => {},
                }
            }
            i = i + 2;
            seg_start = i;
        } else {
            i = i + 1;
        }
    }
    if seg_start == chars.len() {
        if segments.len() == 0 {
            return Err(Diagnostics::parser_error(lit("empty module path"), span));
        }
        proof {
            assert(nodes_model(segments@) + seg_nodes(Seq::empty(), base) =~= nodes_model(segments@));
        }
        Ok((segments, true))
    } else {
        let name = crate::text::substring(&chars, seg_start, chars.len());
        let ghost before = segments@;
        segments.push(
            Node {
                kind: name,
                span: Span::new(shifted(span.start, seg_start), shifted(span.start, chars.len())),
            },
        );
        proof {
            let g = (cs.subrange(seg_start as int, cs.len() as int), seg_start as int, cs.len() as int);
            assert(nodes_model(segments@) =~= nodes_model(before) + seg_nodes(seq![g], base));
        }
        Ok((segments, false))
    }
}

/// An imported or exported name with its alias.
pub struct ItemM {
    pub name: NodeM,
    pub alias: Option<NodeM>,
}

pub open spec fn item_model(it: ItemSpec) -> ItemM {
    ItemM {
        name: node_model(it.name),
        alias: match it.alias {
            Some(a) => Some(node_model(a)),
            None => None,
        },
    }
}

pub open spec fn items_model(v: Seq<ItemSpec>) -> Seq<ItemM> {
    v.map_values(|it: ItemSpec| item_model(it))
}

pub open spec fn node_at(ts: Seq<TokenModel>, i: int) -> NodeM {
    NodeM { text: kind_at(ts, i)->Identifier_0, start: ts[i].start, end: ts[i].end }
}

/// The items of a brace list from `i`, after `acc`, up to and past its `}`.
pub open spec fn sp_items(ts: Seq<TokenModel>, i: int, acc: Seq<ItemM>) -> Option<(Seq<ItemM>, int)>
    decreases ts.len() - i,
{
    if i < 0 || i >= ts.len() {
        None
    } else {
        match kind_at(ts, i) {
            KindModel::Symbol(sym) => if sym == "}"@ {
                Some((acc, i + 1))
            } else if sym == ","@ {
                sp_items(ts, i + 1, acc)
            } else {
                None
            },
            KindModel::Identifier(_) => if i + 1 < ts.len() && kind_at(ts, i + 1) == KindModel::Identifier("as"@) {
                if i + 2 < ts.len() && kind_at(ts, i + 2) is Identifier {
                    sp_items(ts, i + 3, acc.push(ItemM { name: node_at(ts, i), alias: Some(node_at(ts, i + 2)) }))
                } else {
                    None
                }
            } else {
                sp_items(ts, i + 1, acc.push(ItemM { name: node_at(ts, i), alias: None }))
            },
            _ => None,
        }
    }
}

/// What follows a path that ends in `::`: `None` for `*`, else the items.
pub open spec fn sp_open_target(ts: Seq<TokenModel>, i: int) -> Option<(Option<Seq<ItemM>>, int)> {
    if i < 0 || i >= ts.len() {
        None
    } else {
        match kind_at(ts, i) {
            KindModel::Symbol(sym) => if sym == "*"@ {
                Some((None, i + 1))
            } else if sym == "{"@ {
                match sp_items(ts, i + 1, Seq::empty()) {
                    Some((items, j)) => Some((Some(items), j)),
                    None => None,
                }
            } else if sym == "{}"@ {
                Some((Some(Seq::empty()), i + 1))
            } else {
                None
            },
            _ => None,
        }
    }
}

/// What an import brings in.
pub enum TargetM {
    Module,
    Glob,
    Items(Seq<ItemM>),
}

/// An import, with its texts as character sequences.
pub struct ImportM {
    pub path: PathM,
    pub target: TargetM,
    pub alias: Option<NodeM>,
    pub start: int,
    pub end: int,
}

/// What an export offers.
pub enum ExportItemM {
    Local(Seq<ItemM>),
    LocalGlob,
    FromGlob(PathM),
    FromItems(PathM, Seq<ItemM>),
}

/// An export, with its texts as character sequences.
pub struct ExportM {
    pub item: ExportItemM,
    pub start: int,
    pub end: int,
}

pub open spec fn import_model(im: Import) -> ImportM {
    ImportM {
        path: path_model(im.path),
        target: match im.target {
            ImportTarget::Module => TargetM::Module,
            ImportTarget::Glob => TargetM::Glob,
            ImportTarget::Items(v) => TargetM::Items(items_model(v@)),
        },
        alias: match im.alias {
            Some(a) => Some(node_model(a)),
            None => None,
        },
        start: im.span.start as int,
        end: im.span.end as int,
    }
}

pub open spec fn export_model(ex: Export) -> ExportM {
    ExportM {
        item: match ex.item {
            ExportItem::Local(v) => ExportItemM::Local(items_model(v@)),
            ExportItem::LocalGlob => ExportItemM::LocalGlob,
            ExportItem::FromGlob(p) => ExportItemM::FromGlob(path_model(p)),
            ExportItem::FromItems(p, v) => ExportItemM::FromItems(path_model(p), items_model(v@)),
        },
        start: ex.span.start as int,
        end: ex.span.end as int,
    }
}

/// An import from the path token at `i`, the `import` word starting at `start`.
pub open spec fn sp_import(ts: Seq<TokenModel>, i: int, start: int) -> Option<(ImportM, int)> {
    if i < 0 || i >= ts.len() || !(kind_at(ts, i) is Identifier) {
        None
    } else {
        match sp_split(kind_at(ts, i)->Identifier_0, 0, 0) {
            Some((segs, ends_open)) => if segs.len() == 0 {
                None
            } else {
                let path = path_of(seg_nodes(segs, ts[i].start), ts[i].start, ts[i].end);
                if ends_open {
                    let end = if i + 1 < ts.len() { ts[i + 1].end } else { ts[i].end };
                    match sp_open_target(ts, i + 1) {
                        Some((None, j)) => Some((ImportM { path, target: TargetM::Glob, alias: None, start, end }, j)),
                        Some((Some(items), j)) => Some(
                            (ImportM { path, target: TargetM::Items(items), alias: None, start, end }, j),
                        ),
                        None => None,
                    }
                } else if i + 1 < ts.len() && kind_at(ts, i + 1) == KindModel::Identifier("as"@) {
                    if i + 2 < ts.len() && kind_at(ts, i + 2) is Identifier {
                        Some((
                            ImportM { path, target: TargetM::Module, alias: Some(node_at(ts, i + 2)), start, end: ts[i].end },
                            i + 3,
                        ))
                    } else {
                        None
                    }
                } else {
                    Some((ImportM { path, target: TargetM::Module, alias: None, start, end: ts[i].end }, i + 1))
                }
            },
            None => None,
        }
    }
}

/// An export from the token at `i`, the `export` word starting at `start`.
pub open spec fn sp_export(ts: Seq<TokenModel>, i: int, start: int) -> Option<(ExportM, int)> {
    if i < 0 || i >= ts.len() {
        None
    } else {
        let end = ts[i].end;
        match kind_at(ts, i) {
            KindModel::Symbol(sym) => if sym == "*"@ {
                Some((ExportM { item: ExportItemM::LocalGlob, start, end }, i + 1))
            } else if sym == "{"@ {
                match sp_items(ts, i + 1, Seq::empty()) {
                    Some((items, j)) => Some((ExportM { item: ExportItemM::Local(items), start, end }, j)),
                    None => None,
                }
            } else if sym == "{}"@ {
                Some((ExportM { item: ExportItemM::Local(Seq::empty()), start, end }, i + 1))
            } else {
                None
            },
            KindModel::Identifier(text) => match sp_split(text, 0, 0) {
                Some((segs, ends_open)) => if segs.len() == 0 {
                    None
                } else {
                    let nodes = seg_nodes(segs, ts[i].start);
                    if ends_open {
                        let path = path_of(nodes, ts[i].start, ts[i].end);
                        match sp_open_target(ts, i + 1) {
                            Some((None, j)) => Some((ExportM { item: ExportItemM::FromGlob(path), start, end }, j)),
                            Some((Some(items), j)) => Some(
                                (ExportM { item: ExportItemM::FromItems(path, items), start, end }, j),
                            ),
                            None => None,
                        }
                    } else {
                        let item = ItemM { name: nodes.last(), alias: None };
                        if nodes.len() == 1 {
                            Some((ExportM { item: ExportItemM::Local(seq![item]), start, end }, i + 1))
                        } else {
                            let path = path_of(nodes.drop_last(), ts[i].start, ts[i].end);
                            Some((ExportM { item: ExportItemM::FromItems(path, seq![item]), start, end }, i + 1))
                        }
                    }
                },
                None => None,
            },
            _ => None,
        }
    }
}

/// What one source file declares, with its texts as character sequences.
pub struct ProgM {
    pub statements: Seq<StmtM>,
    pub imports: Seq<ImportM>,
    pub exports: Seq<ExportM>,
}

/// `info` declares what `m` says.
pub open spec fn program_is(info: ParseInfo, m: ProgM) -> bool {
    &&& info.statements@.len() == m.statements.len()
    &&& forall|k: int| 0 <= k < m.statements.len() ==> stmt_is(#[trigger] info.statements@[k], m.statements[k])
    &&& info.imports@.map_values(|im: Import| import_model(im)) == m.imports
    &&& info.exports@.map_values(|ex: Export| export_model(ex)) == m.exports
}

/// The declarations from `i` to the end, after those in `acc`.
pub open spec fn sp_program(ts: Seq<TokenModel>, i: int, tab: TableM, acc: ProgM) -> Option<ProgM>
    decreases ts.len() - i,
{
    if i < 0 || i > ts.len() {
        None
    } else if i == ts.len() {
        Some(acc)
    } else if kind_at(ts, i) is NewLine {
        sp_program(ts, i + 1, tab, acc)
    } else if kind_at(ts, i) == KindModel::Identifier("import"@) && i + 1 < ts.len() && kind_at(ts, i + 1) is Identifier {
        match sp_import(ts, i + 1, ts[i].start) {
            Some((im, j)) => if i < j <= ts.len() {
                sp_program(ts, j, tab, ProgM { imports: acc.imports.push(im), ..acc })
            } else {
                None
            },
            None => None,
        }
    } else if kind_at(ts, i) == KindModel::Identifier("export"@) && i + 1 < ts.len() && (kind_at(ts, i + 1) is Identifier
        || kind_at(ts, i + 1) is Symbol) {
        match sp_export(ts, i + 1, ts[i].start) {
            Some((ex, j)) => if i < j <= ts.len() {
                sp_program(ts, j, tab, ProgM { exports: acc.exports.push(ex), ..acc })
            } else {
                None
            },
            None => None,
        }
    } else if kind_at(ts, i) == KindModel::Identifier("public"@) && i + 1 < ts.len() && kind_at(ts, i + 1) is Identifier {
        match sp_statement(ts, i + 1, tab) {
            Some((st, j, tab2)) => if i < j <= ts.len() {
                sp_program(ts, j, tab2, ProgM { statements: acc.statements.push(StmtM { is_public: true, ..st }), ..acc })
            } else {
                None
            },
            None => None,
        }
    } else {
        match sp_statement(ts, i, tab) {
            Some((st, j, tab2)) => if i < j <= ts.len() {
                sp_program(ts, j, tab2, ProgM { statements: acc.statements.push(st), ..acc })
            } else {
                None
            },
            None => None,
        }
    }
}

fn is_word(s: &String, word: &str) -> (b: bool)
    ensures
        b == (s@ == word@),
{
    let w = owned(word);
    str_eq(s, &w)
}

/// How many segments at the front of `segs` are `super`.
pub open spec fn leading_supers(segs: Seq<NodeM>) -> nat
    decreases segs.len(),
{
    if segs.len() > 0 && segs[0].text == "super"@ {
        1 + leading_supers(segs.drop_first())
    } else {
        0
    }
}

/// A module path, with its texts as character sequences.
pub struct PathM {
    pub anchor: PathAnchor,
    pub segments: Seq<NodeM>,
    pub start: int,
    pub end: int,
}

pub open spec fn path_model(p: ModulePath) -> PathM {
    PathM { anchor: p.anchor, segments: nodes_model(p.segments@), start: p.span.start as int, end: p.span.end as int }
}

/// The path that `segs` spell: a leading `pkg`, `self` or run of `super` sets the anchor.
pub open spec fn path_of(segs: Seq<NodeM>, start: int, end: int) -> PathM {
    if segs.len() > 0 && segs[0].text == "pkg"@ {
        PathM { anchor: PathAnchor::Pkg, segments: segs.drop_first(), start, end }
    } else if segs.len() > 0 && segs[0].text == "self"@ {
        PathM { anchor: PathAnchor::SelfMod, segments: segs.drop_first(), start, end }
    } else if leading_supers(segs) > 0 {
        PathM {
            anchor: PathAnchor::Super(leading_supers(segs) as usize),
            segments: segs.skip(leading_supers(segs) as int),
            start,
            end,
        }
    } else {
        PathM { anchor: PathAnchor::Plain, segments: segs, start, end }
    }
}

/// A module path from its segments: a leading `pkg`, `self` or run of `super` sets the anchor.
fn path_from_segments(segments: Vec<Node<String>>, span: Span) -> (p: ModulePath)
    ensures
        p.span == span,
        p.segments@.len() <= segments@.len(),
        path_model(p) == path_of(nodes_model(segments@), span.start as int, span.end as int),
{
    let ghost orig = nodes_model(segments@);
    let ghost original = segments@.len();
    let mut segments = segments;
    if segments.len() > 0 && is_word(&segments[0].kind, "pkg") {
        segments.remove(0);
        assert(nodes_model(segments@) =~= orig.drop_first());
        return ModulePath { anchor: PathAnchor::Pkg, segments, span };
    }
    if segments.len() > 0 && is_word(&segments[0].kind, "self") {
        segments.remove(0);
        assert(nodes_model(segments@) =~= orig.drop_first());
        return ModulePath { anchor: PathAnchor::SelfMod, segments, span };
    }
    let mut count: usize = 0;
    let ghost total = segments@.len();
    assert(segments@.len() == segments.len());
    assert(orig.skip(0) =~= orig);
    while segments.len() > 0 && is_word(&segments[0].kind, "super")
        invariant
            count + segments@.len() <= total,
            total == original,
            total <= usize::MAX,
            orig.len() == total,
            nodes_model(segments@) == orig.skip(count as int),
            leading_supers(orig) == count + leading_supers(nodes_model(segments@)),
        decreases segments@.len(),
    {
        let ghost m = nodes_model(segments@);
        segments.remove(0);
        assert(nodes_model(segments@) =~= m.drop_first());
        assert(m.drop_first() =~= orig.skip(count + 1));
        count = count + 1;
    }
    proof {
        let m = nodes_model(segments@);
        assert(leading_supers(m) == 0);
        if count > 0 {
            assert(orig[0].text == "super"@);
        }
    }
    if count > 0 {
        ModulePath { anchor: PathAnchor::Super(count), segments, span }
    } else {
        ModulePath { anchor: PathAnchor::Plain, segments, span }
    }
}

impl Parser {
    fn peek_word(&self, offset: usize, word: &str) -> (b: bool)
        requires
            self.wf(),
        ensures
            b == (self.token_index + offset < self.tokens@.len() && match self.tokens@[self.token_index + offset].kind {
                TokenKind::Identifier(n) => n@ == word@,
                _ => false,
            }),
    {
        if offset < self.tokens.len() - self.token_index {
            match &self.tokens[self.token_index + offset].kind {
                TokenKind::Identifier(name) => is_word(name, word),
                _ => false,
            }
        } else {
            false
        }
    }

    fn peek_is_identifier(&self, offset: usize) -> (b: bool)
        requires
            self.wf(),
        ensures
            b == (self.token_index + offset < self.tokens@.len() && match self.tokens@[self.token_index + offset].kind {
                TokenKind::Identifier(_) => true,
                _ => false,
            }),
    {
        if offset < self.tokens.len() - self.token_index {
            match &self.tokens[self.token_index + offset].kind {
                TokenKind::Identifier(_) => true,
                _ => false,
            }
        } else {
            false
        }
    }

    fn peek_is_symbol(&self, offset: usize) -> (b: bool)
        requires
            self.wf(),
        ensures
            b == (self.token_index + offset < self.tokens@.len() && match self.tokens@[self.token_index + offset].kind {
                TokenKind::Symbol(_) => true,
                _ => false,
            }),
    {
        if offset < self.tokens.len() - self.token_index {
            match &self.tokens[self.token_index + offset].kind {
                TokenKind::Symbol(_) => true,
                _ => false,
            }
        } else {
            false
        }
    }

    fn expect_identifier(&mut self, what: &str) -> (r: Result<Node<String>, Diagnostics>)
        requires
            old(self).wf(),
        ensures
            final(self).advanced(*old(self)),
            final(self).infix_table == old(self).infix_table,
            old(self).token_index < old(self).tokens@.len() ==> final(self).token_index == old(self).token_index + 1,
            ({
                let i = old(self).token_index as int;
                if i < old(self).tokens@.len() {
                    match old(self).tokens@[i].kind {
                        TokenKind::Identifier(name) => r matches Ok(node) && node.kind == name && node.span
                            == old(self).tokens@[i].span,
                        _ => r is Err,
                    }
                } else {
                    r is Err
                }
            }),
    {
        match self.next_token() {
            Some(t) => match t.kind {
                TokenKind::Identifier(name) => Ok(Node { kind: name, span: t.span }),
                other => Err(Diagnostics::parser_error(expected_found(what, &other), t.span)),
            },
            None => {
                let msg = concat(&concat(&lit("expected "), what), ", found EOF");
                Err(Diagnostics::parser_error(msg, self.eof_span(0)))
            },
        }
    }

    /// `name [as alias], ...}` after an opening brace.
    fn parse_items(&mut self) -> (r: Result<Vec<ItemSpec>, Diagnostics>)
        requires
            old(self).wf(),
        ensures
            final(self).advanced(*old(self)),
            final(self).infix_table == old(self).infix_table,
            match sp_items(old(self).tokens_model(), old(self).token_index as int, Seq::empty()) {
                Some((items, j)) => r matches Ok(v) && items_model(v@) == items && final(self).token_index == j,
                None => r is Err,
            },
    {
        let mut items: Vec<ItemSpec> = Vec::new();
        let ghost ts = self.tokens_model();
        proof {
            assert(items_model(items@) =~= Seq::<ItemM>::empty());
        }
        loop
            invariant
                self.wf(),
                self.advanced(*old(self)),
                self.infix_table == old(self).infix_table,
                ts == self.tokens_model(),
                sp_items(ts, old(self).token_index as int, Seq::empty()) == sp_items(
                    ts,
                    self.token_index as int,
                    items_model(items@),
                ),
            decreases self.tokens@.len() - self.token_index,
        {
            proof {
                let i = self.token_index as int;
                if i < ts.len() {
                    assert(ts[i] == self.tokens@[i]@);
                }
                if i + 1 < ts.len() {
                    assert(ts[i + 1] == self.tokens@[i + 1]@);
                }
                if i + 2 < ts.len() {
                    assert(ts[i + 2] == self.tokens@[i + 2]@);
                }
            }
            let token = match self.next_token() {
                Some(t) => t,
                None => {
                    return Err(
                        Diagnostics::parser_error(lit("expected '}', found EOF"), self.eof_span(0)),
                    );
                },
            };
            match token.kind {
                TokenKind::Symbol(sym) => {
                    if is_word(&sym, "}") {
                        return Ok(items);
                    } else if !is_word(&sym, ",") {
                        return Err(
                            Diagnostics::parser_error(
                                expected_found("',' or '}'", &TokenKind::Symbol(sym)),
                                token.span,
                            ),
                        );
                    }
                },
                TokenKind::Identifier(name) => {
                    let alias = if self.peek_word(0, "as") {
                        self.next_token();
                        Some(self.expect_identifier("alias")?)
                    } else {
                        None
                    };
                    let ghost before = items@;
                    items.push(ItemSpec { name: Node { kind: name, span: token.span }, alias });
                    proof {
                        assert(items_model(items@) =~= items_model(before).push(item_model(items@.last())));
                    }
                },
                other => {
                    return Err(
                        Diagnostics::parser_error(expected_found("item name", &other), token.span),
                    );
                },
            }
        }
    }

    /// The target after a path that ends in `::`: `*`, `{..}` or `{}`.
    fn parse_open_target(&mut self) -> (r: Result<Option<Vec<ItemSpec>>, Diagnostics>)
        requires
            old(self).wf(),
        ensures
            final(self).advanced(*old(self)),
            final(self).infix_table == old(self).infix_table,
            match sp_open_target(old(self).tokens_model(), old(self).token_index as int) {
                Some((None, j)) => r matches Ok(None) && final(self).token_index == j,
                Some((Some(items), j)) => r matches Ok(Some(v)) && items_model(v@) == items
                    && final(self).token_index == j,
                None => r is Err,
            },
    {
        let ghost ts = self.tokens_model();
        proof {
            let i = self.token_index as int;
            if i < ts.len() {
                assert(ts[i] == self.tokens@[i]@);
            }
        }
        let token = match self.next_token() {
            Some(t) => t,
            None => {
                return Err(
                    Diagnostics::parser_error(
                        lit("expected '*' or '{', found EOF"),
                        self.eof_span(0),
                    ),
                );
            },
        };
        match token.kind {
            TokenKind::Symbol(sym) => {
                if is_word(&sym, "*") {
                    Ok(None)
                } else if is_word(&sym, "{") {
                    Ok(Some(self.parse_items()?))
                } else if is_word(&sym, "{}") {
                    let v: Vec<ItemSpec> = Vec::new();
                    assert(items_model(v@) =~= Seq::<ItemM>::empty());
                    Ok(Some(v))
                } else {
                    Err(
                        Diagnostics::parser_error(
                            expected_found("'*' or '{'", &TokenKind::Symbol(sym)),
                            token.span,
                        ),
                    )
                }
            },
            other => Err(
                Diagnostics::parser_error(expected_found("'*' or '{'", &other), token.span),
            ),
        }
    }

    /// `import <path>` after the `import` word.
    fn parse_import(&mut self, start: usize) -> (r: Result<Import, Diagnostics>)
        requires
            old(self).wf(),
        ensures
            final(self).advanced(*old(self)),
            final(self).infix_table == old(self).infix_table,
            match sp_import(old(self).tokens_model(), old(self).token_index as int, start as int) {
                Some((m, j)) => r matches Ok(im) && import_model(im) == m && final(self).token_index == j,
                None => r is Err,
            },
    {
        let ghost ts = self.tokens_model();
        proof {
            let i = self.token_index as int;
            if i < ts.len() {
                assert(ts[i] == self.tokens@[i]@);
            }
            if i + 1 < ts.len() {
                assert(ts[i + 1] == self.tokens@[i + 1]@);
            }
            if i + 2 < ts.len() {
                assert(ts[i + 2] == self.tokens@[i + 2]@);
            }
        }
        let path_node = self.expect_identifier("module path")?;
        let (segments, open) = split_path(&path_node.kind, path_node.span)?;
        let path = path_from_segments(segments, path_node.span);
        if open {
            let end = if self.token_index < self.tokens.len() {
                self.tokens[self.token_index].span.end
            } else {
                path_node.span.end
            };
            let target = match self.parse_open_target()? {
                None => ImportTarget::Glob,
                Some(items) => ImportTarget::Items(items),
            };
            Ok(Import { path, target, alias: None, span: Span::new(start, end) })
        } else {
            let alias = if self.peek_word(0, "as") {
                self.next_token();
                Some(self.expect_identifier("alias")?)
            } else {
                None
            };
            Ok(
                Import {
                    path,
                    target: ImportTarget::Module,
                    alias,
                    span: Span::new(start, path_node.span.end),
                },
            )
        }
    }

    /// `export ...` after the `export` word.
    fn parse_export(&mut self, start: usize) -> (r: Result<Export, Diagnostics>)
        requires
            old(self).wf(),
        ensures
            final(self).advanced(*old(self)),
            final(self).infix_table == old(self).infix_table,
            match sp_export(old(self).tokens_model(), old(self).token_index as int, start as int) {
                Some((m, j)) => r matches Ok(ex) && export_model(ex) == m && final(self).token_index == j,
                None => r is Err,
            },
    {
        let ghost ts = self.tokens_model();
        proof {
            let i = self.token_index as int;
            if i < ts.len() {
                assert(ts[i] == self.tokens@[i]@);
            }
        }
        let token = match self.next_token() {
            Some(t) => t,
            None => {
                return Err(
                    Diagnostics::parser_error(
                        lit("expected export item, found EOF"),
                        self.eof_span(0),
                    ),
                );
            },
        };
        let span = Span::new(start, token.span.end);
        match token.kind {
            TokenKind::Symbol(sym) => {
                if is_word(&sym, "*") {
                    Ok(Export { item: ExportItem::LocalGlob, span })
                } else if is_word(&sym, "{") {
                    let items = self.parse_items()?;
                    Ok(Export { item: ExportItem::Local(items), span })
                } else if is_word(&sym, "{}") {
                    let v: Vec<ItemSpec> = Vec::new();
                    assert(items_model(v@) =~= Seq::<ItemM>::empty());
                    Ok(Export { item: ExportItem::Local(v), span })
                } else {
                    Err(
                        Diagnostics::parser_error(
                            expected_found("export item", &TokenKind::Symbol(sym)),
                            token.span,
                        ),
                    )
                }
            },
            TokenKind::Identifier(text) => {
                let (segments, open) = split_path(&text, token.span)?;
                if open {
                    let path = path_from_segments(segments, token.span);
                    match self.parse_open_target()? {
                        None => Ok(Export { item: ExportItem::FromGlob(path), span }),
                        Some(items) => Ok(Export { item: ExportItem::FromItems(path, items), span }),
                    }
                } else {
                    let mut segments = segments;
                    let ghost all = nodes_model(segments@);
                    let last = segments.pop().unwrap();
                    proof {
                        assert(nodes_model(segments@) =~= all.drop_last());
                    }
                    let item = ItemSpec { name: last, alias: None };
                    let items = vec![item];
                    proof {
                        assert(items_model(items@) =~= seq![ItemM { name: all.last(), alias: None }]);
                    }
                    if segments.len() == 0 {
                        Ok(Export { item: ExportItem::Local(items), span })
                    } else {
                        let path = path_from_segments(segments, token.span);
                        Ok(Export { item: ExportItem::FromItems(path, items), span })
                    }
                }
            },
            other => Err(
                Diagnostics::parser_error(expected_found("export item", &other), token.span),
            ),
        }
    }

    /// The whole token stream: bindings, imports and exports.
    ///
    /// On success every token has been read.
    pub fn parse(&mut self) -> (r: Result<ParseInfo, Diagnostics>)
        requires
            old(self).wf(),
        ensures
            final(self).advanced(*old(self)),
            r is Ok ==> final(self).index() == final(self).tokens_seq().len(),
            match sp_program(
                old(self).tokens_model(),
                old(self).index() as int,
                old(self).table_model(),
                ProgM { statements: Seq::empty(), imports: Seq::empty(), exports: Seq::empty() },
            ) {
                Some(m) => r matches Ok(info) && program_is(info, m),
                None => r is Err,
            },
    {
        let mut statements: Vec<Statement> = Vec::new();
        let mut imports: Vec<Import> = Vec::new();
        let mut exports: Vec<Export> = Vec::new();
        let ghost ts = self.tokens_model();
        let ghost mut acc = ProgM { statements: Seq::empty(), imports: Seq::empty(), exports: Seq::empty() };
        proof {
            assert(imports@.map_values(|im: Import| import_model(im)) =~= acc.imports);
            assert(exports@.map_values(|ex: Export| export_model(ex)) =~= acc.exports);
        }
        loop
            invariant
                self.wf(),
                self.advanced(*old(self)),
                ts == self.tokens_model(),
                statements@.len() == acc.statements.len(),
                forall|k: int| 0 <= k < acc.statements.len() ==> stmt_is(#[trigger] statements@[k], acc.statements[k]),
                imports@.map_values(|im: Import| import_model(im)) == acc.imports,
                exports@.map_values(|ex: Export| export_model(ex)) == acc.exports,
                sp_program(
                    ts,
                    old(self).token_index as int,
                    old(self).table_model(),
                    ProgM { statements: Seq::empty(), imports: Seq::empty(), exports: Seq::empty() },
                ) == sp_program(ts, self.token_index as int, self.table_model(), acc),
            decreases self.tokens@.len() - self.token_index,
        {
            proof {
                let i = self.token_index as int;
                if i < ts.len() {
                    assert(ts[i] == self.tokens@[i]@);
                }
                if i + 1 < ts.len() {
                    assert(ts[i + 1] == self.tokens@[i + 1]@);
                }
            }
            let token = match self.peek_token() {
                None => {
                    return Ok(ParseInfo { statements, imports, exports });
                },
                Some(t) => t,
            };
            match token.kind {
                TokenKind::NewLine => {
                    self.next_token();
                },
                _ => {
                    if self.peek_word(0, "import") && self.peek_is_identifier(1) {
                        self.next_token();
                        let ghost m = sp_import(ts, self.token_index as int, token.span.start as int);
                        let import = self.parse_import(token.span.start)?;
                        let ghost before = imports@;
                        imports.push(import);
                        proof {
                            acc = ProgM { imports: acc.imports.push(m->Some_0.0), ..acc };
                            assert(imports@.map_values(|im: Import| import_model(im)) =~= before.map_values(
                                |im: Import| import_model(im),
                            ).push(m->Some_0.0));
                        }
                    } else if self.peek_word(0, "export") && (self.peek_is_identifier(1)
                        || self.peek_is_symbol(1)) {
                        self.next_token();
                        let ghost m = sp_export(ts, self.token_index as int, token.span.start as int);
                        let export = self.parse_export(token.span.start)?;
                        let ghost before = exports@;
                        exports.push(export);
                        proof {
                            acc = ProgM { exports: acc.exports.push(m->Some_0.0), ..acc };
                            assert(exports@.map_values(|ex: Export| export_model(ex)) =~= before.map_values(
                                |ex: Export| export_model(ex),
                            ).push(m->Some_0.0));
                        }
                    } else if self.peek_word(0, "public") && self.peek_is_identifier(1) {
                        self.next_token();
                        let ghost m = sp_statement(ts, self.token_index as int, self.table_model());
                        let mut stat = self.parse_statement()?;
                        stat.is_public = true;
                        statements.push(stat);
                        proof {
                            acc = ProgM {
                                statements: acc.statements.push(StmtM { is_public: true, ..m->Some_0.0 }),
                                ..acc
                            };
                            assert(forall|k: int|
                                0 <= k < acc.statements.len() ==> stmt_is(#[trigger] statements@[k], acc.statements[k]));
                        }
                    } else {
                        let ghost m = sp_statement(ts, self.token_index as int, self.table_model());
                        let stat = self.parse_statement()?;
                        statements.push(stat);
                        proof {
                            acc = ProgM { statements: acc.statements.push(m->Some_0.0), ..acc };
                            assert(forall|k: int|
                                0 <= k < acc.statements.len() ==> stmt_is(#[trigger] statements@[k], acc.statements[k]));
                        }
                    }
                },
            }
        }
    }
}

impl Token {
    pub fn clone_token(&self) -> (t: Token)
        ensures
            t == *self,
    {
        Token { kind: self.kind.clone_kind(), span: self.span }
    }
}

impl TokenKind {
    pub fn clone_kind(&self) -> (k: TokenKind)
        ensures
            k == *self,
    {
        match self {
            TokenKind::Identifier(s) => TokenKind::Identifier(s.clone()),
            TokenKind::Symbol(s) => TokenKind::Symbol(s.clone()),
            TokenKind::LeftParen => TokenKind::LeftParen,
            TokenKind::RightParen => TokenKind::RightParen,
            TokenKind::Equal => TokenKind::Equal,
            TokenKind::Arrow => TokenKind::Arrow,
            TokenKind::Lambda => TokenKind::Lambda,
            TokenKind::Let => TokenKind::Let,
            TokenKind::In => TokenKind::In,
            TokenKind::Infix => TokenKind::Infix,
            TokenKind::NewLine => TokenKind::NewLine,
            TokenKind::String(s) => TokenKind::String(s.clone()),
            TokenKind::Int(n) => TokenKind::Int(*n),
        }
    }
}

} // verus!
