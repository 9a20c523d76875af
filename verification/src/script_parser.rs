//! The character-level parser of the interpreted language.
//!
//! ```text
//! statement  ::= IDENT params "=" expression [where]     (a function)
//!              | IDENT "=" expression [where]            (a variable)
//!              | "`" OP "`" IDENT IDENT "=" expression [where]
//! where      ::= "where" "{" statement* "}"
//! expression ::= primary ( "$" primary | OP primary )*
//! primary    ::= IDENT | "\" params "->" expression | "(" expression ")"
//!              | "`" OP "`" | STRING | INTEGER
//! ```
//!
//! `f $ x` applies `f` to `x`; `a op b` applies the operator `op` to `a`
//! and then to `b`, all from left to right. Spans are byte offsets.

use vstd::prelude::*;

use crate::diagnostics::{Diagnostics, Origin, Span};
use crate::interpreter::{Expression, ExpressionNode, Statement, StatementNode};
use crate::text::{
    byte_len, byte_offset, char_width, chars_of, concat, is_ascii_digit_char, is_ascii_letter, is_digit, is_letter,
    is_whitespace, is_whitespace_char, lemma_byte_offset_monotone, owned, string_from_chars, substring, utf8_len,
};
use crate::tokenizer::{digits_value, lemma_digits_value_nonneg, lemma_digits_value_push};

verus! {

pub open spec fn is_ident_start(c: char) -> bool {
    is_ascii_letter(c) || c == '_'
}

pub open spec fn is_ident_continue(c: char) -> bool {
    is_ascii_letter(c) || is_ascii_digit_char(c) || c == '_' || c == ':'
}

fn ident_start(c: char) -> (b: bool)
    ensures
        b == is_ident_start(c),
{
    is_letter(c) || c == '_'
}

fn ident_continue(c: char) -> (b: bool)
    ensures
        b == is_ident_continue(c),
{
    is_letter(c) || is_digit(c) || c == '_' || c == ':'
}

/// The end of the run of identifier characters from `i`.
pub open spec fn ident_end(s: Seq<char>, i: int) -> int
    decreases s.len() - i,
{
    if 0 <= i < s.len() && is_ident_continue(s[i]) {
        ident_end(s, i + 1)
    } else {
        i
    }
}

proof fn lemma_ident_end(s: Seq<char>, i: int)
    requires
        0 <= i <= s.len(),
    ensures
        i <= ident_end(s, i) <= s.len(),
    decreases s.len() - i,
{
    if i < s.len() && is_ident_continue(s[i]) {
        lemma_ident_end(s, i + 1);
    }
}

/// The first index from `i` that holds no whitespace.
pub open spec fn ws_end(s: Seq<char>, i: int) -> int
    decreases s.len() - i,
{
    if 0 <= i < s.len() && is_whitespace_char(s[i]) {
        ws_end(s, i + 1)
    } else {
        i
    }
}

/// The first index from `i` that holds `"`, or the end.
pub open spec fn quote_end(s: Seq<char>, i: int) -> int
    decreases s.len() - i,
{
    if 0 <= i < s.len() && s[i] != '"' {
        quote_end(s, i + 1)
    } else {
        i
    }
}

/// The first index from `i` that holds no digit.
pub open spec fn digit_end(s: Seq<char>, i: int) -> int
    decreases s.len() - i,
{
    if 0 <= i < s.len() && is_ascii_digit_char(s[i]) {
        digit_end(s, i + 1)
    } else {
        i
    }
}

/// Whether `c` ends the name between backticks.
pub open spec fn ends_backticked(c: char) -> bool {
    c == '`' || c == ')' || is_ident_start(c) || is_whitespace_char(c)
}

/// The first index from `i` that ends a name between backticks, or the end.
pub open spec fn tick_end(s: Seq<char>, i: int) -> int
    decreases s.len() - i,
{
    if 0 <= i < s.len() && !ends_backticked(s[i]) {
        tick_end(s, i + 1)
    } else {
        i
    }
}

/// Whether `c` ends an infix operator.
pub open spec fn ends_operator(c: char) -> bool {
    c == '`' || is_whitespace_char(c) || is_ident_start(c)
}

/// The first index from `i` that ends an infix operator, or the end.
pub open spec fn op_end(s: Seq<char>, i: int) -> int
    decreases s.len() - i,
{
    if 0 <= i < s.len() && !ends_operator(s[i]) {
        op_end(s, i + 1)
    } else {
        i
    }
}

pub proof fn lemma_scan_ends(s: Seq<char>, i: int)
    requires
        0 <= i <= s.len(),
    ensures
        i <= ws_end(s, i) <= s.len(),
        i <= quote_end(s, i) <= s.len(),
        i <= digit_end(s, i) <= s.len(),
        i <= tick_end(s, i) <= s.len(),
        i <= op_end(s, i) <= s.len(),
        i <= ident_end(s, i) <= s.len(),
    decreases s.len() - i,
{
    if i < s.len() {
        lemma_scan_ends(s, i + 1);
    }
}

/// A longer run of digits has a value at least as large.
pub proof fn lemma_digits_prefix(s: Seq<char>, from: int, a: int, b: int)
    requires
        0 <= from <= a <= b <= s.len(),
        forall|k: int| from <= k < b ==> is_ascii_digit_char(#[trigger] s[k]),
    ensures
        digits_value(s.subrange(from, a)) <= digits_value(s.subrange(from, b)),
    decreases b - a,
{
    if a < b {
        lemma_digits_prefix(s, from, a, b - 1);
        assert(s.subrange(from, b) =~= s.subrange(from, b - 1).push(s[b - 1]));
        lemma_digits_value_push(s.subrange(from, b - 1), s[b - 1]);
        lemma_digits_value_nonneg(s.subrange(from, b - 1));
    }
}

/// A parsed expression with the byte offsets it spans.
pub struct PExpr {
    pub kind: PExprKind,
    pub start: int,
    pub end: int,
}

pub enum PExprKind {
    Variable(Seq<char>),
    Function(Seq<Seq<char>>, Box<PExpr>),
    Group(Box<PExpr>),
    Integer(int),
    Str(Seq<char>),
    Call(Box<PExpr>, Box<PExpr>),
}

/// A parsed statement with the byte offsets it spans.
pub struct PStmt {
    pub kind: PStmtKind,
    pub start: int,
    pub end: int,
}

pub enum PStmtKind {
    Function { name: Seq<char>, params: Seq<Seq<char>>, body: PExpr, where_clause: Seq<PStmt> },
    Variable { name: Seq<char>, value: PExpr, where_clause: Seq<PStmt> },
}

pub open spec fn names_are(v: Seq<String>, names: Seq<Seq<char>>) -> bool {
    v.len() == names.len() && forall|k: int| 0 <= k < v.len() ==> (#[trigger] v[k])@ == names[k]
}

/// `e` is the expression `m`.
pub open spec fn expr_is(e: ExpressionNode, m: PExpr) -> bool
    decreases e,
{
    &&& e.span.start == m.start
    &&& e.span.end == m.end
    &&& match e.kind {
        Expression::Variable { name } => m.kind == PExprKind::Variable(name@),
        Expression::Function { params, body } => match m.kind {
            PExprKind::Function(ps, b) => names_are(params@, ps) && expr_is(*body, *b),
            _ => false,
        },
        Expression::Group { inner } => match m.kind {
            PExprKind::Group(b) => expr_is(*inner, *b),
            _ => false,
        },
        Expression::Integer(n) => m.kind == PExprKind::Integer(n as int),
        Expression::String(t) => m.kind == PExprKind::Str(t@),
        Expression::Call { callee, arg } => match m.kind {
            PExprKind::Call(f, a) => expr_is(*callee, *f) && expr_is(*arg, *a),
            _ => false,
        },
    }
}

/// `st` is the statement `m`.
pub open spec fn stmt_is(st: StatementNode, m: PStmt) -> bool
    decreases st,
{
    &&& st.span.start == m.start
    &&& st.span.end == m.end
    &&& match st.kind {
        Statement::Function { name, params, body, where_clause } => match m.kind {
            PStmtKind::Function { name: n, params: ps, body: b, where_clause: w } => {
                &&& name@ == n
                &&& names_are(params@, ps)
                &&& expr_is(body, b)
                &&& where_clause@.len() == w.len()
                &&& forall|k: int| 0 <= k < w.len() ==> stmt_is(#[trigger] where_clause@[k], w[k])
            },
            _ => false,
        },
        Statement::Variable { name, value, where_clause } => match m.kind {
            PStmtKind::Variable { name: n, value: b, where_clause: w } => {
                &&& name@ == n
                &&& expr_is(value, b)
                &&& where_clause@.len() == w.len()
                &&& forall|k: int| 0 <= k < w.len() ==> stmt_is(#[trigger] where_clause@[k], w[k])
            },
            _ => false,
        },
    }
}

/// `stats` are the statements `ms`.
pub open spec fn stmts_are(stats: Seq<StatementNode>, ms: Seq<PStmt>) -> bool {
    stats.len() == ms.len() && forall|k: int| 0 <= k < ms.len() ==> stmt_is(#[trigger] stats[k], ms[k])
}

/// The names of a parameter list from `i`, and where it ends: names up to
/// the first character that cannot continue a name. A character that can
/// continue but not start a name, or the end of the text, is an error.
pub open spec fn spec_params(s: Seq<char>, i: int) -> Option<(Seq<Seq<char>>, int)>
    decreases s.len() - i,
{
    let p = ws_end(s, i);
    if i < 0 || i > s.len() || p >= s.len() {
        None
    } else if !is_ident_continue(s[p]) {
        Some((Seq::empty(), p))
    } else if !is_ident_start(s[p]) {
        None
    } else {
        let e = ident_end(s, p);
        proof {
            lemma_scan_ends(s, i);
            lemma_scan_ends(s, p + 1);
        }
        match spec_params(s, e) {
            Some((ps, j)) => Some((seq![s.subrange(p, e)] + ps, j)),
            None => None,
        }
    }
}

/// `c`, skipping whitespace from `i`: the index after it.
pub open spec fn spec_expect(s: Seq<char>, i: int, c: char) -> Option<int> {
    let p = ws_end(s, i);
    if 0 <= p < s.len() && s[p] == c {
        Some(p + 1)
    } else {
        None
    }
}

pub open spec fn pexpr(kind: PExprKind, s: Seq<char>, from: int, to: int) -> PExpr {
    PExpr { kind, start: byte_offset(s, from) as int, end: byte_offset(s, to) as int }
}

/// A primary expression from `i`, and where it ends.
pub open spec fn spec_primary(s: Seq<char>, i: int) -> Option<(PExpr, int)>
    decreases s.len() - i, 0int,
{
    let p = ws_end(s, i);
    if i < 0 || i > s.len() || p >= s.len() {
        None
    } else {
        let c = s[p];
        proof {
            lemma_scan_ends(s, i);
        }
        if is_ident_start(c) {
            let e = ident_end(s, p);
            Some((pexpr(PExprKind::Variable(s.subrange(p, e)), s, p, e), e))
        } else if c == '\\' {
            match spec_params(s, p + 1) {
                Some((ps, j)) => match spec_expect(s, ws_end(s, j), '-') {
                    Some(k) => match spec_expect(s, k, '>') {
                        Some(k2) => if k2 > i {
                            match spec_expression(s, k2) {
                                Some((body, m)) => Some((pexpr(PExprKind::Function(ps, Box::new(body)), s, p, m), m)),
                                None => None,
                            }
                        } else {
                            None
                        },
                        None => None,
                    },
                    None => None,
                },
                None => None,
            }
        } else if c == '(' {
            match spec_expression(s, p + 1) {
                Some((inner, j)) => match spec_expect(s, j, ')') {
                    Some(k) => Some((pexpr(PExprKind::Group(Box::new(inner)), s, p, k), k)),
                    None => None,
                },
                None => None,
            }
        } else if c == '`' {
            let to = tick_end(s, p + 1);
            if to < s.len() && s[to] == '`' {
                Some((pexpr(PExprKind::Variable(s.subrange(p + 1, to)), s, p, to + 1), to + 1))
            } else {
                None
            }
        } else if c == '"' {
            let to = quote_end(s, p + 1);
            if to < s.len() {
                Some((pexpr(PExprKind::Str(s.subrange(p + 1, to)), s, p, to + 1), to + 1))
            } else {
                None
            }
        } else if is_ascii_digit_char(c) {
            let e = digit_end(s, p);
            let v = digits_value(s.subrange(p, e));
            if (e < s.len() && is_ident_start(s[e])) || v > 32767 {
                None
            } else {
                Some((pexpr(PExprKind::Integer(v), s, p, e), e))
            }
        } else {
            None
        }
    }
}

/// An expression from `i`, and where it ends.
pub open spec fn spec_expression(s: Seq<char>, i: int) -> Option<(PExpr, int)>
    decreases s.len() - i, 1int,
{
    if i < 0 || i > s.len() {
        None
    } else {
        match spec_primary(s, i) {
            Some((first, j)) => if i < j <= s.len() {
                spec_expression_tail(s, j, first, byte_offset(s, i) as int)
            } else {
                None
            },
            None => None,
        }
    }
}

/// The rest of an expression from `i`, after `acc`, which started at byte `start`:
/// `$ primary` and `OP primary` apply from the left; an identifier, a
/// backtick, `)` or the end of the text ends it. An operator that runs
/// into the end of the text is dropped.
pub open spec fn spec_expression_tail(s: Seq<char>, i: int, acc: PExpr, start: int) -> Option<(PExpr, int)>
    decreases s.len() - i, 2int,
{
    let p = ws_end(s, i);
    if i < 0 || i > s.len() {
        None
    } else if p >= s.len() {
        Some((acc, p))
    } else {
        proof {
            lemma_scan_ends(s, i);
            lemma_scan_ends(s, p + 1);
        }
        let c = s[p];
        if c == '$' {
            match spec_primary(s, p + 1) {
                Some((arg, j)) => if i < j <= s.len() {
                    let node = PExpr {
                        kind: PExprKind::Call(Box::new(acc), Box::new(arg)),
                        start,
                        end: byte_offset(s, j) as int,
                    };
                    spec_expression_tail(s, j, node, start)
                } else {
                    None
                },
                None => None,
            }
        } else if is_ident_start(c) || c == '`' || c == ')' {
            Some((acc, p))
        } else {
            let k = op_end(s, p + 1);
            if k >= s.len() {
                Some((acc, s.len() as int))
            } else if s[k] == '`' {
                None
            } else {
                let callee = pexpr(PExprKind::Variable(s.subrange(p, k)), s, p, k);
                let partial = PExpr {
                    kind: PExprKind::Call(Box::new(callee), Box::new(acc)),
                    start,
                    end: byte_offset(s, k) as int,
                };
                match spec_primary(s, k) {
                    Some((rhs, j)) => if i < j <= s.len() {
                        let node = PExpr {
                            kind: PExprKind::Call(Box::new(partial), Box::new(rhs)),
                            start,
                            end: byte_offset(s, j) as int,
                        };
                        spec_expression_tail(s, j, node, start)
                    } else {
                        None
                    },
                    None => None,
                }
            }
        }
    }
}

pub open spec fn pstmt(kind: PStmtKind, s: Seq<char>, from: int, to: int) -> PStmt {
    PStmt { kind, start: byte_offset(s, from) as int, end: byte_offset(s, to) as int }
}

/// The definition that follows the name of a statement: its body and its
/// `where` block, from `i`, and where they end.
pub open spec fn spec_definition(s: Seq<char>, i: int, from: int) -> Option<(PExpr, Seq<PStmt>, int)>
    decreases s.len() - from, 1int,
{
    match spec_expression(s, i) {
        Some((body, m)) => if from < m <= s.len() {
            match spec_where(s, m) {
                Some((w, n)) => Some((body, w, n)),
                None => None,
            }
        } else {
            None
        },
        None => None,
    }
}

/// A statement from `i`, and where it ends.
pub open spec fn spec_statement(s: Seq<char>, i: int) -> Option<(PStmt, int)>
    decreases s.len() - i, 2int,
{
    let p = ws_end(s, i);
    if i < 0 || i > s.len() || p >= s.len() {
        None
    } else {
        proof {
            lemma_scan_ends(s, i);
            lemma_scan_ends(s, p + 1);
        }
        let c = s[p];
        if is_ident_start(c) {
            let e = ident_end(s, p);
            let name = s.subrange(p, e);
            let q = ws_end(s, e);
            if q >= s.len() {
                None
            } else if is_ident_start(s[q]) {
                match spec_params(s, q) {
                    Some((ps, j)) => match spec_expect(s, j, '=') {
                        Some(k) => match spec_definition(s, k, i) {
                            Some((body, w, n)) => Some((
                                pstmt(
                                    PStmtKind::Function { name, params: ps, body, where_clause: w },
                                    s,
                                    p,
                                    n,
                                ),
                                n,
                            )),
                            None => None,
                        },
                        None => None,
                    },
                    None => None,
                }
            } else if s[q] == '=' {
                match spec_definition(s, q + 1, i) {
                    Some((value, w, n)) => Some(
                        (pstmt(PStmtKind::Variable { name, value, where_clause: w }, s, p, n), n),
                    ),
                    None => None,
                }
            } else {
                None
            }
        } else if c == '`' {
            let to = tick_end(s, p + 1);
            if to < s.len() && s[to] == '`' {
                let name = s.subrange(p + 1, to);
                match spec_params(s, ws_end(s, to + 1)) {
                    Some((ps, j)) => if ps.len() != 2 {
                        None
                    } else {
                        match spec_expect(s, ws_end(s, j), '=') {
                            Some(k) => match spec_definition(s, k, i) {
                                Some((body, w, n)) => Some((
                                    pstmt(
                                        PStmtKind::Function { name, params: ps, body, where_clause: w },
                                        s,
                                        p,
                                        n,
                                    ),
                                    n,
                                )),
                                None => None,
                            },
                            None => None,
                        }
                    },
                    None => None,
                }
            } else {
                None
            }
        } else {
            None
        }
    }
}

/// An optional `where { statement* }` from `i`, and where it ends.
pub open spec fn spec_where(s: Seq<char>, i: int) -> Option<(Seq<PStmt>, int)>
    decreases s.len() - i, 0int,
{
    let p = ws_end(s, i);
    if i < 0 || i > s.len() {
        None
    } else {
        proof {
            lemma_scan_ends(s, i);
        }
        if p + 5 <= s.len() && s.subrange(p, p + 5) == "where"@ {
            proof {
                lemma_scan_ends(s, p + 5);
            }
            match spec_expect(s, p + 5, '{') {
                Some(k) => spec_block_items(s, k, Seq::empty()),
                None => None,
            }
        } else {
            Some((Seq::empty(), p))
        }
    }
}

/// The statements of a block from `i`, after `acc`, up to and past its `}`.
pub open spec fn spec_block_items(s: Seq<char>, i: int, acc: Seq<PStmt>) -> Option<(Seq<PStmt>, int)>
    decreases s.len() - i, 3int,
{
    let p = ws_end(s, i);
    if i < 0 || i > s.len() || p >= s.len() {
        None
    } else if s[p] == '}' {
        Some((acc, p + 1))
    } else {
        proof {
            lemma_scan_ends(s, i);
        }
        match spec_statement(s, p) {
            Some((st, j)) => if i < j <= s.len() {
                spec_block_items(s, j, acc.push(st))
            } else {
                None
            },
            None => None,
        }
    }
}

/// The statements from `i` to the end of the text, after `acc`.
pub open spec fn spec_statements(s: Seq<char>, i: int, acc: Seq<PStmt>) -> Option<Seq<PStmt>>
    decreases s.len() - i,
{
    if i < 0 || i > s.len() {
        None
    } else if i == s.len() {
        Some(acc)
    } else {
        match spec_statement(s, i) {
            Some((st, j)) => {
                let k = ws_end(s, j);
                if i < k <= s.len() {
                    spec_statements(s, k, acc.push(st))
                } else {
                    None
                }
            },
            None => None,
        }
    }
}

/// The parser's state: the source's characters, the index of the next one,
/// and its byte offset.
pub struct Parser {
    source: Vec<char>,
    pos: usize,
    current: usize,
    total: usize,
}

fn error(message: String, start: usize, end: usize) -> (d: Diagnostics)
    ensures
        d.origin == Origin::Parser,
        d.message == message,
        d.span.start == start,
        d.span.end == end,
{
    Diagnostics::parser_error(message, Span::new(start, end))
}

fn char_text(c: char) -> (s: String)
    ensures
        s@ == seq![c],
{
    string_from_chars(&[c])
}

fn wrapped(head: &str, c: char, tail: &str) -> (s: String)
    ensures
        s@ == head@ + seq![c] + tail@,
{
    concat(&concat(&owned(head), char_text(c).as_str()), tail)
}

impl Parser {
    pub closed spec fn chars(&self) -> Seq<char> {
        self.source@
    }

    pub closed spec fn index(&self) -> int {
        self.pos as int
    }

    /// The byte offset of the next character.
    pub closed spec fn offset(&self) -> int {
        self.current as int
    }

    pub closed spec fn wf(&self) -> bool {
        &&& self.pos <= self.source@.len()
        &&& self.current as nat == byte_offset(self.source@, self.pos as int)
        &&& self.total as nat == utf8_len(self.source@)
    }

    /// How many characters are left.
    pub closed spec fn remaining(&self) -> int {
        self.source@.len() - self.pos
    }

    /// The parser has kept its source and moved forward.
    pub open spec fn moved_on(&self, before: Parser) -> bool {
        &&& self.wf()
        &&& self.chars() == before.chars()
        &&& self.index() >= before.index()
        &&& self.offset() >= before.offset()
    }

    pub fn new(source: &str) -> (p: Parser)
        ensures
            p.wf(),
            p.chars() == source@,
            p.index() == 0,
    {
        let chars = chars_of(source);
        let total = byte_len(source);
        Parser { source: chars, pos: 0, current: 0, total }
    }

    fn peek(&self) -> (c: Option<char>)
        requires
            self.wf(),
        ensures
            match c {
                Some(ch) => self.pos < self.source@.len() && ch == self.source@[self.pos as int],
                None => self.pos == self.source@.len(),
            },
    {
        if self.pos < self.source.len() {
            Some(self.source[self.pos])
        } else {
            None
        }
    }

    /// Step past the next character, which exists.
    fn fast_advance(&mut self)
        requires
            old(self).wf(),
            old(self).pos < old(self).source@.len(),
        ensures
            final(self).wf(),
            final(self).source@ == old(self).source@,
            final(self).pos == old(self).pos + 1,
            final(self).current > old(self).current,
    {
        let n = self.source.len();
        proof {
            lemma_byte_offset_monotone(self.source@, self.pos + 1, self.source@.len() as int);
        }
        let w = char_width(self.source[self.pos]);
        self.current = self.current + w;
        self.pos = self.pos + 1;
    }

    fn skip_whitespace(&mut self)
        requires
            old(self).wf(),
        ensures
            final(self).moved_on(*old(self)),
            final(self).pos == old(self).pos || final(self).pos > old(self).pos,
            final(self).pos < final(self).source@.len() ==> !is_whitespace_char(
                final(self).source@[final(self).pos as int],
            ),
            (old(self).pos < old(self).source@.len() && !is_whitespace_char(old(self).source@[old(self).pos as int]))
                ==> final(self).pos == old(self).pos,
            final(self).pos == ws_end(old(self).source@, old(self).pos as int),
    {
        while self.pos < self.source.len() && is_whitespace(self.source[self.pos])
            invariant
                self.moved_on(*old(self)),
                (old(self).pos < old(self).source@.len() && !is_whitespace_char(old(self).source@[old(self).pos as int]))
                    ==> self.pos == old(self).pos,
                ws_end(self.source@, self.pos as int) == ws_end(old(self).source@, old(self).pos as int),
            decreases self.source@.len() - self.pos,
        {
            self.fast_advance();
        }
    }

    /// Skip whitespace, then consume `target`.
    fn expect(&mut self, target: char) -> (r: Result<(), Diagnostics>)
        requires
            old(self).wf(),
        ensures
            r matches Err(d) ==> d.origin == Origin::Parser,
            final(self).moved_on(*old(self)),
            r is Ok ==> final(self).pos > old(self).pos && final(self).source@[final(self).pos - 1] == target,
            match spec_expect(old(self).source@, old(self).pos as int, target) {
                Some(k) => r is Ok && final(self).pos == k,
                None => r is Err,
            },
    {
        self.skip_whitespace();
        let start = self.current;
        match self.peek() {
            Some(ch) => {
                self.fast_advance();
                if ch == target {
                    Ok(())
                } else {
                    let m = concat(&concat(&wrapped("expect '", target, "', got '"), char_text(ch).as_str()), "'");
                    Err(error(m, start, self.current))
                }
            },
            None => Err(error(wrapped("expect '", target, "', got EOF"), start, self.current)),
        }
    }

    /// An identifier: a letter or `_`, then letters, digits, `_` and `:`.
    fn parse_identifier(&mut self) -> (r: Result<String, Diagnostics>)
        requires
            old(self).wf(),
        ensures
            r matches Err(d) ==> d.origin == Origin::Parser,
            final(self).moved_on(*old(self)),
            match r {
                Ok(name) => old(self).pos < old(self).source@.len() && is_ident_start(
                    old(self).source@[old(self).pos as int],
                ) && final(self).pos == ident_end(old(self).source@, old(self).pos as int) && name@
                    == old(self).source@.subrange(old(self).pos as int, final(self).pos as int),
                Err(_) => final(self).pos == old(self).pos && !(old(self).pos < old(self).source@.len()
                    && is_ident_start(old(self).source@[old(self).pos as int])),
            },
            r is Ok ==> final(self).index() > old(self).index(),
    {
        let start = self.current;
        let from = self.pos;
        match self.peek() {
            Some(ch) => {
                if ident_start(ch) {
                    self.fast_advance();
                    while self.pos < self.source.len() && ident_continue(self.source[self.pos])
                        invariant
                            self.moved_on(*old(self)),
                            from == old(self).pos,
                            from < self.pos,
                            ident_end(self.source@, self.pos as int) == ident_end(self.source@, from as int),
                        decreases self.source@.len() - self.pos,
                    {
                        self.fast_advance();
                    }
                    Ok(substring(&self.source, from, self.pos))
                } else {
                    Err(error(wrapped("expect identifier, got ", ch, ""), start, self.current))
                }
            },
            None => Err(error(owned("expect identifier, got EOR"), start, self.current)),
        }
    }

    /// A string between double quotes, with no escapes.
    fn parse_string(&mut self) -> (r: Result<String, Diagnostics>)
        requires
            old(self).wf(),
        ensures
            r matches Err(d) ==> d.origin == Origin::Parser,
            final(self).moved_on(*old(self)),
            r is Ok ==> final(self).index() > old(self).index(),
            ({
                let s = old(self).source@;
                let p = ws_end(s, old(self).pos as int);
                if p < s.len() && s[p] == '"' && quote_end(s, p + 1) < s.len() {
                    r matches Ok(t) && t@ == s.subrange(p + 1, quote_end(s, p + 1)) && final(self).pos
                        == quote_end(s, p + 1) + 1
                } else {
                    r is Err
                }
            }),
    {
        proof {
            lemma_scan_ends(self.source@, self.pos as int);
        }
        self.expect('"')?;
        let from = self.pos;
        while self.pos < self.source.len() && self.source[self.pos] != '"'
            invariant
                self.moved_on(*old(self)),
                self.pos > old(self).pos,
                from <= self.pos,
                quote_end(self.source@, self.pos as int) == quote_end(self.source@, from as int),
            decreases self.source@.len() - self.pos,
        {
            self.fast_advance();
        }
        let to = self.pos;
        self.expect('"')?;
        Ok(substring(&self.source, from, to))
    }

    /// A decimal integer that fits in `i16`.
    fn parse_integer(&mut self) -> (r: Result<i16, Diagnostics>)
        requires
            old(self).wf(),
        ensures
            r matches Err(d) ==> d.origin == Origin::Parser,
            final(self).moved_on(*old(self)),
            r is Ok ==> final(self).index() > old(self).index(),
            old(self).pos < old(self).source@.len() && is_ascii_digit_char(old(self).source@[old(self).pos as int])
                ==> ({
                let s = old(self).source@;
                let e = digit_end(s, old(self).pos as int);
                let v = digits_value(s.subrange(old(self).pos as int, e));
                if (e < s.len() && is_ident_start(s[e])) || v > 32767 {
                    r is Err
                } else {
                    r matches Ok(n) && n as int == v && final(self).pos == e
                }
            }),
    {
        let start = self.current;
        let from = self.pos;
        self.skip_whitespace();
        let digits_from = self.pos;
        proof {
            lemma_scan_ends(self.source@, digits_from as int);
        }
        loop
            invariant
                self.moved_on(*old(self)),
                from == old(self).pos,
                start == old(self).current,
                digits_from <= self.pos,
                forall|k: int| digits_from <= k < self.pos ==> is_ascii_digit_char(#[trigger] self.source@[k]),
                (old(self).pos < old(self).source@.len() && is_ascii_digit_char(old(self).source@[old(self).pos as int]))
                    ==> digits_from == from,
                digit_end(self.source@, self.pos as int) == digit_end(self.source@, digits_from as int),
                self.pos > digits_from ==> self.current > old(self).current,
            ensures
                self.moved_on(*old(self)),
                digits_from <= self.pos,
                forall|k: int| digits_from <= k < self.pos ==> is_ascii_digit_char(#[trigger] self.source@[k]),
                (old(self).pos < old(self).source@.len() && is_ascii_digit_char(old(self).source@[old(self).pos as int]))
                    ==> digits_from == from,
                digit_end(self.source@, self.pos as int) == digit_end(self.source@, digits_from as int),
                self.pos == self.source@.len() || !is_ascii_digit_char(self.source@[self.pos as int]),
                self.pos == self.source@.len() || !is_ident_start(self.source@[self.pos as int]),
                self.pos > digits_from ==> self.current > old(self).current,
            decreases self.source@.len() - self.pos,
        {
            match self.peek() {
                Some(c) => {
                    if is_digit(c) {
                        self.fast_advance();
                    } else if ident_start(c) {
                        return Err(error(wrapped("expect 0~9, got ", c, ""), start, self.current.saturating_add(1)));
                    } else {
                        break;
                    }
                },
                None => break,
            }
        }
        proof {
            assert(digit_end(self.source@, self.pos as int) == self.pos);
        }
        if self.current == start {
            return Err(error(owned("expect 0~9, got EOF"), start, self.current.saturating_add(1)));
        }
        if digits_from == from {
            let mut acc: i32 = 0;
            let mut k = from;
            while k < self.pos
                invariant
                    self.moved_on(*old(self)),
                    from == old(self).pos,
                    from <= k <= self.pos,
                    forall|m: int| from <= m < self.pos ==> is_ascii_digit_char(#[trigger] self.source@[m]),
                    0 <= acc <= 32767,
                    acc as int == digits_value(self.source@.subrange(from as int, k as int)),
                    self.pos == digit_end(self.source@, from as int),
                    self.pos == self.source@.len() || !is_ident_start(self.source@[self.pos as int]),
                decreases self.pos - k,
            {
                let d = (self.source[k] as u32 - '0' as u32) as i32;
                proof {
                    assert(self.source@.subrange(from as int, k as int + 1) =~= self.source@.subrange(
                        from as int,
                        k as int,
                    ).push(self.source@[k as int]));
                    lemma_digits_value_push(self.source@.subrange(from as int, k as int), self.source@[k as int]);
                }
                let next = acc * 10 + d;
                if next > 32767 {
                    proof {
                        lemma_digits_prefix(self.source@, from as int, k + 1, self.pos as int);
                    }
                    let text = substring(&self.source, from, self.pos);
                    return Err(error(concat(&owned("Overflow integer: "), text.as_str()), start, self.current));
                }
                acc = next;
                k = k + 1;
            }
            Ok(acc as i16)
        } else {
            let text = substring(&self.source, from, self.pos);
            Err(error(concat(&owned("Overflow integer: "), text.as_str()), start, self.current))
        }
    }

    /// Parameter names up to the first character that cannot continue an
    /// identifier.
    fn parse_params(&mut self) -> (r: Result<Vec<String>, Diagnostics>)
        requires
            old(self).wf(),
        ensures
            r matches Err(d) ==> d.origin == Origin::Parser,
            final(self).moved_on(*old(self)),
            match spec_params(old(self).source@, old(self).pos as int) {
                Some((ps, j)) => r matches Ok(v) && names_are(v@, ps) && final(self).pos == j,
                None => r is Err,
            },
    {
        let start = self.current;
        let mut params: Vec<String> = Vec::new();
        let ghost mut gp: Seq<Seq<char>> = Seq::empty();
        proof {
            match spec_params(self.source@, self.pos as int) {
                Some((ps, j)) => {
                    assert(gp + ps =~= ps);
                },
                None => {},
            }
        }
        loop
            invariant
                self.moved_on(*old(self)),
                names_are(params@, gp),
                spec_params(old(self).source@, old(self).pos as int) == (match spec_params(
                    self.source@,
                    self.pos as int,
                ) {
                    Some((ps, j)) => Some((gp + ps, j)),
                    None => None,
                }),
            decreases self.source@.len() - self.pos,
        {
            let ghost at = self.pos as int;
            proof {
                lemma_scan_ends(self.source@, at);
            }
            self.skip_whitespace();
            match self.peek() {
                Some(ch) => {
                    if ident_continue(ch) {
                        let p = self.parse_identifier()?;
                        proof {
                            let e = self.pos as int;
                            match spec_params(self.source@, e) {
                                Some((ps, j)) => {
                                    assert(gp + (seq![p@] + ps) =~= gp.push(p@) + ps);
                                },
                                None => {},
                            }
                            gp = gp.push(p@);
                        }
                        params.push(p);
                    } else {
                        proof {
                            assert(gp + Seq::<Seq<char>>::empty() =~= gp);
                        }
                        return Ok(params);
                    }
                },
                None => {
                    return Err(error(owned("expect params, got EOF"), start, self.current));
                },
            }
        }
    }

    /// `{ statement* }`.
    fn parse_bracket_block(&mut self) -> (r: Result<Vec<StatementNode>, Diagnostics>)
        requires
            old(self).wf(),
        ensures
            r matches Err(d) ==> d.origin == Origin::Parser,
            final(self).moved_on(*old(self)),
            r is Ok ==> final(self).index() > old(self).index(),
            match spec_expect(old(self).source@, old(self).pos as int, '{') {
                Some(k) => match spec_block_items(old(self).source@, k, Seq::empty()) {
                    Some((ms, n)) => r matches Ok(v) && stmts_are(v@, ms) && final(self).pos == n,
                    None => r is Err,
                },
                None => r is Err,
            },
        decreases old(self).remaining(), 1nat,
    {
        let start = self.current;
        self.expect('{')?;
        let mut block: Vec<StatementNode> = Vec::new();
        let ghost mut ms: Seq<PStmt> = Seq::empty();
        let ghost k0 = self.pos as int;
        loop
            invariant
                self.moved_on(*old(self)),
                self.pos > old(self).pos,
                stmts_are(block@, ms),
                spec_expect(old(self).source@, old(self).pos as int, '{') == Some(k0),
                spec_block_items(self.source@, k0, Seq::empty()) == spec_block_items(
                    self.source@,
                    self.pos as int,
                    ms,
                ),
            decreases self.source@.len() - self.pos,
        {
            let ghost i = self.pos as int;
            proof {
                lemma_scan_ends(self.source@, i);
            }
            self.skip_whitespace();
            match self.peek() {
                Some(ch) => {
                    if ch == '}' {
                        self.fast_advance();
                        return Ok(block);
                    } else {
                        let ghost p = self.pos as int;
                        let st = self.parse_statement()?;
                        proof {
                            let m = spec_statement(self.source@, p).unwrap().0;
                            assert(block@.push(st) =~= block@.push(st));
                            assert forall|k: int| 0 <= k < ms.push(m).len() implies stmt_is(
                                #[trigger] block@.push(st)[k],
                                ms.push(m)[k],
                            ) by {
                                if k < ms.len() {
                                    assert(block@.push(st)[k] == block@[k]);
                                }
                            }
                            ms = ms.push(m);
                        }
                        block.push(st);
                    }
                },
                None => {
                    return Err(error(owned("expect '}', got EOF"), start, self.current));
                },
            }
        }
    }

    /// Whether the next five characters are `where`.
    fn at_where(&self) -> (b: bool)
        requires
            self.wf(),
        ensures
            b == (self.pos + 5 <= self.source@.len() && self.source@.subrange(self.pos as int, self.pos + 5)
                == "where"@),
    {
        if self.source.len() - self.pos < 5 {
            return false;
        }
        let w = chars_of("where");
        proof {
            reveal_strlit("where");
        }
        let n = self.source.len();
        let mut k: usize = 0;
        while k < 5
            invariant
                self.wf(),
                n == self.source@.len(),
                self.pos + 5 <= self.source@.len(),
                w@ == "where"@,
                w@.len() == 5,
                k <= 5,
                forall|m: int| 0 <= m < k ==> self.source@[self.pos + m] == w@[m],
            decreases 5 - k,
        {
            if self.source[self.pos + k] != w[k] {
                proof {
                    assert(self.source@.subrange(self.pos as int, self.pos + 5)[k as int] != w@[k as int]);
                }
                return false;
            }
            k = k + 1;
        }
        assert(self.source@.subrange(self.pos as int, self.pos + 5) =~= w@);
        true
    }

    /// An optional `where { ... }` block after a definition.
    fn parse_where(&mut self) -> (r: Result<Vec<StatementNode>, Diagnostics>)
        requires
            old(self).wf(),
        ensures
            r matches Err(d) ==> d.origin == Origin::Parser,
            final(self).moved_on(*old(self)),
            match spec_where(old(self).source@, old(self).pos as int) {
                Some((ms, n)) => r matches Ok(v) && stmts_are(v@, ms) && final(self).pos == n,
                None => r is Err,
            },
        decreases old(self).remaining(), 2nat,
    {
        proof {
            lemma_scan_ends(self.source@, self.pos as int);
        }
        self.skip_whitespace();
        if self.at_where() {
            let mut i: usize = 0;
            while i < 5
                invariant
                    self.moved_on(*old(self)),
                    i <= 5,
                    self.pos + 5 - i <= self.source@.len(),
                    self.pos == ws_end(old(self).source@, old(self).pos as int) + i,
                decreases 5 - i,
            {
                self.fast_advance();
                i = i + 1;
            }
            self.parse_bracket_block()
        } else {
            let empty: Vec<StatementNode> = Vec::new();
            proof {
                assert(stmts_are(empty@, Seq::empty()));
            }
            Ok(empty)
        }
    }

    /// The text between two byte offsets, as characters `from..to`.
    fn text(&self, from: usize, to: usize) -> (s: String)
        requires
            self.wf(),
            from <= to <= self.source@.len(),
        ensures
            s@ == self.source@.subrange(from as int, to as int),
    {
        substring(&self.source, from, to)
    }

    /// A name between backticks, at the opening backtick: no letters,
    /// `)` or whitespace inside.
    fn parse_backticked(&mut self, start: usize) -> (r: Result<(String, usize), Diagnostics>)
        requires
            old(self).wf(),
            old(self).pos < old(self).source@.len(),
        ensures
            r matches Err(d) ==> d.origin == Origin::Parser,
            final(self).moved_on(*old(self)),
            final(self).pos > old(self).pos,
            ({
                let s = old(self).source@;
                let to = tick_end(s, old(self).pos + 1);
                if to == s.len() || s[to] == '`' {
                    r matches Ok((name, _)) && name@ == s.subrange(old(self).pos + 1, to) && final(self).pos == to
                } else {
                    r is Err
                }
            }),
    {
        self.fast_advance();
        let from = self.pos;
        proof {
            lemma_scan_ends(self.source@, from as int);
        }
        loop
            invariant
                self.moved_on(*old(self)),
                self.pos > old(self).pos,
                from == old(self).pos + 1,
                from <= self.pos,
                tick_end(self.source@, self.pos as int) == tick_end(self.source@, from as int),
            ensures
                self.moved_on(*old(self)),
                self.pos > old(self).pos,
                from <= self.pos,
                tick_end(self.source@, self.pos as int) == tick_end(self.source@, from as int),
                self.pos == self.source@.len() || self.source@[self.pos as int] == '`',
            decreases self.source@.len() - self.pos,
        {
            match self.peek() {
                Some(ch) => {
                    if ch == '`' {
                        break;
                    } else if ch == ')' || ident_start(ch) {
                        return Err(error(wrapped("unexpect character '", ch, "'"), start, self.current));
                    } else if is_whitespace(ch) {
                        return Err(error(owned("unexpect whitespace"), start, self.current));
                    } else {
                        self.fast_advance();
                    }
                },
                None => break,
            }
        }
        let to = self.pos;
        let name = self.text(from, to);
        Ok((name, to))
    }

    /// A primary expression.
    pub fn parse_primary_expression(&mut self) -> (r: Result<ExpressionNode, Diagnostics>)
        requires
            old(self).wf(),
        ensures
            r matches Err(d) ==> d.origin == Origin::Parser,
            final(self).moved_on(*old(self)),
            r is Ok ==> final(self).index() > old(self).index(),
            r matches Ok(node) ==> node.span.end == final(self).offset() && node.span.start >= old(self).offset(),
            match spec_primary(old(self).chars(), old(self).index()) {
                Some((m, j)) => r matches Ok(node) && expr_is(node, m) && final(self).index() == j,
                None => r is Err,
            },
        decreases old(self).remaining(), 0nat,
    {
        proof {
            lemma_scan_ends(self.source@, self.pos as int);
        }
        self.skip_whitespace();
        let ghost p = self.pos as int;
        match self.peek() {
            Some(first_char) => {
                let start = self.current;
                let expr = if ident_start(first_char) {
                    Expression::Variable { name: self.parse_identifier()? }
                } else if first_char == '\\' {
                    self.fast_advance();
                    let params = self.parse_params()?;
                    self.skip_whitespace();
                    self.expect('-')?;
                    self.expect('>')?;
                    let body = self.parse_expression()?;
                    Expression::Function { params, body: Box::new(body) }
                } else if first_char == '(' {
                    self.fast_advance();
                    let inner = self.parse_expression()?;
                    self.expect(')')?;
                    Expression::Group { inner: Box::new(inner) }
                } else if first_char == '`' {
                    let (name, _) = self.parse_backticked(start)?;
                    self.expect('`')?;
                    Expression::Variable { name }
                } else if first_char == '"' {
                    Expression::String(self.parse_string()?)
                } else if is_digit(first_char) {
                    Expression::Integer(self.parse_integer()?)
                } else {
                    return Err(
                        error(
                            concat(&wrapped("expect expression, got '", first_char, ""), "'"),
                            start,
                            self.current,
                        ),
                    );
                };
                Ok(ExpressionNode { kind: expr, span: Span::new(start, self.current) })
            },
            None => Err(error(owned("expect expression, got EOF"), self.current, self.current)),
        }
    }

    /// An expression: a primary, then applications by `$` and by infix
    /// operators, from the left.
    pub fn parse_expression(&mut self) -> (r: Result<ExpressionNode, Diagnostics>)
        requires
            old(self).wf(),
        ensures
            r matches Err(d) ==> d.origin == Origin::Parser,
            final(self).moved_on(*old(self)),
            r is Ok ==> final(self).index() > old(self).index(),
            match spec_expression(old(self).chars(), old(self).index()) {
                Some((m, j)) => r matches Ok(node) && expr_is(node, m) && final(self).index() == j,
                None => r is Err,
            },
        decreases old(self).remaining(), 1nat,
    {
        let start = self.current;
        let mut expression = self.parse_primary_expression()?;
        let ghost mut acc: PExpr = spec_primary(self.source@, old(self).pos as int).unwrap().0;
        loop
            invariant
                self.moved_on(*old(self)),
                self.pos > old(self).pos,
                start == old(self).current,
                expr_is(expression, acc),
                spec_expression(old(self).source@, old(self).pos as int) == spec_expression_tail(
                    self.source@,
                    self.pos as int,
                    acc,
                    start as int,
                ),
            decreases self.source@.len() - self.pos,
        {
            let ghost i = self.pos as int;
            proof {
                lemma_scan_ends(self.source@, i);
            }
            self.skip_whitespace();
            match self.peek() {
                Some(ch) => {
                    if ch == '$' {
                        self.fast_advance();
                        let ghost q = self.pos as int;
                        let arg = self.parse_primary_expression()?;
                        expression = ExpressionNode {
                            kind: Expression::Call { callee: Box::new(expression), arg: Box::new(arg) },
                            span: Span::new(start, self.current),
                        };
                        proof {
                            let arg_m = spec_primary(self.source@, q).unwrap().0;
                            acc = PExpr {
                                kind: PExprKind::Call(Box::new(acc), Box::new(arg_m)),
                                start: start as int,
                                end: self.current as int,
                            };
                        }
                    } else if ident_start(ch) || ch == '`' || ch == ')' {
                        return Ok(expression);
                    } else {
                        let infix_start = self.current;
                        let op_from = self.pos;
                        self.fast_advance();
                        proof {
                            lemma_scan_ends(self.source@, self.pos as int);
                        }
                        loop
                            invariant_except_break
                                op_end(self.source@, self.pos as int) == op_end(self.source@, op_from + 1),
                                expr_is(expression, acc),
                                spec_expression(old(self).source@, old(self).pos as int) == spec_expression_tail(
                                    self.source@,
                                    i,
                                    acc,
                                    start as int,
                                ),
                            invariant
                                self.moved_on(*old(self)),
                                self.pos > old(self).pos,
                                op_from < self.pos,
                                op_from as int == ws_end(self.source@, i),
                                i < op_from + 1,
                                i <= self.source@.len(),
                                op_from < self.source@.len(),
                                infix_start as int == byte_offset(self.source@, op_from as int),
                                start == old(self).current,
                                !(self.source@[op_from as int] == '$' || is_ident_start(self.source@[op_from as int])
                                    || self.source@[op_from as int] == '`' || self.source@[op_from as int] == ')'),
                            ensures
                                self.moved_on(*old(self)),
                                self.pos > old(self).pos,
                                start == old(self).current,
                                expr_is(expression, acc),
                                spec_expression(old(self).source@, old(self).pos as int) == spec_expression_tail(
                                    self.source@,
                                    self.pos as int,
                                    acc,
                                    start as int,
                                ),
                            decreases self.source@.len() - self.pos,
                        {
                            match self.peek() {
                                Some(c) => {
                                    if c == '`' {
                                        return Err(error(wrapped("unexpect '", c, "'"), infix_start, self.current));
                                    } else if is_whitespace(c) || ident_start(c) {
                                        let op_name = self.text(op_from, self.pos);
                                        let callee = ExpressionNode {
                                            kind: Expression::Variable { name: op_name },
                                            span: Span::new(infix_start, self.current),
                                        };
                                        let ghost k = self.pos as int;
                                        let ghost callee_m = pexpr(
                                            PExprKind::Variable(self.source@.subrange(op_from as int, k)),
                                            self.source@,
                                            op_from as int,
                                            k,
                                        );
                                        proof {
                                            assert(self.current as int == byte_offset(self.source@, k));
                                            assert(expr_is(callee, callee_m));
                                        }
                                        let partial = ExpressionNode {
                                            kind: Expression::Call {
                                                callee: Box::new(callee),
                                                arg: Box::new(expression),
                                            },
                                            span: Span::new(start, self.current),
                                        };
                                        let ghost partial_m = PExpr {
                                            kind: PExprKind::Call(Box::new(callee_m), Box::new(acc)),
                                            start: start as int,
                                            end: byte_offset(self.source@, k) as int,
                                        };
                                        let rhs = self.parse_primary_expression()?;
                                        expression = ExpressionNode {
                                            kind: Expression::Call { callee: Box::new(partial), arg: Box::new(rhs) },
                                            span: Span::new(start, self.current),
                                        };
                                        proof {
                                            let rhs_m = spec_primary(self.source@, k).unwrap().0;
                                            assert(expr_is(rhs, rhs_m));
                                            assert(expr_is(partial, partial_m));
                                            acc = PExpr {
                                                kind: PExprKind::Call(Box::new(partial_m), Box::new(rhs_m)),
                                                start: start as int,
                                                end: self.current as int,
                                            };
                                        }
                                        break;
                                    } else {
                                        self.fast_advance();
                                    }
                                },
                                None => {
                                    proof {
                                        assert(ws_end(self.source@, self.pos as int) == self.pos);
                                    }
                                    break;
                                },
                            }
                        }
                    }
                },
                None => {
                    return Ok(expression);
                },
            }
        }
    }

    /// A statement: a function, a variable, or an infix definition.
    pub fn parse_statement(&mut self) -> (r: Result<StatementNode, Diagnostics>)
        requires
            old(self).wf(),
        ensures
            r matches Err(d) ==> d.origin == Origin::Parser,
            final(self).moved_on(*old(self)),
            r is Ok ==> final(self).index() > old(self).index(),
            r matches Ok(node) ==> node.span.end == final(self).offset(),
            match spec_statement(old(self).chars(), old(self).index()) {
                Some((m, j)) => r matches Ok(node) && stmt_is(node, m) && final(self).index() == j,
                None => r is Err,
            },
        decreases old(self).remaining(), 0nat,
    {
        proof {
            lemma_scan_ends(self.source@, self.pos as int);
        }
        self.skip_whitespace();
        match self.peek() {
            Some(first_char) => {
                let start = self.current;
                let stat = if ident_start(first_char) {
                    let name = self.parse_identifier()?;
                    proof {
                        lemma_scan_ends(self.source@, self.pos as int);
                    }
                    self.skip_whitespace();
                    match self.peek() {
                        Some(second_char) => {
                            if ident_start(second_char) {
                                let params = self.parse_params()?;
                                self.expect('=')?;
                                let body = self.parse_expression()?;
                                let where_clause = self.parse_where()?;
                                Statement::Function { name, params, body, where_clause }
                            } else if second_char == '=' {
                                self.fast_advance();
                                let value = self.parse_expression()?;
                                let where_clause = self.parse_where()?;
                                Statement::Variable { name, value, where_clause }
                            } else {
                                return Err(
                                    error(concat(&wrapped("expect '=', got '", second_char, ""), "'"), start, self.current),
                                );
                            }
                        },
                        None => {
                            return Err(error(owned("expect '=', got EOF"), start, self.current));
                        },
                    }
                } else if first_char == '`' {
                    let (name, _) = self.parse_backticked(start)?;
                    self.expect('`')?;
                    proof {
                        lemma_scan_ends(self.source@, self.pos as int);
                    }
                    self.skip_whitespace();
                    let params = self.parse_params()?;
                    if params.len() != 2 {
                        return Err(error(owned("infix can has only 2 params"), start, self.current));
                    }
                    proof {
                        lemma_scan_ends(self.source@, self.pos as int);
                    }
                    self.skip_whitespace();
                    self.expect('=')?;
                    let body = self.parse_expression()?;
                    let where_clause = self.parse_where()?;
                    Statement::Function { name, params, body, where_clause }
                } else {
                    return Err(
                        error(concat(&wrapped("expect statement, got '", first_char, ""), "'"), start, self.current),
                    );
                };
                Ok(StatementNode { kind: stat, span: Span::new(start, self.current) })
            },
            None => Err(error(owned("expect statement, got EOF"), self.current, self.current)),
        }
    }

    /// All the statements of the source.
    pub fn parse(&mut self) -> (r: Result<Vec<StatementNode>, Diagnostics>)
        requires
            old(self).wf(),
        ensures
            r matches Err(d) ==> d.origin == Origin::Parser,
            final(self).moved_on(*old(self)),
            r is Ok ==> final(self).index() == final(self).chars().len(),
            match spec_statements(old(self).chars(), old(self).index(), Seq::empty()) {
                Some(ms) => r matches Ok(v) && stmts_are(v@, ms),
                None => r is Err,
            },
    {
        let mut stats: Vec<StatementNode> = Vec::new();
        let ghost mut ms: Seq<PStmt> = Seq::empty();
        while self.pos < self.source.len()
            invariant
                self.moved_on(*old(self)),
                stmts_are(stats@, ms),
                spec_statements(old(self).source@, old(self).pos as int, Seq::empty()) == spec_statements(
                    self.source@,
                    self.pos as int,
                    ms,
                ),
            decreases self.source@.len() - self.pos,
        {
            let ghost i = self.pos as int;
            let st = self.parse_statement()?;
            proof {
                let m = spec_statement(self.source@, i).unwrap().0;
                assert forall|k: int| 0 <= k < ms.push(m).len() implies stmt_is(
                    #[trigger] stats@.push(st)[k],
                    ms.push(m)[k],
                ) by {
                    if k < ms.len() {
                        assert(stats@.push(st)[k] == stats@[k]);
                    }
                }
                ms = ms.push(m);
                lemma_scan_ends(self.source@, self.pos as int);
            }
            stats.push(st);
            self.skip_whitespace();
        }
        Ok(stats)
    }
}

} // verus!
